//! The output formatter: renders `RETURN` templates against the variable
//! table, with dot-paths into JSON values.
use vstd::prelude::*;
use crate::lexicon::{ascii_ident_spec, is_token_char, is_valid_var_name, token_char_spec};
use crate::number::{decimal, decimal_chars};
use crate::text::{chars_of, is_word, replace_all, replace_chars, slice_range, string_of, trim, trim_spec};
use crate::value::{Json, Value};
use crate::vars::{lookup, VarTable};

verus! {

broadcast use vstd::std_specs::vec::axiom_vec_index_decreases;

/// How `serde_json` escapes one character of a string: `"` and `\`
/// get a backslash, the control characters below 0x20 a short escape
/// (`\b \t \n \f \r`) or `\u00XX` with lower-case hex; others stand.
pub open spec fn json_escape(c: char) -> Seq<char> {
    if c == '"' {
        seq!['\\', '"']
    } else if c == '\\' {
        seq!['\\', '\\']
    } else if c == '\u{8}' {
        seq!['\\', 'b']
    } else if c == '\t' {
        seq!['\\', 't']
    } else if c == '\n' {
        seq!['\\', 'n']
    } else if c == '\u{c}' {
        seq!['\\', 'f']
    } else if c == '\r' {
        seq!['\\', 'r']
    } else if (c as u32) < 0x20 {
        seq!['\\', 'u', '0', '0', crate::lexicon::hex_lower_digit((c as u32 / 16) as nat), crate::lexicon::hex_lower_digit((c as u32 % 16) as nat)]
    } else {
        seq![c]
    }
}

/// The characters escaped one by one.
pub open spec fn json_escaped(s: Seq<char>) -> Seq<char>
    decreases s.len(),
{
    if s.len() == 0 { Seq::empty() } else { json_escaped(s.drop_last()) + json_escape(s.last()) }
}

/// What `serde_json` writes for a JSON string holding these characters.
pub open spec fn json_quoted(s: Seq<char>) -> Seq<char> {
    seq!['"'] + json_escaped(s) + seq!['"']
}

/// Relies on `serde_json::to_string` of a string (`format_escaped_str` and
/// its `ESCAPE` table): the string in double quotes, each character escaped
/// as `json_escape` says.
#[verifier::external_body]
fn json_quote(s: &str) -> (r: String)
    ensures
        r@ == json_quoted(s@),
{
    serde_json::to_string(s).unwrap_or_default()
}

/// The texts joined with `sep` between them.
pub open spec fn join_with(ss: Seq<Seq<char>>, sep: char) -> Seq<char>
    decreases ss.len(),
{
    if ss.len() == 0 {
        Seq::empty()
    } else if ss.len() == 1 {
        ss[0]
    } else {
        join_with(ss.drop_last(), sep) + seq![sep] + ss.last()
    }
}

pub open spec fn int_text(n: int) -> Seq<char> {
    if n < 0 { seq!['-'] + decimal((-n) as nat) } else { decimal(n as nat) }
}

/// The compact JSON text of a value.
pub open spec fn json_text(j: Json) -> Seq<char>
    decreases j,
{
    match j {
        Json::Null => "null"@,
        Json::Bool(b) => if b { "true"@ } else { "false"@ },
        Json::UInt(n) => decimal(n),
        Json::Int(n) => int_text(n),
        Json::Float(t) => t,
        Json::Str(s) => json_quoted(s),
        Json::Array(items) => seq!['['] + join_with(json_items(items), ',') + seq![']'],
        Json::Object(fields) => seq!['{'] + join_with(json_fields(fields), ',') + seq!['}'],
    }
}

/// The JSON texts of array items.
pub open spec fn json_items(items: Seq<Json>) -> Seq<Seq<char>>
    decreases items,
{
    Seq::new(items.len(), |i: int| if 0 <= i < items.len() { json_text(items[i]) } else { Seq::empty() })
}

/// The JSON texts of object members, `"key":value`.
pub open spec fn json_fields(fields: Seq<(Seq<char>, Json)>) -> Seq<Seq<char>>
    decreases fields,
{
    Seq::new(
        fields.len(),
        |i: int|
            if 0 <= i < fields.len() {
                json_quoted(fields[i].0) + seq![':'] + json_text(fields[i].1)
            } else {
                Seq::empty()
            },
    )
}

/// The text a value gives in a rendered label: strings bare, everything
/// else as JSON.
pub open spec fn label_text(j: Json) -> Seq<char> {
    match j {
        Json::Str(s) => s,
        _ => json_text(j),
    }
}

fn push_all(out: &mut Vec<char>, s: &str)
    ensures
        final(out)@ == old(out)@ + s@,
{
    let c = chars_of(s);
    out.extend_from_slice(c.as_slice());
}

fn int_chars(n: i64) -> (r: Vec<char>)
    ensures
        r@ == int_text(n as int),
{
    if n < 0 {
        let m: u64 = ((-(n + 1)) as u64) + 1;
        let mut out: Vec<char> = vec!['-'];
        let d = decimal_chars(m);
        out.extend_from_slice(d.as_slice());
        proof {
            assert(out@ =~= seq!['-'] + decimal((-n) as nat));
        }
        out
    } else {
        decimal_chars(n as u64)
    }
}

/// Writes the compact JSON text of a value.
pub fn json_chars(v: &Value) -> (r: Vec<char>)
    ensures
        r@ == json_text(v.model()),
    decreases v,
{
    match v {
        Value::Null => chars_of("null"),
        Value::Bool(b) => if *b { chars_of("true") } else { chars_of("false") },
        Value::UInt(n) => decimal_chars(*n),
        Value::Int(n) => int_chars(*n),
        Value::Float(t) => chars_of(t.as_str()),
        Value::Str(s) => chars_of(json_quote(s.as_str()).as_str()),
        Value::Array(a) => {
            let mut out: Vec<char> = vec!['['];
            let ghost parts = Seq::new(a@.len(), |i: int| if 0 <= i < a@.len() { json_text(a@[i].model()) } else { Seq::empty() });
            let mut i: usize = 0;
            while i < a.len()
                invariant
                    *v == Value::Array(*a),
                    parts == Seq::new(a@.len(), |i: int| if 0 <= i < a@.len() { json_text(a@[i].model()) } else { Seq::empty() }),
                    i <= a@.len(),
                    out@ == seq!['['] + join_with(parts.subrange(0, i as int), ','),
                decreases a.len() - i,
            {
                proof {
                    assert(decreases_to!(*v => (*v)->Array_0));
                    let av = *a;
                    assert(decreases_to!(av => av[i as int]));
                    assert(parts.subrange(0, i + 1).drop_last() =~= parts.subrange(0, i as int));
                }
                if i > 0 {
                    out.push(',');
                }
                let t = json_chars(&a[i]);
                out.extend_from_slice(t.as_slice());
                proof {
                    if i == 0 {
                        assert(out@ =~= seq!['['] + join_with(parts.subrange(0, 1), ','));
                    } else {
                        assert(out@ =~= seq!['['] + join_with(parts.subrange(0, i + 1), ','));
                    }
                }
                i = i + 1;
            }
            out.push(']');
            proof {
                assert(parts.subrange(0, a@.len() as int) =~= parts);
                let items = v.model()->Array_0;
                assert(json_items(items) =~= parts);
                assert(out@ =~= json_text(v.model()));
            }
            out
        },
        Value::Object(o) => {
            let mut out: Vec<char> = vec!['{'];
            let ghost parts = Seq::new(
                o@.len(),
                |i: int|
                    if 0 <= i < o@.len() {
                        json_quoted(o@[i].0@) + seq![':'] + json_text(o@[i].1.model())
                    } else {
                        Seq::empty()
                    },
            );
            let mut i: usize = 0;
            while i < o.len()
                invariant
                    *v == Value::Object(*o),
                    parts == Seq::new(
                        o@.len(),
                        |i: int|
                            if 0 <= i < o@.len() {
                                json_quoted(o@[i].0@) + seq![':'] + json_text(o@[i].1.model())
                            } else {
                                Seq::empty()
                            },
                    ),
                    i <= o@.len(),
                    out@ == seq!['{'] + join_with(parts.subrange(0, i as int), ','),
                decreases o.len() - i,
            {
                proof {
                    assert(decreases_to!(*v => (*v)->Object_0));
                    let ov = *o;
                    assert(decreases_to!(ov => ov[i as int]));
                    assert(parts.subrange(0, i + 1).drop_last() =~= parts.subrange(0, i as int));
                }
                if i > 0 {
                    out.push(',');
                }
                let k = chars_of(json_quote(o[i].0.as_str()).as_str());
                out.extend_from_slice(k.as_slice());
                out.push(':');
                let t = json_chars(&o[i].1);
                out.extend_from_slice(t.as_slice());
                proof {
                    if i == 0 {
                        assert(out@ =~= seq!['{'] + join_with(parts.subrange(0, 1), ','));
                    } else {
                        assert(out@ =~= seq!['{'] + join_with(parts.subrange(0, i + 1), ','));
                    }
                }
                i = i + 1;
            }
            out.push('}');
            proof {
                assert(parts.subrange(0, o@.len() as int) =~= parts);
                let fields = v.model()->Object_0;
                assert(json_fields(fields) =~= parts);
                assert(out@ =~= json_text(v.model()));
            }
            out
        },
    }
}

/// Writes the text of a value in a label.
pub fn value_to_string(v: &Value) -> (r: Vec<char>)
    ensures
        r@ == label_text(v.model()),
{
    match v {
        Value::Str(s) => chars_of(s.as_str()),
        _ => json_chars(v),
    }
}

} // verus!

verus! {

/// `s` split at each `.`, as `str::split('.')` gives it.
pub open spec fn split_dots(s: Seq<char>) -> Seq<Seq<char>>
    decreases s.len(),
{
    let i = crate::lexicon::find_from(s, '.', 0);
    if 0 <= i < s.len() {
        seq![s.subrange(0, i)] + split_dots(s.subrange(i + 1, s.len() as int))
    } else {
        seq![s]
    }
}

fn split_dots_exec(s: &[char]) -> (r: Vec<Vec<char>>)
    ensures
        r@.map_values(|x: Vec<char>| x@) == split_dots(s@),
{
    let n = s.len();
    let mut out: Vec<Vec<char>> = Vec::new();
    let mut start: usize = 0;
    let mut i: usize = 0;
    proof {
        assert(s@.subrange(0, n as int) =~= s@);
        assert(out@.map_values(|x: Vec<char>| x@) + split_dots(s@) =~= split_dots(s@));
    }
    while i < n
        invariant
            n == s@.len(),
            start <= i <= n,
            forall|k: int| start <= k < i ==> s@[k] != '.',
            out@.map_values(|x: Vec<char>| x@) + split_dots(s@.subrange(start as int, n as int)) == split_dots(s@),
        decreases n - i,
    {
        if s[i] == '.' {
            let seg = slice_range(s, start, i);
            proof {
                let rest = s@.subrange(start as int, n as int);
                crate::lexicon::lemma_find_from(rest, '.', 0);
                assert(crate::lexicon::find_from(rest, '.', 0) == i - start) by {
                    lemma_find_first(rest, '.', i - start);
                }
                assert(rest.subrange(0, i - start) =~= seg@);
                assert(rest.subrange(i - start + 1, rest.len() as int) =~= s@.subrange(i + 1, n as int));
                let before = out@.map_values(|x: Vec<char>| x@);
                assert(out@.push(seg).map_values(|x: Vec<char>| x@) =~= before.push(seg@));
                assert(before.push(seg@) + split_dots(s@.subrange(i + 1, n as int)) =~= before + split_dots(rest));
            }
            out.push(seg);
            start = i + 1;
        }
        i = i + 1;
    }
    let seg = slice_range(s, start, n);
    proof {
        let rest = s@.subrange(start as int, n as int);
        crate::lexicon::lemma_find_from(rest, '.', 0);
        assert(crate::lexicon::find_from(rest, '.', 0) == -1) by {
            lemma_find_none(rest, '.');
        }
        let before = out@.map_values(|x: Vec<char>| x@);
        assert(out@.push(seg).map_values(|x: Vec<char>| x@) =~= before.push(seg@));
        assert(before.push(seg@) =~= before + split_dots(rest));
    }
    out.push(seg);
    out
}

proof fn lemma_find_first(s: Seq<char>, c: char, k: int)
    requires
        0 <= k < s.len(),
        s[k] == c,
        forall|j: int| 0 <= j < k ==> s[j] != c,
    ensures
        crate::lexicon::find_from(s, c, 0) == k,
{
    lemma_find_first_from(s, c, 0, k);
}

proof fn lemma_find_first_from(s: Seq<char>, c: char, f: int, k: int)
    requires
        0 <= f <= k < s.len(),
        s[k] == c,
        forall|j: int| f <= j < k ==> s[j] != c,
    ensures
        crate::lexicon::find_from(s, c, f) == k,
    decreases k - f,
{
    if f < k {
        lemma_find_first_from(s, c, f + 1, k);
    }
}

proof fn lemma_find_none(s: Seq<char>, c: char)
    requires
        forall|j: int| 0 <= j < s.len() ==> s[j] != c,
    ensures
        crate::lexicon::find_from(s, c, 0) == -1,
{
    lemma_find_none_from(s, c, 0);
}

proof fn lemma_find_none_from(s: Seq<char>, c: char, f: int)
    requires
        0 <= f,
        forall|j: int| f <= j < s.len() ==> s[j] != c,
    ensures
        crate::lexicon::find_from(s, c, f) == -1,
    decreases s.len() - f,
{
    if f < s.len() {
        lemma_find_none_from(s, c, f + 1);
    }
}

/// The member of an object with key `k` (the first, should there be two).
pub open spec fn field_get(fs: Seq<(Seq<char>, Json)>, k: Seq<char>) -> Option<Json>
    decreases fs.len(),
{
    if fs.len() == 0 {
        None
    } else if fs[0].0 == k {
        Some(fs[0].1)
    } else {
        field_get(fs.drop_first(), k)
    }
}

/// Following the segments from a value: each selects a member of an object.
pub open spec fn walk(j: Option<Json>, segs: Seq<Seq<char>>) -> Option<Json>
    decreases segs.len(),
{
    if segs.len() == 0 {
        j
    } else {
        let up = walk(j, segs.drop_last());
        match up {
            Some(Json::Object(fs)) => field_get(fs, segs.last()),
            _ => None,
        }
    }
}

/// A dot-path's value: the first segment names a variable, each further
/// segment a member of a JSON object.
pub open spec fn resolve_path(e: Seq<(Seq<char>, Json)>, path: Seq<char>) -> Option<Json> {
    let segs = split_dots(path);
    walk(lookup(e, segs[0]), segs.subrange(1, segs.len() as int))
}

/// The label text of a dot-path's value.
pub open spec fn path_text(e: Seq<(Seq<char>, Json)>, path: Seq<char>) -> Option<Seq<char>> {
    match resolve_path(e, path) {
        Some(j) => Some(label_text(j)),
        None => None,
    }
}

proof fn lemma_split_dots_nonempty(s: Seq<char>)
    ensures
        split_dots(s).len() >= 1,
    decreases s.len(),
{
    let i = crate::lexicon::find_from(s, '.', 0);
    if 0 <= i < s.len() {
        lemma_split_dots_nonempty(s.subrange(i + 1, s.len() as int));
    }
}

fn field_get_exec<'a>(fs: &'a Vec<(String, Value)>, k: &[char]) -> (r: Option<&'a Value>)
    ensures
        match field_get(fs@.map_values(|f: (String, Value)| (f.0@, f.1.model())), k@) {
            Some(j) => r matches Some(v) && v.model() == j,
            None => r.is_none(),
        },
{
    let ghost fv = fs@.map_values(|f: (String, Value)| (f.0@, f.1.model()));
    let mut i: usize = 0;
    proof {
        assert(fv.subrange(0, fv.len() as int) =~= fv);
    }
    while i < fs.len()
        invariant
            fv == fs@.map_values(|f: (String, Value)| (f.0@, f.1.model())),
            i <= fs@.len(),
            field_get(fv.subrange(i as int, fv.len() as int), k@) == field_get(fv, k@),
        decreases fs.len() - i,
    {
        let key = chars_of(fs[i].0.as_str());
        proof {
            assert(fv.subrange(i as int, fv.len() as int).drop_first() =~= fv.subrange(i + 1, fv.len() as int));
            assert(fv.subrange(i as int, fv.len() as int)[0] == fv[i as int]);
        }
        if crate::text::chars_eq(key.as_slice(), k) {
            return Some(&fs[i].1);
        }
        i = i + 1;
    }
    None
}

/// Resolves a dot-path against the table.
pub fn resolve_var_path(path: &[char], vars: &VarTable) -> (r: Option<Vec<char>>)
    ensures
        match path_text(vars.entries(), path@) {
            Some(t) => r matches Some(x) && x@ == t,
            None => r.is_none(),
        },
{
    let segs = split_dots_exec(path);
    let ghost sv = segs@.map_values(|x: Vec<char>| x@);
    proof {
        lemma_split_dots_nonempty(path@);
        assert(sv[0] == segs@[0]@);
    }
    let first = string_of(segs[0].as_slice());
    let mut cur: Option<&Value> = vars.get(first.as_str());
    let mut i: usize = 1;
    proof {
        assert(sv.subrange(1, 1) =~= Seq::<Seq<char>>::empty());
    }
    while i < segs.len()
        invariant
            sv == segs@.map_values(|x: Vec<char>| x@),
            sv.len() >= 1,
            1 <= i <= segs@.len(),
            match walk(lookup(vars.entries(), sv[0]), sv.subrange(1, i as int)) {
                Some(j) => cur matches Some(v) && v.model() == j,
                None => cur.is_none(),
            },
        decreases segs.len() - i,
    {
        proof {
            assert(sv.subrange(1, i + 1).drop_last() =~= sv.subrange(1, i as int));
            assert(sv.subrange(1, i + 1).last() == segs@[i as int]@);
        }
        cur = match cur {
            Some(Value::Object(fs)) => {
                proof {
                    assert(Value::Object(*fs).model()->Object_0 =~= fs@.map_values(|f: (String, Value)| (f.0@, f.1.model())));
                }
                field_get_exec(fs, segs[i].as_slice())
            },
            _ => None,
        };
        i = i + 1;
    }
    proof {
        assert(sv.subrange(1, segs@.len() as int) =~= sv.subrange(1, sv.len() as int));
    }
    match cur {
        Some(v) => Some(value_to_string(v)),
        None => None,
    }
}

} // verus!

verus! {

/// The value of a reserved word, else the token's path value, else the
/// token itself.
pub open spec fn token_spec(tok: Seq<char>, e: Seq<(Seq<char>, Json)>, addr: Seq<char>, port: u16) -> Seq<char> {
    if tok == "HOST_LEN"@ || tok == "IP_LEN"@ {
        decimal(vstd::utf8::encode_utf8(addr).len())
    } else if tok == "HOST"@ || tok == "IP"@ {
        addr
    } else if tok == "PORT"@ {
        decimal(port as nat)
    } else {
        match path_text(e, tok) {
            Some(t) => t,
            None => tok,
        }
    }
}

/// What a template token becomes: a variable or dot-path is resolved, a
/// reserved word takes the endpoint's value, anything else stays.
pub open spec fn subst_spec(tok: Seq<char>, e: Seq<(Seq<char>, Json)>, addr: Seq<char>, port: u16) -> Seq<char> {
    if ascii_ident_spec(tok) || tok.contains('.') {
        match path_text(e, tok) {
            Some(t) => t,
            None => token_spec(tok, e, addr, port),
        }
    } else {
        tok
    }
}

/// Number of leading token characters of `s`.
pub open spec fn token_len(s: Seq<char>) -> nat
    decreases s.len(),
{
    if s.len() > 0 && token_char_spec(s[0]) {
        1 + token_len(s.drop_first())
    } else {
        0
    }
}

proof fn lemma_token_len(s: Seq<char>, k: int)
    requires
        0 <= k <= s.len(),
        forall|i: int| 0 <= i < k ==> token_char_spec(#[trigger] s[i]),
        k < s.len() ==> !token_char_spec(s[k]),
    ensures
        token_len(s) == k,
    decreases s.len(),
{
    if k > 0 {
        let t = s.drop_first();
        assert forall|i: int| 0 <= i < k - 1 implies token_char_spec(#[trigger] t[i]) by {
            assert(t[i] == s[i + 1]);
        }
        if k - 1 < t.len() {
            assert(t[k - 1] == s[k]);
        }
        lemma_token_len(t, k - 1);
    }
}

proof fn lemma_token_len_bound(s: Seq<char>)
    ensures
        token_len(s) <= s.len(),
    decreases s.len(),
{
    if s.len() > 0 && token_char_spec(s[0]) {
        lemma_token_len_bound(s.drop_first());
    }
}

/// The template with each maximal run of token characters substituted
/// (except a label key, a token directly followed by `=`) and every other
/// character copied.
pub open spec fn render_spec(t: Seq<char>, e: Seq<(Seq<char>, Json)>, addr: Seq<char>, port: u16) -> Seq<char>
    decreases t.len(),
{
    if t.len() == 0 {
        Seq::empty()
    } else {
        let k = token_len(t);
        if k == 0 {
            seq![t[0]] + render_spec(t.drop_first(), e, addr, port)
        } else if k <= t.len() {
            (if k < t.len() && t[k as int] == '=' {
                t.subrange(0, k as int)
            } else {
                subst_spec(t.subrange(0, k as int), e, addr, port)
            }) + render_spec(
                t.subrange(k as int, t.len() as int),
                e,
                addr,
                port,
            )
        } else {
            Seq::empty()
        }
    }
}

/// Whether the text is wrapped in a matching pair of single or double quotes.
pub open spec fn wrapped_in_quotes(t: Seq<char>) -> bool {
    t.len() >= 2 && ((t[0] == '"' && t.last() == '"') || (t[0] == '\'' && t.last() == '\''))
}

/// The line that a `RETURN` template renders to.
pub open spec fn format_return_spec(
    template: Seq<char>,
    e: Seq<(Seq<char>, Json)>,
    addr: Seq<char>,
    port: u16,
    msg: Seq<char>,
) -> Seq<char> {
    let t1 = replace_all(replace_all(template, "<ERROR REASON>"@, msg), "ERROR"@, msg);
    let t2 = trim_spec(t1);
    let quoted = wrapped_in_quotes(t2);
    let t3 = if quoted { t2.subrange(1, t2.len() - 1) } else { t2 };
    if ascii_ident_spec(t3) && path_text(e, t3) is Some {
        t3 + seq!['=', '"'] + path_text(e, t3)->0 + seq!['"']
    } else {
        let body = render_spec(t3, e, addr, port);
        if quoted { seq!['"'] + body + seq!['"'] } else { body }
    }
}

fn contains_dot(s: &[char]) -> (r: bool)
    ensures
        r == s@.contains('.'),
{
    let mut i: usize = 0;
    while i < s.len()
        invariant
            i <= s@.len(),
            forall|k: int| 0 <= k < i ==> s@[k] != '.',
        decreases s.len() - i,
    {
        if s[i] == '.' {
            proof {
                assert(s@[i as int] == '.');
            }
            return true;
        }
        i = i + 1;
    }
    false
}

fn resolve_token(tok: &[char], vars: &VarTable, address: &String, port: u16) -> (r: Vec<char>)
    ensures
        r@ == token_spec(tok@, vars.entries(), address@, port),
{
    if is_word(tok, "HOST_LEN") || is_word(tok, "IP_LEN") {
        let n = address.as_str().as_bytes().len();
        decimal_chars(n as u64)
    } else if is_word(tok, "HOST") || is_word(tok, "IP") {
        chars_of(address.as_str())
    } else if is_word(tok, "PORT") {
        decimal_chars(port as u64)
    } else {
        match resolve_var_path(tok, vars) {
            Some(t) => t,
            None => slice_range(tok, 0, tok.len()),
        }
    }
}

fn substitute(tok: &[char], vars: &VarTable, address: &String, port: u16) -> (r: Vec<char>)
    ensures
        r@ == subst_spec(tok@, vars.entries(), address@, port),
{
    if is_valid_var_name(tok) || contains_dot(tok) {
        match resolve_var_path(tok, vars) {
            Some(t) => t,
            None => resolve_token(tok, vars, address, port),
        }
    } else {
        slice_range(tok, 0, tok.len())
    }
}

fn render(t: &[char], vars: &VarTable, address: &String, port: u16) -> (r: Vec<char>)
    ensures
        r@ == render_spec(t@, vars.entries(), address@, port),
{
    let n = t.len();
    let mut out: Vec<char> = Vec::new();
    let mut i: usize = 0;
    proof {
        assert(t@.subrange(0, n as int) =~= t@);
    }
    while i < n
        invariant
            n == t@.len(),
            i <= n,
            out@ + render_spec(t@.subrange(i as int, n as int), vars.entries(), address@, port)
                == render_spec(t@, vars.entries(), address@, port),
        decreases n - i,
    {
        let ghost rest = t@.subrange(i as int, n as int);
        if !is_token_char(t[i]) {
            proof {
                assert(rest[0] == t@[i as int]);
                lemma_token_len(rest, 0);
                assert(rest.drop_first() =~= t@.subrange(i + 1, n as int));
            }
            out.push(t[i]);
            i = i + 1;
        } else {
            let start = i;
            while i < n && is_token_char(t[i])
                invariant
                    start <= i <= n == t@.len(),
                    forall|k: int| start <= k < i ==> token_char_spec(#[trigger] t@[k]),
                decreases n - i,
            {
                i = i + 1;
            }
            let tok = slice_range(t, start, i);
            let s = if i < n && t[i] == '=' {
                slice_range(tok.as_slice(), 0, tok.len())
            } else {
                substitute(tok.as_slice(), vars, address, port)
            };
            proof {
                assert forall|k: int| 0 <= k < i - start implies token_char_spec(#[trigger] rest[k]) by {
                    assert(rest[k] == t@[start + k]);
                }
                if i < n {
                    assert(rest[i - start] == t@[i as int]);
                }
                lemma_token_len(rest, i - start);
                assert(rest.subrange(0, i - start) =~= tok@);
                assert(rest.subrange(i - start, rest.len() as int) =~= t@.subrange(i as int, n as int));
                if i < n {
                    assert(rest[i - start] == t@[i as int]);
                }
            }
            out.extend_from_slice(s.as_slice());
        }
    }
    proof {
        assert(t@.subrange(n as int, n as int) =~= Seq::<char>::empty());
        assert(out@ + Seq::<char>::empty() =~= out@);
    }
    out
}

/// Renders a `RETURN` template: error placeholders first, then an outer
/// pair of quotes noted and removed, then either `name="value"` for a bare
/// variable or token-by-token substitution.
pub fn format_return(
    template: &String,
    vars: &VarTable,
    address: &String,
    port: u16,
    error: Option<&String>,
) -> (r: String)
    ensures
        r@ == format_return_spec(
            template@,
            vars.entries(),
            address@,
            port,
            match error {
                Some(m) => m@,
                None => Seq::empty(),
            },
        ),
{
    let msg: Vec<char> = match error {
        Some(m) => chars_of(m.as_str()),
        None => Vec::new(),
    };
    let t0 = chars_of(template.as_str());
    let t1a = replace_chars(t0.as_slice(), chars_of("<ERROR REASON>").as_slice(), msg.as_slice());
    let t1 = replace_chars(t1a.as_slice(), chars_of("ERROR").as_slice(), msg.as_slice());
    let t2 = trim(t1.as_slice());
    let n = t2.len();
    let quoted = n >= 2 && ((t2[0] == '"' && t2[n - 1] == '"') || (t2[0] == '\'' && t2[n - 1] == '\''));
    let t3 = if quoted { slice_range(t2.as_slice(), 1, n - 1) } else { t2 };
    if is_valid_var_name(t3.as_slice()) {
        match resolve_var_path(t3.as_slice(), vars) {
            Some(v) => {
                let mut out = t3;
                out.push('=');
                out.push('"');
                out.extend_from_slice(v.as_slice());
                out.push('"');
                return string_of(out.as_slice());
            },
            None => {},
        }
    }
    let body = render(t3.as_slice(), vars, address, port);
    if quoted {
        let mut out: Vec<char> = vec!['"'];
        out.extend_from_slice(body.as_slice());
        out.push('"');
        proof {
            assert(out@ =~= seq!['"'] + body@ + seq!['"']);
        }
        string_of(out.as_slice())
    } else {
        string_of(body.as_slice())
    }
}

} // verus!

verus! {

use crate::packet_parser::{OCmd, OutputBlock, OutputCommand, OutputStatus};

/// Parsed JSON documents, each with the text it was parsed from; `None`
/// where the text is not JSON.
pub struct JsonDocs {
    pub docs: Vec<(String, Option<Value>)>,
}

pub open spec fn docs_view(d: Seq<(String, Option<Value>)>) -> Seq<(Seq<char>, Option<Json>)> {
    d.map_values(
        |x: (String, Option<Value>)|
            (
                x.0@,
                match x.1 {
                    Some(v) => Some(v.model()),
                    None => None,
                },
            ),
    )
}

/// The parse of `text` among the documents (the first with that text):
/// `None` when absent, `Some(None)` when it is not JSON.
pub open spec fn doc_for(d: Seq<(Seq<char>, Option<Json>)>, text: Seq<char>) -> Option<Option<Json>>
    decreases d.len(),
{
    if d.len() == 0 {
        None
    } else if d[0].0 == text {
        Some(d[0].1)
    } else {
        doc_for(d.drop_first(), text)
    }
}

/// `JSON_OUTPUT v`: a string value is replaced by its parse; other values
/// stay; a string that is not JSON fails the block.
pub open spec fn json_output_spec(e: Seq<(Seq<char>, Json)>, v: Seq<char>, d: Seq<(Seq<char>, Option<Json>)>) -> Option<Seq<(Seq<char>, Json)>> {
    match lookup(e, v) {
        Some(Json::Str(text)) => match doc_for(d, text) {
            Some(Some(j)) => Some(crate::vars::insert_entry(e, v, j)),
            _ => None,
        },
        _ => Some(e),
    }
}

/// Running a block's commands: the lines rendered and the table after, or
/// `None` when a `JSON_OUTPUT` fails.
pub open spec fn block_spec(
    cs: Seq<OCmd>,
    e: Seq<(Seq<char>, Json)>,
    d: Seq<(Seq<char>, Option<Json>)>,
    addr: Seq<char>,
    port: u16,
    msg: Seq<char>,
) -> Option<(Seq<Seq<char>>, Seq<(Seq<char>, Json)>)>
    decreases cs.len(),
{
    if cs.len() == 0 {
        Some((Seq::empty(), e))
    } else {
        match block_spec(cs.drop_last(), e, d, addr, port, msg) {
            None => None,
            Some((ls, e2)) => match cs.last() {
                OCmd::JsonOutput(v) => match json_output_spec(e2, v, d) {
                    Some(e3) => Some((ls, e3)),
                    None => None,
                },
                OCmd::Return(t) => Some((ls.push(format_return_spec(t, e2, addr, port, msg)), e2)),
            },
        }
    }
}

fn find_doc<'a>(docs: &'a JsonDocs, text: &String) -> (r: Option<&'a Option<Value>>)
    ensures
        match doc_for(docs_view(docs.docs@), text@) {
            None => r.is_none(),
            Some(None) => r matches Some(x) && x.is_none(),
            Some(Some(j)) => r matches Some(x) && x matches Some(v) && v.model() == j,
        },
{
    let ghost dv = docs_view(docs.docs@);
    let t = chars_of(text.as_str());
    let mut i: usize = 0;
    proof {
        assert(dv.subrange(0, dv.len() as int) =~= dv);
    }
    while i < docs.docs.len()
        invariant
            dv == docs_view(docs.docs@),
            t@ == text@,
            i <= dv.len(),
            doc_for(dv.subrange(i as int, dv.len() as int), text@) == doc_for(dv, text@),
        decreases docs.docs.len() - i,
    {
        proof {
            assert(dv.subrange(i as int, dv.len() as int).drop_first() =~= dv.subrange(i + 1, dv.len() as int));
            assert(dv.subrange(i as int, dv.len() as int)[0] == dv[i as int]);
        }
        let k = chars_of(docs.docs[i].0.as_str());
        if crate::text::chars_eq(k.as_slice(), t.as_slice()) {
            return Some(&docs.docs[i].1);
        }
        i = i + 1;
    }
    None
}

/// Applies `JSON_OUTPUT v`; `false` when the text is not JSON.
pub fn handle_json_output(var: &String, vars: &mut VarTable, docs: &JsonDocs) -> (r: bool)
    ensures
        match json_output_spec(old(vars).entries(), var@, docs_view(docs.docs@)) {
            Some(e) => r && final(vars).entries() == e,
            None => !r,
        },
{
    let parsed: Option<Value> = match vars.get(var.as_str()) {
        Some(Value::Str(text)) => match find_doc(docs, text) {
            Some(Some(v)) => Some(v.deep_clone()),
            _ => {
                return false;
            },
        },
        _ => None,
    };
    match parsed {
        Some(v) => {
            vars.insert(var.clone(), v);
            true
        },
        None => true,
    }
}

/// Runs one output block: the lines its `RETURN`s render, or `None` when a
/// `JSON_OUTPUT` fails.
pub fn evaluate_output_block(
    block: &OutputBlock,
    vars: &mut VarTable,
    docs: &JsonDocs,
    address: &String,
    port: u16,
    error: Option<&String>,
) -> (r: Option<Vec<String>>)
    ensures
        match block_spec(
            block.commands@.map_values(|c: OutputCommand| c.view()),
            old(vars).entries(),
            docs_view(docs.docs@),
            address@,
            port,
            match error {
                Some(m) => m@,
                None => Seq::empty(),
            },
        ) {
            Some((ls, e)) => r matches Some(v) && v@.map_values(|s: String| s@) == ls && final(vars).entries() == e,
            None => r.is_none(),
        },
{
    let ghost cv = block.commands@.map_values(|c: OutputCommand| c.view());
    let ghost msg = match error {
        Some(m) => m@,
        None => Seq::<char>::empty(),
    };
    let mut out: Vec<String> = Vec::new();
    let mut i: usize = 0;
    proof {
        assert(cv.subrange(0, 0) =~= Seq::<OCmd>::empty());
        assert(out@.map_values(|s: String| s@) =~= Seq::<Seq<char>>::empty());
    }
    while i < block.commands.len()
        invariant
            cv == block.commands@.map_values(|c: OutputCommand| c.view()),
            msg == (match error {
                Some(m) => m@,
                None => Seq::<char>::empty(),
            }),
            i <= cv.len(),
            block_spec(cv.subrange(0, i as int), old(vars).entries(), docs_view(docs.docs@), address@, port, msg)
                == Some((out@.map_values(|s: String| s@), vars.entries())),
        decreases block.commands.len() - i,
    {
        proof {
            assert(cv.subrange(0, i + 1).drop_last() =~= cv.subrange(0, i as int));
            assert(cv.subrange(0, i + 1).last() == block.commands@[i as int].view());
        }
        match &block.commands[i] {
            OutputCommand::JsonOutput(v) => {
                if !handle_json_output(v, vars, docs) {
                    proof {
                        lemma_block_none(cv, old(vars).entries(), docs_view(docs.docs@), address@, port, msg, i as int + 1);
                    }
                    return None;
                }
            },
            OutputCommand::Return(t) => {
                let line = format_return(t, vars, address, port, error);
                let ghost before = out@;
                out.push(line);
                proof {
                    assert(out@.map_values(|s: String| s@) =~= before.map_values(|s: String| s@).push(line@));
                }
            },
        }
        i = i + 1;
    }
    proof {
        assert(cv.subrange(0, cv.len() as int) =~= cv);
    }
    Some(out)
}

proof fn lemma_block_none(
    cs: Seq<OCmd>,
    e: Seq<(Seq<char>, Json)>,
    d: Seq<(Seq<char>, Option<Json>)>,
    addr: Seq<char>,
    port: u16,
    msg: Seq<char>,
    i: int,
)
    requires
        0 <= i <= cs.len(),
        block_spec(cs.subrange(0, i), e, d, addr, port, msg) is None,
    ensures
        block_spec(cs, e, d, addr, port, msg) is None,
    decreases cs.len() - i,
{
    if i < cs.len() {
        assert(cs.subrange(0, i + 1).drop_last() =~= cs.subrange(0, i));
        lemma_block_none(cs, e, d, addr, port, msg, i + 1);
    } else {
        assert(cs.subrange(0, i) =~= cs);
    }
}

/// The blocks with the given tag, run in order over one table: all their
/// lines, or `None` when one of them fails.
pub open spec fn blocks_spec(
    bs: Seq<(OutputStatus, Seq<OCmd>)>,
    status: OutputStatus,
    e: Seq<(Seq<char>, Json)>,
    d: Seq<(Seq<char>, Option<Json>)>,
    addr: Seq<char>,
    port: u16,
    msg: Seq<char>,
) -> Option<(Seq<Seq<char>>, Seq<(Seq<char>, Json)>)>
    decreases bs.len(),
{
    if bs.len() == 0 {
        Some((Seq::empty(), e))
    } else {
        match blocks_spec(bs.drop_last(), status, e, d, addr, port, msg) {
            None => None,
            Some((ls, e2)) => if bs.last().0 == status {
                match block_spec(bs.last().1, e2, d, addr, port, msg) {
                    Some((ls2, e3)) => Some((ls + ls2, e3)),
                    None => None,
                }
            } else {
                Some((ls, e2))
            },
        }
    }
}

pub open spec fn blocks_view(bs: Seq<OutputBlock>) -> Seq<(OutputStatus, Seq<OCmd>)> {
    bs.map_values(|b: OutputBlock| (b.status, b.commands@.map_values(|c: OutputCommand| c.view())))
}

/// Runs the output blocks with the given tag, in order.
pub fn process_output_blocks(
    blocks: &Vec<OutputBlock>,
    status: OutputStatus,
    vars: &mut VarTable,
    docs: &JsonDocs,
    address: &String,
    port: u16,
    error: Option<&String>,
) -> (r: Option<Vec<String>>)
    ensures
        match blocks_spec(
            blocks_view(blocks@),
            status,
            old(vars).entries(),
            docs_view(docs.docs@),
            address@,
            port,
            match error {
                Some(m) => m@,
                None => Seq::empty(),
            },
        ) {
            Some((ls, e)) => r matches Some(v) && v@.map_values(|s: String| s@) == ls && final(vars).entries() == e,
            None => r.is_none(),
        },
{
    let ghost bv = blocks_view(blocks@);
    let ghost msg = match error {
        Some(m) => m@,
        None => Seq::<char>::empty(),
    };
    let mut out: Vec<String> = Vec::new();
    let mut i: usize = 0;
    proof {
        assert(bv.subrange(0, 0) =~= Seq::<(OutputStatus, Seq<OCmd>)>::empty());
        assert(out@.map_values(|s: String| s@) =~= Seq::<Seq<char>>::empty());
    }
    while i < blocks.len()
        invariant
            bv == blocks_view(blocks@),
            msg == (match error {
                Some(m) => m@,
                None => Seq::<char>::empty(),
            }),
            i <= bv.len(),
            blocks_spec(bv.subrange(0, i as int), status, old(vars).entries(), docs_view(docs.docs@), address@, port, msg)
                == Some((out@.map_values(|s: String| s@), vars.entries())),
        decreases blocks.len() - i,
    {
        proof {
            assert(bv.subrange(0, i + 1).drop_last() =~= bv.subrange(0, i as int));
            assert(bv.subrange(0, i + 1).last() == bv[i as int]);
        }
        if blocks[i].status == status {
            match evaluate_output_block(&blocks[i], vars, docs, address, port, error) {
                Some(lines) => {
                    let ghost before = out@;
                    let mut k: usize = 0;
                    while k < lines.len()
                        invariant
                            k <= lines@.len(),
                            out@.map_values(|s: String| s@) == before.map_values(|s: String| s@)
                                + lines@.subrange(0, k as int).map_values(|s: String| s@),
                        decreases lines.len() - k,
                    {
                        let ghost o = out@;
                        out.push(lines[k].clone());
                        proof {
                            assert(out@.map_values(|s: String| s@) =~= o.map_values(|s: String| s@).push(lines@[k as int]@));
                            assert(lines@.subrange(0, k + 1).map_values(|s: String| s@) =~= lines@.subrange(0, k as int).map_values(|s: String| s@).push(lines@[k as int]@));
                        }
                        k = k + 1;
                    }
                    proof {
                        assert(lines@.subrange(0, lines@.len() as int) =~= lines@);
                    }
                },
                None => {
                    proof {
                        lemma_blocks_none(bv, status, old(vars).entries(), docs_view(docs.docs@), address@, port, msg, i as int + 1);
                    }
                    return None;
                },
            }
        }
        i = i + 1;
    }
    proof {
        assert(bv.subrange(0, bv.len() as int) =~= bv);
    }
    Some(out)
}

proof fn lemma_blocks_none(
    bs: Seq<(OutputStatus, Seq<OCmd>)>,
    status: OutputStatus,
    e: Seq<(Seq<char>, Json)>,
    d: Seq<(Seq<char>, Option<Json>)>,
    addr: Seq<char>,
    port: u16,
    msg: Seq<char>,
    i: int,
)
    requires
        0 <= i <= bs.len(),
        blocks_spec(bs.subrange(0, i), status, e, d, addr, port, msg) is None,
    ensures
        blocks_spec(bs, status, e, d, addr, port, msg) is None,
    decreases bs.len() - i,
{
    if i < bs.len() {
        assert(bs.subrange(0, i + 1).drop_last() =~= bs.subrange(0, i));
        lemma_blocks_none(bs, status, e, d, addr, port, msg, i + 1);
    } else {
        assert(bs.subrange(0, i) =~= bs);
    }
}

} // verus!
