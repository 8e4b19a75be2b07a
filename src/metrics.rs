//! Helpers of the metrics exposition: splitting rendered labels into
//! key/value pairs, escaping label values and sanitising metric names.
use vstd::prelude::*;
use crate::text::{chars_of, replace_all, replace_chars, slice_range, string_of, trim, trim_spec};

verus! {

/// `s` split at each `c`, as `str::split(c)` gives it.
pub open spec fn split_char(s: Seq<char>, c: char) -> Seq<Seq<char>>
    decreases s.len(),
{
    let i = crate::lexicon::find_from(s, c, 0);
    if 0 <= i < s.len() {
        seq![s.subrange(0, i)] + split_char(s.subrange(i + 1, s.len() as int), c)
    } else {
        seq![s]
    }
}

/// `s` without leading and then trailing `c` characters.
pub open spec fn trim_char(s: Seq<char>, c: char) -> Seq<char> {
    trim_char_end(trim_char_start(s, c), c)
}

pub open spec fn trim_char_start(s: Seq<char>, c: char) -> Seq<char>
    decreases s.len(),
{
    if s.len() > 0 && s[0] == c { trim_char_start(s.drop_first(), c) } else { s }
}

pub open spec fn trim_char_end(s: Seq<char>, c: char) -> Seq<char>
    decreases s.len(),
{
    if s.len() > 0 && s.last() == c { trim_char_end(s.drop_last(), c) } else { s }
}

fn trim_char_exec(s: &[char], c: char) -> (r: Vec<char>)
    ensures
        r@ == trim_char(s@, c),
{
    let mut a: usize = 0;
    proof {
        assert(s@.subrange(0, s@.len() as int) =~= s@);
    }
    while a < s.len() && s[a] == c
        invariant
            a <= s@.len(),
            trim_char_start(s@.subrange(a as int, s@.len() as int), c) == trim_char_start(s@, c),
        decreases s.len() - a,
    {
        proof {
            assert(s@.subrange(a as int, s@.len() as int).drop_first() =~= s@.subrange(a + 1, s@.len() as int));
        }
        a = a + 1;
    }
    let mut b: usize = s.len();
    let ghost t = s@.subrange(a as int, s@.len() as int);
    proof {
        assert(t.subrange(0, t.len() as int) =~= t);
    }
    while b > a && s[b - 1] == c
        invariant
            a <= b <= s@.len(),
            t == s@.subrange(a as int, s@.len() as int),
            trim_char_end(s@.subrange(a as int, b as int), c) == trim_char_end(t, c),
        decreases b,
    {
        proof {
            assert(s@.subrange(a as int, b as int).drop_last() =~= s@.subrange(a as int, b - 1));
        }
        b = b - 1;
    }
    proof {
        assert(s@.subrange(a as int, s@.len() as int) =~= t);
    }
    slice_range(s, a, b)
}

/// The `key=value` pairs of a rendered label line: the line split at
/// commas, each part split at its first `=`, key and value trimmed, the
/// value's quotes stripped; parts without `=` or with an empty key drop out.
pub open spec fn label_pairs(parts: Seq<Seq<char>>) -> Seq<(Seq<char>, Seq<char>)>
    decreases parts.len(),
{
    if parts.len() == 0 {
        Seq::empty()
    } else {
        let rest = label_pairs(parts.drop_last());
        let p = trim_spec(parts.last());
        let i = crate::lexicon::find_from(p, '=', 0);
        if 0 <= i < p.len() {
            let k = trim_spec(p.subrange(0, i));
            let v = trim_char(trim_char(trim_spec(p.subrange(i + 1, p.len() as int)), '\''), '"');
            if k.len() > 0 { rest.push((k, v)) } else { rest }
        } else {
            rest
        }
    }
}

fn split_commas(s: &[char]) -> (r: Vec<Vec<char>>)
    ensures
        r@.map_values(|x: Vec<char>| x@) == split_char(s@, ','),
{
    let n = s.len();
    let mut out: Vec<Vec<char>> = Vec::new();
    let mut start: usize = 0;
    let mut i: usize = 0;
    proof {
        assert(s@.subrange(0, n as int) =~= s@);
        assert(out@.map_values(|x: Vec<char>| x@) + split_char(s@, ',') =~= split_char(s@, ','));
    }
    while i < n
        invariant
            n == s@.len(),
            start <= i <= n,
            forall|k: int| start <= k < i ==> s@[k] != ',',
            out@.map_values(|x: Vec<char>| x@) + split_char(s@.subrange(start as int, n as int), ',') == split_char(s@, ','),
        decreases n - i,
    {
        if s[i] == ',' {
            let seg = slice_range(s, start, i);
            proof {
                let rest = s@.subrange(start as int, n as int);
                assert(crate::lexicon::find_from(rest, ',', 0) == i - start) by {
                    lemma_first_at(rest, ',', 0, i - start);
                }
                assert(rest.subrange(0, i - start) =~= seg@);
                assert(rest.subrange(i - start + 1, rest.len() as int) =~= s@.subrange(i + 1, n as int));
                let before = out@.map_values(|x: Vec<char>| x@);
                assert(out@.push(seg).map_values(|x: Vec<char>| x@) =~= before.push(seg@));
                assert(before.push(seg@) + split_char(s@.subrange(i + 1, n as int), ',') =~= before + split_char(rest, ','));
            }
            out.push(seg);
            start = i + 1;
        }
        i = i + 1;
    }
    let seg = slice_range(s, start, n);
    proof {
        let rest = s@.subrange(start as int, n as int);
        assert(crate::lexicon::find_from(rest, ',', 0) == -1) by {
            lemma_none_from(rest, ',', 0);
        }
        let before = out@.map_values(|x: Vec<char>| x@);
        assert(out@.push(seg).map_values(|x: Vec<char>| x@) =~= before.push(seg@));
        assert(before.push(seg@) =~= before + split_char(rest, ','));
    }
    out.push(seg);
    out
}

proof fn lemma_first_at(s: Seq<char>, c: char, f: int, k: int)
    requires
        0 <= f <= k < s.len(),
        s[k] == c,
        forall|j: int| f <= j < k ==> s[j] != c,
    ensures
        crate::lexicon::find_from(s, c, f) == k,
    decreases k - f,
{
    if f < k {
        lemma_first_at(s, c, f + 1, k);
    }
}

proof fn lemma_none_from(s: Seq<char>, c: char, f: int)
    requires
        0 <= f,
        forall|j: int| f <= j < s.len() ==> s[j] != c,
    ensures
        crate::lexicon::find_from(s, c, f) == -1,
    decreases s.len() - f,
{
    if f < s.len() {
        lemma_none_from(s, c, f + 1);
    }
}

/// Splits a rendered label line into its key/value pairs.
pub fn parse_return_output(output: &str) -> (r: Vec<(String, String)>)
    ensures
        r@.map_values(|kv: (String, String)| (kv.0@, kv.1@)) == label_pairs(split_char(output@, ',')),
{
    let text = chars_of(output);
    let parts = split_commas(text.as_slice());
    let ghost pv = parts@.map_values(|x: Vec<char>| x@);
    let mut out: Vec<(String, String)> = Vec::new();
    let mut i: usize = 0;
    proof {
        assert(pv.subrange(0, 0) =~= Seq::<Seq<char>>::empty());
        assert(out@.map_values(|kv: (String, String)| (kv.0@, kv.1@)) =~= Seq::<(Seq<char>, Seq<char>)>::empty());
    }
    while i < parts.len()
        invariant
            pv == parts@.map_values(|x: Vec<char>| x@),
            i <= pv.len(),
            out@.map_values(|kv: (String, String)| (kv.0@, kv.1@)) == label_pairs(pv.subrange(0, i as int)),
        decreases parts.len() - i,
    {
        proof {
            assert(pv.subrange(0, i + 1).drop_last() =~= pv.subrange(0, i as int));
            assert(pv.subrange(0, i + 1).last() == parts@[i as int]@);
        }
        let p = trim(parts[i].as_slice());
        match crate::lexicon::find_char(p.as_slice(), '=', 0) {
            Some(eq) => {
                proof {
                    crate::lexicon::lemma_find_from(p@, '=', 0);
                }
                let k = trim(slice_range(p.as_slice(), 0, eq).as_slice());
                let v0 = trim(slice_range(p.as_slice(), eq + 1, p.len()).as_slice());
                let v1 = trim_char_exec(v0.as_slice(), '\'');
                let v = trim_char_exec(v1.as_slice(), '"');
                if k.len() > 0 {
                    let ghost before = out@;
                    out.push((string_of(k.as_slice()), string_of(v.as_slice())));
                    proof {
                        assert(out@.map_values(|kv: (String, String)| (kv.0@, kv.1@)) =~= before.map_values(
                            |kv: (String, String)| (kv.0@, kv.1@),
                        ).push((k@, v@)));
                    }
                }
            },
            None => {},
        }
        i = i + 1;
    }
    proof {
        assert(pv.subrange(0, pv.len() as int) =~= pv);
    }
    out
}

/// A label value escaped for the exposition format: `\\`, `"` and new lines.
pub open spec fn escape_spec(s: Seq<char>) -> Seq<char> {
    replace_all(replace_all(replace_all(s, seq!['\\'], seq!['\\', '\\']), seq!['"'], seq!['\\', '"']), seq!['\n'], seq!['\\', 'n'])
}

pub fn escape_prometheus_label(value: &str) -> (r: String)
    ensures
        r@ == escape_spec(value@),
{
    let s = chars_of(value);
    let backslash = vec!['\\'];
    let backslash_esc = vec!['\\', '\\'];
    let quote = vec!['"'];
    let quote_esc = vec!['\\', '"'];
    let newline = vec!['\n'];
    let newline_esc = vec!['\\', 'n'];
    proof {
        assert(backslash@ =~= seq!['\\']);
        assert(backslash_esc@ =~= seq!['\\', '\\']);
        assert(quote@ =~= seq!['"']);
        assert(quote_esc@ =~= seq!['\\', '"']);
        assert(newline@ =~= seq!['\n']);
        assert(newline_esc@ =~= seq!['\\', 'n']);
    }
    let a = replace_chars(s.as_slice(), backslash.as_slice(), backslash_esc.as_slice());
    let b = replace_chars(a.as_slice(), quote.as_slice(), quote_esc.as_slice());
    let c = replace_chars(b.as_slice(), newline.as_slice(), newline_esc.as_slice());
    string_of(c.as_slice())
}

pub open spec fn metric_char(c: char) -> bool {
    ('a' <= c && c <= 'z') || ('A' <= c && c <= 'Z') || ('0' <= c && c <= '9') || c == '_' || c == ':'
}

pub open spec fn metric_first_char(c: char) -> bool {
    ('a' <= c && c <= 'z') || ('A' <= c && c <= 'Z') || c == '_' || c == ':'
}

/// A metric name: each character outside `[a-zA-Z0-9_:]` becomes `_`, and
/// a `_` goes in front when the first character may not start a name.
pub open spec fn sanitize_spec(s: Seq<char>) -> Seq<char> {
    let body = Seq::new(s.len(), |i: int| if metric_char(s[i]) { s[i] } else { '_' });
    if s.len() > 0 && !metric_first_char(s[0]) { seq!['_'] + body } else { body }
}

pub fn sanitize_metric_name(name: &str) -> (r: String)
    ensures
        r@ == sanitize_spec(name@),
{
    let s = chars_of(name);
    let mut out: Vec<char> = Vec::new();
    let pre = s.len() > 0 && !(('a' <= s[0] && s[0] <= 'z') || ('A' <= s[0] && s[0] <= 'Z') || s[0] == '_' || s[0] == ':');
    if pre {
        out.push('_');
    }
    let off: usize = if pre { 1 } else { 0 };
    let mut i: usize = 0;
    while i < s.len()
        invariant
            i <= s@.len(),
            out@.len() == off + i,
            off == (if pre { 1usize } else { 0usize }),
            pre ==> out@[0] == '_',
            forall|k: int| 0 <= k < i ==> #[trigger] out@[off + k] == (if metric_char(s@[k]) { s@[k] } else { '_' }),
        decreases s.len() - i,
    {
        let c = s[i];
        if ('a' <= c && c <= 'z') || ('A' <= c && c <= 'Z') || ('0' <= c && c <= '9') || c == '_' || c == ':' {
            out.push(c);
        } else {
            out.push('_');
        }
        i = i + 1;
    }
    proof {
        let body = Seq::new(s@.len(), |i: int| if metric_char(s@[i]) { s@[i] } else { '_' });
        if pre {
            assert(out@ =~= seq!['_'] + body) by {
                assert forall|k: int| 0 <= k < out@.len() implies out@[k] == (seq!['_'] + body)[k] by {
                    if k > 0 {
                        assert(out@[1 + (k - 1)] == body[k - 1]);
                    }
                }
            }
        } else {
            assert(out@ =~= body) by {
                assert forall|k: int| 0 <= k < out@.len() implies out@[k] == body[k] by {
                    assert(out@[0 + k] == body[k]);
                }
            }
        }
    }
    string_of(out.as_slice())
}

} // verus!

verus! {

/// The text up to the first `c`, or all of it.
pub open spec fn before_char(s: Seq<char>, c: char) -> Seq<char> {
    let i = crate::lexicon::find_from(s, c, 0);
    if 0 <= i < s.len() { s.subrange(0, i) } else { s }
}

fn before_char_exec(s: &[char], c: char) -> (r: Vec<char>)
    ensures
        r@ == before_char(s@, c),
{
    match crate::lexicon::find_char(s, c, 0) {
        Some(i) => {
            proof {
                crate::lexicon::lemma_find_from(s@, c, 0);
            }
            slice_range(s, 0, i)
        },
        None => slice_range(s, 0, s.len()),
    }
}

/// The site a website URL names: its scheme dropped, then the host before
/// any `/` and `:`.
pub open spec fn site_spec(url: Seq<char>) -> Seq<char> {
    let u = replace_all(replace_all(url, "https://"@, Seq::empty()), "http://"@, Seq::empty());
    before_char(before_char(u, '/'), ':')
}

pub fn site_of(url: &str) -> (r: String)
    ensures
        r@ == site_spec(url@),
{
    let empty: Vec<char> = Vec::new();
    let a = replace_chars(chars_of(url).as_slice(), chars_of("https://").as_slice(), empty.as_slice());
    let b = replace_chars(a.as_slice(), chars_of("http://").as_slice(), empty.as_slice());
    let c = before_char_exec(b.as_slice(), '/');
    let d = before_char_exec(c.as_slice(), ':');
    proof {
        assert(empty@ =~= Seq::<char>::empty());
    }
    string_of(d.as_slice())
}

} // verus!
