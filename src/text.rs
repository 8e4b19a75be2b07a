//! Character-level helpers shared by the script parser, the request builder
//! and the output formatter. Text is handled as `Vec<char>` inside the
//! library and modelled as `Seq<char>` in contracts.
use vstd::prelude::*;
use vstd::string::*;

verus! {

/// The characters of a string slice, in order.
pub fn chars_of(s: &str) -> (r: Vec<char>)
    ensures
        r@ == s@,
{
    let n = s.unicode_len();
    let mut out: Vec<char> = Vec::new();
    let mut i: usize = 0;
    while i < n
        invariant
            n == s@.len(),
            i <= n,
            out@ == s@.subrange(0, i as int),
        decreases n - i,
    {
        out.push(s.get_char(i));
        i = i + 1;
    }
    proof {
        assert(out@ =~= s@);
    }
    out
}

/// Relies on `String::from_iter` over `char`: the string holds exactly the
/// given characters, in order.
#[verifier::external_body]
pub(crate) fn string_of(cs: &[char]) -> (r: String)
    ensures
        r@ == cs@,
{
    cs.iter().collect()
}

/// Unicode `White_Space` characters, which `str::trim` removes.
pub open spec fn is_ws(c: char) -> bool {
    ('\u{9}' <= c && c <= '\u{d}') || c == ' ' || c == '\u{85}' || c == '\u{a0}'
        || c == '\u{1680}' || ('\u{2000}' <= c && c <= '\u{200a}') || c == '\u{2028}'
        || c == '\u{2029}' || c == '\u{202f}' || c == '\u{205f}' || c == '\u{3000}'
}

pub fn is_whitespace(c: char) -> (r: bool)
    ensures
        r == is_ws(c),
{
    ('\u{9}' <= c && c <= '\u{d}') || c == ' ' || c == '\u{85}' || c == '\u{a0}'
        || c == '\u{1680}' || ('\u{2000}' <= c && c <= '\u{200a}') || c == '\u{2028}'
        || c == '\u{2029}' || c == '\u{202f}' || c == '\u{205f}' || c == '\u{3000}'
}

/// Number of leading whitespace characters of `s`.
pub open spec fn lead_ws(s: Seq<char>) -> nat
    decreases s.len(),
{
    if s.len() > 0 && is_ws(s[0]) {
        1 + lead_ws(s.drop_first())
    } else {
        0
    }
}

/// Number of trailing whitespace characters of `s`.
pub open spec fn trail_ws(s: Seq<char>) -> nat
    decreases s.len(),
{
    if s.len() > 0 && is_ws(s.last()) {
        1 + trail_ws(s.drop_last())
    } else {
        0
    }
}

/// `s` without leading whitespace.
pub open spec fn trim_start_spec(s: Seq<char>) -> Seq<char> {
    s.subrange(lead_ws(s) as int, s.len() as int)
}

/// `s` without trailing whitespace.
pub open spec fn trim_end_spec(s: Seq<char>) -> Seq<char> {
    s.subrange(0, s.len() - trail_ws(s))
}

/// `s` without leading and trailing whitespace.
pub open spec fn trim_spec(s: Seq<char>) -> Seq<char> {
    trim_end_spec(trim_start_spec(s))
}

proof fn lemma_lead_ws(s: Seq<char>)
    ensures
        lead_ws(s) <= s.len(),
        forall|i: int| 0 <= i < lead_ws(s) ==> is_ws(#[trigger] s[i]),
        lead_ws(s) < s.len() ==> !is_ws(s[lead_ws(s) as int]),
    decreases s.len(),
{
    if s.len() > 0 && is_ws(s[0]) {
        lemma_lead_ws(s.drop_first());
        assert forall|i: int| 0 <= i < lead_ws(s) implies is_ws(#[trigger] s[i]) by {
            if i > 0 {
                assert(s[i] == s.drop_first()[i - 1]);
            }
        }
    }
}

proof fn lemma_lead_ws_exact(s: Seq<char>, k: int)
    requires
        0 <= k <= s.len(),
        forall|i: int| 0 <= i < k ==> is_ws(#[trigger] s[i]),
        k < s.len() ==> !is_ws(s[k]),
    ensures
        lead_ws(s) == k,
    decreases s.len(),
{
    if k > 0 {
        assert(is_ws(s[0]));
        let t = s.drop_first();
        assert forall|i: int| 0 <= i < k - 1 implies is_ws(#[trigger] t[i]) by {
            assert(t[i] == s[i + 1]);
        }
        if k - 1 < t.len() {
            assert(t[k - 1] == s[k]);
        }
        lemma_lead_ws_exact(t, k - 1);
    }
}

proof fn lemma_trail_ws_exact(s: Seq<char>, k: int)
    requires
        0 <= k <= s.len(),
        forall|i: int| k <= i < s.len() ==> is_ws(#[trigger] s[i]),
        k > 0 ==> !is_ws(s[k - 1]),
    ensures
        trail_ws(s) == s.len() - k,
    decreases s.len(),
{
    if k < s.len() {
        assert(is_ws(s.last()));
        let t = s.drop_last();
        assert forall|i: int| k <= i < t.len() implies is_ws(#[trigger] t[i]) by {
            assert(t[i] == s[i]);
        }
        if k > 0 {
            assert(t[k - 1] == s[k - 1]);
        }
        lemma_trail_ws_exact(t, k);
    }
}

/// Trimmed text neither starts nor ends with whitespace, and trimming it
/// again changes nothing.
pub proof fn lemma_trim_shape(s: Seq<char>)
    ensures
        trim_spec(s).len() > 0 ==> !is_ws(trim_spec(s)[0]) && !is_ws(trim_spec(s).last()),
        trim_spec(s).len() > 0 ==> trim_spec(trim_spec(s)) == trim_spec(s),
        trim_spec(s).len() == 0 ==> trim_spec(trim_spec(s)) == trim_spec(s),
{
    lemma_lead_ws(s);
    let t = trim_start_spec(s);
    lemma_trail_ws(t);
    let u = trim_spec(s);
    if u.len() > 0 {
        assert(u[0] == t[0]);
        assert(t[0] == s[lead_ws(s) as int]);
        assert(u.last() == t[t.len() - trail_ws(t) - 1]);
        lemma_lead_ws_exact(u, 0);
        lemma_trail_ws_exact(u, u.len() as int);
        assert(u.subrange(0, u.len() as int) =~= u);
        assert(trim_start_spec(u) =~= u);
        assert(trim_end_spec(u) =~= u);
    } else {
        assert(trim_start_spec(u) =~= u);
        assert(trim_end_spec(u) =~= u);
    }
}

proof fn lemma_trail_ws(s: Seq<char>)
    ensures
        trail_ws(s) <= s.len(),
        trail_ws(s) < s.len() ==> !is_ws(s[s.len() - trail_ws(s) - 1]),
    decreases s.len(),
{
    if s.len() > 0 && is_ws(s.last()) {
        lemma_trail_ws(s.drop_last());
        let t = s.drop_last();
        if trail_ws(s) < s.len() {
            assert(s[s.len() - trail_ws(s) - 1] == t[t.len() - trail_ws(t) - 1]);
        }
    }
}

/// The bounds `(start, end)` of `s` once whitespace is trimmed off both ends.
pub fn trim_bounds(s: &[char]) -> (r: (usize, usize))
    ensures
        r.0 <= r.1 <= s@.len(),
        s@.subrange(r.0 as int, r.1 as int) == trim_spec(s@),
{
    let n = s.len();
    let mut a: usize = 0;
    while a < n && is_whitespace(s[a])
        invariant
            a <= n == s@.len(),
            forall|i: int| 0 <= i < a ==> is_ws(#[trigger] s@[i]),
        decreases n - a,
    {
        a = a + 1;
    }
    proof {
        lemma_lead_ws_exact(s@, a as int);
    }
    let mut b: usize = n;
    while b > a && is_whitespace(s[b - 1])
        invariant
            a <= b <= n == s@.len(),
            forall|i: int| b <= i < n ==> is_ws(#[trigger] s@[i]),
        decreases b,
    {
        b = b - 1;
    }
    proof {
        let t = trim_start_spec(s@);
        assert forall|i: int| b - a <= i < t.len() implies is_ws(#[trigger] t[i]) by {
            assert(t[i] == s@[i + a]);
        }
        if b > a {
            assert(t[b - a - 1] == s@[b - 1]);
        }
        lemma_trail_ws_exact(t, b - a);
        assert(s@.subrange(a as int, b as int) =~= trim_spec(s@));
    }
    (a, b)
}

/// `s` with whitespace trimmed off both ends.
pub fn trim(s: &[char]) -> (r: Vec<char>)
    ensures
        r@ == trim_spec(s@),
        r@.len() <= s@.len(),
{
    let (a, b) = trim_bounds(s);
    slice_range(s, a, b)
}

/// A copy of `s[a..b]`.
pub fn slice_range(s: &[char], a: usize, b: usize) -> (r: Vec<char>)
    requires
        a <= b <= s@.len(),
    ensures
        r@ == s@.subrange(a as int, b as int),
{
    let mut out: Vec<char> = Vec::new();
    let mut i: usize = a;
    while i < b
        invariant
            a <= i <= b <= s@.len(),
            out@ == s@.subrange(a as int, i as int),
        decreases b - i,
    {
        out.push(s[i]);
        i = i + 1;
    }
    out
}

/// Whether `s` begins with `p`.
pub fn starts_with(s: &[char], p: &[char]) -> (r: bool)
    ensures
        r == (p@.len() <= s@.len() && s@.subrange(0, p@.len() as int) == p@),
{
    if p.len() > s.len() {
        return false;
    }
    let mut i: usize = 0;
    while i < p.len()
        invariant
            p@.len() <= s@.len(),
            i <= p@.len(),
            forall|j: int| 0 <= j < i ==> s@[j] == p@[j],
        decreases p.len() - i,
    {
        if s[i] != p[i] {
            proof {
                assert(s@.subrange(0, p@.len() as int)[i as int] != p@[i as int]);
            }
            return false;
        }
        i = i + 1;
    }
    proof {
        assert(s@.subrange(0, p@.len() as int) =~= p@);
    }
    true
}

/// Whether the two character sequences are equal.
pub fn chars_eq(a: &[char], b: &[char]) -> (r: bool)
    ensures
        r == (a@ == b@),
{
    if a.len() != b.len() {
        return false;
    }
    let r = starts_with(a, b);
    proof {
        assert(a@.subrange(0, b@.len() as int) =~= a@);
    }
    r
}

/// Whether `s` equals the string literal `lit`.
pub fn is_word(s: &[char], lit: &str) -> (r: bool)
    ensures
        r == (s@ == lit@),
{
    let l = chars_of(lit);
    chars_eq(s, l.as_slice())
}

/// Whether `s` begins with the string literal `lit`.
pub fn has_prefix(s: &[char], lit: &str) -> (r: bool)
    ensures
        r == (lit@.len() <= s@.len() && s@.subrange(0, lit@.len() as int) == lit@),
{
    let l = chars_of(lit);
    starts_with(s, l.as_slice())
}

} // verus!

verus! {

/// Number of leading characters of `s` that are not whitespace.
pub open spec fn word_len(s: Seq<char>) -> nat
    decreases s.len(),
{
    if s.len() > 0 && !is_ws(s[0]) {
        1 + word_len(s.drop_first())
    } else {
        0
    }
}

/// The whitespace-separated words of `s`, as `str::split_whitespace` gives them.
pub open spec fn words(s: Seq<char>) -> Seq<Seq<char>>
    decreases s.len(),
{
    if s.len() == 0 {
        Seq::empty()
    } else if is_ws(s[0]) {
        words(s.drop_first())
    } else {
        // `word_len(s)` is between 1 and `s.len()` here (see `lemma_word_len_bounds`).
        let w = word_len(s);
        if 1 <= w <= s.len() {
            seq![s.subrange(0, w as int)] + words(s.subrange(w as int, s.len() as int))
        } else {
            Seq::empty()
        }
    }
}

proof fn lemma_word_len_bounds(s: Seq<char>)
    ensures
        word_len(s) <= s.len(),
        s.len() > 0 && !is_ws(s[0]) ==> word_len(s) >= 1,
    decreases s.len(),
{
    if s.len() > 0 && !is_ws(s[0]) {
        lemma_word_len_bounds(s.drop_first());
    }
}

proof fn lemma_word_len(s: Seq<char>, k: int)
    requires
        0 <= k <= s.len(),
        forall|i: int| 0 <= i < k ==> !is_ws(#[trigger] s[i]),
        k < s.len() ==> is_ws(s[k]),
    ensures
        word_len(s) == k,
    decreases s.len(),
{
    if k > 0 {
        let t = s.drop_first();
        assert forall|i: int| 0 <= i < k - 1 implies !is_ws(#[trigger] t[i]) by {
            assert(t[i] == s[i + 1]);
        }
        if k - 1 < t.len() {
            assert(t[k - 1] == s[k]);
        }
        lemma_word_len(t, k - 1);
    }
}

/// The words of `s`, split on whitespace.
pub fn split_words(s: &[char]) -> (r: Vec<Vec<char>>)
    ensures
        r@.map_values(|w: Vec<char>| w@) == words(s@),
{
    let n = s.len();
    let mut out: Vec<Vec<char>> = Vec::new();
    let mut i: usize = 0;
    proof {
        assert(s@.subrange(0, n as int) =~= s@);
        assert(out@.map_values(|w: Vec<char>| w@) =~= Seq::<Seq<char>>::empty());
        assert(Seq::<Seq<char>>::empty() + words(s@) =~= words(s@));
    }
    while i < n
        invariant
            n == s@.len(),
            i <= n,
            out@.map_values(|w: Vec<char>| w@) + words(s@.subrange(i as int, n as int)) == words(s@),
        decreases n - i,
    {
        if is_whitespace(s[i]) {
            proof {
                assert(s@.subrange(i as int, n as int).drop_first() =~= s@.subrange(i + 1, n as int));
            }
            i = i + 1;
        } else {
            let start = i;
            while i < n && !is_whitespace(s[i])
                invariant
                    start <= i <= n == s@.len(),
                    forall|j: int| start <= j < i ==> !is_ws(#[trigger] s@[j]),
                decreases n - i,
            {
                i = i + 1;
            }
            let w = slice_range(s, start, i);
            proof {
                let t = s@.subrange(start as int, n as int);
                assert forall|j: int| 0 <= j < i - start implies !is_ws(#[trigger] t[j]) by {
                    assert(t[j] == s@[start + j]);
                }
                if i < n {
                    assert(t[i - start] == s@[i as int]);
                }
                lemma_word_len(t, i - start);
                lemma_word_len_bounds(t);
                assert(t.subrange(0, i - start) =~= w@);
                assert(t.subrange(i - start, t.len() as int) =~= s@.subrange(i as int, n as int));
                let before = out@.map_values(|w: Vec<char>| w@);
                assert(out@.push(w).map_values(|w: Vec<char>| w@) =~= before.push(w@));
                assert(before.push(w@) + words(s@.subrange(i as int, n as int)) =~= before + words(t));
            }
            out.push(w);
        }
    }
    proof {
        assert(s@.subrange(0, n as int) =~= s@);
        assert(s@.subrange(n as int, n as int) =~= Seq::<char>::empty());
        assert(out@.map_values(|w: Vec<char>| w@) + Seq::<Seq<char>>::empty() =~= out@.map_values(
            |w: Vec<char>| w@,
        ));
    }
    out
}

/// The words joined with single spaces.
pub open spec fn join_spaces(ws: Seq<Seq<char>>) -> Seq<char>
    decreases ws.len(),
{
    if ws.len() == 0 {
        Seq::empty()
    } else if ws.len() == 1 {
        ws[0]
    } else {
        join_spaces(ws.drop_last()) + seq![' '] + ws.last()
    }
}

/// `ws[from..]` joined with single spaces.
pub fn join_words_from(ws: &Vec<Vec<char>>, from: usize) -> (r: Vec<char>)
    requires
        from <= ws@.len(),
    ensures
        r@ == join_spaces(ws@.map_values(|w: Vec<char>| w@).subrange(from as int, ws@.len() as int)),
{
    let mut out: Vec<char> = Vec::new();
    let mut i: usize = from;
    while i < ws.len()
        invariant
            from <= i <= ws@.len(),
            out@ == join_spaces(ws@.map_values(|w: Vec<char>| w@).subrange(from as int, i as int)),
        decreases ws.len() - i,
    {
        let ghost v = ws@.map_values(|w: Vec<char>| w@);
        proof {
            assert(v.subrange(from as int, i + 1).drop_last() =~= v.subrange(from as int, i as int));
        }
        if i > from {
            out.push(' ');
        }
        let mut j: usize = 0;
        let ghost start = out@;
        while j < ws[i].len()
            invariant
                j <= ws@[i as int]@.len(),
                i < ws@.len(),
                out@ == start + ws@[i as int]@.subrange(0, j as int),
            decreases ws@[i as int]@.len() - j,
        {
            out.push(ws[i][j]);
            j = j + 1;
        }
        proof {
            assert(ws@[i as int]@.subrange(0, j as int) =~= ws@[i as int]@);
            if i == from {
                assert(start =~= Seq::<char>::empty());
                assert(out@ =~= ws@[i as int]@);
            }
        }
        i = i + 1;
    }
    out
}

} // verus!

verus! {

/// `s` with every non-overlapping occurrence of `from`, scanning left to
/// right, replaced by `to`, as `str::replace` does for a non-empty pattern;
/// an empty pattern puts `to` before every character and at the end.
pub open spec fn replace_all(s: Seq<char>, from: Seq<char>, to: Seq<char>) -> Seq<char>
    decreases s.len(),
{
    if from.len() == 0 {
        if s.len() == 0 {
            to
        } else {
            to + seq![s[0]] + replace_all(s.drop_first(), from, to)
        }
    } else if s.len() == 0 {
        s
    } else if from.len() <= s.len() && s.subrange(0, from.len() as int) == from {
        to + replace_all(s.subrange(from.len() as int, s.len() as int), from, to)
    } else {
        seq![s[0]] + replace_all(s.drop_first(), from, to)
    }
}

/// `s` with each occurrence of `from` replaced by `to`.
pub fn replace_chars(s: &[char], from: &[char], to: &[char]) -> (r: Vec<char>)
    ensures
        r@ == replace_all(s@, from@, to@),
{
    let n = s.len();
    let mut out: Vec<char> = Vec::new();
    let mut i: usize = 0;
    proof {
        assert(s@.subrange(0, n as int) =~= s@);
        assert(out@ + replace_all(s@, from@, to@) =~= replace_all(s@, from@, to@));
    }
    while i < n
        invariant
            n == s@.len(),
            i <= n,
            out@ + replace_all(s@.subrange(i as int, n as int), from@, to@) == replace_all(s@, from@, to@),
        decreases n - i,
    {
        let ghost rest = s@.subrange(i as int, n as int);
        let rest_v = slice_range(s, i, n);
        if from.len() > 0 && starts_with(rest_v.as_slice(), from) {
            out.extend_from_slice(to);
            proof {
                assert(rest.subrange(from@.len() as int, rest.len() as int) =~= s@.subrange(
                    i + from@.len(),
                    n as int,
                ));
            }
            i = i + from.len();
        } else {
            if from.len() == 0 {
                out.extend_from_slice(to);
            }
            out.push(s[i]);
            proof {
                assert(rest.drop_first() =~= s@.subrange(i + 1, n as int));
                assert(rest[0] == s@[i as int]);
            }
            i = i + 1;
        }
        proof {
            assert(out@ + replace_all(s@.subrange(i as int, n as int), from@, to@) =~= replace_all(s@, from@, to@));
        }
    }
    if from.len() == 0 {
        out.extend_from_slice(to);
    }
    proof {
        assert(s@.subrange(n as int, n as int) =~= Seq::<char>::empty());
        assert(out@ =~= replace_all(s@, from@, to@));
    }
    out
}

} // verus!

verus! {

/// A line without its trailing carriage return, if it has one.
pub open spec fn strip_cr(l: Seq<char>) -> Seq<char> {
    if l.len() > 0 && l.last() == '\r' { l.drop_last() } else { l }
}

/// The lines of `s` as `str::lines` gives them: split at each `\n`, a
/// trailing `\r` taken off each, and no empty last line after a final `\n`.
pub open spec fn lines_spec(s: Seq<char>) -> Seq<Seq<char>>
    decreases s.len(),
{
    if s.len() == 0 {
        Seq::empty()
    } else {
        let i = crate::lexicon::find_from(s, '\n', 0);
        if i < 0 {
            seq![strip_cr(s)]
        } else if 0 <= i < s.len() {
            seq![strip_cr(s.subrange(0, i))] + lines_spec(s.subrange(i + 1, s.len() as int))
        } else {
            Seq::empty()
        }
    }
}

/// The lines of `s`.
pub fn split_lines(s: &[char]) -> (r: Vec<Vec<char>>)
    ensures
        r@.map_values(|l: Vec<char>| l@) == lines_spec(s@),
{
    let n = s.len();
    let mut out: Vec<Vec<char>> = Vec::new();
    let mut i: usize = 0;
    proof {
        assert(s@.subrange(0, n as int) =~= s@);
        assert(out@.map_values(|l: Vec<char>| l@) + lines_spec(s@) =~= lines_spec(s@));
    }
    while i < n
        invariant
            n == s@.len(),
            i <= n,
            out@.map_values(|l: Vec<char>| l@) + lines_spec(s@.subrange(i as int, n as int)) == lines_spec(s@),
        decreases n - i,
    {
        let ghost rest = s@.subrange(i as int, n as int);
        let mut j: usize = i;
        while j < n && s[j] != '\n'
            invariant
                i <= j <= n == s@.len(),
                rest == s@.subrange(i as int, n as int),
                crate::lexicon::find_from(rest, '\n', j - i) == crate::lexicon::find_from(rest, '\n', 0),
            decreases n - j,
        {
            proof {
                assert(rest[j - i] == s@[j as int]);
            }
            j = j + 1;
        }
        let mut e: usize = j;
        if e > i && s[e - 1] == '\r' {
            e = e - 1;
        }
        let line = slice_range(s, i, e);
        proof {
            let before = out@.map_values(|l: Vec<char>| l@);
            assert(out@.push(line).map_values(|l: Vec<char>| l@) =~= before.push(line@));
            if j < n {
                assert(rest[j - i] == s@[j as int]);
                assert(crate::lexicon::find_from(rest, '\n', j - i) == j - i);
                assert(line@ =~= strip_cr(rest.subrange(0, j - i)));
                assert(rest.subrange(j - i + 1, rest.len() as int) =~= s@.subrange(j + 1, n as int));
                assert(before.push(line@) + lines_spec(s@.subrange(j + 1, n as int)) =~= before + lines_spec(rest));
            } else {
                assert(line@ =~= strip_cr(rest));
                assert(s@.subrange(n as int, n as int) =~= Seq::<char>::empty());
                assert(before.push(line@) + lines_spec(s@.subrange(n as int, n as int)) =~= before + lines_spec(rest));
            }
        }
        out.push(line);
        if j < n {
            i = j + 1;
        } else {
            i = n;
        }
    }
    proof {
        assert(s@.subrange(n as int, n as int) =~= Seq::<char>::empty());
        assert(out@.map_values(|l: Vec<char>| l@) + Seq::<Seq<char>>::empty() =~= out@.map_values(
            |l: Vec<char>| l@,
        ));
    }
    out
}

} // verus!
