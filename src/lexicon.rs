//! Word-level rules of the script language: variable names, quoting, hex
//! byte strings and case-insensitive keywords.
use vstd::prelude::*;
use crate::number::digit_val;
use crate::text::{chars_of, slice_range, trim, trim_spec};

verus! {

/// What `char::is_alphabetic` says of a character.
pub uninterp spec fn unicode_alphabetic(c: char) -> bool;

/// What `char::is_alphanumeric` says of a character.
pub uninterp spec fn unicode_alphanumeric(c: char) -> bool;

pub open spec fn is_ascii_letter(c: char) -> bool {
    ('a' <= c && c <= 'z') || ('A' <= c && c <= 'Z')
}

pub open spec fn is_ascii_digit(c: char) -> bool {
    '0' <= c && c <= '9'
}

/// Relies on `char::is_alphabetic` (Unicode `Alphabetic`); among ASCII
/// characters exactly the letters have it.
#[verifier::external_body]
pub(crate) fn is_alphabetic(c: char) -> (r: bool)
    ensures
        r == unicode_alphabetic(c),
        (c as u32) < 128 ==> (r <==> is_ascii_letter(c)),
{
    c.is_alphabetic()
}

/// Relies on `char::is_alphanumeric` (Unicode `Alphabetic` or `Numeric`);
/// among ASCII characters exactly the letters and digits have it.
#[verifier::external_body]
pub(crate) fn is_alphanumeric(c: char) -> (r: bool)
    ensures
        r == unicode_alphanumeric(c),
        (c as u32) < 128 ==> (r <==> (is_ascii_letter(c) || is_ascii_digit(c))),
{
    c.is_alphanumeric()
}

/// A token that names a variable rather than giving a literal: a letter or
/// `_`, then letters, digits or `_`.
pub open spec fn var_name_spec(t: Seq<char>) -> bool {
    &&& t.len() > 0
    &&& (unicode_alphabetic(t[0]) || t[0] == '_')
    &&& forall|i: int| 0 <= i < t.len() ==> (unicode_alphanumeric(#[trigger] t[i]) || t[i] == '_')
}

pub fn is_variable_name(t: &[char]) -> (r: bool)
    ensures
        r == var_name_spec(t@),
{
    if t.len() == 0 {
        return false;
    }
    if !is_alphabetic(t[0]) && t[0] != '_' {
        return false;
    }
    let mut i: usize = 0;
    while i < t.len()
        invariant
            i <= t@.len(),
            forall|j: int| 0 <= j < i ==> (unicode_alphanumeric(#[trigger] t@[j]) || t@[j] == '_'),
        decreases t.len() - i,
    {
        if !is_alphanumeric(t[i]) && t[i] != '_' {
            return false;
        }
        i = i + 1;
    }
    true
}

/// An ASCII identifier: a letter or `_`, then letters, digits or `_`.
pub open spec fn ascii_ident_spec(t: Seq<char>) -> bool {
    &&& t.len() > 0
    &&& (is_ascii_letter(t[0]) || t[0] == '_')
    &&& forall|i: int| 0 <= i < t.len() ==> (is_ascii_letter(#[trigger] t[i]) || is_ascii_digit(t[i]) || t[i] == '_')
}

pub fn is_valid_var_name(t: &[char]) -> (r: bool)
    ensures
        r == ascii_ident_spec(t@),
{
    if t.len() == 0 {
        return false;
    }
    let f = t[0];
    if !(('a' <= f && f <= 'z') || ('A' <= f && f <= 'Z') || f == '_') {
        return false;
    }
    let mut i: usize = 0;
    while i < t.len()
        invariant
            i <= t@.len(),
            forall|j: int| 0 <= j < i ==> (is_ascii_letter(#[trigger] t@[j]) || is_ascii_digit(t@[j]) || t@[j] == '_'),
        decreases t.len() - i,
    {
        let c = t[i];
        if !(('a' <= c && c <= 'z') || ('A' <= c && c <= 'Z') || ('0' <= c && c <= '9') || c == '_') {
            return false;
        }
        i = i + 1;
    }
    true
}

/// A character that may appear in a template token: ASCII letters, digits,
/// `_` and `.`.
pub open spec fn token_char_spec(c: char) -> bool {
    is_ascii_letter(c) || is_ascii_digit(c) || c == '_' || c == '.'
}

pub fn is_token_char(c: char) -> (r: bool)
    ensures
        r == token_char_spec(c),
{
    ('a' <= c && c <= 'z') || ('A' <= c && c <= 'Z') || ('0' <= c && c <= '9') || c == '_' || c == '.'
}

pub open spec fn ascii_lower(c: char) -> char {
    if 'A' <= c && c <= 'Z' { ((c as u32) + 32) as char } else { c }
}

/// Equality up to ASCII case, as `str::eq_ignore_ascii_case`.
pub open spec fn eq_ignore_case(a: Seq<char>, b: Seq<char>) -> bool {
    a.len() == b.len() && forall|i: int| 0 <= i < a.len() ==> ascii_lower(#[trigger] a[i]) == ascii_lower(b[i])
}

fn lower(c: char) -> (r: char)
    ensures
        r == ascii_lower(c),
{
    if 'A' <= c && c <= 'Z' {
        let u = (c as u32) + 32;
        proof {
            assert(0x61 <= u <= 0x7a);
        }
        char_from_ascii(u)
    } else {
        c
    }
}

/// The character with an ASCII code.
fn char_from_ascii(u: u32) -> (r: char)
    requires
        u < 128,
    ensures
        r == u as char,
{
    let b = u as u8;
    b as char
}

pub fn eq_ignore_ascii_case(a: &[char], b: &str) -> (r: bool)
    ensures
        r == eq_ignore_case(a@, b@),
{
    let bc = chars_of(b);
    if a.len() != bc.len() {
        return false;
    }
    let mut i: usize = 0;
    while i < a.len()
        invariant
            a@.len() == bc@.len(),
            bc@ == b@,
            i <= a@.len(),
            forall|j: int| 0 <= j < i ==> ascii_lower(#[trigger] a@[j]) == ascii_lower(bc@[j]),
        decreases a.len() - i,
    {
        if lower(a[i]) != lower(bc[i]) {
            return false;
        }
        i = i + 1;
    }
    true
}

/// The position of the first `c` at or after `from`, or -1.
pub open spec fn find_from(s: Seq<char>, c: char, from: int) -> int
    decreases s.len() - from,
{
    if from < 0 || from >= s.len() {
        -1
    } else if s[from] == c {
        from
    } else {
        find_from(s, c, from + 1)
    }
}

pub proof fn lemma_find_from(s: Seq<char>, c: char, from: int)
    requires
        0 <= from,
    ensures
        find_from(s, c, from) == -1 || (from <= find_from(s, c, from) < s.len() && s[find_from(s, c, from)] == c),
    decreases s.len() - from,
{
    if from < s.len() && s[from] != c {
        lemma_find_from(s, c, from + 1);
    }
}

pub fn find_char(s: &[char], c: char, from: usize) -> (r: Option<usize>)
    ensures
        match r {
            Some(i) => find_from(s@, c, from as int) == i as int,
            None => find_from(s@, c, from as int) == -1,
        },
{
    let mut i: usize = from;
    while i < s.len()
        invariant
            from <= i,
            find_from(s@, c, i as int) == find_from(s@, c, from as int),
        decreases s.len() - i,
    {
        if s[i] == c {
            return Some(i);
        }
        i = i + 1;
    }
    None
}

/// `s` without any leading or trailing `"`, as `str::trim_matches('"')`.
pub open spec fn trim_quote_chars(s: Seq<char>) -> Seq<char>
    decreases s.len(),
{
    if s.len() > 0 && s[0] == '"' {
        trim_quote_chars(s.drop_first())
    } else if s.len() > 0 && s.last() == '"' {
        trim_quote_chars(s.drop_last())
    } else {
        s
    }
}

pub fn trim_quotes(s: &[char]) -> (r: Vec<char>)
    ensures
        r@ == trim_quote_chars(s@),
{
    let mut a: usize = 0;
    let mut b: usize = s.len();
    proof {
        assert(s@.subrange(0, s@.len() as int) =~= s@);
    }
    while a < b && (s[a] == '"' || s[b - 1] == '"')
        invariant
            a <= b <= s@.len(),
            trim_quote_chars(s@.subrange(a as int, b as int)) == trim_quote_chars(s@),
        decreases b - a,
    {
        let ghost t = s@.subrange(a as int, b as int);
        if s[a] == '"' {
            proof {
                assert(t.drop_first() =~= s@.subrange(a + 1, b as int));
            }
            a = a + 1;
        } else {
            proof {
                assert(t.drop_last() =~= s@.subrange(a as int, b - 1));
            }
            b = b - 1;
        }
    }
    proof {
        if a == 0 && b == s@.len() {
            assert(s@.subrange(0, s@.len() as int) =~= s@);
        }
    }
    slice_range(s, a, b)
}

/// The bytes that a string of hexadecimal digits denotes, two digits to a
/// byte, high digit first.
pub open spec fn hex_bytes(s: Seq<char>) -> Seq<u8> {
    Seq::new(
        s.len() / 2,
        |i: int| (digit_val(s[2 * i], 16).unwrap_or(0) * 16 + digit_val(s[2 * i + 1], 16).unwrap_or(0)) as u8,
    )
}

/// Whether `hex::decode` accepts the text: an even number of characters,
/// each a hexadecimal digit of either case.
pub open spec fn hex_ok(s: Seq<char>) -> bool {
    s.len() % 2 == 0 && forall|i: int| 0 <= i < s.len() ==> (#[trigger] digit_val(s[i], 16)).is_some()
}

/// Relies on `hex::decode`: it accepts an even-length string of hex digits
/// of either case and yields one byte per pair, high digit first; anything
/// else is an error.
#[verifier::external_body]
pub(crate) fn hex_decode(s: &str) -> (r: Option<Vec<u8>>)
    ensures
        r.is_some() == hex_ok(s@),
        r.is_some() ==> r.unwrap()@ == hex_bytes(s@),
{
    hex::decode(s).ok()
}

pub open spec fn hex_lower_digit(d: nat) -> char {
    if d < 10 { (d + '0' as nat) as char } else { (d - 10 + 'a' as nat) as char }
}

/// Two lower-case hex digits per byte, high digit first.
pub open spec fn hex_lower(b: Seq<u8>) -> Seq<char>
    decreases b.len(),
{
    if b.len() == 0 {
        Seq::empty()
    } else {
        hex_lower(b.drop_last()) + seq![hex_lower_digit(b.last() as nat / 16), hex_lower_digit(b.last() as nat % 16)]
    }
}

/// Relies on `hex::encode`: two lower-case hex digits per byte, high digit
/// first.
#[verifier::external_body]
pub(crate) fn hex_encode(b: &[u8]) -> (r: String)
    ensures
        r@ == hex_lower(b@),
{
    hex::encode(b)
}

/// The text with outer whitespace removed and one pair of matching outer
/// quotes (double or single) taken off.
pub open spec fn strip_quotes_spec(s: Seq<char>) -> Seq<char> {
    let t = trim_spec(s);
    if t.len() >= 2 && ((t[0] == '"' && t.last() == '"') || (t[0] == '\'' && t.last() == '\'')) {
        t.subrange(1, t.len() - 1)
    } else {
        t
    }
}

pub fn strip_quotes(s: &[char]) -> (r: Vec<char>)
    ensures
        r@ == strip_quotes_spec(s@),
{
    let t = trim(s);
    let n = t.len();
    if n >= 2 && ((t[0] == '"' && t[n - 1] == '"') || (t[0] == '\'' && t[n - 1] == '\'')) {
        slice_range(t.as_slice(), 1, n - 1)
    } else {
        t
    }
}

} // verus!
