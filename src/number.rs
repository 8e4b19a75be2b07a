//! Integer text: reading decimal and hexadecimal literals, writing decimal.
use vstd::prelude::*;

verus! {

/// The value of digit `c` in base `radix` (10 or 16), if it is one.
pub open spec fn digit_val(c: char, radix: nat) -> Option<nat> {
    if '0' <= c && c <= '9' {
        Some((c as nat - '0' as nat) as nat)
    } else if radix == 16 && 'a' <= c && c <= 'f' {
        Some((c as nat - 'a' as nat + 10) as nat)
    } else if radix == 16 && 'A' <= c && c <= 'F' {
        Some((c as nat - 'A' as nat + 10) as nat)
    } else {
        None
    }
}

pub open spec fn all_digits(s: Seq<char>, radix: nat) -> bool {
    forall|i: int| 0 <= i < s.len() ==> (#[trigger] digit_val(s[i], radix)).is_some()
}

/// The value of a run of digits, most significant first.
pub open spec fn digits_value(s: Seq<char>, radix: nat) -> nat
    decreases s.len(),
{
    if s.len() == 0 {
        0
    } else {
        digits_value(s.drop_last(), radix) * radix + digit_val(s.last(), radix).unwrap_or(0)
    }
}

/// How the standard library reads an unsigned integer in base `radix`: an
/// optional `+`, then one or more digits, the value at most `max`.
pub open spec fn parse_uint_spec(s: Seq<char>, radix: nat, max: nat) -> Option<nat> {
    let d = if s.len() > 0 && s[0] == '+' { s.drop_first() } else { s };
    if d.len() > 0 && all_digits(d, radix) && digits_value(d, radix) <= max {
        Some(digits_value(d, radix))
    } else {
        None
    }
}

/// A numeric literal of the script: `0x`/`0X` then hexadecimal, else decimal.
pub open spec fn literal_uint(s: Seq<char>, max: nat) -> Option<nat> {
    if s.len() >= 2 && s[0] == '0' && (s[1] == 'x' || s[1] == 'X') {
        parse_uint_spec(s.subrange(2, s.len() as int), 16, max)
    } else {
        parse_uint_spec(s, 10, max)
    }
}

pub fn digit_value(c: char, radix: u32) -> (r: Option<u32>)
    requires
        radix == 10 || radix == 16,
    ensures
        match digit_val(c, radix as nat) {
            Some(v) => r == Some(v as u32),
            None => r.is_none(),
        },
{
    if '0' <= c && c <= '9' {
        Some(c as u32 - '0' as u32)
    } else if radix == 16 && 'a' <= c && c <= 'f' {
        Some(c as u32 - 'a' as u32 + 10)
    } else if radix == 16 && 'A' <= c && c <= 'F' {
        Some(c as u32 - 'A' as u32 + 10)
    } else {
        None
    }
}

proof fn lemma_digits_prefix_le(s: Seq<char>, radix: nat, k: int)
    requires
        radix >= 1,
        0 <= k <= s.len(),
    ensures
        digits_value(s.subrange(0, k), radix) <= digits_value(s, radix),
    decreases s.len() - k,
{
    if k < s.len() {
        lemma_digits_prefix_le(s, radix, k + 1);
        let t = s.subrange(0, k + 1);
        assert(t.drop_last() =~= s.subrange(0, k));
        let a = digits_value(s.subrange(0, k), radix);
        assert(a <= a * radix) by (nonlinear_arith)
            requires
                radix >= 1,
        ;
    } else {
        assert(s.subrange(0, k) =~= s);
    }
}

/// Reads digits in base `radix`, refusing a value above `max`.
fn parse_digits(d: &[char], radix: u32, max: u64) -> (r: Option<u64>)
    requires
        radix == 10 || radix == 16,
    ensures
        match r {
            Some(v) => d@.len() > 0 && all_digits(d@, radix as nat) && digits_value(d@, radix as nat)
                <= max && v == digits_value(d@, radix as nat),
            None => !(d@.len() > 0 && all_digits(d@, radix as nat) && digits_value(
                d@,
                radix as nat,
            ) <= max),
        },
{
    if d.len() == 0 {
        return None;
    }
    let mut i: usize = 0;
    let mut v: u64 = 0;
    while i < d.len()
        invariant
            radix == 10 || radix == 16,
            i <= d@.len(),
            all_digits(d@.subrange(0, i as int), radix as nat),
            v == digits_value(d@.subrange(0, i as int), radix as nat),
            v <= max,
        decreases d.len() - i,
    {
        let dv = digit_value(d[i], radix);
        proof {
            let t = d@.subrange(0, i as int + 1);
            assert(t.drop_last() =~= d@.subrange(0, i as int));
        }
        match dv {
            None => {
                proof {
                    assert(!all_digits(d@, radix as nat)) by {
                        assert(digit_val(d@[i as int], radix as nat).is_none());
                    }
                }
                return None;
            },
            Some(x) => {
                if x as u64 > max || v > (max - x as u64) / radix as u64 {
                    proof {
                        let t = d@.subrange(0, i as int + 1);
                        assert(digits_value(t, radix as nat) == v * radix + x);
                        if x <= max {
                            assert(v * radix + x > max) by (nonlinear_arith)
                                requires
                                    v > (max - x) / (radix as int),
                                    radix > 0,
                                    x <= max,
                            ;
                        } else {
                            assert(v * radix + x > max) by (nonlinear_arith)
                                requires
                                    x > max,
                                    v >= 0,
                                    radix > 0,
                            ;
                        }
                        lemma_digits_prefix_le(d@, radix as nat, i as int + 1);
                    }
                    return None;
                }
                proof {
                    assert(v * radix + x <= max) by (nonlinear_arith)
                        requires
                            v <= (max - x) / (radix as int),
                            radix > 0,
                            x <= max,
                    ;
                    assert forall|j: int| 0 <= j < i + 1 implies (#[trigger] digit_val(
                        d@.subrange(0, i as int + 1)[j],
                        radix as nat,
                    )).is_some() by {
                        if j < i {
                            assert(d@.subrange(0, i as int + 1)[j] == d@.subrange(0, i as int)[j]);
                        }
                    }
                }
                v = v * radix as u64 + x as u64;
                i = i + 1;
            },
        }
    }
    proof {
        assert(d@.subrange(0, d@.len() as int) =~= d@);
    }
    Some(v)
}

pub fn parse_uint(s: &[char], radix: u32, max: u64) -> (r: Option<u64>)
    requires
        radix == 10 || radix == 16,
    ensures
        match parse_uint_spec(s@, radix as nat, max as nat) {
            Some(v) => r == Some(v as u64),
            None => r.is_none(),
        },
{
    if s.len() > 0 && s[0] == '+' {
        let d = crate::text::slice_range(s, 1, s.len());
        proof {
            assert(d@ =~= s@.drop_first());
        }
        parse_digits(d.as_slice(), radix, max)
    } else {
        parse_digits(s, radix, max)
    }
}

/// Reads a script literal: `0x`/`0X` then hexadecimal, else decimal.
pub fn parse_literal(s: &[char], max: u64) -> (r: Option<u64>)
    ensures
        match literal_uint(s@, max as nat) {
            Some(v) => r == Some(v as u64),
            None => r.is_none(),
        },
{
    if s.len() >= 2 && s[0] == '0' && (s[1] == 'x' || s[1] == 'X') {
        let rest = crate::text::slice_range(s, 2, s.len());
        parse_uint(rest.as_slice(), 16, max)
    } else {
        parse_uint(s, 10, max)
    }
}

/// The decimal digits of `n`, most significant first, without leading zeros.
pub open spec fn decimal(n: nat) -> Seq<char>
    decreases n,
{
    if n < 10 {
        seq![(n + '0' as nat) as char]
    } else {
        decimal(n / 10).push(((n % 10) + '0' as nat) as char)
    }
}

/// Writes `n` in decimal.
pub fn decimal_chars(n: u64) -> (r: Vec<char>)
    ensures
        r@ == decimal(n as nat),
    decreases n,
{
    if n < 10 {
        let c = char_of_digit(n as u8);
        vec![c]
    } else {
        let mut r = decimal_chars(n / 10);
        r.push(char_of_digit((n % 10) as u8));
        r
    }
}

fn char_of_digit(d: u8) -> (c: char)
    requires
        d < 10,
    ensures
        c == (d as nat + '0' as nat) as char,
{
    if d == 0 { '0' }
    else if d == 1 { '1' }
    else if d == 2 { '2' }
    else if d == 3 { '3' }
    else if d == 4 { '4' }
    else if d == 5 { '5' }
    else if d == 6 { '6' }
    else if d == 7 { '7' }
    else if d == 8 { '8' }
    else { '9' }
}

} // verus!
