//! Wire encodings: fixed-width integers in either byte order, and the
//! little-endian base-128 VarInt.
use vstd::prelude::*;

verus! {

/// The two bytes of `v`, most significant first when `big_endian`.
pub open spec fn u16_bytes(v: nat, big_endian: bool) -> Seq<u8> {
    let lo = (v % 256) as u8;
    let hi = ((v / 256) % 256) as u8;
    if big_endian { seq![hi, lo] } else { seq![lo, hi] }
}

/// The four bytes of `v`, most significant first when `big_endian`.
pub open spec fn u32_bytes(v: nat, big_endian: bool) -> Seq<u8> {
    let b0 = (v % 256) as u8;
    let b1 = ((v / 256) % 256) as u8;
    let b2 = ((v / 65536) % 256) as u8;
    let b3 = ((v / 16777216) % 256) as u8;
    if big_endian { seq![b3, b2, b1, b0] } else { seq![b0, b1, b2, b3] }
}

/// The integer that two bytes hold in the given byte order.
pub open spec fn u16_of(b: Seq<u8>, big_endian: bool) -> nat {
    if big_endian { b[0] as nat * 256 + b[1] as nat } else { b[1] as nat * 256 + b[0] as nat }
}

/// The integer that four bytes hold in the given byte order.
pub open spec fn u32_of(b: Seq<u8>, big_endian: bool) -> nat {
    if big_endian {
        ((b[0] as nat * 256 + b[1] as nat) * 256 + b[2] as nat) * 256 + b[3] as nat
    } else {
        ((b[3] as nat * 256 + b[2] as nat) * 256 + b[1] as nat) * 256 + b[0] as nat
    }
}

pub fn encode_u16(v: u16, big_endian: bool) -> (r: Vec<u8>)
    ensures
        r@ == u16_bytes(v as nat, big_endian),
{
    let lo = (v % 256) as u8;
    let hi = ((v / 256) % 256) as u8;
    if big_endian { vec![hi, lo] } else { vec![lo, hi] }
}

pub fn encode_u32(v: u32, big_endian: bool) -> (r: Vec<u8>)
    ensures
        r@ == u32_bytes(v as nat, big_endian),
{
    let b0 = (v % 256) as u8;
    let b1 = ((v / 256) % 256) as u8;
    let b2 = ((v / 65536) % 256) as u8;
    let b3 = ((v / 16777216) % 256) as u8;
    if big_endian { vec![b3, b2, b1, b0] } else { vec![b0, b1, b2, b3] }
}

pub fn decode_u16(b0: u8, b1: u8, big_endian: bool) -> (r: u16)
    ensures
        r as nat == u16_of(seq![b0, b1], big_endian),
{
    if big_endian { b0 as u16 * 256 + b1 as u16 } else { b1 as u16 * 256 + b0 as u16 }
}

pub fn decode_u32(b0: u8, b1: u8, b2: u8, b3: u8, big_endian: bool) -> (r: u32)
    ensures
        r as nat == u32_of(seq![b0, b1, b2, b3], big_endian),
{
    if big_endian {
        ((b0 as u32 * 256 + b1 as u32) * 256 + b2 as u32) * 256 + b3 as u32
    } else {
        ((b3 as u32 * 256 + b2 as u32) * 256 + b1 as u32) * 256 + b0 as u32
    }
}

/// Reading back two encoded bytes gives the value that was written.
pub proof fn lemma_u16_round_trip(v: nat, big_endian: bool)
    requires
        v < 65536,
    ensures
        u16_of(u16_bytes(v, big_endian), big_endian) == v,
{
}

/// Reading back four encoded bytes gives the value that was written.
pub proof fn lemma_u32_round_trip(v: nat, big_endian: bool)
    requires
        v < 4294967296,
    ensures
        u32_of(u32_bytes(v, big_endian), big_endian) == v,
{
    let b = u32_bytes(v, big_endian);
    assert(v == ((((v / 16777216) % 256) * 256 + (v / 65536) % 256) * 256 + (v / 256) % 256) * 256
        + v % 256) by (nonlinear_arith)
        requires
            v < 4294967296,
    ;
}

/// The VarInt encoding of `n`: seven bits per byte, least significant group
/// first, the high bit set on every byte but the last.
pub open spec fn varint_bytes(n: nat) -> Seq<u8>
    decreases n,
{
    if n < 128 {
        seq![n as u8]
    } else {
        seq![((n % 128) + 128) as u8] + varint_bytes(n / 128)
    }
}

/// What reading a VarInt yields.
pub enum VarIntRead {
    /// The value, and the position just after its last byte.
    Value(nat, int),
    /// The data ended before the last byte.
    Truncated,
    /// Five bytes in a row had their high bit set.
    TooLarge,
}

/// Reading a VarInt whose byte number `k` (counting from 0) sits at
/// `pos + k`; at most five bytes are read.
pub open spec fn varint_read(data: Seq<u8>, pos: int, k: nat) -> VarIntRead
    decreases 5 - k,
{
    if k >= 5 {
        VarIntRead::TooLarge
    } else if pos + k >= data.len() {
        VarIntRead::Truncated
    } else {
        let b = data[pos + k];
        if b < 128 {
            VarIntRead::Value(b as nat, pos + k + 1)
        } else {
            match varint_read(data, pos, k + 1) {
                VarIntRead::Value(v, end) => VarIntRead::Value((b - 128) as nat + 128 * v, end),
                other => other,
            }
        }
    }
}

pub open spec fn pow128(k: nat) -> nat
    decreases k,
{
    if k == 0 { 1 } else { 128 * pow128((k - 1) as nat) }
}

/// Why a VarInt could not be read.
#[derive(Debug, Clone, Copy, PartialEq, Eq)]
pub enum VarIntError {
    Truncated,
    TooLarge,
}

pub fn encode_varint(value: u64) -> (r: Vec<u8>)
    ensures
        r@ == varint_bytes(value as nat),
{
    let mut bytes: Vec<u8> = Vec::new();
    let mut v: u64 = value;
    loop
        invariant
            bytes@ + varint_bytes(v as nat) == varint_bytes(value as nat),
        decreases v,
    {
        if v < 128 {
            bytes.push(v as u8);
            return bytes;
        }
        let b = ((v % 128) + 128) as u8;
        proof {
            assert(varint_bytes(v as nat) == seq![b] + varint_bytes((v / 128) as nat));
            assert(bytes@.push(b) + varint_bytes((v / 128) as nat) =~= bytes@ + varint_bytes(
                v as nat,
            ));
        }
        bytes.push(b);
        v = v / 128;
    }
}

proof fn lemma_pow128_grows(k: nat)
    ensures
        pow128(k) >= 1,
        pow128(k + 1) == 128 * pow128(k),
    decreases k,
{
    if k > 0 {
        lemma_pow128_grows((k - 1) as nat);
    }
}

fn read_varint_from(data: &[u8], pos: usize, k: usize) -> (r: Result<(u64, usize), VarIntError>)
    requires
        k <= 5,
        pos <= data@.len(),
    ensures
        match varint_read(data@, pos as int, k as nat) {
            VarIntRead::Value(v, end) => r == Ok::<(u64, usize), VarIntError>((v as u64, end as usize))
                && v < pow128((5 - k) as nat) && end <= data@.len(),
            VarIntRead::Truncated => r == Err::<(u64, usize), VarIntError>(VarIntError::Truncated),
            VarIntRead::TooLarge => r == Err::<(u64, usize), VarIntError>(VarIntError::TooLarge),
        },
    decreases 5 - k,
{
    if k >= 5 {
        return Err(VarIntError::TooLarge);
    }
    if k >= data.len() - pos {
        return Err(VarIntError::Truncated);
    }
    let b = data[pos + k];
    proof {
        lemma_pow128_grows((4 - k) as nat);
    }
    if b < 128 {
        return Ok((b as u64, pos + k + 1));
    }
    let (v, end) = read_varint_from(data, pos, k + 1)?;
    proof {
        lemma_pow128_grows((4 - k) as nat);
        lemma_pow128_5();
        assert(((5 - k) as nat) == ((4 - k) as nat) + 1);
        assert(pow128((5 - k) as nat) <= 34359738368) by {
            lemma_pow128_mono((5 - k) as nat, 5);
        }
        assert((b - 128) as nat + 128 * v < pow128((5 - k) as nat)) by (nonlinear_arith)
            requires
                v < pow128((4 - k) as nat),
                pow128((5 - k) as nat) == 128 * pow128((4 - k) as nat),
                b < 256,
                b >= 128,
        ;
    }
    Ok(((b - 128) as u64 + 128 * v, end))
}

proof fn lemma_pow128_5()
    ensures
        pow128(5) == 34359738368,
{
    assert(pow128(0) == 1);
    assert(pow128(1) == 128);
    assert(pow128(2) == 16384);
    assert(pow128(3) == 2097152);
    assert(pow128(4) == 268435456);
}

proof fn lemma_pow128_mono(a: nat, b: nat)
    requires
        a <= b,
    ensures
        pow128(a) <= pow128(b),
    decreases b,
{
    if a < b {
        lemma_pow128_mono(a, (b - 1) as nat);
        lemma_pow128_grows((b - 1) as nat);
    }
}

/// Reads a VarInt at `pos`: its value and the position after it.
pub fn read_varint(data: &[u8], pos: usize) -> (r: Result<(u64, usize), VarIntError>)
    requires
        pos <= data@.len(),
    ensures
        match varint_read(data@, pos as int, 0) {
            VarIntRead::Value(v, end) => r == Ok::<(u64, usize), VarIntError>((v as u64, end as usize))
                && pos < end <= data@.len() && v < 34359738368,
            VarIntRead::Truncated => r == Err::<(u64, usize), VarIntError>(VarIntError::Truncated),
            VarIntRead::TooLarge => r == Err::<(u64, usize), VarIntError>(VarIntError::TooLarge),
        },
{
    proof {
        lemma_read_advances(data@, pos as int, 0);
        lemma_pow128_5();
    }
    read_varint_from(data, pos, 0)
}

proof fn lemma_read_advances(data: Seq<u8>, pos: int, k: nat)
    ensures
        varint_read(data, pos, k) matches VarIntRead::Value(v, end) ==> pos + k < end <= data.len(),
    decreases 5 - k,
{
    if k < 5 && pos + k < data.len() && data[pos + k] >= 128 {
        lemma_read_advances(data, pos, k + 1);
    }
}

/// Decoding the encoding of `n` gives `n` back, for every `n` below 2^35,
/// whatever bytes follow it; the read ends just after the encoding.
pub proof fn lemma_varint_round_trip(n: nat, rest: Seq<u8>)
    requires
        n < 34359738368,
    ensures
        varint_read(varint_bytes(n) + rest, 0, 0) == VarIntRead::Value(n, varint_bytes(n).len() as int),
{
    lemma_pow128_5();
    lemma_round_trip_at(n, Seq::empty(), rest, 0);
    assert(Seq::<u8>::empty() + varint_bytes(n) + rest =~= varint_bytes(n) + rest);
}

proof fn lemma_round_trip_at(n: nat, pre: Seq<u8>, rest: Seq<u8>, k: nat)
    requires
        k < 5,
        pre.len() == k,
        forall|i: int| 0 <= i < k ==> pre[i] >= 128,
        n < pow128((5 - k) as nat),
    ensures
        varint_read(pre + varint_bytes(n) + rest, 0, k) == VarIntRead::Value(
            n,
            (k + varint_bytes(n).len()) as int,
        ),
    decreases n,
{
    let data = pre + varint_bytes(n) + rest;
    lemma_pow128_grows((4 - k) as nat);
    assert(data[k as int] == varint_bytes(n)[0]);
    if n >= 128 {
        let b = ((n % 128) + 128) as u8;
        let pre2 = pre.push(b);
        assert(pre + varint_bytes(n) =~= pre2 + varint_bytes(n / 128));
        assert(n / 128 < pow128((4 - k) as nat)) by (nonlinear_arith)
            requires
                n < pow128((5 - k) as nat),
                pow128((5 - k) as nat) == 128 * pow128((4 - k) as nat),
        ;
        if k == 4 {
            assert(pow128(1) == 128 * pow128(0));
            assert(pow128(0) == 1);
        }
        lemma_round_trip_at(n / 128, pre2, rest, k + 1);
        assert(pre2 + varint_bytes(n / 128) + rest =~= data);
    }
}

} // verus!
