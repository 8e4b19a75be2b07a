//! The request builder: turns a packet's write ops into bytes, resolving
//! variables and filling in length placeholders.
use vstd::prelude::*;
use vstd::utf8::encode_utf8;
use crate::codec::{encode_u16, encode_u32, encode_varint, pow128, u16_bytes, u32_bytes, varint_bytes};
use crate::number::{literal_uint, parse_literal};
use crate::packet_parser::{PacketCommand, PacketResponsePair, PacketScript};
use crate::text::chars_of;
use crate::value::{Json, Value};
use crate::vars::{lookup, VarTable};

verus! {

/// Why a packet could not be built.
#[derive(Debug)]
pub enum BuildError {
    /// No variable has this name.
    UnknownVariable(String),
    /// The variable's value is not an integer of the op's width.
    NotNumeric(String),
    /// The variable's value is not a string.
    NotString(String),
    /// The packet would be longer than memory can index.
    TooLarge,
}

/// The model of a [`BuildError`].
pub enum BuildFail {
    UnknownVariable(Seq<char>),
    NotNumeric(Seq<char>),
    NotString(Seq<char>),
    TooLarge,
}

impl BuildError {
    pub open spec fn view(&self) -> BuildFail {
        match self {
            BuildError::UnknownVariable(n) => BuildFail::UnknownVariable(n@),
            BuildError::NotNumeric(n) => BuildFail::NotNumeric(n@),
            BuildError::NotString(n) => BuildFail::NotString(n@),
            BuildError::TooLarge => BuildFail::TooLarge,
        }
    }
}

/// What one write op contributes before placeholders are resolved.
pub enum Piece {
    Bytes(Seq<u8>),
    IntLen(bool),
    VarLen,
}

/// The exec counterpart of [`Piece`].
pub enum PieceBuf {
    Bytes(Vec<u8>),
    IntLen(bool),
    VarLen,
}

impl PieceBuf {
    pub open spec fn view(&self) -> Piece {
        match self {
            PieceBuf::Bytes(b) => Piece::Bytes(b@),
            PieceBuf::IntLen(be) => Piece::IntLen(*be),
            PieceBuf::VarLen => Piece::VarLen,
        }
    }
}

/// The integer a variable's value gives for an op whose largest value is
/// `max`: integers wrap to the width, strings are read as literals.
pub open spec fn uint_of_json(j: Json, max: nat) -> Option<nat> {
    match j {
        Json::UInt(n) => Some(n % (max + 1)),
        Json::Int(n) => if n < 0 {
            Some(((n + 18446744073709551616int) % (max as int + 1)) as nat)
        } else {
            Some((n % (max as int + 1)) as nat)
        },
        Json::Str(s) => literal_uint(s, max),
        _ => None,
    }
}

/// `b` cut or zero-padded to exactly `n` bytes.
pub open spec fn fixed_bytes(b: Seq<u8>, n: nat) -> Seq<u8> {
    if b.len() >= n {
        b.subrange(0, n as int)
    } else {
        b + Seq::new((n - b.len()) as nat, |i: int| 0u8)
    }
}

/// The bytes of a string op: UTF-8 then a zero byte, or exactly `len` bytes.
pub open spec fn string_bytes(t: Seq<char>, len: Option<usize>) -> Seq<u8> {
    match len {
        None => encode_utf8(t).push(0u8),
        Some(n) => fixed_bytes(encode_utf8(t), n as nat),
    }
}

pub open spec fn var_uint(e: Seq<(Seq<char>, Json)>, name: Seq<char>, max: nat) -> Result<nat, BuildFail> {
    match lookup(e, name) {
        None => Err(BuildFail::UnknownVariable(name)),
        Some(j) => match uint_of_json(j, max) {
            Some(v) => Ok(v),
            None => Err(BuildFail::NotNumeric(name)),
        },
    }
}

/// What a write op contributes, given the variables.
pub open spec fn cmd_piece(c: PacketCommand, e: Seq<(Seq<char>, Json)>) -> Result<Piece, BuildFail> {
    match c {
        PacketCommand::WriteByte(v) => Ok(Piece::Bytes(seq![v])),
        PacketCommand::WriteShort(v, be) => Ok(Piece::Bytes(u16_bytes(v as nat, be))),
        PacketCommand::WriteInt(v, be) => Ok(Piece::Bytes(u32_bytes(v as nat, be))),
        PacketCommand::WriteByteVar(n) => match var_uint(e, n@, 255) {
            Ok(v) => Ok(Piece::Bytes(seq![v as u8])),
            Err(f) => Err(f),
        },
        PacketCommand::WriteShortVar(n, be) => match var_uint(e, n@, 65535) {
            Ok(v) => Ok(Piece::Bytes(u16_bytes(v, be))),
            Err(f) => Err(f),
        },
        PacketCommand::WriteIntVar(n, be) => match var_uint(e, n@, 4294967295) {
            Ok(v) => Ok(Piece::Bytes(u32_bytes(v, be))),
            Err(f) => Err(f),
        },
        PacketCommand::WriteVarIntVar(n) => match var_uint(e, n@, 18446744073709551615) {
            Ok(v) => Ok(Piece::Bytes(varint_bytes(v))),
            Err(f) => Err(f),
        },
        PacketCommand::WriteString(t, len) => Ok(Piece::Bytes(string_bytes(t@, len))),
        PacketCommand::WriteStringVar(n, len) => match lookup(e, n@) {
            None => Err(BuildFail::UnknownVariable(n@)),
            Some(Json::Str(s)) => Ok(Piece::Bytes(string_bytes(s, len))),
            Some(_) => Err(BuildFail::NotString(n@)),
        },
        PacketCommand::WriteBytes(b) => Ok(Piece::Bytes(b@)),
        PacketCommand::WriteVarInt(v) => Ok(Piece::Bytes(varint_bytes(v as nat))),
        PacketCommand::WriteVarIntLen => Ok(Piece::VarLen),
        PacketCommand::WriteIntLen(be) => Ok(Piece::IntLen(be)),
    }
}

/// The pieces of a packet's ops, or the failure of the first op that fails.
pub open spec fn pieces_of(cs: Seq<PacketCommand>, e: Seq<(Seq<char>, Json)>) -> Result<Seq<Piece>, BuildFail>
    decreases cs.len(),
{
    if cs.len() == 0 {
        Ok(Seq::empty())
    } else {
        match pieces_of(cs.drop_last(), e) {
            Err(f) => Err(f),
            Ok(ps) => match cmd_piece(cs.last(), e) {
                Err(f) => Err(f),
                Ok(p) => Ok(ps.push(p)),
            },
        }
    }
}

/// The bytes of a piece when `after` bytes follow it: a length placeholder
/// holds that count.
pub open spec fn piece_bytes(p: Piece, after: nat) -> Seq<u8> {
    match p {
        Piece::Bytes(b) => b,
        Piece::IntLen(be) => u32_bytes(after % 4294967296, be),
        Piece::VarLen => varint_bytes(after),
    }
}

/// The packet: each piece's bytes, each placeholder holding the number of
/// bytes that follow its own.
pub open spec fn assemble(ps: Seq<Piece>) -> Seq<u8>
    decreases ps.len(),
{
    if ps.len() == 0 {
        Seq::empty()
    } else {
        let rest = assemble(ps.drop_first());
        piece_bytes(ps[0], rest.len()) + rest
    }
}

proof fn lemma_assemble_skip(ps: Seq<Piece>, i: int)
    requires
        0 <= i < ps.len(),
    ensures
        assemble(ps.skip(i)) == piece_bytes(ps[i], assemble(ps.skip(i + 1)).len()) + assemble(
            ps.skip(i + 1),
        ),
{
    assert(ps.skip(i).drop_first() =~= ps.skip(i + 1));
}

proof fn lemma_assemble_suffix(ps: Seq<Piece>, i: int)
    requires
        0 <= i <= ps.len(),
    ensures
        assemble(ps.skip(i)).len() <= assemble(ps).len(),
        assemble(ps) == assemble(ps).subrange(0, assemble(ps).len() - assemble(ps.skip(i)).len())
            + assemble(ps.skip(i)),
    decreases i,
{
    if i == 0 {
        assert(ps.skip(0) =~= ps);
        assert(assemble(ps).subrange(0, 0) + assemble(ps) =~= assemble(ps));
    } else {
        lemma_assemble_suffix(ps, i - 1);
        lemma_assemble_skip(ps, i - 1);
        let t = assemble(ps);
        let a = assemble(ps.skip(i - 1));
        let b = assemble(ps.skip(i));
        assert(t =~= t.subrange(0, t.len() - b.len()) + b);
    }
}

/// Every length placeholder holds the number of bytes emitted after its own
/// bytes: the packet reads as what precedes it, its own bytes, then exactly
/// the bytes that follow, and its own bytes encode their count (a
/// four-byte one modulo 2^32, a VarInt one exactly).
pub proof fn lemma_length_placeholders(ps: Seq<Piece>, j: int)
    requires
        0 <= j < ps.len(),
    ensures
        ({
            let total = assemble(ps);
            let after = assemble(ps.skip(j + 1));
            let own = piece_bytes(ps[j], after.len());
            let start = total.len() - own.len() - after.len();
            &&& 0 <= start
            &&& total == total.subrange(0, start) + own + after
            &&& after.len() == total.len() - start - own.len()
            &&& (ps[j] matches Piece::IntLen(be) ==> own == u32_bytes(after.len() % 4294967296, be))
            &&& (ps[j] is VarLen ==> own == varint_bytes(after.len()))
        }),
{
    lemma_assemble_suffix(ps, j);
    lemma_assemble_skip(ps, j);
    let total = assemble(ps);
    let after = assemble(ps.skip(j + 1));
    let own = piece_bytes(ps[j], after.len());
    let start = total.len() - own.len() - after.len();
    assert(total =~= total.subrange(0, start) + own + after);
}

fn value_uint(v: &Value, max: u64) -> (r: Option<u64>)
    ensures
        match uint_of_json(v.model(), max as nat) {
            Some(n) => r == Some(n as u64),
            None => r.is_none(),
        },
{
    match v {
        Value::UInt(n) => {
            if max == 18446744073709551615u64 {
                proof {
                    assert((*n as nat) % 18446744073709551616nat == *n as nat);
                }
                Some(*n)
            } else {
                Some(*n % (max + 1))
            }
        },
        Value::Int(n) => {
            let m: u64 = if *n < 0 { (-(*n + 1)) as u64 } else { 0 };
            let w: u64 = if *n < 0 { 18446744073709551615u64 - m } else { *n as u64 };
            proof {
                if *n < 0 {
                    assert(w == *n + 18446744073709551616int);
                }
            }
            if max == 18446744073709551615u64 {
                proof {
                    assert((w as nat) % 18446744073709551616nat == w as nat);
                }
                Some(w)
            } else {
                Some(w % (max + 1))
            }
        },
        Value::Str(s) => {
            let cs = chars_of(s.as_str());
            parse_literal(cs.as_slice(), max)
        },
        _ => None,
    }
}

fn var_value(vars: &VarTable, name: &String, max: u64) -> (r: Result<u64, BuildError>)
    ensures
        match var_uint(vars.entries(), name@, max as nat) {
            Ok(n) => r matches Ok(x) && x == n,
            Err(f) => r matches Err(x) && x.view() == f,
        },
{
    match vars.get(name.as_str()) {
        None => Err(BuildError::UnknownVariable(name.clone())),
        Some(v) => match value_uint(v, max) {
            Some(n) => Ok(n),
            None => Err(BuildError::NotNumeric(name.clone())),
        },
    }
}

fn str_bytes(t: &String, len: Option<usize>) -> (r: Vec<u8>)
    ensures
        r@ == string_bytes(t@, len),
{
    let b = t.as_str().as_bytes();
    let mut out: Vec<u8> = Vec::new();
    match len {
        None => {
            out.extend_from_slice(b);
            out.push(0);
            proof {
                assert(out@ =~= encode_utf8(t@).push(0u8));
            }
        },
        Some(n) => {
            let mut i: usize = 0;
            while i < n
                invariant
                    b@ == encode_utf8(t@),
                    i <= n,
                    out@.len() == i,
                    forall|k: int|
                        0 <= k < i ==> #[trigger] out@[k] == (if k < b@.len() { b@[k] } else { 0u8 }),
                decreases n - i,
            {
                if i < b.len() {
                    out.push(b[i]);
                } else {
                    out.push(0);
                }
                i = i + 1;
            }
            proof {
                assert(out@ =~= fixed_bytes(encode_utf8(t@), n as nat));
            }
        },
    }
    out
}

fn emit_piece(c: &PacketCommand, vars: &VarTable) -> (r: Result<PieceBuf, BuildError>)
    ensures
        match cmd_piece(*c, vars.entries()) {
            Ok(p) => r matches Ok(x) && x.view() == p,
            Err(f) => r matches Err(x) && x.view() == f,
        },
{
    match c {
        PacketCommand::WriteByte(v) => {
            let b = vec![*v];
            proof {
                assert(b@ =~= seq![*v]);
            }
            Ok(PieceBuf::Bytes(b))
        },
        PacketCommand::WriteShort(v, be) => Ok(PieceBuf::Bytes(encode_u16(*v, *be))),
        PacketCommand::WriteInt(v, be) => Ok(PieceBuf::Bytes(encode_u32(*v, *be))),
        PacketCommand::WriteByteVar(n) => {
            let v = var_value(vars, n, 255)?;
            let b = vec![v as u8];
            proof {
                assert(b@ =~= seq![v as u8]);
            }
            Ok(PieceBuf::Bytes(b))
        },
        PacketCommand::WriteShortVar(n, be) => {
            let v = var_value(vars, n, 65535)?;
            Ok(PieceBuf::Bytes(encode_u16(v as u16, *be)))
        },
        PacketCommand::WriteIntVar(n, be) => {
            let v = var_value(vars, n, 4294967295)?;
            Ok(PieceBuf::Bytes(encode_u32(v as u32, *be)))
        },
        PacketCommand::WriteVarIntVar(n) => {
            let v = var_value(vars, n, 18446744073709551615)?;
            Ok(PieceBuf::Bytes(encode_varint(v)))
        },
        PacketCommand::WriteString(t, len) => Ok(PieceBuf::Bytes(str_bytes(t, *len))),
        PacketCommand::WriteStringVar(n, len) => match vars.get(n.as_str()) {
            None => Err(BuildError::UnknownVariable(n.clone())),
            Some(v) => match v.as_str() {
                Some(s) => Ok(PieceBuf::Bytes(str_bytes(s, *len))),
                None => Err(BuildError::NotString(n.clone())),
            },
        },
        PacketCommand::WriteBytes(b) => {
            let mut out: Vec<u8> = Vec::new();
            out.extend_from_slice(b.as_slice());
            proof {
                assert(out@ =~= b@);
            }
            Ok(PieceBuf::Bytes(out))
        },
        PacketCommand::WriteVarInt(v) => Ok(PieceBuf::Bytes(encode_varint(*v))),
        PacketCommand::WriteVarIntLen => Ok(PieceBuf::VarLen),
        PacketCommand::WriteIntLen(be) => Ok(PieceBuf::IntLen(*be)),
    }
}

fn varint_len(n: u64) -> (r: usize)
    ensures
        r == varint_bytes(n as nat).len(),
        r <= 10,
{
    let e = encode_varint(n);
    proof {
        lemma_varint_len(n as nat);
    }
    e.len()
}

proof fn lemma_varint_len(n: nat)
    ensures
        n < 18446744073709551616 ==> varint_bytes(n).len() <= 10,
{
    lemma_pow128_10();
    lemma_varint_len_k(n, 10);
}

proof fn lemma_varint_len_k(n: nat, k: nat)
    requires
        k >= 1,
    ensures
        n < pow128(k) ==> varint_bytes(n).len() <= k,
    decreases n,
{
    if n < pow128(k) {
        if n >= 128 {
            assert(pow128(0) == 1);
            assert(pow128(1) == 128);
            assert(pow128(k) == 128 * pow128((k - 1) as nat));
            assert(n / 128 < pow128((k - 1) as nat)) by (nonlinear_arith)
                requires
                    n < 128 * pow128((k - 1) as nat),
            ;
            lemma_varint_len_k(n / 128, (k - 1) as nat);
            assert(varint_bytes(n).len() == 1 + varint_bytes(n / 128).len());
        }
    }
}

proof fn lemma_pow128_10()
    ensures
        pow128(10) >= 18446744073709551616,
{
    assert(pow128(0) == 1);
    assert(pow128(1) == 128);
    assert(pow128(2) == 16384);
    assert(pow128(3) == 2097152);
    assert(pow128(4) == 268435456);
    assert(pow128(5) == 34359738368);
    assert(pow128(6) == 4398046511104);
    assert(pow128(7) == 562949953421312);
    assert(pow128(8) == 72057594037927936);
    assert(pow128(9) == 9223372036854775808);
    assert(pow128(10) == 1180591620717411303424);
}

/// Builds one packet from its write ops: the ops' bytes in order, each
/// length placeholder holding the count of bytes after it.
pub fn build_packet_bytes(cmds: &Vec<PacketCommand>, vars: &VarTable) -> (r: Result<Vec<u8>, BuildError>)
    ensures
        match pieces_of(cmds@, vars.entries()) {
            Err(f) => r matches Err(x) && x.view() == f,
            Ok(ps) => if assemble(ps).len() <= usize::MAX {
                r matches Ok(b) && b@ == assemble(ps)
            } else {
                r matches Err(x) && x is TooLarge
            },
        },
{
    let mut pieces: Vec<PieceBuf> = Vec::new();
    let mut i: usize = 0;
    proof {
        assert(cmds@.subrange(0, 0) =~= Seq::<PacketCommand>::empty());
        assert(pieces@.map_values(|p: PieceBuf| p.view()) =~= Seq::<Piece>::empty());
    }
    while i < cmds.len()
        invariant
            i <= cmds@.len(),
            pieces_of(cmds@.subrange(0, i as int), vars.entries()) == Ok::<Seq<Piece>, BuildFail>(
                pieces@.map_values(|p: PieceBuf| p.view()),
            ),
        decreases cmds.len() - i,
    {
        proof {
            assert(cmds@.subrange(0, i as int + 1).drop_last() =~= cmds@.subrange(0, i as int));
        }
        let ghost before = pieces@;
        let p = match emit_piece(&cmds[i], vars) {
            Ok(p) => p,
            Err(e) => {
                proof {
                    lemma_pieces_err(cmds@, vars.entries(), i as int + 1);
                }
                return Err(e);
            },
        };
        pieces.push(p);
        proof {
            assert(pieces@.map_values(|p: PieceBuf| p.view()) =~= before.map_values(
                |p: PieceBuf| p.view(),
            ).push(p.view()));
        }
        i = i + 1;
    }
    proof {
        assert(cmds@.subrange(0, cmds@.len() as int) =~= cmds@);
    }
    let ghost ps = pieces@.map_values(|p: PieceBuf| p.view());
    // Resolve from the last piece to the first, tracking how many bytes follow.
    let n = pieces.len();
    let mut rev: Vec<Vec<u8>> = Vec::new();
    let mut suf: usize = 0;
    let mut k: usize = n;
    while k > 0
        invariant
            n == pieces@.len() == ps.len(),
            ps == pieces@.map_values(|p: PieceBuf| p.view()),
            pieces_of(cmds@, vars.entries()) == Ok::<Seq<Piece>, BuildFail>(ps),
            k <= n,
            rev@.len() == n - k,
            suf == assemble(ps.skip(k as int)).len(),
            forall|m: int|
                0 <= m < n - k ==> #[trigger] rev@[m]@ == piece_bytes(
                    ps[n - 1 - m],
                    assemble(ps.skip(n - m)).len(),
                ),
        decreases k,
    {
        proof {
            lemma_assemble_skip(ps, k - 1);
        }
        let own: Vec<u8> = match &pieces[k - 1] {
            PieceBuf::Bytes(b) => {
                let mut o: Vec<u8> = Vec::new();
                o.extend_from_slice(b.as_slice());
                proof {
                    assert(o@ =~= b@);
                }
                o
            },
            PieceBuf::IntLen(be) => encode_u32(((suf as u64) % 4294967296) as u32, *be),
            PieceBuf::VarLen => encode_varint(suf as u64),
        };
        if own.len() > usize::MAX - suf {
            proof {
                lemma_assemble_suffix(ps, k - 1);
                assert(own@ == piece_bytes(ps[k - 1], suf as nat));
            }
            return Err(BuildError::TooLarge);
        }
        suf = suf + own.len();
        rev.push(own);
        k = k - 1;
    }
    proof {
        assert(ps.skip(0) =~= ps);
    }
    let mut out: Vec<u8> = Vec::new();
    let mut j: usize = 0;
    while j < n
        invariant
            n == ps.len() == rev@.len(),
            pieces_of(cmds@, vars.entries()) == Ok::<Seq<Piece>, BuildFail>(ps),
            j <= n,
            suf == assemble(ps).len(),
            forall|m: int|
                0 <= m < n ==> #[trigger] rev@[m]@ == piece_bytes(
                    ps[n - 1 - m],
                    assemble(ps.skip(n - m)).len(),
                ),
            out@ + assemble(ps.skip(j as int)) == assemble(ps),
        decreases n - j,
    {
        proof {
            lemma_assemble_skip(ps, j as int);
            assert(rev@[n - 1 - j]@ == piece_bytes(ps[j as int], assemble(ps.skip(j + 1)).len()));
        }
        out.extend_from_slice(rev[n - 1 - j].as_slice());
        proof {
            assert(out@ + assemble(ps.skip(j + 1)) =~= assemble(ps));
        }
        j = j + 1;
    }
    proof {
        assert(assemble(ps.skip(n as int)) =~= Seq::<u8>::empty()) by {
            assert(ps.skip(n as int) =~= Seq::<Piece>::empty());
        }
        assert(out@ =~= assemble(ps));
    }
    Ok(out)
}

/// Once a prefix of the ops fails, the whole list fails the same way.
proof fn lemma_pieces_err(cs: Seq<PacketCommand>, e: Seq<(Seq<char>, Json)>, i: int)
    requires
        0 <= i <= cs.len(),
        pieces_of(cs.subrange(0, i), e) is Err,
    ensures
        pieces_of(cs, e) == pieces_of(cs.subrange(0, i), e),
    decreases cs.len() - i,
{
    if i < cs.len() {
        assert(cs.subrange(0, i + 1).drop_last() =~= cs.subrange(0, i));
        lemma_pieces_err(cs, e, i + 1);
    } else {
        assert(cs.subrange(0, i) =~= cs);
    }
}

} // verus!

verus! {

/// Whether `b` is what the ops `cs` build with the variables `e`.
pub open spec fn builds_to(cs: Seq<PacketCommand>, e: Seq<(Seq<char>, Json)>, b: Seq<u8>) -> bool {
    match pieces_of(cs, e) {
        Ok(ps) => assemble(ps) == b,
        Err(_) => false,
    }
}

/// The build of one packet: its bytes, or the failure of its first
/// failing op (or `TooLarge` when the bytes would not fit in memory).
pub open spec fn packet_build(cs: Seq<PacketCommand>, e: Seq<(Seq<char>, Json)>) -> Result<Seq<u8>, BuildFail> {
    match pieces_of(cs, e) {
        Err(f) => Err(f),
        Ok(ps) => if assemble(ps).len() <= usize::MAX { Ok(assemble(ps)) } else { Err(BuildFail::TooLarge) },
    }
}

/// The builds of a list of packets, in order, or the first failure.
pub open spec fn packets_build(ps: Seq<Seq<PacketCommand>>, e: Seq<(Seq<char>, Json)>) -> Result<Seq<Seq<u8>>, BuildFail>
    decreases ps.len(),
{
    if ps.len() == 0 {
        Ok(Seq::empty())
    } else {
        match packets_build(ps.drop_last(), e) {
            Err(f) => Err(f),
            Ok(bs) => match packet_build(ps.last(), e) {
                Err(f) => Err(f),
                Ok(b) => Ok(bs.push(b)),
            },
        }
    }
}

pub open spec fn pair_ops(p: PacketResponsePair) -> Seq<Seq<PacketCommand>> {
    p.packets@.map_values(|k: Vec<PacketCommand>| k@)
}

/// The builds of every packet of every pair, pair by pair and packet by
/// packet, or the first failure.
pub open spec fn script_build(pairs: Seq<PacketResponsePair>, e: Seq<(Seq<char>, Json)>) -> Result<Seq<Seq<u8>>, BuildFail>
    decreases pairs.len(),
{
    if pairs.len() == 0 {
        Ok(Seq::empty())
    } else {
        match script_build(pairs.drop_last(), e) {
            Err(f) => Err(f),
            Ok(bs) => match packets_build(pair_ops(pairs.last()), e) {
                Err(f) => Err(f),
                Ok(b2) => Ok(bs + b2),
            },
        }
    }
}

proof fn lemma_packets_build_err(ps: Seq<Seq<PacketCommand>>, e: Seq<(Seq<char>, Json)>, i: int)
    requires
        0 <= i <= ps.len(),
        packets_build(ps.subrange(0, i), e) is Err,
    ensures
        packets_build(ps, e) == packets_build(ps.subrange(0, i), e),
    decreases ps.len() - i,
{
    if i < ps.len() {
        assert(ps.subrange(0, i + 1).drop_last() =~= ps.subrange(0, i));
        lemma_packets_build_err(ps, e, i + 1);
    } else {
        assert(ps.subrange(0, i) =~= ps);
    }
}

/// A failing packet makes the whole list fail the same way.
pub proof fn lemma_packets_build_err_pub(ps: Seq<Seq<PacketCommand>>, e: Seq<(Seq<char>, Json)>, i: int)
    requires
        0 <= i <= ps.len(),
        packets_build(ps.subrange(0, i), e) is Err,
    ensures
        packets_build(ps, e) == packets_build(ps.subrange(0, i), e),
{
    lemma_packets_build_err(ps, e, i);
}

proof fn lemma_script_build_err(ps: Seq<PacketResponsePair>, e: Seq<(Seq<char>, Json)>, i: int)
    requires
        0 <= i <= ps.len(),
        script_build(ps.subrange(0, i), e) is Err,
    ensures
        script_build(ps, e) == script_build(ps.subrange(0, i), e),
    decreases ps.len() - i,
{
    if i < ps.len() {
        assert(ps.subrange(0, i + 1).drop_last() =~= ps.subrange(0, i));
        lemma_script_build_err(ps, e, i + 1);
    } else {
        assert(ps.subrange(0, i) =~= ps);
    }
}

pub open spec fn bufs_view(v: Seq<Vec<u8>>) -> Seq<Seq<u8>> {
    v.map_values(|b: Vec<u8>| b@)
}

/// The packets of every pair of a script, in order, built with the given
/// variables; the first failure stops the build.
pub fn build_packets_with_vars(script: &PacketScript, vars: &VarTable) -> (r: Result<Vec<Vec<u8>>, BuildError>)
    ensures
        match script_build(script.pairs@, vars.entries()) {
            Ok(bs) => r matches Ok(v) && bufs_view(v@) == bs,
            Err(f) => r matches Err(x) && x.view() == f,
        },
{
    let ghost e = vars.entries();
    let mut out: Vec<Vec<u8>> = Vec::new();
    let mut p: usize = 0;
    proof {
        assert(script.pairs@.subrange(0, 0) =~= Seq::<PacketResponsePair>::empty());
        assert(bufs_view(out@) =~= Seq::<Seq<u8>>::empty());
    }
    while p < script.pairs.len()
        invariant
            e == vars.entries(),
            p <= script.pairs@.len(),
            script_build(script.pairs@.subrange(0, p as int), e) == Ok::<Seq<Seq<u8>>, BuildFail>(bufs_view(out@)),
        decreases script.pairs.len() - p,
    {
        let pair = &script.pairs[p];
        let ghost before = bufs_view(out@);
        let ghost ops = pair_ops(*pair);
        let mut k: usize = 0;
        proof {
            assert(ops.subrange(0, 0) =~= Seq::<Seq<PacketCommand>>::empty());
            assert(before + Seq::<Seq<u8>>::empty() =~= before);
        }
        while k < pair.packets.len()
            invariant
                e == vars.entries(),
                p < script.pairs@.len(),
                *pair == script.pairs@[p as int],
                ops == pair_ops(*pair),
                k <= pair.packets@.len(),
                script_build(script.pairs@.subrange(0, p as int), e) == Ok::<Seq<Seq<u8>>, BuildFail>(before),
                packets_build(ops.subrange(0, k as int), e) matches Ok(b2) && bufs_view(out@) == before + b2,
            decreases pair.packets.len() - k,
        {
            proof {
                assert(ops.subrange(0, k + 1).drop_last() =~= ops.subrange(0, k as int));
                assert(ops.subrange(0, k + 1).last() == pair.packets@[k as int]@);
            }
            let ghost b2 = packets_build(ops.subrange(0, k as int), e)->Ok_0;
            match build_packet_bytes(&pair.packets[k], vars) {
                Ok(b) => {
                    let ghost o = out@;
                    out.push(b);
                    proof {
                        assert(bufs_view(out@) =~= bufs_view(o).push(b@));
                        assert(before + b2.push(b@) =~= (before + b2).push(b@));
                    }
                },
                Err(x) => {
                    proof {
                        lemma_packets_build_err(ops, e, k + 1);
                        assert(script.pairs@.subrange(0, p + 1).drop_last() =~= script.pairs@.subrange(0, p as int));
                        assert(script.pairs@.subrange(0, p + 1).last() == *pair);
                        assert(ops.subrange(0, ops.len() as int) =~= ops);
                        lemma_script_build_err(script.pairs@, e, p + 1);
                    }
                    return Err(x);
                },
            }
            k = k + 1;
        }
        proof {
            assert(ops.subrange(0, ops.len() as int) =~= ops);
            assert(script.pairs@.subrange(0, p + 1).drop_last() =~= script.pairs@.subrange(0, p as int));
            assert(script.pairs@.subrange(0, p + 1).last() == *pair);
        }
        p = p + 1;
    }
    proof {
        assert(script.pairs@.subrange(0, script.pairs@.len() as int) =~= script.pairs@);
    }
    Ok(out)
}

/// The packets of a script built without variables.
pub fn build_packets(script: &PacketScript) -> (r: Result<Vec<Vec<u8>>, BuildError>)
    ensures
        match script_build(script.pairs@, Seq::empty()) {
            Ok(bs) => r matches Ok(v) && bufs_view(v@) == bs,
            Err(f) => r matches Err(x) && x.view() == f,
        },
{
    let vars = VarTable::new();
    build_packets_with_vars(script, &vars)
}

} // verus!
