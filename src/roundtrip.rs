//! The request builder and the response parser are inverse: what a write
//! op emits, its matching read op reads back.
use vstd::prelude::*;
use vstd::utf8::{decode_utf8, encode_utf8, is_ascii_chars, is_ascii_chars_encode_utf8, encode_utf8_decode_utf8, encode_utf8_valid_utf8};
use crate::builder::{cmd_piece, fixed_bytes, string_bytes, var_uint, BuildFail, Piece};
use crate::codec::{lemma_u16_round_trip, lemma_u32_round_trip, lemma_varint_round_trip, u16_bytes, u32_bytes, varint_bytes};
use crate::packet_parser::{PacketCommand, ResponseCommand};
use crate::response::{lossy_text, read_op, trim_nul_end, zero_at_or_after, Step};
use crate::value::Json;
use crate::vars::lookup;

verus! {

/// The read op that reads back what a write op emits, into `name`.
pub open spec fn inverse_read(c: PacketCommand, name: String) -> Option<ResponseCommand> {
    match c {
        PacketCommand::WriteByte(_) | PacketCommand::WriteByteVar(_) => Some(ResponseCommand::ReadByte(name)),
        PacketCommand::WriteShort(_, be) | PacketCommand::WriteShortVar(_, be) => Some(ResponseCommand::ReadShort(name, be)),
        PacketCommand::WriteInt(_, be) | PacketCommand::WriteIntVar(_, be) => Some(ResponseCommand::ReadInt(name, be)),
        PacketCommand::WriteVarInt(_) | PacketCommand::WriteVarIntVar(_) => Some(ResponseCommand::ReadVarInt(name)),
        PacketCommand::WriteString(_, None) | PacketCommand::WriteStringVar(_, None) => Some(ResponseCommand::ReadStringNull(name)),
        PacketCommand::WriteString(_, Some(n)) | PacketCommand::WriteStringVar(_, Some(n)) => Some(ResponseCommand::ReadString(name, Some(n))),
        _ => None,
    }
}

/// The value a write op writes, given the variables.
pub open spec fn written_value(c: PacketCommand, e: Seq<(Seq<char>, Json)>) -> Option<Json> {
    match c {
        PacketCommand::WriteByte(v) => Some(Json::UInt(v as nat)),
        PacketCommand::WriteShort(v, _) => Some(Json::UInt(v as nat)),
        PacketCommand::WriteInt(v, _) => Some(Json::UInt(v as nat)),
        PacketCommand::WriteVarInt(v) => Some(Json::UInt(v as nat)),
        PacketCommand::WriteByteVar(n) => match var_uint(e, n@, 255) { Ok(v) => Some(Json::UInt(v)), Err(_) => None },
        PacketCommand::WriteShortVar(n, _) => match var_uint(e, n@, 65535) { Ok(v) => Some(Json::UInt(v)), Err(_) => None },
        PacketCommand::WriteIntVar(n, _) => match var_uint(e, n@, 4294967295) { Ok(v) => Some(Json::UInt(v)), Err(_) => None },
        PacketCommand::WriteVarIntVar(n) => match var_uint(e, n@, 18446744073709551615) { Ok(v) => Some(Json::UInt(v)), Err(_) => None },
        PacketCommand::WriteString(t, _) => Some(Json::Str(t@)),
        PacketCommand::WriteStringVar(n, _) => match lookup(e, n@) { Some(Json::Str(s)) => Some(Json::Str(s)), _ => None },
        _ => None,
    }
}

/// The text a string op writes.
pub open spec fn written_text(c: PacketCommand, e: Seq<(Seq<char>, Json)>) -> Seq<char> {
    match written_value(c, e) {
        Some(Json::Str(s)) => s,
        _ => Seq::empty(),
    }
}

proof fn lemma_ascii_no_zero(t: Seq<char>)
    requires
        is_ascii_chars(t),
        forall|i: int| 0 <= i < t.len() ==> t[i] != '\0',
    ensures
        encode_utf8(t).len() == t.len(),
        forall|i: int| 0 <= i < t.len() ==> encode_utf8(t)[i] != 0,
{
    is_ascii_chars_encode_utf8(t);
    assert forall|i: int| 0 <= i < t.len() implies encode_utf8(t)[i] != 0 by {
        assert(encode_utf8(t)[i] == t[i] as u8);
        assert((t[i] as u32) < 128);
        assert(t[i] as u32 != 0);
    }
}

proof fn lemma_zero_at_first(data: Seq<u8>, cur: int, k: int)
    requires
        0 <= cur <= k < data.len(),
        data[k] == 0,
        forall|i: int| cur <= i < k ==> data[i] != 0,
    ensures
        zero_at_or_after(data, cur) == k,
    decreases k - cur,
{
    if cur < k {
        lemma_zero_at_first(data, cur + 1, k);
    }
}

proof fn rt_byte(v: u8, name: String, rest: Seq<u8>)
    ensures
        read_op(ResponseCommand::ReadByte(name), seq![v] + rest, 0, 1) == Step::Next(Some((name@, Json::UInt(v as nat))), 1),
{
    assert((seq![v] + rest)[0] == v);
}

proof fn rt_short(v: nat, be: bool, name: String, rest: Seq<u8>)
    requires
        v < 65536,
    ensures
        read_op(ResponseCommand::ReadShort(name, be), u16_bytes(v, be) + rest, 0, 1) == Step::Next(Some((name@, Json::UInt(v))), 2),
{
    lemma_u16_round_trip(v, be);
    assert((u16_bytes(v, be) + rest).subrange(0, 2) =~= u16_bytes(v, be));
}

proof fn rt_int(v: nat, be: bool, name: String, rest: Seq<u8>)
    requires
        v < 4294967296,
    ensures
        read_op(ResponseCommand::ReadInt(name, be), u32_bytes(v, be) + rest, 0, 1) == Step::Next(Some((name@, Json::UInt(v))), 4),
{
    lemma_u32_round_trip(v, be);
    assert((u32_bytes(v, be) + rest).subrange(0, 4) =~= u32_bytes(v, be));
}

proof fn rt_varint(v: nat, name: String, rest: Seq<u8>)
    requires
        v < 34359738368,
    ensures
        read_op(ResponseCommand::ReadVarInt(name), varint_bytes(v) + rest, 0, 1) == Step::Next(Some((name@, Json::UInt(v))), varint_bytes(v).len()),
{
    lemma_varint_round_trip(v, rest);
}

proof fn rt_cstr(t: Seq<char>, name: String, rest: Seq<u8>)
    requires
        is_ascii_chars(t),
        forall|i: int| 0 <= i < t.len() ==> t[i] != '\0',
    ensures
        read_op(ResponseCommand::ReadStringNull(name), string_bytes(t, None) + rest, 0, 1) == Step::Next(Some((name@, Json::Str(t))), string_bytes(t, None).len()),
{
    lemma_ascii_no_zero(t);
    let enc = encode_utf8(t);
    let data = string_bytes(t, None) + rest;
    assert(data[enc.len() as int] == 0);
    assert forall|i: int| 0 <= i < enc.len() implies data[i] != 0 by {
        assert(data[i] == enc[i]);
    }
    lemma_zero_at_first(data, 0, enc.len() as int);
    assert(data.subrange(0, enc.len() as int) =~= enc);
    encode_utf8_valid_utf8(t);
    encode_utf8_decode_utf8(t);
}

proof fn rt_fixed(t: Seq<char>, n: usize, name: String, rest: Seq<u8>)
    ensures
        read_op(ResponseCommand::ReadString(name, Some(n)), string_bytes(t, Some(n)) + rest, 0, 1) == Step::Next(
            Some((name@, Json::Str(trim_nul_end(lossy_text(fixed_bytes(encode_utf8(t), n as nat)))))),
            n as nat,
        ),
{
    let b = string_bytes(t, Some(n));
    assert(b.len() == n);
    assert((b + rest).subrange(0, n as int) =~= b);
}

/// Building then parsing recovers the values: for a write op that builds,
/// the matching read op, run on the op's bytes followed by anything, reads
/// back the value written (an integer, the text of a null-terminated
/// string, or, for a fixed-length string, the text cut or padded to that
/// length with its trailing NULs removed) and stops just after those bytes.
/// A null-terminated string is covered for ASCII text without NUL
/// characters, a VarInt for values below 2^35.
#[verifier::rlimit(100)]
pub proof fn lemma_build_parse_round_trip(c: PacketCommand, e: Seq<(Seq<char>, Json)>, name: String, rest: Seq<u8>)
    requires
        cmd_piece(c, e) matches Ok(Piece::Bytes(_)),
        inverse_read(c, name) is Some,
        (c is WriteVarInt || c is WriteVarIntVar) ==> (written_value(c, e) matches Some(Json::UInt(v)) && v < 34359738368),
        (c matches PacketCommand::WriteString(_, None) || c matches PacketCommand::WriteStringVar(_, None)) ==> (
            is_ascii_chars(written_text(c, e)) && forall|i: int| 0 <= i < written_text(c, e).len() ==> written_text(c, e)[i] != '\0'),
    ensures
        ({
            let b = cmd_piece(c, e)->Ok_0->Bytes_0;
            let r = inverse_read(c, name)->0;
            match r {
                ResponseCommand::ReadString(_, Some(n)) => read_op(r, b + rest, 0, 1) == Step::Next(
                    Some((name@, Json::Str(trim_nul_end(lossy_text(fixed_bytes(encode_utf8(written_text(c, e)), n as nat)))))),
                    n as nat,
                ),
                _ => read_op(r, b + rest, 0, 1) == Step::Next(Some((name@, written_value(c, e)->0)), b.len()),
            }
        }),
{
    match c {
        PacketCommand::WriteByte(v) => rt_byte(v, name, rest),
        PacketCommand::WriteByteVar(n) => rt_byte(var_uint(e, n@, 255)->Ok_0 as u8, name, rest),
        PacketCommand::WriteShort(v, be) => rt_short(v as nat, be, name, rest),
        PacketCommand::WriteShortVar(n, be) => rt_short(var_uint(e, n@, 65535)->Ok_0, be, name, rest),
        PacketCommand::WriteInt(v, be) => rt_int(v as nat, be, name, rest),
        PacketCommand::WriteIntVar(n, be) => rt_int(var_uint(e, n@, 4294967295)->Ok_0, be, name, rest),
        PacketCommand::WriteVarInt(v) => rt_varint(v as nat, name, rest),
        PacketCommand::WriteVarIntVar(n) => rt_varint(var_uint(e, n@, 18446744073709551615)->Ok_0, name, rest),
        PacketCommand::WriteString(t, None) => rt_cstr(t@, name, rest),
        PacketCommand::WriteStringVar(n, None) => rt_cstr(written_text(c, e), name, rest),
        PacketCommand::WriteString(t, Some(k)) => rt_fixed(t@, k, name, rest),
        PacketCommand::WriteStringVar(n, Some(k)) => rt_fixed(written_text(c, e), k, name, rest),
        _ => {},
    }
}

} // verus!
