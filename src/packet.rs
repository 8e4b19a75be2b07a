//! The single-packet request format: one list of write ops between
//! `PACKET_START` and `PACKET_END`, and one list of read ops between
//! `RESPONSE_START` and `RESPONSE_END`, with fixed-width values only.
use vstd::prelude::*;
use crate::codec::{encode_u16, encode_u32, u16_bytes, u32_bytes};
use crate::lexicon::{find_from, hex_bytes, hex_decode, hex_ok};
use crate::number::{parse_uint, parse_uint_spec};
use crate::packet_parser::{at_line, SyntaxError};
use crate::value::Value;
use crate::text::{chars_of, has_prefix, is_word, lines_spec, replace_all, replace_chars, slice_range, split_lines, split_words, string_of, trim, trim_spec, words};

verus! {

#[derive(Debug)]
pub enum PacketCommand {
    PacketStart,
    PacketEnd,
    WriteByte(u8),
    /// value, big-endian
    WriteShort(u16, bool),
    /// value, big-endian
    WriteInt(u32, bool),
    WriteString(String),
    WriteStringLen(String, usize),
    WriteBytes(Vec<u8>),
}

/// The model of a [`PacketCommand`].
pub enum LCmd {
    PacketStart,
    PacketEnd,
    WriteByte(u8),
    WriteShort(u16, bool),
    WriteInt(u32, bool),
    WriteString(Seq<char>),
    WriteStringLen(Seq<char>, usize),
    WriteBytes(Seq<u8>),
}

impl PacketCommand {
    pub open spec fn view(&self) -> LCmd {
        match self {
            PacketCommand::PacketStart => LCmd::PacketStart,
            PacketCommand::PacketEnd => LCmd::PacketEnd,
            PacketCommand::WriteByte(v) => LCmd::WriteByte(*v),
            PacketCommand::WriteShort(v, be) => LCmd::WriteShort(*v, *be),
            PacketCommand::WriteInt(v, be) => LCmd::WriteInt(*v, *be),
            PacketCommand::WriteString(s) => LCmd::WriteString(s@),
            PacketCommand::WriteStringLen(s, n) => LCmd::WriteStringLen(s@, *n),
            PacketCommand::WriteBytes(b) => LCmd::WriteBytes(b@),
        }
    }
}

/// A value of this format: `0x` then hexadecimal, else decimal.
pub open spec fn value_spec(t: Seq<char>, max: nat) -> Option<nat> {
    let a = trim_spec(t);
    if a.len() >= 2 && a[0] == '0' && a[1] == 'x' {
        parse_uint_spec(a.subrange(2, a.len() as int), 16, max)
    } else {
        parse_uint_spec(a, 10, max)
    }
}

fn value_of(t: &[char], max: u64) -> (r: Option<u64>)
    ensures
        match value_spec(t@, max as nat) {
            Some(v) => r == Some(v as u64),
            None => r.is_none(),
        },
{
    let a = trim(t);
    if a.len() >= 2 && a[0] == '0' && a[1] == 'x' {
        let d = slice_range(a.as_slice(), 2, a.len());
        parse_uint(d.as_slice(), 16, max)
    } else {
        parse_uint(a.as_slice(), 10, max)
    }
}

/// The text after `p` when the line starts with it.
pub open spec fn after(line: Seq<char>, p: Seq<char>) -> Option<Seq<char>> {
    if p.len() <= line.len() && line.subrange(0, p.len() as int) == p {
        Some(line.subrange(p.len() as int, line.len() as int))
    } else {
        None
    }
}

/// The position of the last `"` in `s`, or -1.
pub open spec fn last_quote(s: Seq<char>) -> int
    decreases s.len(),
{
    if s.len() == 0 {
        -1
    } else if s.last() == '"' {
        s.len() - 1
    } else {
        last_quote(s.drop_last())
    }
}

fn rfind_quote(s: &[char]) -> (r: Option<usize>)
    ensures
        match r {
            Some(i) => last_quote(s@) == i && i < s@.len(),
            None => last_quote(s@) == -1,
        },
{
    let mut n: usize = s.len();
    proof {
        assert(s@.subrange(0, n as int) =~= s@);
    }
    while n > 0
        invariant
            n <= s@.len(),
            last_quote(s@.subrange(0, n as int)) == last_quote(s@),
        decreases n,
    {
        proof {
            assert(s@.subrange(0, n as int).drop_last() =~= s@.subrange(0, n - 1));
        }
        if s[n - 1] == '"' {
            return Some(n - 1);
        }
        n = n - 1;
    }
    None
}

/// The write op (or `None` for an error) of a trimmed line inside a packet.
pub open spec fn write_line_spec(l: Seq<char>) -> Option<LCmd> {
    if after(l, "WRITE_BYTE "@) is Some {
        match value_spec(after(l, "WRITE_BYTE "@)->0, 255) {
            Some(v) => Some(LCmd::WriteByte(v as u8)),
            None => None,
        }
    } else if after(l, "WRITE_SHORT_BE "@) is Some {
        match value_spec(after(l, "WRITE_SHORT_BE "@)->0, 65535) {
            Some(v) => Some(LCmd::WriteShort(v as u16, true)),
            None => None,
        }
    } else if after(l, "WRITE_SHORT "@) is Some {
        match value_spec(after(l, "WRITE_SHORT "@)->0, 65535) {
            Some(v) => Some(LCmd::WriteShort(v as u16, false)),
            None => None,
        }
    } else if after(l, "WRITE_INT_BE "@) is Some {
        match value_spec(after(l, "WRITE_INT_BE "@)->0, 4294967295) {
            Some(v) => Some(LCmd::WriteInt(v as u32, true)),
            None => None,
        }
    } else if after(l, "WRITE_INT "@) is Some {
        match value_spec(after(l, "WRITE_INT "@)->0, 4294967295) {
            Some(v) => Some(LCmd::WriteInt(v as u32, false)),
            None => None,
        }
    } else if after(l, "WRITE_STRING \""@) is Some {
        let a = after(l, "WRITE_STRING \""@)->0;
        let e = last_quote(a);
        if e >= 0 { Some(LCmd::WriteString(a.subrange(0, e))) } else { None }
    } else if after(l, "WRITE_STRING_LEN \""@) is Some {
        let a = after(l, "WRITE_STRING_LEN \""@)->0;
        let e = last_quote(a);
        if e < 0 {
            None
        } else {
            let ws = words(a.subrange(e + 1, a.len() as int));
            if ws.len() != 1 {
                None
            } else {
                match parse_uint_spec(ws[0], 10, usize::MAX as nat) {
                    Some(n) => Some(LCmd::WriteStringLen(a.subrange(0, e), n as usize)),
                    None => None,
                }
            }
        }
    } else if after(l, "WRITE_BYTES \""@) is Some {
        let a = after(l, "WRITE_BYTES \""@)->0;
        let e = last_quote(a);
        let h = replace_all(a.subrange(0, e), seq![' '], Seq::empty());
        if e >= 0 && hex_ok(h) { Some(LCmd::WriteBytes(hex_bytes(h))) } else { None }
    } else {
        None
    }
}

/// What parsing the packet section yields, line by line: the ops so far and
/// whether a packet is open, or the 1-based line of the first error.
pub open spec fn packet_lines_spec(ls: Seq<Seq<char>>) -> Result<(Seq<LCmd>, bool), nat>
    decreases ls.len(),
{
    if ls.len() == 0 {
        Ok((Seq::empty(), false))
    } else {
        match packet_lines_spec(ls.drop_last()) {
            Err(n) => Err(n),
            Ok((cs, inside)) => {
                let l = trim_spec(ls.last());
                if l.len() == 0 || l[0] == '#' {
                    Ok((cs, inside))
                } else if l == "PACKET_START"@ {
                    Ok((cs.push(LCmd::PacketStart), true))
                } else if l == "PACKET_END"@ {
                    Ok((cs.push(LCmd::PacketEnd), false))
                } else if !inside {
                    Ok((cs, inside))
                } else {
                    match write_line_spec(l) {
                        Some(c) => Ok((cs.push(c), inside)),
                        None => Err(ls.len()),
                    }
                }
            },
        }
    }
}

fn string_after(l: &[char], p: &str) -> (r: Option<Vec<char>>)
    ensures
        match after(l@, p@) {
            Some(t) => r matches Some(x) && x@ == t,
            None => r.is_none(),
        },
{
    if has_prefix(l, p) {
        let k = chars_of(p).len();
        Some(slice_range(l, k, l.len()))
    } else {
        None
    }
}

fn write_line(l: &[char]) -> (r: Option<PacketCommand>)
    ensures
        match write_line_spec(l@) {
            Some(c) => r matches Some(x) && x.view() == c,
            None => r.is_none(),
        },
{
    if let Some(a) = string_after(l, "WRITE_BYTE ") {
        return match value_of(a.as_slice(), 255) {
            Some(v) => Some(PacketCommand::WriteByte(v as u8)),
            None => None,
        };
    }
    if let Some(a) = string_after(l, "WRITE_SHORT_BE ") {
        return match value_of(a.as_slice(), 65535) {
            Some(v) => Some(PacketCommand::WriteShort(v as u16, true)),
            None => None,
        };
    }
    if let Some(a) = string_after(l, "WRITE_SHORT ") {
        return match value_of(a.as_slice(), 65535) {
            Some(v) => Some(PacketCommand::WriteShort(v as u16, false)),
            None => None,
        };
    }
    if let Some(a) = string_after(l, "WRITE_INT_BE ") {
        return match value_of(a.as_slice(), 4294967295) {
            Some(v) => Some(PacketCommand::WriteInt(v as u32, true)),
            None => None,
        };
    }
    if let Some(a) = string_after(l, "WRITE_INT ") {
        return match value_of(a.as_slice(), 4294967295) {
            Some(v) => Some(PacketCommand::WriteInt(v as u32, false)),
            None => None,
        };
    }
    if let Some(a) = string_after(l, "WRITE_STRING \"") {
        return match rfind_quote(a.as_slice()) {
            Some(e) => Some(PacketCommand::WriteString(string_of(slice_range(a.as_slice(), 0, e).as_slice()))),
            None => None,
        };
    }
    if let Some(a) = string_after(l, "WRITE_STRING_LEN \"") {
        return match rfind_quote(a.as_slice()) {
            Some(e) => {
                let tail = slice_range(a.as_slice(), e + 1, a.len());
                let ws = split_words(tail.as_slice());
                if ws.len() != 1 {
                    return None;
                }
                proof {
                    assert(ws@.map_values(|w: Vec<char>| w@)[0] == ws@[0]@);
                }
                match parse_uint(ws[0].as_slice(), 10, usize::MAX as u64) {
                    Some(n) => Some(PacketCommand::WriteStringLen(
                        string_of(slice_range(a.as_slice(), 0, e).as_slice()),
                        n as usize,
                    )),
                    None => None,
                }
            },
            None => None,
        };
    }
    if let Some(a) = string_after(l, "WRITE_BYTES \"") {
        return match rfind_quote(a.as_slice()) {
            Some(e) => {
                let body = slice_range(a.as_slice(), 0, e);
                let h = replace_chars(body.as_slice(), chars_of(" ").as_slice(), chars_of("").as_slice());
                proof {
                    assert(" "@ =~= seq![' ']) by {
                        reveal_strlit(" ");
                    }
                    assert(""@ =~= Seq::<char>::empty()) by {
                        reveal_strlit("");
                    }
                }
                match hex_decode(string_of(h.as_slice()).as_str()) {
                    Some(b) => Some(PacketCommand::WriteBytes(b)),
                    None => None,
                }
            },
            None => None,
        };
    }
    None
}

/// Parses the packet section of a script: `PACKET_START`/`PACKET_END`
/// markers and the write ops between them; lines outside are ignored.
pub fn parse_packet_commands(code: &str) -> (r: Result<Vec<PacketCommand>, SyntaxError>)
    ensures
        match packet_lines_spec(lines_spec(code@)) {
            Ok((cs, _)) => r matches Ok(v) && v@.map_values(|c: PacketCommand| c.view()) == cs,
            Err(n) => r matches Err(e) && e.line == n,
        },
{
    let text = chars_of(code);
    let ls = split_lines(text.as_slice());
    let ghost lv = ls@.map_values(|l: Vec<char>| l@);
    let mut out: Vec<PacketCommand> = Vec::new();
    let mut inside = false;
    let mut i: usize = 0;
    proof {
        assert(lv.subrange(0, 0) =~= Seq::<Seq<char>>::empty());
        assert(out@.map_values(|c: PacketCommand| c.view()) =~= Seq::<LCmd>::empty());
    }
    while i < ls.len()
        invariant
            lv == ls@.map_values(|l: Vec<char>| l@),
            lv == lines_spec(code@),
            i <= ls@.len(),
            packet_lines_spec(lv.subrange(0, i as int)) == Ok::<(Seq<LCmd>, bool), nat>(
                (out@.map_values(|c: PacketCommand| c.view()), inside),
            ),
        decreases ls.len() - i,
    {
        let ghost before = out@;
        proof {
            assert(lv.subrange(0, i + 1).drop_last() =~= lv.subrange(0, i as int));
            assert(lv.subrange(0, i + 1).last() == ls@[i as int]@);
        }
        let l = trim(ls[i].as_slice());
        if l.len() == 0 || l[0] == '#' {
        } else if is_word(l.as_slice(), "PACKET_START") {
            out.push(PacketCommand::PacketStart);
            inside = true;
        } else if is_word(l.as_slice(), "PACKET_END") {
            out.push(PacketCommand::PacketEnd);
            inside = false;
        } else if !inside {
        } else {
            match write_line(l.as_slice()) {
                Some(c) => {
                    out.push(c);
                },
                None => {
                    proof {
                        lemma_packet_lines_err(lv, i as int + 1);
                    }
                    return Err(at_line("Unknown or invalid packet command", i + 1));
                },
            }
        }
        proof {
            assert(out@.map_values(|c: PacketCommand| c.view()) =~= before.map_values(|c: PacketCommand| c.view())
                || out@.map_values(|c: PacketCommand| c.view()) =~= before.map_values(|c: PacketCommand| c.view()).push(
                out@.last().view(),
            ));
        }
        i = i + 1;
    }
    proof {
        assert(lv.subrange(0, ls@.len() as int) =~= lv);
    }
    Ok(out)
}

proof fn lemma_packet_lines_err(ls: Seq<Seq<char>>, i: int)
    requires
        0 <= i <= ls.len(),
        packet_lines_spec(ls.subrange(0, i)) is Err,
    ensures
        packet_lines_spec(ls) == packet_lines_spec(ls.subrange(0, i)),
    decreases ls.len() - i,
{
    if i < ls.len() {
        assert(ls.subrange(0, i + 1).drop_last() =~= ls.subrange(0, i));
        lemma_packet_lines_err(ls, i + 1);
    } else {
        assert(ls.subrange(0, i) =~= ls);
    }
}

/// The bytes of one op of this format.
pub open spec fn op_bytes(c: LCmd) -> Seq<u8> {
    match c {
        LCmd::WriteByte(v) => seq![v],
        LCmd::WriteShort(v, be) => u16_bytes(v as nat, be),
        LCmd::WriteInt(v, be) => u32_bytes(v as nat, be),
        LCmd::WriteString(s) => vstd::utf8::encode_utf8(s).push(0u8),
        LCmd::WriteStringLen(s, n) => crate::builder::fixed_bytes(vstd::utf8::encode_utf8(s), n as nat),
        LCmd::WriteBytes(b) => b,
        _ => Seq::empty(),
    }
}

/// The packet: the ops' bytes in order, everything before the last
/// `PACKET_START` discarded.
pub open spec fn packet_spec(cs: Seq<LCmd>) -> Seq<u8>
    decreases cs.len(),
{
    if cs.len() == 0 {
        Seq::empty()
    } else if cs.last() is PacketStart {
        Seq::empty()
    } else {
        packet_spec(cs.drop_last()) + op_bytes(cs.last())
    }
}

/// Builds the packet of a list of write ops.
pub fn build_packet(commands: &[PacketCommand]) -> (r: Result<Vec<u8>, SyntaxError>)
    ensures
        r matches Ok(b) && b@ == packet_spec(commands@.map_values(|c: PacketCommand| c.view())),
{
    let ghost cv = commands@.map_values(|c: PacketCommand| c.view());
    let mut packet: Vec<u8> = Vec::new();
    let mut i: usize = 0;
    while i < commands.len()
        invariant
            cv == commands@.map_values(|c: PacketCommand| c.view()),
            i <= commands@.len(),
            packet@ == packet_spec(cv.subrange(0, i as int)),
        decreases commands.len() - i,
    {
        proof {
            assert(cv.subrange(0, i + 1).drop_last() =~= cv.subrange(0, i as int));
            assert(cv.subrange(0, i + 1).last() == commands@[i as int].view());
        }
        let ghost before = packet@;
        match &commands[i] {
            PacketCommand::PacketStart => {
                packet.clear();
            },
            PacketCommand::PacketEnd => {},
            PacketCommand::WriteByte(v) => {
                packet.push(*v);
            },
            PacketCommand::WriteShort(v, be) => {
                let b = encode_u16(*v, *be);
                packet.extend_from_slice(b.as_slice());
            },
            PacketCommand::WriteInt(v, be) => {
                let b = encode_u32(*v, *be);
                packet.extend_from_slice(b.as_slice());
            },
            PacketCommand::WriteString(s) => {
                packet.extend_from_slice(s.as_str().as_bytes());
                packet.push(0);
            },
            PacketCommand::WriteStringLen(s, n) => {
                let bytes = s.as_str().as_bytes();
                let mut k: usize = 0;
                while k < *n
                    invariant
                        bytes@ == vstd::utf8::encode_utf8(s@),
                        k <= *n,
                        packet@.len() == before.len() + k,
                        forall|m: int| 0 <= m < before.len() ==> #[trigger] packet@[m] == before[m],
                        forall|m: int|
                            0 <= m < k ==> #[trigger] packet@[before.len() + m] == (if m < bytes@.len() {
                                bytes@[m]
                            } else {
                                0u8
                            }),
                    decreases *n - k,
                {
                    if k < bytes.len() {
                        packet.push(bytes[k]);
                    } else {
                        packet.push(0);
                    }
                    k = k + 1;
                }
                proof {
                    let f = crate::builder::fixed_bytes(bytes@, *n as nat);
                    assert(f.len() == *n);
                    assert forall|m: int| 0 <= m < *n implies #[trigger] f[m] == (if m < bytes@.len() {
                        bytes@[m]
                    } else {
                        0u8
                    }) by {}
                    assert forall|m: int| 0 <= m < packet@.len() implies packet@[m] == (before + f)[m] by {
                        if m >= before.len() {
                            assert(packet@[before.len() + (m - before.len())] == f[m - before.len()]);
                        }
                    }
                    assert(packet@ =~= before + f);
                }
            },
            PacketCommand::WriteBytes(b) => {
                packet.extend_from_slice(b.as_slice());
            },
        }
        proof {
            assert(packet@ =~= packet_spec(cv.subrange(0, i + 1)));
        }
        i = i + 1;
    }
    proof {
        assert(cv.subrange(0, commands@.len() as int) =~= cv);
    }
    Ok(packet)
}

} // verus!

verus! {

#[derive(Debug)]
pub enum ResponseCommand {
    ResponseStart,
    ResponseEnd,
    ReadByte(String),
    /// variable name, big-endian
    ReadShort(String, bool),
    /// variable name, big-endian
    ReadInt(String, bool),
    ReadString(String, usize),
    ReadStringNull(String),
    SkipBytes(usize),
    ExpectByte(u8),
    ExpectMagic(Vec<u8>),
}

/// The model of a [`ResponseCommand`].
pub enum LRead {
    ResponseStart,
    ResponseEnd,
    ReadByte(Seq<char>),
    ReadShort(Seq<char>, bool),
    ReadInt(Seq<char>, bool),
    ReadString(Seq<char>, usize),
    ReadStringNull(Seq<char>),
    SkipBytes(usize),
    ExpectByte(u8),
    ExpectMagic(Seq<u8>),
}

impl ResponseCommand {
    pub open spec fn view(&self) -> LRead {
        match self {
            ResponseCommand::ResponseStart => LRead::ResponseStart,
            ResponseCommand::ResponseEnd => LRead::ResponseEnd,
            ResponseCommand::ReadByte(n) => LRead::ReadByte(n@),
            ResponseCommand::ReadShort(n, be) => LRead::ReadShort(n@, *be),
            ResponseCommand::ReadInt(n, be) => LRead::ReadInt(n@, *be),
            ResponseCommand::ReadString(n, l) => LRead::ReadString(n@, *l),
            ResponseCommand::ReadStringNull(n) => LRead::ReadStringNull(n@),
            ResponseCommand::SkipBytes(k) => LRead::SkipBytes(*k),
            ResponseCommand::ExpectByte(v) => LRead::ExpectByte(*v),
            ResponseCommand::ExpectMagic(m) => LRead::ExpectMagic(m@),
        }
    }
}

/// The read op (or `None` for an error) of a trimmed line inside a
/// response section.
pub open spec fn read_line_spec(l: Seq<char>) -> Option<LRead> {
    if after(l, "READ_BYTE "@) is Some {
        Some(LRead::ReadByte(trim_spec(after(l, "READ_BYTE "@)->0)))
    } else if after(l, "READ_SHORT_BE "@) is Some {
        Some(LRead::ReadShort(trim_spec(after(l, "READ_SHORT_BE "@)->0), true))
    } else if after(l, "READ_SHORT "@) is Some {
        Some(LRead::ReadShort(trim_spec(after(l, "READ_SHORT "@)->0), false))
    } else if after(l, "READ_INT_BE "@) is Some {
        Some(LRead::ReadInt(trim_spec(after(l, "READ_INT_BE "@)->0), true))
    } else if after(l, "READ_INT "@) is Some {
        Some(LRead::ReadInt(trim_spec(after(l, "READ_INT "@)->0), false))
    } else if after(l, "READ_STRING "@) is Some {
        let ws = words(after(l, "READ_STRING "@)->0);
        if ws.len() != 2 {
            None
        } else {
            match parse_uint_spec(ws[1], 10, usize::MAX as nat) {
                Some(n) => Some(LRead::ReadString(ws[0], n as usize)),
                None => None,
            }
        }
    } else if after(l, "READ_STRING_NULL "@) is Some {
        Some(LRead::ReadStringNull(trim_spec(after(l, "READ_STRING_NULL "@)->0)))
    } else if after(l, "SKIP_BYTES "@) is Some {
        match parse_uint_spec(trim_spec(after(l, "SKIP_BYTES "@)->0), 10, usize::MAX as nat) {
            Some(n) => Some(LRead::SkipBytes(n as usize)),
            None => None,
        }
    } else if after(l, "EXPECT_BYTE "@) is Some {
        match value_spec(after(l, "EXPECT_BYTE "@)->0, 255) {
            Some(v) => Some(LRead::ExpectByte(v as u8)),
            None => None,
        }
    } else if after(l, "EXPECT_MAGIC \""@) is Some {
        let a = after(l, "EXPECT_MAGIC \""@)->0;
        let e = last_quote(a);
        let h = replace_all(a.subrange(0, e), seq![' '], Seq::empty());
        if e >= 0 && hex_ok(h) { Some(LRead::ExpectMagic(hex_bytes(h))) } else { None }
    } else {
        None
    }
}

/// What parsing the response section yields, line by line.
pub open spec fn response_lines_spec(ls: Seq<Seq<char>>) -> Result<(Seq<LRead>, bool), nat>
    decreases ls.len(),
{
    if ls.len() == 0 {
        Ok((Seq::empty(), false))
    } else {
        match response_lines_spec(ls.drop_last()) {
            Err(n) => Err(n),
            Ok((cs, inside)) => {
                let l = trim_spec(ls.last());
                if l.len() == 0 || l[0] == '#' {
                    Ok((cs, inside))
                } else if l == "RESPONSE_START"@ {
                    Ok((cs.push(LRead::ResponseStart), true))
                } else if l == "RESPONSE_END"@ {
                    Ok((cs.push(LRead::ResponseEnd), false))
                } else if !inside {
                    Ok((cs, inside))
                } else {
                    match read_line_spec(l) {
                        Some(c) => Ok((cs.push(c), inside)),
                        None => Err(ls.len()),
                    }
                }
            },
        }
    }
}

fn read_line(l: &[char]) -> (r: Option<ResponseCommand>)
    ensures
        match read_line_spec(l@) {
            Some(c) => r matches Some(x) && x.view() == c,
            None => r.is_none(),
        },
{
    if let Some(a) = string_after(l, "READ_BYTE ") {
        return Some(ResponseCommand::ReadByte(string_of(trim(a.as_slice()).as_slice())));
    }
    if let Some(a) = string_after(l, "READ_SHORT_BE ") {
        return Some(ResponseCommand::ReadShort(string_of(trim(a.as_slice()).as_slice()), true));
    }
    if let Some(a) = string_after(l, "READ_SHORT ") {
        return Some(ResponseCommand::ReadShort(string_of(trim(a.as_slice()).as_slice()), false));
    }
    if let Some(a) = string_after(l, "READ_INT_BE ") {
        return Some(ResponseCommand::ReadInt(string_of(trim(a.as_slice()).as_slice()), true));
    }
    if let Some(a) = string_after(l, "READ_INT ") {
        return Some(ResponseCommand::ReadInt(string_of(trim(a.as_slice()).as_slice()), false));
    }
    if let Some(a) = string_after(l, "READ_STRING ") {
        let ws = split_words(a.as_slice());
        if ws.len() != 2 {
            return None;
        }
        proof {
            assert(ws@.map_values(|w: Vec<char>| w@)[0] == ws@[0]@);
            assert(ws@.map_values(|w: Vec<char>| w@)[1] == ws@[1]@);
        }
        return match parse_uint(ws[1].as_slice(), 10, usize::MAX as u64) {
            Some(n) => Some(ResponseCommand::ReadString(string_of(ws[0].as_slice()), n as usize)),
            None => None,
        };
    }
    if let Some(a) = string_after(l, "READ_STRING_NULL ") {
        return Some(ResponseCommand::ReadStringNull(string_of(trim(a.as_slice()).as_slice())));
    }
    if let Some(a) = string_after(l, "SKIP_BYTES ") {
        return match parse_uint(trim(a.as_slice()).as_slice(), 10, usize::MAX as u64) {
            Some(n) => Some(ResponseCommand::SkipBytes(n as usize)),
            None => None,
        };
    }
    if let Some(a) = string_after(l, "EXPECT_BYTE ") {
        return match value_of(a.as_slice(), 255) {
            Some(v) => Some(ResponseCommand::ExpectByte(v as u8)),
            None => None,
        };
    }
    if let Some(a) = string_after(l, "EXPECT_MAGIC \"") {
        return match rfind_quote(a.as_slice()) {
            Some(e) => {
                let body = slice_range(a.as_slice(), 0, e);
                let h = replace_chars(body.as_slice(), chars_of(" ").as_slice(), chars_of("").as_slice());
                proof {
                    assert(" "@ =~= seq![' ']) by {
                        reveal_strlit(" ");
                    }
                    assert(""@ =~= Seq::<char>::empty()) by {
                        reveal_strlit("");
                    }
                }
                match hex_decode(string_of(h.as_slice()).as_str()) {
                    Some(b) => Some(ResponseCommand::ExpectMagic(b)),
                    None => None,
                }
            },
            None => None,
        };
    }
    None
}

/// Parses the response section of a script: `RESPONSE_START` and
/// `RESPONSE_END` markers and the read ops between them.
pub fn parse_response_commands(code: &str) -> (r: Result<Vec<ResponseCommand>, SyntaxError>)
    ensures
        match response_lines_spec(lines_spec(code@)) {
            Ok((cs, _)) => r matches Ok(v) && v@.map_values(|c: ResponseCommand| c.view()) == cs,
            Err(n) => r matches Err(e) && e.line == n,
        },
{
    let text = chars_of(code);
    let ls = split_lines(text.as_slice());
    let ghost lv = ls@.map_values(|l: Vec<char>| l@);
    let mut out: Vec<ResponseCommand> = Vec::new();
    let mut inside = false;
    let mut i: usize = 0;
    proof {
        assert(lv.subrange(0, 0) =~= Seq::<Seq<char>>::empty());
        assert(out@.map_values(|c: ResponseCommand| c.view()) =~= Seq::<LRead>::empty());
    }
    while i < ls.len()
        invariant
            lv == ls@.map_values(|l: Vec<char>| l@),
            lv == lines_spec(code@),
            i <= ls@.len(),
            response_lines_spec(lv.subrange(0, i as int)) == Ok::<(Seq<LRead>, bool), nat>(
                (out@.map_values(|c: ResponseCommand| c.view()), inside),
            ),
        decreases ls.len() - i,
    {
        let ghost before = out@;
        proof {
            assert(lv.subrange(0, i + 1).drop_last() =~= lv.subrange(0, i as int));
            assert(lv.subrange(0, i + 1).last() == ls@[i as int]@);
        }
        let l = trim(ls[i].as_slice());
        if l.len() == 0 || l[0] == '#' {
        } else if is_word(l.as_slice(), "RESPONSE_START") {
            out.push(ResponseCommand::ResponseStart);
            inside = true;
        } else if is_word(l.as_slice(), "RESPONSE_END") {
            out.push(ResponseCommand::ResponseEnd);
            inside = false;
        } else if !inside {
        } else {
            match read_line(l.as_slice()) {
                Some(c) => {
                    out.push(c);
                },
                None => {
                    proof {
                        lemma_response_lines_err(lv, i as int + 1);
                    }
                    return Err(at_line("Unknown or invalid response command", i + 1));
                },
            }
        }
        proof {
            assert(out@.map_values(|c: ResponseCommand| c.view()) =~= before.map_values(|c: ResponseCommand| c.view())
                || out@.map_values(|c: ResponseCommand| c.view()) =~= before.map_values(|c: ResponseCommand| c.view()).push(
                out@.last().view(),
            ));
        }
        i = i + 1;
    }
    proof {
        assert(lv.subrange(0, ls@.len() as int) =~= lv);
    }
    Ok(out)
}

proof fn lemma_response_lines_err(ls: Seq<Seq<char>>, i: int)
    requires
        0 <= i <= ls.len(),
        response_lines_spec(ls.subrange(0, i)) is Err,
    ensures
        response_lines_spec(ls) == response_lines_spec(ls.subrange(0, i)),
    decreases ls.len() - i,
{
    if i < ls.len() {
        assert(ls.subrange(0, i + 1).drop_last() =~= ls.subrange(0, i));
        lemma_response_lines_err(ls, i + 1);
    } else {
        assert(ls.subrange(0, i) =~= ls);
    }
}

} // verus!

verus! {

/// `n` in upper-case hex, zero-padded to at least `w` digits.
pub open spec fn hex_padded(n: nat, w: nat) -> Seq<char> {
    let h = crate::probe::hex_upper(n);
    if h.len() >= w { h } else { Seq::new((w - h.len()) as nat, |i: int| '0') + h }
}

/// The hex column of a dump line: each byte as two digits and a space, an
/// extra space before the ninth.
pub open spec fn dump_bytes(c: Seq<u8>) -> Seq<char>
    decreases c.len(),
{
    if c.len() == 0 {
        Seq::empty()
    } else {
        dump_bytes(c.drop_last()) + (if c.len() - 1 == 8 { seq![' '] } else { Seq::empty() }) + hex_padded(
            c.last() as nat,
            2,
        ) + seq![' ']
    }
}

/// The padding that aligns a short last line: three spaces per missing
/// byte, one more when the line lacks the ninth byte's extra space.
pub open spec fn dump_pad(n: nat, k: nat) -> Seq<char>
    decreases 16 - k,
{
    if k >= 16 {
        Seq::empty()
    } else {
        seq![' ', ' ', ' '] + (if n < 8 && k == 7 { seq![' '] } else { Seq::empty() }) + dump_pad(n, k + 1)
    }
}

pub open spec fn printable(b: u8) -> char {
    if 32 <= b && b < 127 { b as char } else { '.' }
}

/// One line of a dump: offset, hex column, padding, printable characters.
pub open spec fn dump_line(off: nat, c: Seq<u8>) -> Seq<char> {
    hex_padded(off, 8) + seq![':', ' '] + dump_bytes(c) + dump_pad(c.len(), c.len()) + seq![' '] + Seq::new(
        c.len(),
        |i: int| printable(c[i]),
    ) + seq!['\n']
}

/// The lines of a dump from the chunk of 16 bytes numbered `i` on.
pub open spec fn dump_from(data: Seq<u8>, i: nat) -> Seq<char>
    decreases data.len() + 16 - 16 * i,
{
    if 16 * i >= data.len() {
        Seq::empty()
    } else {
        let start: int = (16 * i) as int;
        let end: int = if start + 16 <= data.len() { start + 16 } else { data.len() as int };
        dump_line(16 * i, data.subrange(start, end)) + dump_from(data, i + 1)
    }
}

pub(crate) fn hex_padded_exec(n: u64, w: usize) -> (r: Vec<char>)
    ensures
        r@ == hex_padded(n as nat, w as nat),
{
    let h = crate::probe::hex_upper_digits(n);
    if h.len() >= w {
        h
    } else {
        let mut out: Vec<char> = Vec::new();
        let mut k: usize = 0;
        while k < w - h.len()
            invariant
                h.len() < w,
                k <= w - h.len(),
                out@ == Seq::new(k as nat, |i: int| '0'),
            decreases w - h.len() - k,
        {
            out.push('0');
            proof {
                assert(out@ =~= Seq::new((k + 1) as nat, |i: int| '0'));
            }
            k = k + 1;
        }
        out.extend_from_slice(h.as_slice());
        out
    }
}

fn printable_exec(b: u8) -> (c: char)
    ensures
        c == printable(b),
{
    if 32 <= b && b < 127 { b as char } else { '.' }
}

fn dump_line_exec(i: usize, chunk: &[u8]) -> (r: Vec<char>)
    requires
        chunk@.len() <= 16,
    ensures
        r@ == dump_line(i as nat, chunk@),
{
    let ghost c = chunk@;
    let mut line = hex_padded_exec(i as u64, 8);
    line.push(':');
    line.push(' ');
    let mut j: usize = 0;
    let ghost l0 = line@;
    proof {
        assert(c.subrange(0, 0) =~= Seq::<u8>::empty());
    }
    while j < chunk.len()
        invariant
            c == chunk@,
            j <= c.len(),
            line@ == l0 + dump_bytes(c.subrange(0, j as int)),
        decreases chunk.len() - j,
    {
        proof {
            assert(c.subrange(0, j + 1).drop_last() =~= c.subrange(0, j as int));
        }
        if j == 8 {
            line.push(' ');
        }
        let h = hex_padded_exec(chunk[j] as u64, 2);
        line.extend_from_slice(h.as_slice());
        line.push(' ');
        proof {
            assert(line@ =~= l0 + dump_bytes(c.subrange(0, j + 1)));
        }
        j = j + 1;
    }
    proof {
        assert(c.subrange(0, c.len() as int) =~= c);
    }
    let mut k: usize = chunk.len();
    let ghost l1 = line@;
    while k < 16
        invariant
            c == chunk@,
            c.len() <= k <= 16,
            l1 + dump_pad(c.len(), c.len()) == line@ + dump_pad(c.len(), k as nat),
        decreases 16 - k,
    {
        line.push(' ');
        line.push(' ');
        line.push(' ');
        if chunk.len() < 8 && k == 7 {
            line.push(' ');
        }
        proof {
            assert(line@ + dump_pad(c.len(), (k + 1) as nat) =~= l1 + dump_pad(c.len(), c.len()));
        }
        k = k + 1;
    }
    proof {
        assert(line@ + dump_pad(c.len(), 16) =~= line@);
    }
    line.push(' ');
    let ghost l2 = line@;
    let mut m: usize = 0;
    while m < chunk.len()
        invariant
            c == chunk@,
            m <= c.len(),
            line@ == l2 + Seq::new(m as nat, |x: int| printable(c[x])),
        decreases chunk.len() - m,
    {
        line.push(printable_exec(chunk[m]));
        proof {
            assert(line@ =~= l2 + Seq::new((m + 1) as nat, |x: int| printable(c[x])));
        }
        m = m + 1;
    }
    line.push('\n');
    proof {
        assert(line@ =~= dump_line(i as nat, c));
    }
    line
}

/// A hex dump: lines of 16 bytes with their offset and printable form.
pub fn hex_dump(data: &[u8]) -> (r: String)
    ensures
        r@ == dump_from(data@, 0),
{
    let n = data.len();
    let mut out: Vec<char> = Vec::new();
    let mut i: usize = 0;
    proof {
        assert(out@ + dump_from(data@, 0) =~= dump_from(data@, 0));
    }
    while i < n
        invariant
            n == data@.len(),
            i % 16 == 0,
            i <= n + 15,
            out@ + dump_from(data@, (i / 16) as nat) == dump_from(data@, 0),
        decreases n + 16 - i,
    {
        let end = if n - i >= 16 { i + 16 } else { n };
        let chunk = crate::response::copy_bytes_pub(data, i, end);
        let line = dump_line_exec(i, chunk.as_slice());
        proof {
            assert((i / 16) as nat * 16 == i);
            assert(chunk@ == data@.subrange(16 * ((i / 16) as int), end as int));
            assert(dump_from(data@, (i / 16) as nat) == dump_line(i as nat, chunk@) + dump_from(data@, (i / 16 + 1) as nat));
        }
        let ghost o = out@;
        out.extend_from_slice(line.as_slice());
        proof {
            assert(out@ + dump_from(data@, (i / 16 + 1) as nat) =~= o + dump_from(data@, (i / 16) as nat));
        }
        if n - i >= 16 {
            i = i + 16;
        } else {
            proof {
                assert(16 * ((i / 16 + 1) as nat) >= n);
                assert(dump_from(data@, (i / 16 + 1) as nat) == Seq::<char>::empty());
                assert(out@ + Seq::<char>::empty() =~= out@);
            }
            return string_of(out.as_slice());
        }
    }
    proof {
        assert(16 * ((i / 16) as nat) >= n);
        assert(out@ + Seq::<char>::empty() =~= out@);
    }
    string_of(out.as_slice())
}

} // verus!

verus! {

use crate::response::{lossy_text, trim_nul_end, zero_at_or_after};
use crate::value::Json;
use crate::vars::{insert_entry, VarTable};

/// Why a response of this format could not be read: a read ran past the
/// end of the data.
#[derive(Debug, Clone, Copy, PartialEq, Eq, Structural)]
pub struct ShortResponse {
    /// The position the failing op read at.
    pub position: usize,
}

/// What running the ops gives: the variables, the position, and the number
/// (from 1) of a failed expectation, where reading stopped; or the position
/// of a read past the end.
pub enum LegacyRun {
    Done(Seq<(Seq<char>, Json)>, nat, Option<nat>),
    Short(nat),
}

/// One op of this format at `pos`.
pub open spec fn legacy_step(c: LRead, data: Seq<u8>, e: Seq<(Seq<char>, Json)>, pos: nat, op: nat) -> LegacyRun {
    let n = data.len();
    match c {
        LRead::ResponseStart => LegacyRun::Done(e, 0, None),
        LRead::ResponseEnd => LegacyRun::Done(e, pos, None),
        LRead::ReadByte(v) => if pos >= n {
            LegacyRun::Short(pos)
        } else {
            LegacyRun::Done(insert_entry(e, v, Json::UInt(data[pos as int] as nat)), pos + 1, None)
        },
        LRead::ReadShort(v, be) => if pos + 1 >= n {
            LegacyRun::Short(pos)
        } else {
            LegacyRun::Done(insert_entry(e, v, Json::UInt(crate::codec::u16_of(data.subrange(pos as int, pos as int + 2), be))), pos + 2, None)
        },
        LRead::ReadInt(v, be) => if pos + 3 >= n {
            LegacyRun::Short(pos)
        } else {
            LegacyRun::Done(insert_entry(e, v, Json::UInt(crate::codec::u32_of(data.subrange(pos as int, pos as int + 4), be))), pos + 4, None)
        },
        LRead::ReadString(v, l) => if pos + l > n {
            LegacyRun::Short(pos)
        } else {
            LegacyRun::Done(insert_entry(e, v, Json::Str(trim_nul_end(lossy_text(data.subrange(pos as int, pos as int + l))))), (pos + l) as nat, None)
        },
        LRead::ReadStringNull(v) => {
            let end = zero_at_or_after(data, pos as int);
            LegacyRun::Done(
                insert_entry(e, v, Json::Str(lossy_text(data.subrange(pos as int, end)))),
                (if end < n { end + 1 } else { end }) as nat,
                None,
            )
        },
        LRead::SkipBytes(k) => if pos + k > n { LegacyRun::Short(pos) } else { LegacyRun::Done(e, (pos + k) as nat, None) },
        LRead::ExpectByte(b) => if pos >= n {
            LegacyRun::Short(pos)
        } else if data[pos as int] != b {
            LegacyRun::Done(e, pos, Some(op))
        } else {
            LegacyRun::Done(e, pos + 1, None)
        },
        LRead::ExpectMagic(m) => if pos + m.len() > n {
            LegacyRun::Short(pos)
        } else if data.subrange(pos as int, pos as int + m.len()) != m {
            LegacyRun::Done(e, pos, Some(op))
        } else {
            LegacyRun::Done(e, pos + m.len(), None)
        },
    }
}

/// Running the ops in order; a failed expectation stops the run.
pub open spec fn legacy_run(cs: Seq<LRead>, data: Seq<u8>) -> LegacyRun
    decreases cs.len(),
{
    if cs.len() == 0 {
        LegacyRun::Done(Seq::empty(), 0, None)
    } else {
        match legacy_run(cs.drop_last(), data) {
            LegacyRun::Done(e, pos, None) => legacy_step(cs.last(), data, e, pos, cs.len()),
            other => other,
        }
    }
}

proof fn lemma_legacy_stops(cs: Seq<LRead>, data: Seq<u8>, i: int)
    requires
        0 <= i <= cs.len(),
        !(legacy_run(cs.subrange(0, i), data) matches LegacyRun::Done(_, _, None)),
    ensures
        legacy_run(cs, data) == legacy_run(cs.subrange(0, i), data),
    decreases cs.len() - i,
{
    if i < cs.len() {
        assert(cs.subrange(0, i + 1).drop_last() =~= cs.subrange(0, i));
        lemma_legacy_stops(cs, data, i + 1);
    } else {
        assert(cs.subrange(0, i) =~= cs);
    }
}

/// Reads a response with this format's ops: the variables read, and for a
/// failed expectation its op number (from 1) and a message; a read past the
/// end is an error.
pub fn parse_response(commands: &[ResponseCommand], data: &[u8]) -> (r: Result<(VarTable, Option<(usize, String)>), ShortResponse>)
    ensures
        match legacy_run(commands@.map_values(|c: ResponseCommand| c.view()), data@) {
            LegacyRun::Done(e, _, None) => r matches Ok((t, None)) && t.entries() == e,
            LegacyRun::Done(e, _, Some(op)) => r matches Ok((t, Some((k, _)))) && t.entries() == e && k == op,
            LegacyRun::Short(p) => r == Err::<(VarTable, Option<(usize, String)>), ShortResponse>(ShortResponse { position: p as usize }),
        },
{
    let ghost cv = commands@.map_values(|c: ResponseCommand| c.view());
    let n = data.len();
    let mut vars = VarTable::new();
    let mut pos: usize = 0;
    let mut i: usize = 0;
    proof {
        assert(cv.subrange(0, 0) =~= Seq::<LRead>::empty());
    }
    while i < commands.len()
        invariant
            n == data@.len(),
            cv == commands@.map_values(|c: ResponseCommand| c.view()),
            i <= cv.len(),
            pos <= n,
            legacy_run(cv.subrange(0, i as int), data@) == LegacyRun::Done(vars.entries(), pos as nat, None),
        decreases commands.len() - i,
    {
        proof {
            assert(cv.subrange(0, i + 1).drop_last() =~= cv.subrange(0, i as int));
            assert(cv.subrange(0, i + 1).last() == commands@[i as int].view());
            crate::response::lemma_zero_at_pub(data@, pos as int);
        }
        match &commands[i] {
            ResponseCommand::ResponseStart => {
                pos = 0;
            },
            ResponseCommand::ResponseEnd => {},
            ResponseCommand::ReadByte(v) => {
                if pos >= n {
                    proof { lemma_legacy_stops(cv, data@, i + 1); }
                    return Err(ShortResponse { position: pos });
                }
                vars.insert(v.clone(), Value::UInt(data[pos] as u64));
                pos = pos + 1;
            },
            ResponseCommand::ReadShort(v, be) => {
                if n < 2 || pos >= n - 1 {
                    proof { lemma_legacy_stops(cv, data@, i + 1); }
                    return Err(ShortResponse { position: pos });
                }
                let x = crate::codec::decode_u16(data[pos], data[pos + 1], *be);
                proof {
                    assert(data@.subrange(pos as int, pos + 2) =~= seq![data@[pos as int], data@[pos + 1]]);
                }
                vars.insert(v.clone(), Value::UInt(x as u64));
                pos = pos + 2;
            },
            ResponseCommand::ReadInt(v, be) => {
                if n < 4 || pos >= n - 3 {
                    proof { lemma_legacy_stops(cv, data@, i + 1); }
                    return Err(ShortResponse { position: pos });
                }
                let x = crate::codec::decode_u32(data[pos], data[pos + 1], data[pos + 2], data[pos + 3], *be);
                proof {
                    assert(data@.subrange(pos as int, pos + 4) =~= seq![data@[pos as int], data@[pos + 1], data@[pos + 2], data@[pos + 3]]);
                }
                vars.insert(v.clone(), Value::UInt(x as u64));
                pos = pos + 4;
            },
            ResponseCommand::ReadString(v, l) => {
                if *l > n - pos {
                    proof { lemma_legacy_stops(cv, data@, i + 1); }
                    return Err(ShortResponse { position: pos });
                }
                let b = crate::response::copy_bytes_pub(data, pos, pos + *l);
                let t = crate::response::text_without_trailing_nuls(crate::response::decode_lossy(b.as_slice()));
                vars.insert(v.clone(), Value::Str(t));
                pos = pos + *l;
            },
            ResponseCommand::ReadStringNull(v) => {
                let mut end: usize = pos;
                while end < n && data[end] != 0
                    invariant
                        pos <= end <= n == data@.len(),
                        zero_at_or_after(data@, end as int) == zero_at_or_after(data@, pos as int),
                    decreases n - end,
                {
                    end = end + 1;
                }
                proof {
                    assert(zero_at_or_after(data@, end as int) == end);
                }
                let b = crate::response::copy_bytes_pub(data, pos, end);
                vars.insert(v.clone(), Value::Str(crate::response::decode_lossy(b.as_slice())));
                pos = if end < n { end + 1 } else { end };
            },
            ResponseCommand::SkipBytes(k) => {
                if *k > n - pos {
                    proof { lemma_legacy_stops(cv, data@, i + 1); }
                    return Err(ShortResponse { position: pos });
                }
                pos = pos + *k;
            },
            ResponseCommand::ExpectByte(b) => {
                if pos >= n {
                    proof { lemma_legacy_stops(cv, data@, i + 1); }
                    return Err(ShortResponse { position: pos });
                }
                if data[pos] != *b {
                    proof { lemma_legacy_stops(cv, data@, i + 1); }
                    let msg = string_of(chars_of("Expected byte mismatch").as_slice());
                    return Ok((vars, Some((i + 1, msg))));
                }
                pos = pos + 1;
            },
            ResponseCommand::ExpectMagic(m) => {
                if m.len() > n - pos {
                    proof { lemma_legacy_stops(cv, data@, i + 1); }
                    return Err(ShortResponse { position: pos });
                }
                let actual = crate::response::copy_bytes_pub(data, pos, pos + m.len());
                let mut same = true;
                let mut k: usize = 0;
                while k < m.len()
                    invariant
                        k <= m@.len() == actual@.len(),
                        same == (forall|j: int| 0 <= j < k ==> actual@[j] == m@[j]),
                    decreases m.len() - k,
                {
                    if actual[k] != m[k] {
                        same = false;
                    }
                    k = k + 1;
                }
                proof {
                    if same {
                        assert(actual@ =~= m@);
                    }
                }
                if !same {
                    proof { lemma_legacy_stops(cv, data@, i + 1); }
                    let msg = string_of(chars_of("Magic bytes mismatch").as_slice());
                    return Ok((vars, Some((i + 1, msg))));
                }
                pos = pos + m.len();
            },
        }
        i = i + 1;
    }
    proof {
        assert(cv.subrange(0, cv.len() as int) =~= cv);
    }
    Ok((vars, None))
}

} // verus!
