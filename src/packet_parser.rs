//! The probe script's structure: write ops, read ops, HTTP templates,
//! output blocks and code blocks, and the parser that builds it from text.
use vstd::prelude::*;
use crate::value::Value;

verus! {

/// One write op of a binary request packet.
#[derive(Debug)]
pub enum PacketCommand {
    WriteByte(u8),
    /// value, big-endian
    WriteShort(u16, bool),
    /// value, big-endian
    WriteInt(u32, bool),
    /// variable name, big-endian
    WriteIntVar(String, bool),
    /// variable name, big-endian
    WriteShortVar(String, bool),
    WriteByteVar(String),
    WriteVarIntVar(String),
    /// text, optional fixed length
    WriteString(String, Option<usize>),
    /// variable name, optional fixed length
    WriteStringVar(String, Option<usize>),
    WriteBytes(Vec<u8>),
    WriteVarInt(u64),
    /// VarInt length placeholder
    WriteVarIntLen,
    /// four-byte length placeholder, big-endian flag
    WriteIntLen(bool),
}

/// One read op of a response.
#[derive(Debug)]
pub enum ResponseCommand {
    ReadByte(String),
    /// variable name, big-endian
    ReadShort(String, bool),
    /// variable name, big-endian
    ReadInt(String, bool),
    /// variable name, optional fixed length
    ReadString(String, Option<usize>),
    ReadStringNull(String),
    SkipBytes(usize),
    ExpectByte(u8),
    ExpectMagic(Vec<u8>),
    ReadVarInt(String),
    ExpectStatus(u16),
    ExpectHeader { key: String, value: String },
    ReadBodyJson(String),
    ReadBody(String),
}

#[derive(Debug, Clone, Copy, PartialEq, Eq, Structural)]
pub enum OutputStatus {
    Success,
    Error,
}

#[derive(Debug)]
pub enum OutputCommand {
    JsonOutput(String),
    Return(String),
}

#[derive(Debug)]
pub struct OutputBlock {
    pub status: OutputStatus,
    pub commands: Vec<OutputCommand>,
}

#[derive(Debug, Clone, Copy, PartialEq, Eq, Structural)]
pub enum VariableType {
    String,
    Int,
    Byte,
    Float,
    Array,
}

#[derive(Debug)]
pub enum CodeCommand {
    DeclareVar { var_type: VariableType, name: String, value: Expression },
    AssignVar { name: String, value: Expression },
    ForInArray { var_name: String, array_name: String, body: Vec<CodeCommand> },
    IfStatement {
        condition: Condition,
        body: Vec<CodeCommand>,
        else_if: Vec<(Condition, Vec<CodeCommand>)>,
        else_body: Option<Vec<CodeCommand>>,
    },
    Split { var_name: String, source_expr: Expression, delimiter: String },
    Replace { var_name: String, source_expr: Expression, search: String, replace: String },
    Break,
    ExecutePacketCommand(PacketCommand),
    ExecuteResponseCommand(ResponseCommand),
}

#[derive(Debug)]
pub enum Expression {
    Literal(Value),
    Variable(String),
    ArrayIndex { array_name: String, index: Box<Expression> },
    /// An array literal `[e, e, ...]`.
    ArrayLiteral(Vec<Expression>),
    FunctionCall { name: String, args: Vec<Expression> },
}

#[derive(Debug)]
pub enum Condition {
    Equals(Expression, Expression),
    NotEquals(Expression, Expression),
    GreaterThan(Expression, Expression),
    LessThan(Expression, Expression),
    GreaterOrEqual(Expression, Expression),
    LessOrEqual(Expression, Expression),
    Contains(Expression, Expression),
}

#[derive(Debug)]
pub enum HttpMethod {
    Get,
    Post,
    Put,
    Delete,
    Custom(String),
}

#[derive(Debug, Clone, Copy, PartialEq, Eq, Structural)]
pub enum HttpBodyType {
    Form,
    Raw,
}

#[derive(Debug)]
pub enum HttpCommand {
    HttpStart { method: HttpMethod, path: String },
    Param { key: String, value: String },
    Header { key: String, value: String },
    BodyStart { body_type: HttpBodyType },
    Data { content: String },
    BodyEnd,
}

#[derive(Debug)]
pub struct HttpRequest {
    pub method: HttpMethod,
    pub path: String,
    pub params: Vec<(String, String)>,
    pub headers: Vec<(String, String)>,
    pub body_type: Option<HttpBodyType>,
    pub body_data: Vec<String>,
}

#[derive(Debug)]
pub struct CodeBlock {
    pub commands: Vec<CodeCommand>,
}

/// A request stage and its response stage.
#[derive(Debug)]
pub struct PacketResponsePair {
    /// Binary packets; empty when the pair carries an HTTP request.
    pub packets: Vec<Vec<PacketCommand>>,
    /// The HTTP request; `None` when the pair carries binary packets.
    pub http_request: Option<HttpRequest>,
    pub response: Vec<ResponseCommand>,
    /// Whether the live TCP connection is dropped before this pair.
    pub close_connection_before: bool,
}

#[derive(Debug)]
pub struct PacketScript {
    pub pairs: Vec<PacketResponsePair>,
    pub output_blocks: Vec<OutputBlock>,
    pub code_blocks: Vec<CodeBlock>,
}

} // verus!

use crate::lexicon::{eq_ignore_ascii_case, eq_ignore_case, find_char, find_from, hex_bytes, hex_decode, hex_ok, is_variable_name, lemma_find_from, trim_quote_chars, trim_quotes, var_name_spec};
use crate::number::{decimal_chars, literal_uint, parse_literal, parse_uint, parse_uint_spec};
use crate::text::{chars_of, has_prefix, is_word, lines_spec, split_lines, join_spaces, join_words_from, replace_all, replace_chars, slice_range, split_words, string_of, trim, trim_spec, words};

verus! {

/// A parse failure, with the 1-based line of the script it concerns.
#[derive(Debug)]
pub struct SyntaxError {
    pub line: usize,
    pub message: String,
}

/// `text` followed by " at line " and the line number.
pub fn at_line(text: &str, line: usize) -> (r: SyntaxError)
    ensures
        r.line == line,
{
    let mut m = chars_of(text);
    let tail = chars_of(" at line ");
    m.extend_from_slice(tail.as_slice());
    let d = decimal_chars(line as u64);
    m.extend_from_slice(d.as_slice());
    SyntaxError { line, message: string_of(m.as_slice()) }
}

/// The model of a [`PacketCommand`].
pub enum PCmd {
    WriteByte(u8),
    WriteShort(u16, bool),
    WriteInt(u32, bool),
    WriteIntVar(Seq<char>, bool),
    WriteShortVar(Seq<char>, bool),
    WriteByteVar(Seq<char>),
    WriteVarIntVar(Seq<char>),
    WriteString(Seq<char>, Option<usize>),
    WriteStringVar(Seq<char>, Option<usize>),
    WriteBytes(Seq<u8>),
    WriteVarInt(u64),
    WriteVarIntLen,
    WriteIntLen(bool),
}

impl PacketCommand {
    pub open spec fn view(&self) -> PCmd {
        match self {
            PacketCommand::WriteByte(v) => PCmd::WriteByte(*v),
            PacketCommand::WriteShort(v, be) => PCmd::WriteShort(*v, *be),
            PacketCommand::WriteInt(v, be) => PCmd::WriteInt(*v, *be),
            PacketCommand::WriteIntVar(n, be) => PCmd::WriteIntVar(n@, *be),
            PacketCommand::WriteShortVar(n, be) => PCmd::WriteShortVar(n@, *be),
            PacketCommand::WriteByteVar(n) => PCmd::WriteByteVar(n@),
            PacketCommand::WriteVarIntVar(n) => PCmd::WriteVarIntVar(n@),
            PacketCommand::WriteString(t, l) => PCmd::WriteString(t@, *l),
            PacketCommand::WriteStringVar(n, l) => PCmd::WriteStringVar(n@, *l),
            PacketCommand::WriteBytes(b) => PCmd::WriteBytes(b@),
            PacketCommand::WriteVarInt(v) => PCmd::WriteVarInt(*v),
            PacketCommand::WriteVarIntLen => PCmd::WriteVarIntLen,
            PacketCommand::WriteIntLen(be) => PCmd::WriteIntLen(*be),
        }
    }
}

/// The hex text of `WRITE_BYTES` and `EXPECT_MAGIC`: outer quotes
/// dropped, every `0x` and `0X` taken out.
pub open spec fn hex_text(t: Seq<char>) -> Seq<char> {
    replace_all(replace_all(trim_quote_chars(t), seq!['0', 'x'], Seq::empty()), seq!['0', 'X'], Seq::empty())
}

pub open spec fn hex_arg(t: Seq<char>) -> Option<Seq<u8>> {
    if hex_ok(hex_text(t)) { Some(hex_bytes(hex_text(t))) } else { None }
}

/// A numeric write op's argument: `PACKET_LEN` (when `len` allows it), a
/// variable, or a literal no larger than `max`.
pub open spec fn int_arg(p: Seq<Seq<char>>, max: nat) -> Option<Result<nat, Seq<char>>> {
    if p.len() < 2 {
        None
    } else if var_name_spec(p[1]) {
        Some(Err(p[1]))
    } else {
        match literal_uint(p[1], max) {
            Some(v) => Some(Ok(v)),
            None => None,
        }
    }
}

pub open spec fn is_packet_len(p: Seq<Seq<char>>) -> bool {
    p.len() >= 2 && eq_ignore_case(p[1], "PACKET_LEN"@)
}

/// The text after a keyword and one space, when the line starts so.
pub open spec fn after_keyword(line: Seq<char>, kw: Seq<char>) -> Option<Seq<char>> {
    let k = kw + seq![' '];
    if k.len() <= line.len() && line.subrange(0, k.len() as int) == k {
        Some(line.subrange(k.len() as int, line.len() as int))
    } else {
        None
    }
}

/// `WRITE_STRING`: a quoted text, a variable, or a bare word.
pub open spec fn write_string_spec(line: Seq<char>) -> Option<PCmd> {
    match after_keyword(line, "WRITE_STRING"@) {
        None => None,
        Some(rest) => {
            let q = find_from(rest, '"', 0);
            if q >= 0 {
                let q2 = find_from(rest, '"', q + 1);
                if q2 >= 0 {
                    Some(PCmd::WriteString(rest.subrange(q + 1, q2), None))
                } else {
                    Some(PCmd::WriteString(trim_quote_chars(rest), None))
                }
            } else {
                let t = trim_spec(rest);
                if var_name_spec(t) {
                    Some(PCmd::WriteStringVar(t, None))
                } else {
                    Some(PCmd::WriteString(t, None))
                }
            }
        },
    }
}

/// `WRITE_STRING_LEN`: a quoted text, a variable or a bare word, then a length.
pub open spec fn write_string_len_spec(line: Seq<char>, p: Seq<Seq<char>>) -> Option<PCmd> {
    match after_keyword(line, "WRITE_STRING_LEN"@) {
        None => None,
        Some(rest) => {
            let q = find_from(rest, '"', 0);
            if q >= 0 {
                let q2 = find_from(rest, '"', q + 1);
                if q2 >= 0 {
                    let ws = words(rest.subrange(q2 + 1, rest.len() as int));
                    if ws.len() == 0 {
                        None
                    } else {
                        match parse_uint_spec(ws[0], 10, usize::MAX as nat) {
                            Some(n) => Some(PCmd::WriteString(rest.subrange(q + 1, q2), Some(n as usize))),
                            None => None,
                        }
                    }
                } else {
                    None
                }
            } else if p.len() < 3 {
                None
            } else {
                match parse_uint_spec(p[2], 10, usize::MAX as nat) {
                    Some(n) => if var_name_spec(p[1]) {
                        Some(PCmd::WriteStringVar(p[1], Some(n as usize)))
                    } else {
                        Some(PCmd::WriteString(p[1], Some(n as usize)))
                    },
                    None => None,
                }
            }
        },
    }
}

/// The write op that a line of a packet section denotes.
pub open spec fn packet_command_spec(line: Seq<char>) -> Option<PCmd> {
    let p = words(line);
    if p.len() == 0 {
        None
    } else if p[0] == "WRITE_BYTE"@ {
        match int_arg(p, 255) {
            Some(Ok(v)) => Some(PCmd::WriteByte(v as u8)),
            Some(Err(n)) => Some(PCmd::WriteByteVar(n)),
            None => None,
        }
    } else if p[0] == "WRITE_SHORT"@ || p[0] == "WRITE_SHORT_BE"@ {
        let be = p[0] == "WRITE_SHORT_BE"@;
        match int_arg(p, 65535) {
            Some(Ok(v)) => Some(PCmd::WriteShort(v as u16, be)),
            Some(Err(n)) => Some(PCmd::WriteShortVar(n, be)),
            None => None,
        }
    } else if p[0] == "WRITE_INT"@ || p[0] == "WRITE_INT_BE"@ {
        let be = p[0] == "WRITE_INT_BE"@;
        if is_packet_len(p) {
            Some(PCmd::WriteIntLen(be))
        } else {
            match int_arg(p, 4294967295) {
                Some(Ok(v)) => Some(PCmd::WriteInt(v as u32, be)),
                Some(Err(n)) => Some(PCmd::WriteIntVar(n, be)),
                None => None,
            }
        }
    } else if p[0] == "WRITE_VARINT"@ {
        if is_packet_len(p) {
            Some(PCmd::WriteVarIntLen)
        } else {
            match int_arg(p, 18446744073709551615) {
                Some(Ok(v)) => Some(PCmd::WriteVarInt(v as u64)),
                Some(Err(n)) => Some(PCmd::WriteVarIntVar(n)),
                None => None,
            }
        }
    } else if p[0] == "WRITE_STRING"@ {
        write_string_spec(line)
    } else if p[0] == "WRITE_STRING_LEN"@ {
        write_string_len_spec(line, p)
    } else if p[0] == "WRITE_BYTES"@ {
        if p.len() < 2 {
            None
        } else {
            match hex_arg(p[1]) {
                Some(b) => Some(PCmd::WriteBytes(b)),
                None => None,
            }
        }
    } else {
        None
    }
}

fn int_argument(p: &Vec<Vec<char>>, max: u64) -> (r: Option<Result<u64, String>>)
    ensures
        match int_arg(p@.map_values(|w: Vec<char>| w@), max as nat) {
            None => r.is_none(),
            Some(Ok(v)) => r == Some(Ok::<u64, String>(v as u64)),
            Some(Err(n)) => r matches Some(Err(s)) && s@ == n,
        },
{
    if p.len() < 2 {
        return None;
    }
    let ghost pv = p@.map_values(|w: Vec<char>| w@);
    proof {
        assert(pv[1] == p@[1]@);
    }
    if is_variable_name(p[1].as_slice()) {
        return Some(Err(string_of(p[1].as_slice())));
    }
    match parse_literal(p[1].as_slice(), max) {
        Some(v) => Some(Ok(v)),
        None => None,
    }
}

fn hex_argument(t: &[char]) -> (r: Option<Vec<u8>>)
    ensures
        match hex_arg(t@) {
            Some(b) => r matches Some(x) && x@ == b,
            None => r.is_none(),
        },
{
    let q = trim_quotes(t);
    let a = replace_chars(q.as_slice(), chars_of("0x").as_slice(), chars_of("").as_slice());
    let b = replace_chars(a.as_slice(), chars_of("0X").as_slice(), chars_of("").as_slice());
    proof {
        assert("0x"@ =~= seq!['0', 'x']) by {
            reveal_strlit("0x");
        }
        assert("0X"@ =~= seq!['0', 'X']) by {
            reveal_strlit("0X");
        }
        assert(""@ =~= Seq::<char>::empty()) by {
            reveal_strlit("");
        }
    }
    let s = string_of(b.as_slice());
    hex_decode(s.as_str())
}

fn after_kw(line: &[char], kw: &str) -> (r: Option<Vec<char>>)
    ensures
        match after_keyword(line@, kw@) {
            Some(t) => r matches Some(x) && x@ == t,
            None => r.is_none(),
        },
{
    let mut k = chars_of(kw);
    k.push(' ');
    proof {
        assert(k@ =~= kw@ + seq![' ']);
    }
    if crate::text::starts_with(line, k.as_slice()) {
        Some(slice_range(line, k.len(), line.len()))
    } else {
        None
    }
}

fn usize_max() -> (r: u64)
    ensures
        r == usize::MAX,
{
    usize::MAX as u64
}

/// Parses one line of a packet section.
pub fn parse_packet_command(line: &[char], line_num: usize) -> (r: Result<PacketCommand, SyntaxError>)
    ensures
        match packet_command_spec(line@) {
            Some(c) => r matches Ok(x) && x.view() == c,
            None => r matches Err(e) && e.line == line_num,
        },
{
    let p = split_words(line);
    let ghost pv = p@.map_values(|w: Vec<char>| w@);
    if p.len() == 0 {
        return Err(at_line("Empty command", line_num));
    }
    proof {
        assert(pv[0] == p@[0]@);
        if p@.len() > 1 {
            assert(pv[1] == p@[1]@);
        }
        if p@.len() > 2 {
            assert(pv[2] == p@[2]@);
        }
    }
    let kw = p[0].as_slice();
    if is_word(kw, "WRITE_BYTE") {
        return match int_argument(&p, 255) {
            Some(Ok(v)) => Ok(PacketCommand::WriteByte(v as u8)),
            Some(Err(n)) => Ok(PacketCommand::WriteByteVar(n)),
            None => Err(at_line("WRITE_BYTE requires a byte value", line_num)),
        };
    }
    if is_word(kw, "WRITE_SHORT") || is_word(kw, "WRITE_SHORT_BE") {
        let be = is_word(kw, "WRITE_SHORT_BE");
        return match int_argument(&p, 65535) {
            Some(Ok(v)) => Ok(PacketCommand::WriteShort(v as u16, be)),
            Some(Err(n)) => Ok(PacketCommand::WriteShortVar(n, be)),
            None => Err(at_line("WRITE_SHORT requires a short value", line_num)),
        };
    }
    if is_word(kw, "WRITE_INT") || is_word(kw, "WRITE_INT_BE") {
        let be = is_word(kw, "WRITE_INT_BE");
        if p.len() >= 2 && eq_ignore_ascii_case(p[1].as_slice(), "PACKET_LEN") {
            return Ok(PacketCommand::WriteIntLen(be));
        }
        return match int_argument(&p, 4294967295) {
            Some(Ok(v)) => Ok(PacketCommand::WriteInt(v as u32, be)),
            Some(Err(n)) => Ok(PacketCommand::WriteIntVar(n, be)),
            None => Err(at_line("WRITE_INT requires an int value", line_num)),
        };
    }
    if is_word(kw, "WRITE_VARINT") {
        if p.len() >= 2 && eq_ignore_ascii_case(p[1].as_slice(), "PACKET_LEN") {
            return Ok(PacketCommand::WriteVarIntLen);
        }
        return match int_argument(&p, 18446744073709551615) {
            Some(Ok(v)) => Ok(PacketCommand::WriteVarInt(v)),
            Some(Err(n)) => Ok(PacketCommand::WriteVarIntVar(n)),
            None => Err(at_line("WRITE_VARINT requires a value", line_num)),
        };
    }
    if is_word(kw, "WRITE_STRING") {
        let rest = match after_kw(line, "WRITE_STRING") {
            Some(r) => r,
            None => return Err(at_line("WRITE_STRING requires text", line_num)),
        };
        return match find_char(rest.as_slice(), '"', 0) {
            Some(q) => {
                proof {
                    lemma_find_from(rest@, '"', 0);
                }
                let rl = rest.len();
                assert(q < rest@.len());
                match find_char(rest.as_slice(), '"', q + 1) {
                    Some(q2) => {
                        proof {
                            lemma_find_from(rest@, '"', q + 1);
                        }
                        let t = slice_range(rest.as_slice(), q + 1, q2);
                        Ok(PacketCommand::WriteString(string_of(t.as_slice()), None))
                    },
                    None => {
                        let t = trim_quotes(rest.as_slice());
                        Ok(PacketCommand::WriteString(string_of(t.as_slice()), None))
                    },
                }
            },
            None => {
                let t = trim(rest.as_slice());
                if is_variable_name(t.as_slice()) {
                    Ok(PacketCommand::WriteStringVar(string_of(t.as_slice()), None))
                } else {
                    Ok(PacketCommand::WriteString(string_of(t.as_slice()), None))
                }
            },
        };
    }
    if is_word(kw, "WRITE_STRING_LEN") {
        let rest = match after_kw(line, "WRITE_STRING_LEN") {
            Some(r) => r,
            None => return Err(at_line("WRITE_STRING_LEN requires text and length", line_num)),
        };
        let umax = usize_max();
        let rl = rest.len();
        return match find_char(rest.as_slice(), '"', 0) {
            Some(q) => {
                proof {
                    lemma_find_from(rest@, '"', 0);
                }
                match find_char(rest.as_slice(), '"', q + 1) {
                    Some(q2) => {
                        proof {
                            lemma_find_from(rest@, '"', q + 1);
                        }
                        let after = slice_range(rest.as_slice(), q2 + 1, rest.len());
                        let ws = split_words(after.as_slice());
                        if ws.len() == 0 {
                            return Err(at_line("WRITE_STRING_LEN requires length", line_num));
                        }
                        proof {
                            assert(ws@.map_values(|w: Vec<char>| w@)[0] == ws@[0]@);
                        }
                        match parse_uint(ws[0].as_slice(), 10, umax) {
                            Some(n) => {
                                let t = slice_range(rest.as_slice(), q + 1, q2);
                                Ok(PacketCommand::WriteString(string_of(t.as_slice()), Some(n as usize)))
                            },
                            None => Err(at_line("Invalid length", line_num)),
                        }
                    },
                    None => Err(at_line("Unclosed string in WRITE_STRING_LEN", line_num)),
                }
            },
            None => {
                if p.len() < 3 {
                    return Err(at_line("WRITE_STRING_LEN requires text and length", line_num));
                }
                match parse_uint(p[2].as_slice(), 10, umax) {
                    Some(n) => {
                        if is_variable_name(p[1].as_slice()) {
                            Ok(PacketCommand::WriteStringVar(string_of(p[1].as_slice()), Some(n as usize)))
                        } else {
                            Ok(PacketCommand::WriteString(string_of(p[1].as_slice()), Some(n as usize)))
                        }
                    },
                    None => Err(at_line("Invalid length", line_num)),
                }
            },
        };
    }
    if is_word(kw, "WRITE_BYTES") {
        if p.len() < 2 {
            return Err(at_line("WRITE_BYTES requires hex string", line_num));
        }
        return match hex_argument(p[1].as_slice()) {
            Some(b) => Ok(PacketCommand::WriteBytes(b)),
            None => Err(at_line("Invalid hex string", line_num)),
        };
    }
    Err(at_line("Unknown packet command", line_num))
}

} // verus!

verus! {

/// The model of a [`ResponseCommand`].
pub enum RCmd {
    ReadByte(Seq<char>),
    ReadShort(Seq<char>, bool),
    ReadInt(Seq<char>, bool),
    ReadString(Seq<char>, Option<usize>),
    ReadStringNull(Seq<char>),
    SkipBytes(usize),
    ExpectByte(u8),
    ExpectMagic(Seq<u8>),
    ReadVarInt(Seq<char>),
    ExpectStatus(u16),
    ExpectHeader(Seq<char>, Seq<char>),
    ReadBodyJson(Seq<char>),
    ReadBody(Seq<char>),
}

impl ResponseCommand {
    pub open spec fn view(&self) -> RCmd {
        match self {
            ResponseCommand::ReadByte(n) => RCmd::ReadByte(n@),
            ResponseCommand::ReadShort(n, be) => RCmd::ReadShort(n@, *be),
            ResponseCommand::ReadInt(n, be) => RCmd::ReadInt(n@, *be),
            ResponseCommand::ReadString(n, l) => RCmd::ReadString(n@, *l),
            ResponseCommand::ReadStringNull(n) => RCmd::ReadStringNull(n@),
            ResponseCommand::SkipBytes(k) => RCmd::SkipBytes(*k),
            ResponseCommand::ExpectByte(v) => RCmd::ExpectByte(*v),
            ResponseCommand::ExpectMagic(m) => RCmd::ExpectMagic(m@),
            ResponseCommand::ReadVarInt(n) => RCmd::ReadVarInt(n@),
            ResponseCommand::ExpectStatus(s) => RCmd::ExpectStatus(*s),
            ResponseCommand::ExpectHeader { key, value } => RCmd::ExpectHeader(key@, value@),
            ResponseCommand::ReadBodyJson(n) => RCmd::ReadBodyJson(n@),
            ResponseCommand::ReadBody(n) => RCmd::ReadBody(n@),
        }
    }
}

/// The words from `i` on, joined with single spaces.
pub open spec fn rest_words(p: Seq<Seq<char>>, i: int) -> Seq<char> {
    join_spaces(p.subrange(i, p.len() as int))
}

/// The read op that a line of a response section denotes.
pub open spec fn response_command_spec(line: Seq<char>) -> Option<RCmd> {
    let p = words(line);
    if p.len() == 0 {
        None
    } else if p[0] == "READ_STRING"@ {
        if p.len() < 3 {
            None
        } else {
            match parse_uint_spec(p[2], 10, usize::MAX as nat) {
                Some(n) => Some(RCmd::ReadString(p[1], Some(n as usize))),
                None => None,
            }
        }
    } else if p[0] == "EXPECT_HEADER"@ {
        if p.len() < 3 { None } else { Some(RCmd::ExpectHeader(p[1], rest_words(p, 2))) }
    } else if p.len() < 2 {
        None
    } else if p[0] == "READ_BYTE"@ {
        Some(RCmd::ReadByte(p[1]))
    } else if p[0] == "READ_SHORT"@ {
        Some(RCmd::ReadShort(p[1], false))
    } else if p[0] == "READ_SHORT_BE"@ {
        Some(RCmd::ReadShort(p[1], true))
    } else if p[0] == "READ_INT"@ {
        Some(RCmd::ReadInt(p[1], false))
    } else if p[0] == "READ_INT_BE"@ {
        Some(RCmd::ReadInt(p[1], true))
    } else if p[0] == "READ_STRING_NULL"@ {
        Some(RCmd::ReadStringNull(p[1]))
    } else if p[0] == "READ_VARINT"@ {
        Some(RCmd::ReadVarInt(p[1]))
    } else if p[0] == "READ_BODY_JSON"@ {
        Some(RCmd::ReadBodyJson(p[1]))
    } else if p[0] == "READ_BODY"@ {
        Some(RCmd::ReadBody(p[1]))
    } else if p[0] == "SKIP_BYTES"@ {
        match parse_uint_spec(p[1], 10, usize::MAX as nat) {
            Some(n) => Some(RCmd::SkipBytes(n as usize)),
            None => None,
        }
    } else if p[0] == "EXPECT_BYTE"@ {
        match literal_uint(p[1], 255) {
            Some(v) => Some(RCmd::ExpectByte(v as u8)),
            None => None,
        }
    } else if p[0] == "EXPECT_MAGIC"@ {
        match hex_arg(p[1]) {
            Some(b) => Some(RCmd::ExpectMagic(b)),
            None => None,
        }
    } else if p[0] == "EXPECT_STATUS"@ {
        match parse_uint_spec(p[1], 10, 65535) {
            Some(v) => Some(RCmd::ExpectStatus(v as u16)),
            None => None,
        }
    } else {
        None
    }
}

/// Parses one line of a response section.
pub fn parse_response_command(line: &[char], line_num: usize) -> (r: Result<ResponseCommand, SyntaxError>)
    ensures
        match response_command_spec(line@) {
            Some(c) => r matches Ok(x) && x.view() == c,
            None => r matches Err(e) && e.line == line_num,
        },
{
    let p = split_words(line);
    let ghost pv = p@.map_values(|w: Vec<char>| w@);
    if p.len() == 0 {
        return Err(at_line("Empty command", line_num));
    }
    proof {
        assert(pv[0] == p@[0]@);
        if p@.len() > 1 {
            assert(pv[1] == p@[1]@);
        }
        if p@.len() > 2 {
            assert(pv[2] == p@[2]@);
        }
    }
    let kw = p[0].as_slice();
    let umax = usize_max();
    if is_word(kw, "READ_STRING") {
        if p.len() < 3 {
            return Err(at_line("READ_STRING requires variable name and length", line_num));
        }
        return match parse_uint(p[2].as_slice(), 10, umax) {
            Some(n) => Ok(ResponseCommand::ReadString(string_of(p[1].as_slice()), Some(n as usize))),
            None => Err(at_line("Invalid length", line_num)),
        };
    }
    if is_word(kw, "EXPECT_HEADER") {
        if p.len() < 3 {
            return Err(at_line("EXPECT_HEADER requires header key and value", line_num));
        }
        let v = join_words_from(&p, 2);
        return Ok(ResponseCommand::ExpectHeader { key: string_of(p[1].as_slice()), value: string_of(v.as_slice()) });
    }
    if p.len() < 2 {
        return Err(at_line("Response command requires an argument", line_num));
    }
    let a = p[1].as_slice();
    if is_word(kw, "READ_BYTE") {
        Ok(ResponseCommand::ReadByte(string_of(a)))
    } else if is_word(kw, "READ_SHORT") {
        Ok(ResponseCommand::ReadShort(string_of(a), false))
    } else if is_word(kw, "READ_SHORT_BE") {
        Ok(ResponseCommand::ReadShort(string_of(a), true))
    } else if is_word(kw, "READ_INT") {
        Ok(ResponseCommand::ReadInt(string_of(a), false))
    } else if is_word(kw, "READ_INT_BE") {
        Ok(ResponseCommand::ReadInt(string_of(a), true))
    } else if is_word(kw, "READ_STRING_NULL") {
        Ok(ResponseCommand::ReadStringNull(string_of(a)))
    } else if is_word(kw, "READ_VARINT") {
        Ok(ResponseCommand::ReadVarInt(string_of(a)))
    } else if is_word(kw, "READ_BODY_JSON") {
        Ok(ResponseCommand::ReadBodyJson(string_of(a)))
    } else if is_word(kw, "READ_BODY") {
        Ok(ResponseCommand::ReadBody(string_of(a)))
    } else if is_word(kw, "SKIP_BYTES") {
        match parse_uint(a, 10, umax) {
            Some(n) => Ok(ResponseCommand::SkipBytes(n as usize)),
            None => Err(at_line("Invalid count", line_num)),
        }
    } else if is_word(kw, "EXPECT_BYTE") {
        match parse_literal(a, 255) {
            Some(v) => Ok(ResponseCommand::ExpectByte(v as u8)),
            None => Err(at_line("Invalid byte value", line_num)),
        }
    } else if is_word(kw, "EXPECT_MAGIC") {
        match hex_argument(a) {
            Some(b) => Ok(ResponseCommand::ExpectMagic(b)),
            None => Err(at_line("Invalid hex string", line_num)),
        }
    } else if is_word(kw, "EXPECT_STATUS") {
        match parse_uint(a, 10, 65535) {
            Some(v) => Ok(ResponseCommand::ExpectStatus(v as u16)),
            None => Err(at_line("Invalid status code", line_num)),
        }
    } else {
        Err(at_line("Unknown response command", line_num))
    }
}

/// The model of an [`HttpCommand`] other than the section opener.
pub enum HCmd {
    Param(Seq<char>, Seq<char>),
    Header(Seq<char>, Seq<char>),
    BodyStart(HttpBodyType),
    Data(Seq<char>),
    BodyEnd,
    Start,
}

impl HttpCommand {
    pub open spec fn view(&self) -> HCmd {
        match self {
            HttpCommand::Param { key, value } => HCmd::Param(key@, value@),
            HttpCommand::Header { key, value } => HCmd::Header(key@, value@),
            HttpCommand::BodyStart { body_type } => HCmd::BodyStart(*body_type),
            HttpCommand::Data { content } => HCmd::Data(content@),
            HttpCommand::BodyEnd => HCmd::BodyEnd,
            HttpCommand::HttpStart { .. } => HCmd::Start,
        }
    }
}

/// The HTTP template command that a line of an HTTP section denotes.
pub open spec fn http_command_spec(line: Seq<char>) -> Option<HCmd> {
    let p = words(line);
    if p.len() == 0 {
        None
    } else if p[0] == "PARAM"@ {
        if p.len() < 3 { None } else { Some(HCmd::Param(p[1], rest_words(p, 2))) }
    } else if p[0] == "HEADER"@ {
        if p.len() < 3 { None } else { Some(HCmd::Header(p[1], rest_words(p, 2))) }
    } else if p[0] == "BODY_START"@ {
        if p.len() < 3 || p[1] != "TYPE"@ {
            None
        } else if eq_ignore_case(p[2], "FORM"@) {
            Some(HCmd::BodyStart(HttpBodyType::Form))
        } else if eq_ignore_case(p[2], "RAW"@) {
            Some(HCmd::BodyStart(HttpBodyType::Raw))
        } else {
            None
        }
    } else if p[0] == "DATA"@ {
        if p.len() < 2 { None } else { Some(HCmd::Data(rest_words(p, 1))) }
    } else if p[0] == "BODY_END"@ {
        Some(HCmd::BodyEnd)
    } else {
        None
    }
}

/// Parses one line of an HTTP section.
pub fn parse_http_command(line: &[char], line_num: usize) -> (r: Result<HttpCommand, SyntaxError>)
    ensures
        match http_command_spec(line@) {
            Some(c) => r matches Ok(x) && x.view() == c,
            None => r matches Err(e) && e.line == line_num,
        },
{
    let p = split_words(line);
    let ghost pv = p@.map_values(|w: Vec<char>| w@);
    if p.len() == 0 {
        return Err(at_line("Empty HTTP command", line_num));
    }
    proof {
        assert(pv[0] == p@[0]@);
        if p@.len() > 1 {
            assert(pv[1] == p@[1]@);
        }
        if p@.len() > 2 {
            assert(pv[2] == p@[2]@);
        }
    }
    let kw = p[0].as_slice();
    if is_word(kw, "PARAM") || is_word(kw, "HEADER") {
        if p.len() < 3 {
            return Err(at_line("PARAM and HEADER require key and value", line_num));
        }
        let key = string_of(p[1].as_slice());
        let v = join_words_from(&p, 2);
        let value = string_of(v.as_slice());
        if is_word(kw, "PARAM") {
            Ok(HttpCommand::Param { key, value })
        } else {
            Ok(HttpCommand::Header { key, value })
        }
    } else if is_word(kw, "BODY_START") {
        if p.len() < 3 || !is_word(p[1].as_slice(), "TYPE") {
            return Err(at_line("BODY_START requires TYPE and body type (FORM or RAW)", line_num));
        }
        if eq_ignore_ascii_case(p[2].as_slice(), "FORM") {
            Ok(HttpCommand::BodyStart { body_type: HttpBodyType::Form })
        } else if eq_ignore_ascii_case(p[2].as_slice(), "RAW") {
            Ok(HttpCommand::BodyStart { body_type: HttpBodyType::Raw })
        } else {
            Err(at_line("BODY_START TYPE must be FORM or RAW", line_num))
        }
    } else if is_word(kw, "DATA") {
        if p.len() < 2 {
            return Err(at_line("DATA requires content", line_num));
        }
        let v = join_words_from(&p, 1);
        Ok(HttpCommand::Data { content: string_of(v.as_slice()) })
    } else if is_word(kw, "BODY_END") {
        Ok(HttpCommand::BodyEnd)
    } else {
        Err(at_line("Unknown HTTP command", line_num))
    }
}

/// The model of an [`OutputCommand`].
pub enum OCmd {
    JsonOutput(Seq<char>),
    Return(Seq<char>),
}

impl OutputCommand {
    pub open spec fn view(&self) -> OCmd {
        match self {
            OutputCommand::JsonOutput(v) => OCmd::JsonOutput(v@),
            OutputCommand::Return(t) => OCmd::Return(t@),
        }
    }
}

/// The output command that a (trimmed) line of an output block denotes.
pub open spec fn output_command_spec(line: Seq<char>) -> Option<OCmd> {
    let t = trim_spec(line);
    let j = "JSON_OUTPUT"@;
    let r = "RETURN"@;
    if j.len() <= t.len() && t.subrange(0, j.len() as int) == j {
        let v = trim_spec(t.subrange(j.len() as int, t.len() as int));
        if v.len() == 0 { None } else { Some(OCmd::JsonOutput(v)) }
    } else if r.len() <= t.len() && t.subrange(0, r.len() as int) == r {
        let a = trim_spec(t.subrange(r.len() as int, t.len() as int));
        if a.len() == 0 { None } else { Some(OCmd::Return(crate::lexicon::strip_quotes_spec(a))) }
    } else {
        None
    }
}

/// Parses one command of an output block.
pub fn parse_output_command(line: &[char], line_num: usize) -> (r: Result<OutputCommand, SyntaxError>)
    ensures
        match output_command_spec(line@) {
            Some(c) => r matches Ok(x) && x.view() == c,
            None => r matches Err(e) && e.line == line_num,
        },
{
    let t = trim(line);
    let jl = chars_of("JSON_OUTPUT").len();
    let rl = chars_of("RETURN").len();
    if has_prefix(t.as_slice(), "JSON_OUTPUT") {
        let rest = slice_range(t.as_slice(), jl, t.len());
        let v = trim(rest.as_slice());
        if v.len() == 0 {
            return Err(at_line("JSON_OUTPUT requires variable name", line_num));
        }
        return Ok(OutputCommand::JsonOutput(string_of(v.as_slice())));
    }
    if has_prefix(t.as_slice(), "RETURN") {
        let rest = slice_range(t.as_slice(), rl, t.len());
        let a = trim(rest.as_slice());
        if a.len() == 0 {
            return Err(at_line("RETURN requires value", line_num));
        }
        let s = crate::lexicon::strip_quotes(a.as_slice());
        return Ok(OutputCommand::Return(string_of(s.as_slice())));
    }
    Err(at_line("Unknown output command", line_num))
}

} // verus!

verus! {

/// The template after its commands are applied in order: params, headers
/// and data fragments appended, the last `BODY_START` setting the body type.
pub open spec fn apply_http_commands(
    params: Seq<(Seq<char>, Seq<char>)>,
    headers: Seq<(Seq<char>, Seq<char>)>,
    body_type: Option<HttpBodyType>,
    data: Seq<Seq<char>>,
    cs: Seq<HCmd>,
) -> (Seq<(Seq<char>, Seq<char>)>, Seq<(Seq<char>, Seq<char>)>, Option<HttpBodyType>, Seq<Seq<char>>)
    decreases cs.len(),
{
    if cs.len() == 0 {
        (params, headers, body_type, data)
    } else {
        let (p, h, b, d) = apply_http_commands(params, headers, body_type, data, cs.drop_last());
        match cs.last() {
            HCmd::Param(k, v) => (p.push((k, v)), h, b, d),
            HCmd::Header(k, v) => (p, h.push((k, v)), b, d),
            HCmd::BodyStart(t) => (p, h, Some(t), d),
            HCmd::Data(c) => (p, h, b, d.push(c)),
            _ => (p, h, b, d),
        }
    }
}

pub open spec fn pairs_view(v: Seq<(String, String)>) -> Seq<(Seq<char>, Seq<char>)> {
    v.map_values(|kv: (String, String)| (kv.0@, kv.1@))
}

pub open spec fn strings_view(v: Seq<String>) -> Seq<Seq<char>> {
    v.map_values(|s: String| s@)
}

/// Applies the commands of an HTTP section to its request template.
pub fn build_http_request_from_commands(request: HttpRequest, commands: &Vec<HttpCommand>) -> (r: HttpRequest)
    ensures
        (pairs_view(r.params@), pairs_view(r.headers@), r.body_type, strings_view(r.body_data@))
            == apply_http_commands(
            pairs_view(request.params@),
            pairs_view(request.headers@),
            request.body_type,
            strings_view(request.body_data@),
            commands@.map_values(|c: HttpCommand| c.view()),
        ),
        r.path@ == request.path@,
        r.method == request.method,
{
    let mut req = request;
    let ghost cv = commands@.map_values(|c: HttpCommand| c.view());
    let mut i: usize = 0;
    proof {
        assert(cv.subrange(0, 0) =~= Seq::<HCmd>::empty());
    }
    while i < commands.len()
        invariant
            cv == commands@.map_values(|c: HttpCommand| c.view()),
            i <= commands@.len(),
            req.path == request.path,
            req.method == request.method,
            (pairs_view(req.params@), pairs_view(req.headers@), req.body_type, strings_view(req.body_data@))
                == apply_http_commands(
                pairs_view(request.params@),
                pairs_view(request.headers@),
                request.body_type,
                strings_view(request.body_data@),
                cv.subrange(0, i as int),
            ),
        decreases commands.len() - i,
    {
        proof {
            assert(cv.subrange(0, i + 1).drop_last() =~= cv.subrange(0, i as int));
            assert(cv.subrange(0, i + 1).last() == commands@[i as int].view());
        }
        let ghost params0 = req.params@;
        let ghost headers0 = req.headers@;
        let ghost data0 = req.body_data@;
        match &commands[i] {
            HttpCommand::Param { key, value } => {
                req.params.push((key.clone(), value.clone()));
                proof {
                    assert(pairs_view(req.params@) =~= pairs_view(params0).push((key@, value@)));
                }
            },
            HttpCommand::Header { key, value } => {
                req.headers.push((key.clone(), value.clone()));
                proof {
                    assert(pairs_view(req.headers@) =~= pairs_view(headers0).push((key@, value@)));
                }
            },
            HttpCommand::BodyStart { body_type } => {
                req.body_type = Some(*body_type);
            },
            HttpCommand::Data { content } => {
                req.body_data.push(content.clone());
                proof {
                    assert(strings_view(req.body_data@) =~= strings_view(data0).push(content@));
                }
            },
            HttpCommand::BodyEnd => {},
            HttpCommand::HttpStart { .. } => {},
        }
        i = i + 1;
    }
    proof {
        assert(cv.subrange(0, commands@.len() as int) =~= cv);
    }
    req
}

/// Parses the `<METHOD> <PATH>` (or `CUSTOM <METHOD> <PATH>`) of an
/// `HTTP_START REQUEST` line.
fn parse_http_start(rest: &[char], line_num: usize) -> (r: Result<HttpRequest, SyntaxError>)
    ensures
        r matches Ok(q) ==> q.params@.len() == 0 && q.headers@.len() == 0 && q.body_type.is_none()
            && q.body_data@.len() == 0,
        words(rest@).len() < 2 <==> r is Err,
        r matches Err(e) ==> e.line == line_num,
        r matches Ok(q) ==> q.path@ == http_start_path(rest@),
{
    let parts = split_words(rest);
    proof {
        let p = words(rest@);
        if p.len() > 0 { assert(p[0] == parts@[0]@); }
        if p.len() > 1 { assert(p[1] == parts@[1]@); }
        if p.len() > 2 { assert(p[2] == parts@[2]@); }
    }
    if parts.len() < 2 {
        return Err(at_line("HTTP_START REQUEST requires method and path", line_num));
    }
    let m = parts[0].as_slice();
    let custom = eq_ignore_ascii_case(m, "CUSTOM") && parts.len() >= 3;
    let method = if eq_ignore_ascii_case(m, "GET") {
        HttpMethod::Get
    } else if eq_ignore_ascii_case(m, "POST") {
        HttpMethod::Post
    } else if eq_ignore_ascii_case(m, "PUT") {
        HttpMethod::Put
    } else if eq_ignore_ascii_case(m, "DELETE") {
        HttpMethod::Delete
    } else if custom {
        HttpMethod::Custom(string_of(parts[1].as_slice()))
    } else {
        HttpMethod::Custom(string_of(m))
    };
    let path = if custom {
        string_of(parts[2].as_slice())
    } else {
        string_of(parts[1].as_slice())
    };
    Ok(HttpRequest {
        method,
        path,
        params: Vec::new(),
        headers: Vec::new(),
        body_type: None,
        body_data: Vec::new(),
    })
}

/// Whether a pair carries exactly one kind of request: one or more
/// non-empty binary packets, or an HTTP request.
pub open spec fn pair_well_formed(p: PacketResponsePair) -> bool {
    &&& (p.packets@.len() > 0) != p.http_request.is_some()
    &&& forall|i: int| 0 <= i < p.packets@.len() ==> (#[trigger] p.packets@[i])@.len() > 0
}

/// The lines of a code section, from the one after `CODE_START` up to the
/// `CODE_END` line (or the end of the script), and where it stops.
fn code_section_end(lines: &Vec<Vec<char>>, start: usize) -> (r: usize)
    requires
        start <= lines@.len(),
    ensures
        start <= r <= lines@.len(),
        r == code_end(lines@.map_values(|l: Vec<char>| l@), start as int),
{
    let ghost lv = lines@.map_values(|l: Vec<char>| l@);
    let mut j: usize = start;
    while j < lines.len()
        invariant
            lv == lines@.map_values(|l: Vec<char>| l@),
            start <= j <= lines@.len(),
            code_end(lv, j as int) == code_end(lv, start as int),
        decreases lines.len() - j,
    {
        proof {
            assert(lv[j as int] == lines@[j as int]@);
        }
        let t = trim(lines[j].as_slice());
        if is_word(t.as_slice(), "CODE_END") {
            return j;
        }
        j = j + 1;
    }
    j
}

/// Handles a line outside packet, response, HTTP and code sections: the
/// output block markers and the commands inside an output block.
pub fn handle_output_line(
    line: &[char],
    line_num: usize,
    current_output: &mut Option<OutputBlock>,
    output_blocks: &mut Vec<OutputBlock>,
) -> (r: Result<(), SyntaxError>)
    ensures
        r matches Err(e) ==> e.line == line_num,
        (line@ == "OUTPUT_SUCCESS"@ || line@ == "OUTPUT_ERROR"@) ==> ((r is Ok <==> (*old(current_output)).is_none())
            && (r is Ok ==> ((*final(current_output)) matches Some(b) && b.commands@.len() == 0 && b.status == (
            if line@ == "OUTPUT_SUCCESS"@ { OutputStatus::Success } else { OutputStatus::Error }))
            && (*final(output_blocks))@ == (*old(output_blocks))@)),
        line@ == "OUTPUT_END"@ ==> ((r is Ok <==> (*old(current_output)).is_some()) && (r is Ok
            ==> (*final(output_blocks))@ == (*old(output_blocks))@.push((*old(current_output))->0) && (*final(current_output)).is_none())),
        !(line@ == "OUTPUT_SUCCESS"@ || line@ == "OUTPUT_ERROR"@ || line@ == "OUTPUT_END"@) ==> (r is Ok
            ==> ((*old(current_output)) matches Some(b0) && (*final(current_output)) matches Some(b1) && b1.status
            == b0.status && b1.commands@.map_values(|c: OutputCommand| c.view()) == b0.commands@.map_values(
            |c: OutputCommand| c.view(),
        ).push(output_command_spec(line@)->0) && (*final(output_blocks))@ == (*old(output_blocks))@)),
        !(line@ == "OUTPUT_SUCCESS"@ || line@ == "OUTPUT_ERROR"@ || line@ == "OUTPUT_END"@) ==> (r is Ok <==> (
            (*old(current_output)).is_some() && output_command_spec(line@).is_some())),
        r is Err ==> *final(current_output) == *old(current_output) && *final(output_blocks) == *old(output_blocks),
{
    proof {
        reveal_strlit("OUTPUT_SUCCESS");
        reveal_strlit("OUTPUT_ERROR");
        reveal_strlit("OUTPUT_END");
    }
    if is_word(line, "OUTPUT_SUCCESS") || is_word(line, "OUTPUT_ERROR") {
        if current_output.is_some() {
            return Err(at_line("Output block opened before the previous one was closed", line_num));
        }
        let status = if is_word(line, "OUTPUT_SUCCESS") { OutputStatus::Success } else { OutputStatus::Error };
        *current_output = Some(OutputBlock { status, commands: Vec::new() });
        Ok(())
    } else if is_word(line, "OUTPUT_END") {
        match current_output.take() {
            Some(b) => {
                output_blocks.push(b);
                Ok(())
            },
            None => Err(at_line("OUTPUT_END without active block", line_num)),
        }
    } else {
        match current_output.take() {
            Some(mut b) => {
                let c = match parse_output_command(line, line_num) {
                    Ok(c) => c,
                    Err(e) => {
                        *current_output = Some(b);
                        return Err(e);
                    },
                };
                let ghost before = b.commands@;
                b.commands.push(c);
                proof {
                    assert(b.commands@.map_values(|c: OutputCommand| c.view()) =~= before.map_values(
                        |c: OutputCommand| c.view(),
                    ).push(c.view()));
                }
                *current_output = Some(b);
                Ok(())
            },
            None => Err(at_line("Output command outside block", line_num)),
        }
    }
}

/// Whether a write op is what some line of the script denotes.
pub open spec fn write_from_lines(ls: Seq<Seq<char>>, c: PCmd) -> bool {
    exists|i: int| 0 <= i < ls.len() && #[trigger] packet_command_spec(trim_spec(ls[i])) == Some(c)
}

/// Whether a read op is what some line of the script denotes.
pub open spec fn read_from_lines(ls: Seq<Seq<char>>, c: RCmd) -> bool {
    exists|i: int| 0 <= i < ls.len() && #[trigger] response_command_spec(trim_spec(ls[i])) == Some(c)
}

pub open spec fn packet_from_lines(ls: Seq<Seq<char>>, p: Seq<PacketCommand>) -> bool {
    forall|j: int| 0 <= j < p.len() ==> write_from_lines(ls, (#[trigger] p[j]).view())
}

pub open spec fn reads_from_lines(ls: Seq<Seq<char>>, p: Seq<ResponseCommand>) -> bool {
    forall|j: int| 0 <= j < p.len() ==> read_from_lines(ls, (#[trigger] p[j]).view())
}

/// Whether every op of a pair is what some line of the script denotes.
pub open spec fn pair_from_lines(ls: Seq<Seq<char>>, p: PacketResponsePair) -> bool {
    &&& forall|k: int| 0 <= k < p.packets@.len() ==> packet_from_lines(ls, (#[trigger] p.packets@[k])@)
    &&& reads_from_lines(ls, p.response@)
}

/// The path of an `HTTP_START REQUEST <METHOD> <PATH>` (or
/// `CUSTOM <METHOD> <PATH>`) line's rest.
pub open spec fn http_start_path(rest: Seq<char>) -> Seq<char> {
    let p = words(rest);
    if eq_ignore_case(p[0], "CUSTOM"@) && p.len() >= 3 { p[2] } else { p[1] }
}

/// The first line from `j` on that is `CODE_END`, or the number of lines.
pub open spec fn code_end(ls: Seq<Seq<char>>, j: int) -> int
    decreases ls.len() - j,
{
    if j < 0 || j >= ls.len() {
        ls.len() as int
    } else if trim_spec(ls[j]) == "CODE_END"@ {
        j
    } else {
        code_end(ls, j + 1)
    }
}

/// An HTTP template once its commands are applied: path, params, headers,
/// body type and body fragments.
pub type HttpM = (Seq<char>, (Seq<(Seq<char>, Seq<char>)>, Seq<(Seq<char>, Seq<char>)>, Option<HttpBodyType>, Seq<Seq<char>>));

/// A pair: its packets, its HTTP template, its read ops, and whether the
/// connection is dropped before it.
pub type PairM = (Seq<Seq<PCmd>>, Option<HttpM>, Seq<RCmd>, bool);

/// The section assembler's state between lines.
pub struct Asm {
    pub pairs: Seq<PairM>,
    pub packets: Seq<Seq<PCmd>>,
    pub packet: Seq<PCmd>,
    pub http: Option<Seq<char>>,
    pub hcmds: Seq<HCmd>,
    pub response: Seq<RCmd>,
    pub in_packet: bool,
    pub in_http: bool,
    pub in_response: bool,
    pub close_next: bool,
}

pub open spec fn asm_init() -> Asm {
    Asm {
        pairs: Seq::empty(),
        packets: Seq::empty(),
        packet: Seq::empty(),
        http: None,
        hcmds: Seq::empty(),
        response: Seq::empty(),
        in_packet: false,
        in_http: false,
        in_response: false,
        close_next: false,
    }
}

pub open spec fn http_pair(path: Seq<char>, cs: Seq<HCmd>) -> HttpM {
    (path, apply_http_commands(Seq::empty(), Seq::empty(), None, Seq::empty(), cs))
}

/// What one (trimmed, non-blank, non-comment, non-code) line `l`, numbered
/// `n`, does: section markers open and close sections, `CONNECTION_CLOSE`
/// marks the next pair, `RESPONSE_END` closes the pair (the packets
/// gathered since the last pair, else the HTTP template), and a line in a
/// section must be a command of it. Other lines belong to output blocks.
pub open spec fn line_step(st: Asm, l: Seq<char>, n: nat) -> Result<Asm, nat> {
    let hs = "HTTP_START REQUEST "@;
    if l == "CONNECTION_CLOSE"@ {
        Ok(Asm { close_next: true, ..st })
    } else if hs.len() <= l.len() && l.subrange(0, hs.len() as int) == hs {
        let rest = l.subrange(hs.len() as int, l.len() as int);
        if words(rest).len() < 2 {
            Err(n)
        } else {
            Ok(Asm { http: Some(http_start_path(rest)), hcmds: Seq::empty(), in_http: true, in_packet: false, in_response: false, ..st })
        }
    } else if l == "HTTP_END"@ {
        Ok(Asm { in_http: false, ..st })
    } else if l == "PACKET_START"@ {
        let (ps, p) = if st.in_packet && st.packet.len() > 0 { (st.packets.push(st.packet), Seq::empty()) } else { (st.packets, st.packet) };
        Ok(Asm { packets: ps, packet: p, in_packet: true, in_http: false, in_response: false, ..st })
    } else if l == "PACKET_END"@ {
        let (ps, p) = if st.packet.len() > 0 { (st.packets.push(st.packet), Seq::empty()) } else { (st.packets, st.packet) };
        Ok(Asm { packets: ps, packet: p, in_packet: false, ..st })
    } else if l == "RESPONSE_START"@ {
        Ok(Asm { in_response: true, in_packet: false, ..st })
    } else if l == "RESPONSE_END"@ {
        if st.packets.len() > 0 {
            Ok(Asm {
                pairs: st.pairs.push((st.packets, None, st.response, st.close_next)),
                packets: Seq::empty(),
                response: Seq::empty(),
                close_next: false,
                in_response: false,
                ..st
            })
        } else {
            match st.http {
                Some(path) => Ok(Asm {
                    pairs: st.pairs.push((Seq::empty(), Some(http_pair(path, st.hcmds)), st.response, st.close_next)),
                    hcmds: Seq::empty(),
                    http: None,
                    response: Seq::empty(),
                    close_next: false,
                    in_response: false,
                    ..st
                }),
                None => Ok(Asm { http: None, response: Seq::empty(), close_next: false, in_response: false, ..st }),
            }
        }
    } else if st.in_http {
        match http_command_spec(l) {
            Some(c) => Ok(Asm { hcmds: st.hcmds.push(c), ..st }),
            None => Err(n),
        }
    } else if st.in_packet {
        match packet_command_spec(l) {
            Some(c) => Ok(Asm { packet: st.packet.push(c), ..st }),
            None => Err(n),
        }
    } else if st.in_response {
        match response_command_spec(l) {
            Some(c) => Ok(Asm { response: st.response.push(c), ..st }),
            None => Err(n),
        }
    } else {
        Ok(st)
    }
}

/// Whether a line is outside every section: not a section marker, and
/// no packet, response or HTTP section is open. Such lines belong to the
/// output blocks.
pub open spec fn output_line(st: Asm, l: Seq<char>) -> bool {
    let hs = "HTTP_START REQUEST "@;
    &&& !(l == "CONNECTION_CLOSE"@)
    &&& !(hs.len() <= l.len() && l.subrange(0, hs.len() as int) == hs)
    &&& !(l == "HTTP_END"@ || l == "PACKET_START"@ || l == "PACKET_END"@ || l == "RESPONSE_START"@ || l == "RESPONSE_END"@)
    &&& !st.in_http && !st.in_packet && !st.in_response
}

/// The output blocks closed so far and the one open, if any.
pub type OutM = (Seq<(OutputStatus, Seq<OCmd>)>, Option<(OutputStatus, Seq<OCmd>)>);

/// What a line outside the sections, numbered `n`, does to the output
/// blocks: `OUTPUT_SUCCESS`/`OUTPUT_ERROR` open a block (none may be open),
/// `OUTPUT_END` closes the open one, and any other line must be an output
/// command inside an open block.
pub open spec fn output_step(o: OutM, l: Seq<char>, n: nat) -> Result<OutM, nat> {
    if l == "OUTPUT_SUCCESS"@ || l == "OUTPUT_ERROR"@ {
        if o.1 is Some {
            Err(n)
        } else {
            Ok((o.0, Some((if l == "OUTPUT_SUCCESS"@ { OutputStatus::Success } else { OutputStatus::Error }, Seq::empty()))))
        }
    } else if l == "OUTPUT_END"@ {
        match o.1 {
            Some(b) => Ok((o.0.push(b), None)),
            None => Err(n),
        }
    } else {
        match o.1 {
            None => Err(n),
            Some((st, cs)) => match output_command_spec(l) {
                Some(c) => Ok((o.0, Some((st, cs.push(c))))),
                None => Err(n),
            },
        }
    }
}

/// The assembler from line `i` on (numbered from 0): the sections' state
/// and the output blocks, or the number (from 1) of the first line it
/// rejects. A code section, from `CODE_START` to `CODE_END`, is skipped
/// here; its lines are the code parser's.
pub open spec fn assemble_from(ls: Seq<Seq<char>>, i: int, st: Asm, o: OutM) -> Result<(Asm, OutM), nat>
    decreases ls.len() - i,
{
    if i < 0 || i >= ls.len() {
        Ok((st, o))
    } else {
        let l = trim_spec(ls[i]);
        if l.len() == 0 || l[0] == '#' {
            assemble_from(ls, i + 1, st, o)
        } else if l == "CODE_START"@ {
            let st2 = Asm {
                packets: if st.packets.len() > 0 && st.response.len() == 0 { Seq::empty() } else { st.packets },
                in_packet: false,
                in_response: false,
                ..st
            };
            let e = code_end(ls, i + 1);
            if i < e && e < ls.len() { assemble_from(ls, e + 1, st2, o) } else { Ok((st2, o)) }
        } else if output_line(st, l) {
            match output_step(o, l, (i + 1) as nat) {
                Err(n) => Err(n),
                Ok(o2) => assemble_from(ls, i + 1, st, o2),
            }
        } else {
            match line_step(st, l, (i + 1) as nat) {
                Err(n) => Err(n),
                Ok(st2) => assemble_from(ls, i + 1, st2, o),
            }
        }
    }
}

/// The assembler's pairs, plus a last pair for packets or an HTTP template
/// left open at the end.
pub open spec fn flush_pairs(st: Asm) -> Seq<PairM> {
    if st.packets.len() > 0 {
        st.pairs.push((st.packets, None, st.response, st.close_next))
    } else {
        match st.http {
            Some(path) => st.pairs.push((Seq::empty(), Some(http_pair(path, st.hcmds)), st.response, st.close_next)),
            None => st.pairs,
        }
    }
}

/// The closed output blocks, plus one left open at the end.
pub open spec fn flush_outputs(o: OutM) -> Seq<(OutputStatus, Seq<OCmd>)> {
    match o.1 {
        Some(b) => o.0.push(b),
        None => o.0,
    }
}

pub open spec fn assemble_script(ls: Seq<Seq<char>>) -> Result<(Asm, OutM), nat> {
    assemble_from(ls, 0, asm_init(), (Seq::empty(), None))
}

/// The pairs of a script, or `None` when a line outside the code sections
/// is not valid where it stands.
pub open spec fn script_pairs(ls: Seq<Seq<char>>) -> Option<Seq<PairM>> {
    match assemble_script(ls) {
        Err(_) => None,
        Ok((st, _)) => Some(flush_pairs(st)),
    }
}

/// The output blocks of a script, when it is accepted.
pub open spec fn script_outputs(ls: Seq<Seq<char>>) -> Option<Seq<(OutputStatus, Seq<OCmd>)>> {
    match assemble_script(ls) {
        Err(_) => None,
        Ok((_, o)) => Some(flush_outputs(o)),
    }
}

/// Whether line `k` (from 0) lies in the body of a code section: after a
/// `CODE_START` line with no `CODE_END` line between.
pub open spec fn in_code_body(ls: Seq<Seq<char>>, k: int) -> bool {
    exists|j: int| 0 <= j < k && #[trigger] trim_spec(ls[j]) == "CODE_START"@
        && forall|m: int| j < m <= k ==> trim_spec(#[trigger] ls[m]) != "CODE_END"@
}

/// Whether the script has a `CODE_START` line.
pub open spec fn has_code(ls: Seq<Seq<char>>) -> bool {
    exists|j: int| 0 <= j < ls.len() && #[trigger] trim_spec(ls[j]) == "CODE_START"@
}

pub open spec fn out_v(cur: Option<OutputBlock>, blocks: Seq<OutputBlock>) -> OutM {
    (
        crate::output::blocks_view(blocks),
        match cur {
            Some(b) => Some((b.status, b.commands@.map_values(|c: OutputCommand| c.view()))),
            None => None,
        },
    )
}

pub open spec fn pcmds_v(v: Seq<PacketCommand>) -> Seq<PCmd> {
    v.map_values(|c: PacketCommand| c.view())
}

pub open spec fn packets_v(v: Seq<Vec<PacketCommand>>) -> Seq<Seq<PCmd>> {
    v.map_values(|p: Vec<PacketCommand>| pcmds_v(p@))
}

pub open spec fn rcmds_v(v: Seq<ResponseCommand>) -> Seq<RCmd> {
    v.map_values(|c: ResponseCommand| c.view())
}

pub open spec fn hcmds_v(v: Seq<HttpCommand>) -> Seq<HCmd> {
    v.map_values(|c: HttpCommand| c.view())
}

pub open spec fn http_v(q: HttpRequest) -> HttpM {
    (q.path@, (pairs_view(q.params@), pairs_view(q.headers@), q.body_type, strings_view(q.body_data@)))
}

/// The model of a pair.
pub open spec fn pair_v(p: PacketResponsePair) -> PairM {
    (
        packets_v(p.packets@),
        match p.http_request {
            Some(q) => Some(http_v(q)),
            None => None,
        },
        rcmds_v(p.response@),
        p.close_connection_before,
    )
}

pub open spec fn pairs_v(v: Seq<PacketResponsePair>) -> Seq<PairM> {
    v.map_values(|p: PacketResponsePair| pair_v(p))
}

/// The assembler state that the parser's variables stand for.
pub open spec fn asm_of(
    pairs: Seq<PacketResponsePair>,
    packets: Seq<Vec<PacketCommand>>,
    packet: Seq<PacketCommand>,
    http: Option<HttpRequest>,
    hc: Seq<HttpCommand>,
    resp: Seq<ResponseCommand>,
    in_packet: bool,
    in_http: bool,
    in_response: bool,
    close_next: bool,
) -> Asm {
    Asm {
        pairs: pairs_v(pairs),
        packets: packets_v(packets),
        packet: pcmds_v(packet),
        http: match http {
            Some(q) => Some(q.path@),
            None => None,
        },
        hcmds: hcmds_v(hc),
        response: rcmds_v(resp),
        in_packet,
        in_http,
        in_response,
        close_next,
    }
}

proof fn lemma_code_end(ls: Seq<Seq<char>>, j: int)
    requires
        0 <= j <= ls.len(),
    ensures
        j <= code_end(ls, j) <= ls.len(),
        forall|m: int| j <= m < code_end(ls, j) ==> trim_spec(#[trigger] ls[m]) != "CODE_END"@,
    decreases ls.len() - j,
{
    if j < ls.len() && trim_spec(ls[j]) != "CODE_END"@ {
        lemma_code_end(ls, j + 1);
    }
}

/// The parser's state between lines.
struct Assembler {
    pairs: Vec<PacketResponsePair>,
    packets: Vec<Vec<PacketCommand>>,
    packet: Vec<PacketCommand>,
    http: Option<HttpRequest>,
    http_cmds: Vec<HttpCommand>,
    response: Vec<ResponseCommand>,
    in_packet: bool,
    in_http: bool,
    in_response: bool,
    close_next: bool,
}

impl Assembler {
    spec fn view(&self) -> Asm {
        asm_of(
            self.pairs@,
            self.packets@,
            self.packet@,
            self.http,
            self.http_cmds@,
            self.response@,
            self.in_packet,
            self.in_http,
            self.in_response,
            self.close_next,
        )
    }

    spec fn inv(&self) -> bool {
        self.http matches Some(q) ==> q.params@.len() == 0 && q.headers@.len() == 0 && q.body_type.is_none()
            && q.body_data@.len() == 0
    }

    fn flush_packet(&mut self)
        ensures
            final(self).view() == (Asm {
                packets: if old(self).packet@.len() > 0 { old(self).view().packets.push(old(self).view().packet) } else { old(self).view().packets },
                packet: if old(self).packet@.len() > 0 { Seq::empty() } else { old(self).view().packet },
                ..old(self).view()
            }),
            final(self).http == old(self).http,
    {
        if self.packet.len() > 0 {
            let ghost old_packet = self.packet@;
            let p = self.packet.split_off(0);
            proof {
                assert(p@ =~= old_packet);
            }
            let ghost before = self.packets@;
            self.packets.push(p);
            proof {
                assert(packets_v(self.packets@) =~= packets_v(before).push(pcmds_v(p@)));
                assert(pcmds_v(self.packet@) =~= Seq::<PCmd>::empty());
            }
        }
    }

    /// Handles a line that is neither blank, a comment, nor `CODE_START`;
    /// `Ok(true)` for a line of no section, left to the output blocks.
    fn line(&mut self, l: &[char], n: usize) -> (r: Result<bool, SyntaxError>)
        requires
            old(self).inv(),
        ensures
            final(self).inv(),
            match line_step(old(self).view(), l@, n as nat) {
                Ok(st) => r is Ok && final(self).view() == st,
                Err(_) => r is Err,
            },
            r matches Ok(true) ==> final(self).view() == old(self).view(),
            output_line(old(self).view(), l@) ==> r == Ok::<bool, SyntaxError>(true),
            !output_line(old(self).view(), l@) ==> !(r matches Ok(true)),
            r matches Err(e) ==> e.line == n,
    {
        proof {
            reveal_strlit("CONNECTION_CLOSE");
            reveal_strlit("HTTP_START REQUEST ");
            reveal_strlit("HTTP_END");
            reveal_strlit("PACKET_START");
            reveal_strlit("PACKET_END");
            reveal_strlit("RESPONSE_START");
            reveal_strlit("RESPONSE_END");
        }
        if is_word(l, "CONNECTION_CLOSE") {
            self.close_next = true;
            return Ok(false);
        }
        if has_prefix(l, "HTTP_START REQUEST ") {
            let k = chars_of("HTTP_START REQUEST ").len();
            let rest = slice_range(l, k, l.len());
            let q = parse_http_start(rest.as_slice(), n)?;
            self.http = Some(q);
            self.http_cmds = Vec::new();
            self.in_http = true;
            self.in_packet = false;
            self.in_response = false;
            proof {
                assert(hcmds_v(self.http_cmds@) =~= Seq::<HCmd>::empty());
            }
            return Ok(false);
        }
        if is_word(l, "HTTP_END") {
            self.in_http = false;
            return Ok(false);
        }
        if is_word(l, "PACKET_START") {
            if self.in_packet {
                self.flush_packet();
            }
            self.in_packet = true;
            self.in_http = false;
            self.in_response = false;
            return Ok(false);
        }
        if is_word(l, "PACKET_END") {
            self.flush_packet();
            self.in_packet = false;
            return Ok(false);
        }
        if is_word(l, "RESPONSE_START") {
            self.in_response = true;
            self.in_packet = false;
            return Ok(false);
        }
        if is_word(l, "RESPONSE_END") {
            let should_close = self.close_next;
            self.close_next = false;
            let ghost old_resp = self.response@;
            let ghost old_packets = self.packets@;
            let ghost old_cmds = self.http_cmds@;
            let ghost st0 = old(self).view();
            let resp = self.response.split_off(0);
            proof {
                assert(resp@ =~= old_resp);
            }
            if self.packets.len() > 0 {
                let ps = self.packets.split_off(0);
                proof {
                    assert(ps@ =~= old_packets);
                }
                let ghost before = self.pairs@;
                let pair = PacketResponsePair { packets: ps, http_request: None, response: resp, close_connection_before: should_close };
                self.pairs.push(pair);
                proof {
                    assert(pairs_v(self.pairs@) =~= pairs_v(before).push(pair_v(pair)));
                    assert(packets_v(self.packets@) =~= Seq::<Seq<PCmd>>::empty());
                    assert(rcmds_v(self.response@) =~= Seq::<RCmd>::empty());
                }
            } else {
                let h = self.http.take();
                match h {
                    Some(req) => {
                        let cmds = self.http_cmds.split_off(0);
                        proof {
                            assert(cmds@ =~= old_cmds);
                        }
                        let built = build_http_request_from_commands(req, &cmds);
                        let ghost before = self.pairs@;
                        let pair = PacketResponsePair {
                            packets: Vec::new(),
                            http_request: Some(built),
                            response: resp,
                            close_connection_before: should_close,
                        };
                        self.pairs.push(pair);
                        proof {
                            assert(pairs_v(self.pairs@) =~= pairs_v(before).push(pair_v(pair)));
                            assert(packets_v(pair.packets@) =~= Seq::<Seq<PCmd>>::empty());
                            assert(pairs_view(req.params@) =~= Seq::<(Seq<char>, Seq<char>)>::empty());
                            assert(pairs_view(req.headers@) =~= Seq::<(Seq<char>, Seq<char>)>::empty());
                            assert(strings_view(req.body_data@) =~= Seq::<Seq<char>>::empty());
                            assert(hcmds_v(self.http_cmds@) =~= Seq::<HCmd>::empty());
                        }
                    },
                    None => {},
                }
                proof {
                    assert(rcmds_v(self.response@) =~= Seq::<RCmd>::empty());
                }
            }
            self.in_response = false;
            return Ok(false);
        }
        if self.in_http {
            let c = parse_http_command(l, n)?;
            let ghost before = self.http_cmds@;
            self.http_cmds.push(c);
            proof {
                assert(hcmds_v(self.http_cmds@) =~= hcmds_v(before).push(c.view()));
            }
            Ok(false)
        } else if self.in_packet {
            let c = parse_packet_command(l, n)?;
            let ghost before = self.packet@;
            self.packet.push(c);
            proof {
                assert(pcmds_v(self.packet@) =~= pcmds_v(before).push(c.view()));
            }
            Ok(false)
        } else if self.in_response {
            let c = parse_response_command(l, n)?;
            let ghost before = self.response@;
            self.response.push(c);
            proof {
                assert(rcmds_v(self.response@) =~= rcmds_v(before).push(c.view()));
            }
            Ok(false)
        } else {
            Ok(true)
        }
    }

    /// The pairs, with a last pair for what is left open.
    fn into_pairs(self) -> (r: Vec<PacketResponsePair>)
        requires
            self.inv(),
        ensures
            pairs_v(r@) == flush_pairs(self.view()),
    {
        let mut pairs = self.pairs;
        let ghost before = pairs@;
        if self.packets.len() > 0 {
            let pair = PacketResponsePair {
                packets: self.packets,
                http_request: None,
                response: self.response,
                close_connection_before: self.close_next,
            };
            pairs.push(pair);
            proof {
                assert(pairs_v(pairs@) =~= pairs_v(before).push(pair_v(pair)));
            }
        } else {
            match self.http {
                Some(req) => {
                    let built = build_http_request_from_commands(req, &self.http_cmds);
                    let pair = PacketResponsePair {
                        packets: Vec::new(),
                        http_request: Some(built),
                        response: self.response,
                        close_connection_before: self.close_next,
                    };
                    pairs.push(pair);
                    proof {
                        assert(pairs_v(pairs@) =~= pairs_v(before).push(pair_v(pair)));
                        assert(packets_v(pair.packets@) =~= Seq::<Seq<PCmd>>::empty());
                        assert(pairs_view(req.params@) =~= Seq::<(Seq<char>, Seq<char>)>::empty());
                        assert(pairs_view(req.headers@) =~= Seq::<(Seq<char>, Seq<char>)>::empty());
                        assert(strings_view(req.body_data@) =~= Seq::<Seq<char>>::empty());
                    }
                },
                None => {},
            }
        }
        pairs
    }
}

/// Parses a probe script into its pairs, output blocks and code blocks.
pub fn parse_script(script: &str) -> (r: Result<PacketScript, SyntaxError>)
    ensures
        r matches Err(e) ==> 1 <= e.line <= lines_spec(script@).len(),
        r matches Ok(s) ==> script_pairs(lines_spec(script@)) == Some(pairs_v(s.pairs@))
            && script_outputs(lines_spec(script@)) == Some(crate::output::blocks_view(s.output_blocks@)),
        r matches Err(e) ==> assemble_script(lines_spec(script@)) == Err::<(Asm, OutM), nat>(e.line as nat)
            || in_code_body(lines_spec(script@), e.line - 1),
        !has_code(lines_spec(script@)) ==> match assemble_script(lines_spec(script@)) {
            Ok(_) => r is Ok,
            Err(n) => r matches Err(e) && e.line == n,
        },
{
    let text = chars_of(script);
    let lines = split_lines(text.as_slice());
    let ghost nl = lines@.len();
    let ghost lv = lines@.map_values(|l: Vec<char>| l@);
    proof {
        assert(lines@.map_values(|l: Vec<char>| l@).len() == lines@.len());
        assert(nl == lines_spec(script@).len());
    }
    let mut state = Assembler {
        pairs: Vec::new(),
        packets: Vec::new(),
        packet: Vec::new(),
        http: None,
        http_cmds: Vec::new(),
        response: Vec::new(),
        in_packet: false,
        in_http: false,
        in_response: false,
        close_next: false,
    };
    let mut output_blocks: Vec<OutputBlock> = Vec::new();
    let mut current_output: Option<OutputBlock> = None;
    let mut code_blocks: Vec<CodeBlock> = Vec::new();
    let mut i: usize = 0;
    proof {
        assert(out_v(current_output, output_blocks@) =~~= (Seq::<(OutputStatus, Seq<OCmd>)>::empty(), None::<(OutputStatus, Seq<OCmd>)>)) by {
            assert(crate::output::blocks_view(output_blocks@) =~= Seq::<(OutputStatus, Seq<OCmd>)>::empty());
        }
        assert(state.view() =~~= asm_init()) by {
            assert(pairs_v(state.pairs@) =~= Seq::<PairM>::empty());
            assert(packets_v(state.packets@) =~= Seq::<Seq<PCmd>>::empty());
            assert(pcmds_v(state.packet@) =~= Seq::<PCmd>::empty());
            assert(hcmds_v(state.http_cmds@) =~= Seq::<HCmd>::empty());
            assert(rcmds_v(state.response@) =~= Seq::<RCmd>::empty());
        }
    }
    while i < lines.len()
        invariant
            nl == lines@.len(),
            nl == lines_spec(script@).len(),
            lv == lines_spec(script@),
            lv == lines@.map_values(|l: Vec<char>| l@),
            i <= nl,
            state.inv(),
            assemble_script(lv) == assemble_from(lv, i as int, state.view(), out_v(current_output, output_blocks@)),
        decreases nl - i,
    {
        let line_num = i + 1;
        let line = trim(lines[i].as_slice());
        let l = line.as_slice();
        proof {
            assert(lv[i as int] == lines@[i as int]@);
            assert(l@ == trim_spec(lv[i as int]));
            reveal_strlit("CODE_START");
            reveal_strlit("CONNECTION_CLOSE");
        }
        if l.len() == 0 || l[0] == '#' {
            i = i + 1;
            continue;
        }
        if is_word(l, "CODE_START") {
            let ghost st = state.view();
            if state.packets.len() > 0 && state.response.len() == 0 {
                state.packets = Vec::new();
                proof {
                    assert(packets_v(state.packets@) =~= Seq::<Seq<PCmd>>::empty());
                }
            }
            state.in_packet = false;
            state.in_response = false;
            let end = code_section_end(&lines, i + 1);
            proof {
                lemma_code_end(lv, i + 1);
            }
            let commands = match crate::code::parse_code_lines(&lines, i + 1, end) {
                Ok(c) => c,
                Err(e) => {
                    proof {
                        let k = e.line - 1;
                        assert(trim_spec(lv[i as int]) == "CODE_START"@);
                        assert forall|m: int| i < m <= k implies trim_spec(#[trigger] lv[m]) != "CODE_END"@ by {}
                        assert(in_code_body(lv, k));
                    }
                    return Err(e);
                },
            };
            if commands.len() > 0 {
                code_blocks.push(CodeBlock { commands });
            }
            i = if end < lines.len() { end + 1 } else { end };
            proof {
                if end >= nl {
                    assert(assemble_from(lv, i as int, state.view(), out_v(current_output, output_blocks@)) == Ok::<(Asm, OutM), nat>((state.view(), out_v(current_output, output_blocks@))));
                }
            }
            continue;
        }
        let ghost o0 = out_v(current_output, output_blocks@);
        let ghost ob0 = output_blocks@;
        match state.line(l, line_num) {
            Ok(true) => {
                proof {
                    reveal_strlit("OUTPUT_SUCCESS");
                    reveal_strlit("OUTPUT_ERROR");
                    reveal_strlit("OUTPUT_END");
                }
                match handle_output_line(l, line_num, &mut current_output, &mut output_blocks) {
                    Ok(()) => {
                        proof {
                            if l@ == "OUTPUT_END"@ {
                                assert(crate::output::blocks_view(output_blocks@) =~= crate::output::blocks_view(ob0).push(o0.1->0));
                            } else if l@ == "OUTPUT_SUCCESS"@ || l@ == "OUTPUT_ERROR"@ {
                                let b = current_output->0;
                                assert(b.commands@.map_values(|c: OutputCommand| c.view()) =~= Seq::<OCmd>::empty());
                                assert(output_blocks@ == ob0);
                            } else {
                                assert(output_blocks@ == ob0);
                            }
                            assert(output_step(o0, l@, line_num as nat) == Ok::<OutM, nat>(out_v(current_output, output_blocks@)));
                        }
                    },
                    Err(e) => {
                        proof {
                            assert(output_step(o0, l@, line_num as nat) == Err::<OutM, nat>(line_num as nat));
                        }
                        return Err(e);
                    },
                }
            },
            Ok(false) => {},
            Err(e) => {
                return Err(e);
            },
        }
        i = i + 1;
    }
    let ghost fin = state.view();
    let ghost ofin = out_v(current_output, output_blocks@);
    let ghost ob1 = output_blocks@;
    let pairs = state.into_pairs();
    match current_output {
        Some(b) => {
            output_blocks.push(b);
            proof {
                assert(crate::output::blocks_view(output_blocks@) =~= crate::output::blocks_view(ob1).push(ofin.1->0));
            }
        },
        None => {},
    }
    Ok(PacketScript { pairs, output_blocks, code_blocks })
}

} // verus!
