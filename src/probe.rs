//! One probe of one endpoint: placeholder expansion, the per-pair decisions
//! of the transport executor, and the assembly of the result. The caller
//! performs each action (connect, send, receive) and reports what happened.
use vstd::prelude::*;
use crate::builder::{build_packet_bytes, bufs_view, builds_to, lemma_packets_build_err_pub, pair_ops, packets_build, BuildError, BuildFail};
use crate::packet_parser::PacketCommand;
use crate::codec::VarIntError;
use crate::http::{http_reads, opt_model, parse_http_response, prepare_http_request_with_vars, prepared_from, rcmds_view, HttpResponseError, PreparedHttpRequest};
use crate::interp::{blocks_run, execute_code_blocks};
use crate::lexicon::hex_encode;
use crate::models::{GameServer, GameServerError, Protocol};
use crate::number::{decimal, decimal_chars};
use crate::output::{blocks_spec, blocks_view, docs_view, process_output_blocks, JsonDocs};
use crate::packet_parser::{parse_script, OCmd, OutputCommand, OutputStatus, PacketScript, SyntaxError};
use crate::response::{parse_response, run_reads, RespFail, ResponseError};
use crate::text::{chars_of, lines_spec, replace_all, replace_chars, slice_range, string_of};
use crate::value::{Json, Value};
use crate::vars::{extend_entries, keys_unique, lemma_lookup_extend, lemma_lookup_insert, lemma_remove_absent, lookup, remove_entry, VarTable};

verus! {

/// What a probe reports.
#[derive(Debug)]
pub struct GameServerTestResult {
    pub success: bool,
    pub response_time_ms: u64,
    /// Lower-case hex of each response received, separated by spaces.
    pub raw_response: Option<String>,
    pub parsed_values: VarTable,
    pub variables: VarTable,
    pub error: Option<GameServerError>,
    pub output_labels_success: Vec<String>,
    pub output_labels_error: Vec<String>,
}

/// Upper-case hexadecimal digits of `n`, without leading zeros.
pub open spec fn hex_upper(n: nat) -> Seq<char>
    decreases n,
{
    let d = n % 16;
    let c = if d < 10 { (d + '0' as nat) as char } else { (d - 10 + 'A' as nat) as char };
    if n < 16 { seq![c] } else { hex_upper(n / 16).push(c) }
}

fn hex_upper_chars(n: u64) -> (r: Vec<char>)
    ensures
        r@ == hex_upper(n as nat),
    decreases n,
{
    let d = (n % 16) as u32;
    let c = if d < 10 {
        char_of((d + 48) as u8)
    } else {
        char_of((d - 10 + 65) as u8)
    };
    if n < 16 {
        vec![c]
    } else {
        let mut r = hex_upper_chars(n / 16);
        r.push(c);
        r
    }
}

/// Writes `n` in upper-case hex.
pub fn hex_upper_digits(n: u64) -> (r: Vec<char>)
    ensures
        r@ == hex_upper(n as nat),
{
    hex_upper_chars(n)
}

fn char_of(b: u8) -> (c: char)
    requires
        b < 128,
    ensures
        c == b as char,
{
    b as char
}

/// A character that can be part of an identifier.
pub open spec fn ident_char(c: char) -> bool {
    ('a' <= c && c <= 'z') || ('A' <= c && c <= 'Z') || ('0' <= c && c <= '9') || c == '_'
}

/// `s` with each occurrence of the word `w` that stands alone (no
/// identifier character right before or after it) replaced by `v`;
/// `prev` says whether the character before `s` is an identifier character.
pub open spec fn replace_word(s: Seq<char>, w: Seq<char>, v: Seq<char>, prev: bool) -> Seq<char>
    decreases s.len(),
{
    if s.len() == 0 {
        s
    } else if !prev && 0 < w.len() <= s.len() && s.subrange(0, w.len() as int) == w && (w.len() == s.len()
        || !ident_char(s[w.len() as int])) {
        v + replace_word(s.subrange(w.len() as int, s.len() as int), w, v, true)
    } else {
        seq![s[0]] + replace_word(s.drop_first(), w, v, ident_char(s[0]))
    }
}

/// The script once the endpoint's tokens are expanded: `IP_LEN_HEX`,
/// `HOST_LEN`, `IP_LEN`, `PORT`, `IP` and `HOST`, in that order, each
/// wherever it stands as a word of its own (inside quotes too).
pub open spec fn placeholders_spec(code: Seq<char>, addr: Seq<char>, port: u16) -> Seq<char> {
    let len = vstd::utf8::encode_utf8(addr).len();
    let t1 = replace_word(code, "IP_LEN_HEX"@, hex_upper(len), false);
    let t2 = replace_word(t1, "HOST_LEN"@, decimal(len), false);
    let t3 = replace_word(t2, "IP_LEN"@, decimal(len), false);
    let t4 = replace_word(t3, "PORT"@, decimal(port as nat), false);
    let t5 = replace_word(t4, "IP"@, addr, false);
    replace_word(t5, "HOST"@, addr, false)
}

fn is_ident(c: char) -> (r: bool)
    ensures
        r == ident_char(c),
{
    ('a' <= c && c <= 'z') || ('A' <= c && c <= 'Z') || ('0' <= c && c <= '9') || c == '_'
}

/// Replaces each stand-alone occurrence of the word `w` by `v`.
pub fn replace_word_exec(s: &[char], w: &str, v: &[char]) -> (r: Vec<char>)
    ensures
        r@ == replace_word(s@, w@, v@, false),
{
    let wc = chars_of(w);
    let n = s.len();
    let mut out: Vec<char> = Vec::new();
    let mut i: usize = 0;
    let mut prev = false;
    proof {
        assert(s@.subrange(0, n as int) =~= s@);
        assert(out@ + replace_word(s@, w@, v@, false) =~= replace_word(s@, w@, v@, false));
    }
    while i < n
        invariant
            n == s@.len(),
            wc@ == w@,
            i <= n,
            out@ + replace_word(s@.subrange(i as int, n as int), w@, v@, prev) == replace_word(s@, w@, v@, false),
        decreases n - i,
    {
        let ghost rest = s@.subrange(i as int, n as int);
        let k = wc.len();
        let hit = !prev && k > 0 && k <= n - i && {
            let seg = slice_range(s, i, i + k);
            crate::text::chars_eq(seg.as_slice(), wc.as_slice())
        } && (k == n - i || !is_ident(s[i + k]));
        if hit {
            proof {
                assert(rest.subrange(0, k as int) =~= s@.subrange(i as int, i + k));
                if k < n - i {
                    assert(rest[k as int] == s@[i + k]);
                }
                assert(rest.subrange(k as int, rest.len() as int) =~= s@.subrange(i + k, n as int));
            }
            out.extend_from_slice(v);
            proof {
                assert(out@ + replace_word(s@.subrange(i + k, n as int), w@, v@, true) =~= replace_word(s@, w@, v@, false));
            }
            i = i + k;
            prev = true;
        } else {
            proof {
                if !prev && 0 < k <= n - i {
                    assert(rest.subrange(0, k as int) =~= s@.subrange(i as int, i + k));
                    if k < n - i {
                        assert(rest[k as int] == s@[i + k]);
                    }
                }
                assert(rest.drop_first() =~= s@.subrange(i + 1, n as int));
                assert(rest[0] == s@[i as int]);
            }
            out.push(s[i]);
            prev = is_ident(s[i]);
            proof {
                assert(out@ + replace_word(s@.subrange(i + 1, n as int), w@, v@, prev) =~= replace_word(s@, w@, v@, false));
            }
            i = i + 1;
        }
    }
    proof {
        assert(s@.subrange(n as int, n as int) =~= Seq::<char>::empty());
        assert(out@ + Seq::<char>::empty() =~= out@);
    }
    out
}

pub fn replace_placeholders(code: &str, address: &String, port: u16) -> (r: String)
    ensures
        r@ == placeholders_spec(code@, address@, port),
{
    let len = address.as_str().as_bytes().len() as u64;
    let a = chars_of(address.as_str());
    let hx = hex_upper_chars(len);
    let dl = decimal_chars(len);
    let dp = decimal_chars(port as u64);
    let t0 = chars_of(code);
    let t1 = replace_word_exec(t0.as_slice(), "IP_LEN_HEX", hx.as_slice());
    let t2 = replace_word_exec(t1.as_slice(), "HOST_LEN", dl.as_slice());
    let t3 = replace_word_exec(t2.as_slice(), "IP_LEN", dl.as_slice());
    let t4 = replace_word_exec(t3.as_slice(), "PORT", dp.as_slice());
    let t5 = replace_word_exec(t4.as_slice(), "IP", a.as_slice());
    let t6 = replace_word_exec(t5.as_slice(), "HOST", a.as_slice());
    string_of(t6.as_slice())
}

/// The names of the endpoint's pseudo-variables.
pub open spec fn is_pseudo(k: Seq<char>) -> bool {
    k == "HOST"@ || k == "IP"@ || k == "HOST_LEN"@ || k == "IP_LEN"@ || k == "PORT"@
}

/// A pseudo-variable's value.
pub open spec fn pseudo_value(k: Seq<char>, addr: Seq<char>, port: u16) -> Option<Json> {
    if k == "HOST"@ || k == "IP"@ {
        Some(Json::Str(addr))
    } else if k == "HOST_LEN"@ || k == "IP_LEN"@ {
        Some(Json::UInt(vstd::utf8::encode_utf8(addr).len()))
    } else if k == "PORT"@ {
        Some(Json::UInt(port as nat))
    } else {
        None
    }
}

/// Sets `k` to `v` unless the table already has `k`.
pub open spec fn insert_absent(e: Seq<(Seq<char>, Json)>, k: Seq<char>, v: Json) -> Seq<(Seq<char>, Json)> {
    if lookup(e, k) is Some { e } else { crate::vars::insert_entry(e, k, v) }
}

/// The table with the pseudo-variables added where absent.
pub open spec fn with_pseudo(e: Seq<(Seq<char>, Json)>, addr: Seq<char>, port: u16) -> Seq<(Seq<char>, Json)> {
    let n = Json::UInt(vstd::utf8::encode_utf8(addr).len());
    let e1 = insert_absent(e, "HOST"@, Json::Str(addr));
    let e2 = insert_absent(e1, "IP"@, Json::Str(addr));
    let e3 = insert_absent(e2, "HOST_LEN"@, n);
    let e4 = insert_absent(e3, "IP_LEN"@, n);
    insert_absent(e4, "PORT"@, Json::UInt(port as nat))
}

fn set_if_absent(vars: &mut VarTable, k: &str, v: Value)
    ensures
        final(vars).entries() == insert_absent(old(vars).entries(), k@, v.model()),
{
    if vars.get(k).is_none() {
        vars.insert(string_of(chars_of(k).as_slice()), v);
    }
}

/// Adds the endpoint's pseudo-variables where the table lacks them.
pub fn insert_server_placeholders(vars: &mut VarTable, address: &String, port: u16)
    ensures
        final(vars).entries() == with_pseudo(old(vars).entries(), address@, port),
{
    let n = address.as_str().as_bytes().len() as u64;
    set_if_absent(vars, "HOST", Value::Str(address.clone()));
    set_if_absent(vars, "IP", Value::Str(address.clone()));
    set_if_absent(vars, "HOST_LEN", Value::UInt(n));
    set_if_absent(vars, "IP_LEN", Value::UInt(n));
    set_if_absent(vars, "PORT", Value::UInt(port as u64));
}

proof fn lemma_lookup_insert_absent(e: Seq<(Seq<char>, Json)>, kp: Seq<char>, v: Json, k: Seq<char>)
    ensures
        lookup(insert_absent(e, kp, v), k) == (if k == kp && lookup(e, k) is None { Some(v) } else { lookup(e, k) }),
{
    lemma_lookup_insert(e, kp, v, k);
}

/// Variable precedence at output time: a code variable shadows a parsed
/// one, and a parsed one shadows a pseudo-variable of the endpoint.
pub proof fn lemma_lookup_precedence(
    parsed: Seq<(Seq<char>, Json)>,
    code: Seq<(Seq<char>, Json)>,
    addr: Seq<char>,
    port: u16,
    k: Seq<char>,
)
    ensures
        lookup(with_pseudo(extend_entries(extend_entries(Seq::empty(), parsed), code), addr, port), k) == (
        match lookup(code, k) {
            Some(v) => Some(v),
            None => match lookup(parsed, k) {
                Some(v) => Some(v),
                None => pseudo_value(k, addr, port),
            },
        }),
{
    let m = extend_entries(extend_entries(Seq::empty(), parsed), code);
    lemma_lookup_extend(extend_entries(Seq::empty(), parsed), code, k);
    lemma_lookup_extend(Seq::empty(), parsed, k);
    assert(lookup(Seq::<(Seq<char>, Json)>::empty(), k) is None);
    let n = Json::UInt(vstd::utf8::encode_utf8(addr).len());
    let e1 = insert_absent(m, "HOST"@, Json::Str(addr));
    let e2 = insert_absent(e1, "IP"@, Json::Str(addr));
    let e3 = insert_absent(e2, "HOST_LEN"@, n);
    let e4 = insert_absent(e3, "IP_LEN"@, n);
    lemma_lookup_insert_absent(m, "HOST"@, Json::Str(addr), k);
    lemma_lookup_insert_absent(e1, "IP"@, Json::Str(addr), k);
    lemma_lookup_insert_absent(e2, "HOST_LEN"@, n, k);
    lemma_lookup_insert_absent(e3, "IP_LEN"@, n, k);
    lemma_lookup_insert_absent(e4, "PORT"@, Json::UInt(port as nat), k);
    reveal_strlit("HOST");
    reveal_strlit("IP");
    reveal_strlit("HOST_LEN");
    reveal_strlit("IP_LEN");
    reveal_strlit("PORT");
}

/// Takes the pseudo-variables (and `IP_LEN_HEX`) out of a table.
pub fn strip_placeholder_vars(vars: &mut VarTable)
    requires
        keys_unique(old(vars).entries()),
    ensures
        forall|k: Seq<char>| is_pseudo(k) ==> lookup(final(vars).entries(), k) is None,
        lookup(final(vars).entries(), "IP_LEN_HEX"@) is None,
        forall|k: Seq<char>| !is_pseudo(k) && k != "IP_LEN_HEX"@ ==> lookup(final(vars).entries(), k) == lookup(
            old(vars).entries(),
            k,
        ),
        keys_unique(final(vars).entries()),
        final(vars).entries() == remove_entry(remove_entry(remove_entry(remove_entry(remove_entry(remove_entry(
            old(vars).entries(), "HOST"@), "IP"@), "HOST_LEN"@), "IP_LEN"@), "IP_LEN_HEX"@), "PORT"@),
{
    let ghost e0 = vars.entries();
    proof {
        lemma_remove_absent(e0, "HOST"@);
    }
    vars.shift_remove("HOST");
    let ghost e1 = vars.entries();
    proof {
        lemma_remove_absent(e1, "IP"@);
    }
    vars.shift_remove("IP");
    let ghost e2 = vars.entries();
    proof {
        lemma_remove_absent(e2, "HOST_LEN"@);
    }
    vars.shift_remove("HOST_LEN");
    let ghost e3 = vars.entries();
    proof {
        lemma_remove_absent(e3, "IP_LEN"@);
    }
    vars.shift_remove("IP_LEN");
    let ghost e4 = vars.entries();
    proof {
        lemma_remove_absent(e4, "IP_LEN_HEX"@);
    }
    vars.shift_remove("IP_LEN_HEX");
    let ghost e5 = vars.entries();
    proof {
        lemma_remove_absent(e5, "PORT"@);
    }
    vars.shift_remove("PORT");
    proof {
        reveal_strlit("HOST");
        reveal_strlit("IP");
        reveal_strlit("HOST_LEN");
        reveal_strlit("IP_LEN");
        reveal_strlit("IP_LEN_HEX");
        reveal_strlit("PORT");
    }
}

} // verus!

verus! {

/// What the caller is to do next.
#[derive(Debug)]
pub enum ProbeAction {
    /// Open a TCP connection to the endpoint.
    Connect,
    /// Drop the live TCP connection.
    Disconnect,
    /// Send one UDP datagram and await one reply.
    SendDatagram(Vec<u8>),
    /// Write the packets in order on the TCP connection, then, if asked,
    /// read one reply.
    SendTcp { packets: Vec<Vec<u8>>, read_reply: bool },
    /// Send one HTTP request and report the response.
    SendHttp(PreparedHttpRequest),
    /// No more network work: assemble the result.
    Finish,
}

/// The state of one probe between network steps.
pub struct ProbeSession {
    pub address: String,
    pub port: u16,
    pub protocol: Protocol,
    pub script: PacketScript,
    /// Variables read so far; later pairs see those of earlier ones.
    pub vars: VarTable,
    /// Every response body or datagram received, in order.
    pub responses: Vec<Vec<u8>>,
    /// The pair to run next.
    pub next_pair: usize,
    pub connected: bool,
    /// Whether the current pair has already dropped the connection.
    pub closed_for_pair: bool,
    pub error: Option<GameServerError>,
}

fn chars_cat(parts: &[&str]) -> (r: String) {
    let mut out: Vec<char> = Vec::new();
    let mut i: usize = 0;
    while i < parts.len()
        invariant
            i <= parts@.len(),
        decreases parts.len() - i,
    {
        let c = chars_of(parts[i]);
        out.extend_from_slice(c.as_slice());
        i = i + 1;
    }
    string_of(out.as_slice())
}

fn dec(n: usize) -> (r: String) {
    string_of(decimal_chars(n as u64).as_slice())
}

fn hex2(b: u8) -> (r: String)
    ensures
        r@ == crate::packet::hex_padded(b as nat, 2),
{
    string_of(crate::packet::hex_padded_exec(b as u64, 2).as_slice())
}

/// The message of a failed `EXPECT_BYTE`.
pub open spec fn byte_mismatch_text(expected: u8, actual: u8) -> Seq<char> {
    "Expected byte 0x"@ + crate::packet::hex_padded(expected as nat, 2) + ", got 0x"@ + crate::packet::hex_padded(actual as nat, 2)
}

fn byte_mismatch_message(expected: u8, actual: u8) -> (r: String)
    ensures
        r@ == byte_mismatch_text(expected, actual),
{
    let mut m = chars_of("Expected byte 0x");
    m.extend_from_slice(chars_of(hex2(expected).as_str()).as_slice());
    m.extend_from_slice(chars_of(", got 0x").as_slice());
    m.extend_from_slice(chars_of(hex2(actual).as_str()).as_slice());
    proof {
        assert(m@ =~= byte_mismatch_text(expected, actual));
    }
    string_of(m.as_slice())
}

fn error_of(kind: &str, message: String, line: Option<usize>) -> (r: GameServerError)
    ensures
        r.error_type@ == kind@,
        r.line == line,
        r.message == message,
{
    GameServerError { error_type: string_of(chars_of(kind).as_slice()), message, line }
}

/// The text of a build failure.
pub fn build_error_message(e: &BuildError) -> String {
    match e {
        BuildError::UnknownVariable(n) => chars_cat(&["Variable '", n.as_str(), "' not found in variables map"]),
        BuildError::NotNumeric(n) => chars_cat(&["Variable '", n.as_str(), "' is not a number of the op's width"]),
        BuildError::NotString(n) => chars_cat(&["Variable '", n.as_str(), "' is not a string"]),
        BuildError::TooLarge => chars_cat(&["Packet too large"]),
    }
}

/// The text of a response failure.
pub fn response_error_message(e: &ResponseError) -> (r: String)
    ensures
        e matches ResponseError::ByteMismatch { expected, actual, .. } ==> r@ == byte_mismatch_text(*expected, *actual),
{
    match e {
        ResponseError::Insufficient { needed, available } => chars_cat(
            &["Insufficient data: need ", dec(*needed).as_str(), " bytes, have ", dec(*available).as_str()],
        ),
        ResponseError::ByteMismatch { expected, actual, .. } => byte_mismatch_message(*expected, *actual),
        ResponseError::MagicMismatch { expected, actual, .. } => chars_cat(
            &["Expected magic bytes ", hex_encode(expected.as_slice()).as_str(), ", got ", hex_encode(actual.as_slice()).as_str()],
        ),
        ResponseError::VarInt(VarIntError::Truncated) => chars_cat(&["Insufficient data reading VarInt"]),
        ResponseError::VarInt(VarIntError::TooLarge) => chars_cat(&["VarInt too large"]),
        ResponseError::MissingLength => chars_cat(&["READ_STRING requires length"]),
        ResponseError::HttpOnly { .. } => chars_cat(&["Command is only valid for HTTP responses, not binary responses"]),
    }
}

/// The text of an HTTP response failure.
pub fn http_error_message(e: &HttpResponseError) -> String {
    match e {
        HttpResponseError::StatusMismatch { expected, actual, .. } => chars_cat(
            &["Expected status code ", dec(*expected as usize).as_str(), ", got ", dec(*actual as usize).as_str()],
        ),
        HttpResponseError::HeaderMissing { key, .. } => chars_cat(&["Header '", key.as_str(), "' not found or invalid"]),
        HttpResponseError::HeaderMismatch { key, expected, actual, .. } => chars_cat(
            &["Expected header '", key.as_str(), "' to be '", expected.as_str(), "', got '", actual.as_str(), "'"],
        ),
        HttpResponseError::NotJson { .. } => chars_cat(&["Failed to parse response body as JSON"]),
        HttpResponseError::NotText { .. } => chars_cat(&["Failed to parse response body as UTF-8 text"]),
        HttpResponseError::BinaryOnly { .. } => chars_cat(&["Command is not valid for HTTP responses"]),
    }
}

fn pair_message(pair: usize, text: &str) -> String {
    chars_cat(&["Pair ", dec(pair).as_str(), ": ", text])
}

/// Whether `e` is an error of the given kind.
pub open spec fn error_is(e: Option<GameServerError>, kind: Seq<char>) -> bool {
    e matches Some(x) && x.error_type@ == kind
}

/// What the next network step is, given the state before (`s`) and after
/// (`t`): with no error and a pair left, a TCP pair first drops the live
/// connection when it is marked to (once), then connects when none is live,
/// then sends all its packets; a UDP pair sends its first packet; an HTTP
/// pair sends its filled template; a pair of the wrong kind for the
/// transport is a `ProtocolError`, a packet that does not build a
/// `BuildError`. Otherwise the probe is finished.
pub open spec fn next_action_spec(s: ProbeSession, r: ProbeAction, t: ProbeSession) -> bool {
    if s.error.is_some() || s.next_pair >= s.script.pairs@.len() {
        r is Finish && t.error == s.error && t.connected == s.connected
    } else {
        let pair = s.script.pairs@[s.next_pair as int];
        let built = packets_build(pair_ops(pair), s.vars.entries());
        match s.protocol {
            Protocol::Udp | Protocol::Tcp => if pair.http_request.is_some() {
                r is Finish && error_is(t.error, "ProtocolError"@)
            } else if s.protocol == Protocol::Tcp && pair.close_connection_before && s.connected && !s.closed_for_pair {
                r is Disconnect && !t.connected && t.closed_for_pair && t.error.is_none()
            } else if s.protocol == Protocol::Tcp && !s.connected {
                r is Connect && t.error.is_none() && !t.connected
            } else {
                match built {
                    Err(_) => r is Finish && error_is(t.error, "BuildError"@),
                    Ok(bs) => if s.protocol == Protocol::Tcp {
                        r matches ProbeAction::SendTcp { packets, read_reply } && bufs_view(packets@) == bs
                            && read_reply == (pair.response@.len() > 0) && t.error.is_none() && t.connected
                    } else if bs.len() == 0 {
                        r is Finish && error_is(t.error, "BuildError"@)
                    } else {
                        r matches ProbeAction::SendDatagram(p) && p@ == bs[0] && t.error.is_none()
                    },
                }
            },
            _ => match pair.http_request {
                Some(req) => r matches ProbeAction::SendHttp(q) && prepared_from(q, req, s.vars.entries()) && t.error.is_none(),
                None => r is Finish && error_is(t.error, "ProtocolError"@),
            },
        }
    }
}

/// The lines of an endpoint's script once its tokens are expanded.
pub open spec fn expanded_lines(server: GameServer) -> Seq<Seq<char>> {
    lines_spec(placeholders_spec(server.pseudo_code@, server.address@, server.port))
}

/// The result of a probe whose script does not parse.
pub fn syntax_error_result(e: &SyntaxError) -> (r: GameServerTestResult)
    ensures
        !r.success,
        r.error matches Some(x) && x.error_type@ == "SyntaxError"@ && x.line == Some(e.line),
        r.output_labels_success@.len() == 0,
        r.output_labels_error@.len() == 0,
        r.parsed_values.entries().len() == 0,
        r.variables.entries().len() == 0,
{
    GameServerTestResult {
        success: false,
        response_time_ms: 0,
        raw_response: None,
        parsed_values: VarTable::new(),
        variables: VarTable::new(),
        error: Some(error_of("SyntaxError", e.message.clone(), Some(e.line))),
        output_labels_success: Vec::new(),
        output_labels_error: Vec::new(),
    }
}

impl ProbeSession {
    /// The session's invariant: the table of read variables has distinct
    /// keys, and the next pair is within the script.
    pub open spec fn wf(&self) -> bool {
        &&& keys_unique(self.vars.entries())
        &&& self.next_pair <= self.script.pairs@.len()
    }

    /// Expands the endpoint's tokens in its script and parses it.
    pub fn start(server: &GameServer) -> (r: Result<ProbeSession, SyntaxError>)
        ensures
            r matches Ok(s) ==> s.wf() && s.next_pair == 0 && !s.connected && s.error.is_none()
                && s.protocol == server.protocol && s.vars.entries().len() == 0 && s.address@ == server.address@
                && s.port == server.port && s.responses@.len() == 0,
            r matches Ok(s) ==> crate::packet_parser::script_pairs(lines_spec(placeholders_spec(server.pseudo_code@, server.address@, server.port)))
                == Some(crate::packet_parser::pairs_v(s.script.pairs@)),
            r matches Ok(s) ==> crate::packet_parser::script_outputs(expanded_lines(*server)) == Some(
                crate::output::blocks_view(s.script.output_blocks@),
            ),
            r matches Err(e) ==> 1 <= e.line <= expanded_lines(*server).len(),
            r matches Err(e) ==> crate::packet_parser::assemble_script(expanded_lines(*server)) == Err::<
                (crate::packet_parser::Asm, crate::packet_parser::OutM),
                nat,
            >(e.line as nat) || crate::packet_parser::in_code_body(expanded_lines(*server), e.line - 1),
            !crate::packet_parser::has_code(expanded_lines(*server)) ==> match crate::packet_parser::assemble_script(
                expanded_lines(*server),
            ) {
                Ok(_) => r is Ok,
                Err(n) => r matches Err(e) && e.line == n,
            },
    {
        let code = replace_placeholders(server.pseudo_code.as_str(), &server.address, server.port);
        let script = match parse_script(code.as_str()) {
            Ok(s) => s,
            Err(e) => {
                return Err(e);
            },
        };
        Ok(ProbeSession {
            address: server.address.clone(),
            port: server.port,
            protocol: server.protocol,
            script,
            vars: VarTable::new(),
            responses: Vec::new(),
            next_pair: 0,
            connected: false,
            closed_for_pair: false,
            error: None,
        })
    }

    fn fail(&mut self, e: GameServerError)
        ensures
            final(self).error == Some(e),
            final(self).vars == old(self).vars,
            final(self).next_pair == old(self).next_pair,
            final(self).script == old(self).script,
            final(self).responses == old(self).responses,
            final(self).connected == old(self).connected,
            final(self).closed_for_pair == old(self).closed_for_pair,
    {
        self.error = Some(e);
    }

    fn build_pair(&self) -> (r: Result<Vec<Vec<u8>>, BuildError>)
        requires
            self.next_pair < self.script.pairs@.len(),
        ensures
            match packets_build(pair_ops(self.script.pairs@[self.next_pair as int]), self.vars.entries()) {
                Ok(bs) => r matches Ok(v) && bufs_view(v@) == bs,
                Err(_) => r is Err,
            },
    {
        let pair = &self.script.pairs[self.next_pair];
        let ghost e = self.vars.entries();
        let ghost ops = pair_ops(*pair);
        let mut out: Vec<Vec<u8>> = Vec::new();
        let mut i: usize = 0;
        proof {
            assert(ops.subrange(0, 0) =~= Seq::<Seq<PacketCommand>>::empty());
            assert(bufs_view(out@) =~= Seq::<Seq<u8>>::empty());
        }
        while i < pair.packets.len()
            invariant
                self.next_pair < self.script.pairs@.len(),
                *pair == self.script.pairs@[self.next_pair as int],
                ops == pair_ops(*pair),
                e == self.vars.entries(),
                i <= pair.packets@.len(),
                packets_build(ops.subrange(0, i as int), e) == Ok::<Seq<Seq<u8>>, BuildFail>(bufs_view(out@)),
            decreases pair.packets.len() - i,
        {
            proof {
                assert(ops.subrange(0, i + 1).drop_last() =~= ops.subrange(0, i as int));
                assert(ops.subrange(0, i + 1).last() == pair.packets@[i as int]@);
            }
            match build_packet_bytes(&pair.packets[i], &self.vars) {
                Ok(b) => {
                    let ghost o = out@;
                    out.push(b);
                    proof {
                        assert(bufs_view(out@) =~= bufs_view(o).push(b@));
                    }
                },
                Err(x) => {
                    proof {
                        lemma_packets_build_err_pub(ops, e, i + 1);
                    }
                    return Err(x);
                },
            }
            i = i + 1;
        }
        proof {
            assert(ops.subrange(0, ops.len() as int) =~= ops);
        }
        Ok(out)
    }

    /// Decides the next network step. A TCP connection is opened only when
    /// none is live, dropped only before a pair marked to close it, and
    /// packets go out only on a live connection; after an error, or after
    /// the last pair, the answer is `Finish`.
    pub fn next_action(&mut self) -> (r: ProbeAction)
        requires
            old(self).wf(),
        ensures
            final(self).wf(),
            final(self).vars == old(self).vars,
            final(self).next_pair == old(self).next_pair,
            final(self).script == old(self).script,
            final(self).responses == old(self).responses,
            next_action_spec(*old(self), r, *final(self)),
    {
        if self.error.is_some() || self.next_pair >= self.script.pairs.len() {
            return ProbeAction::Finish;
        }
        let n = self.next_pair + 1;
        let is_http_pair = self.script.pairs[self.next_pair].http_request.is_some();
        match self.protocol {
            Protocol::Udp | Protocol::Tcp => {
                if is_http_pair {
                    self.fail(error_of("ProtocolError", pair_message(n, "HTTP requests need the HTTP or HTTPS protocol"), None));
                    return ProbeAction::Finish;
                }
                if self.protocol == Protocol::Tcp {
                    if self.script.pairs[self.next_pair].close_connection_before && self.connected && !self.closed_for_pair {
                        self.connected = false;
                        self.closed_for_pair = true;
                        return ProbeAction::Disconnect;
                    }
                    if !self.connected {
                        return ProbeAction::Connect;
                    }
                }
                let packets = match self.build_pair() {
                    Ok(p) => p,
                    Err(e) => {
                        let m = build_error_message(&e);
                        self.fail(error_of("BuildError", pair_message(n, m.as_str()), None));
                        return ProbeAction::Finish;
                    },
                };
                if self.protocol == Protocol::Udp {
                    if packets.len() == 0 {
                        self.fail(error_of("BuildError", pair_message(n, "No packets to send"), None));
                        return ProbeAction::Finish;
                    }
                    let mut ps = packets;
                    let ghost all = ps@;
                    let first = ps.swap_remove(0);
                    proof {
                        assert(first == all[0]);
                    }
                    ProbeAction::SendDatagram(first)
                } else {
                    let read_reply = self.script.pairs[self.next_pair].response.len() > 0;
                    ProbeAction::SendTcp { packets, read_reply }
                }
            },
            Protocol::Http | Protocol::Https => {
                match &self.script.pairs[self.next_pair].http_request {
                    Some(req) => {
                        let prepared = prepare_http_request_with_vars(req, &self.vars);
                        ProbeAction::SendHttp(prepared)
                    },
                    None => {
                        self.fail(error_of("ProtocolError", pair_message(n, "Binary packets are not supported for HTTP/HTTPS protocol"), None));
                        ProbeAction::Finish
                    },
                }
            },
        }
    }

    /// The connection asked for is open.
    pub fn on_connected(&mut self)
        requires
            old(self).wf(),
        ensures
            final(self).wf(),
            final(self).connected,
            final(self).next_pair == old(self).next_pair,
    {
        self.connected = true;
    }

    /// A network step failed: the probe stops with a `NetworkError`.
    pub fn on_network_error(&mut self, message: String)
        requires
            old(self).wf(),
        ensures
            final(self).wf(),
            final(self).error matches Some(e) && e.error_type@ == "NetworkError"@,
            !final(self).connected,
            final(self).vars == old(self).vars,
    {
        self.connected = false;
        self.error = Some(error_of("NetworkError", message, None));
    }

    fn advance(&mut self)
        requires
            old(self).wf(),
            old(self).next_pair < old(self).script.pairs@.len(),
        ensures
            final(self).wf(),
            final(self).next_pair == old(self).next_pair + 1,
            final(self).vars == old(self).vars,
            final(self).error == old(self).error,
            final(self).responses == old(self).responses,
            final(self).script == old(self).script,
    {
        // The number of pairs fits in a `usize`, so the next index does too.
        let _count = self.script.pairs.len();
        self.next_pair = self.next_pair + 1;
        self.closed_for_pair = false;
    }

    /// A TCP send that expects no reply went out: the pair is done.
    pub fn on_tcp_sent(&mut self)
        requires
            old(self).wf(),
        ensures
            final(self).wf(),
            old(self).next_pair < old(self).script.pairs@.len() && old(self).error.is_none()
                ==> final(self).next_pair == old(self).next_pair + 1,
    {
        if self.error.is_none() && self.next_pair < self.script.pairs.len() {
            self.advance();
        }
    }

    /// A binary reply (UDP datagram or TCP read) arrived for the current
    /// pair: it is recorded and parsed with the pair's read ops; its
    /// variables join the table, or the probe stops with a `ParseError`
    /// (a `ValidationError`, with the op's number, for a failed
    /// expectation).
    pub fn on_reply(&mut self, data: Vec<u8>)
        requires
            old(self).wf(),
        ensures
            final(self).wf(),
            final(self).responses@.len() == old(self).responses@.len() + 1,
            old(self).error.is_none() && old(self).next_pair < old(self).script.pairs@.len()
                ==> (final(self).error.is_none() <==> final(self).next_pair == old(self).next_pair + 1),
            old(self).error.is_none() && old(self).next_pair < old(self).script.pairs@.len() ==> match run_reads(
                old(self).script.pairs@[old(self).next_pair as int].response@,
                data@,
            ) {
                Ok((e, _)) => final(self).vars.entries() == extend_entries(old(self).vars.entries(), e),
                Err(f) => final(self).error.is_some() && final(self).vars == old(self).vars && (f matches RespFail::ByteMismatch(op, x, a)
                    ==> (error_is(final(self).error, "ValidationError"@) && final(self).error->0.line == Some(op as usize)
                    && final(self).error->0.message@ == byte_mismatch_text(x, a))),
            },
    {
        if self.error.is_some() || self.next_pair >= self.script.pairs.len() {
            self.responses.push(data);
            return;
        }
        let n = self.next_pair + 1;
        let has_ops = self.script.pairs[self.next_pair].response.len() > 0;
        if has_ops {
            match parse_response(&self.script.pairs[self.next_pair].response, data.as_slice()) {
                Ok((vars, _cursor)) => {
                    self.vars.extend_from(&vars);
                    self.advance();
                },
                Err(e) => {
                    let m = response_error_message(&e);
                    let err = match &e {
                        ResponseError::ByteMismatch { op, .. } => error_of("ValidationError", m, Some(*op)),
                        ResponseError::MagicMismatch { op, .. } => error_of("ValidationError", m, Some(*op)),
                        _ => error_of("ParseError", pair_message(n, m.as_str()), None),
                    };
                    self.fail(err);
                },
            }
        } else {
            self.advance();
        }
        self.responses.push(data);
    }

    /// An HTTP response arrived for the current pair: the body is recorded,
    /// and the pair's ops read it.
    pub fn on_http_response(&mut self, status: u16, headers: &Vec<(String, String)>, body: Vec<u8>, body_json: &Option<Value>)
        requires
            old(self).wf(),
        ensures
            final(self).wf(),
            final(self).responses@ == old(self).responses@.push(body),
            old(self).error.is_some() || old(self).next_pair >= old(self).script.pairs@.len() ==> final(self).vars
                == old(self).vars && final(self).next_pair == old(self).next_pair && final(self).error == old(self).error,
            old(self).error.is_none() && old(self).next_pair < old(self).script.pairs@.len() ==> {
                let pair = old(self).script.pairs@[old(self).next_pair as int];
                if pair.response@.len() == 0 {
                    final(self).vars == old(self).vars && final(self).next_pair == old(self).next_pair + 1
                        && final(self).error.is_none()
                } else {
                    match http_reads(
                        rcmds_view(pair.response@),
                        status,
                        crate::packet_parser::pairs_view(headers@),
                        body@,
                        opt_model(*body_json),
                    ) {
                        Ok(e) => final(self).vars.entries() == extend_entries(old(self).vars.entries(), e)
                            && final(self).next_pair == old(self).next_pair + 1 && final(self).error.is_none(),
                        Err(_) => final(self).error.is_some() && final(self).vars == old(self).vars
                            && final(self).next_pair == old(self).next_pair,
                    }
                }
            },
    {
        if self.error.is_some() || self.next_pair >= self.script.pairs.len() {
            self.responses.push(body);
            return;
        }
        let n = self.next_pair + 1;
        let has_ops = self.script.pairs[self.next_pair].response.len() > 0;
        if has_ops {
            match parse_http_response(&self.script.pairs[self.next_pair].response, status, headers, body.as_slice(), body_json) {
                Ok(vars) => {
                    self.vars.extend_from(&vars);
                    self.advance();
                },
                Err(e) => {
                    let m = http_error_message(&e);
                    let err = match &e {
                        HttpResponseError::StatusMismatch { op, .. } => error_of("ValidationError", m, Some(*op)),
                        HttpResponseError::HeaderMissing { op, .. } => error_of("ValidationError", m, Some(*op)),
                        HttpResponseError::HeaderMismatch { op, .. } => error_of("ValidationError", m, Some(*op)),
                        _ => error_of("ParseError", pair_message(n, m.as_str()), None),
                    };
                    self.fail(err);
                },
            }
        } else {
            self.advance();
        }
        self.responses.push(body);
    }

    /// The variables the output blocks see: the read variables, then the
    /// code variables over them, then the pseudo-variables where absent.
    fn merged(&self, code: &VarTable) -> (r: VarTable)
        ensures
            r.entries() == with_pseudo(
                extend_entries(extend_entries(Seq::empty(), self.vars.entries()), code.entries()),
                self.address@,
                self.port,
            ),
    {
        let mut all = VarTable::new();
        all.extend_from(&self.vars);
        all.extend_from(code);
        insert_server_placeholders(&mut all, &self.address, self.port);
        all
    }

    fn code_vars(&self) -> (r: VarTable)
        ensures
            r.entries() == code_table(*self),
    {
        match execute_code_blocks(&self.script.code_blocks, &self.vars) {
            Ok(t) => t,
            Err(_) => VarTable::new(),
        }
    }

    /// The strings that `JSON_OUTPUT` will parse in the output blocks that
    /// the result runs: the caller parses each and hands the documents to
    /// [`ProbeSession::finish`].
    pub fn json_output_texts(&self) -> (r: Vec<String>)
        ensures
            r@.map_values(|t: String| t@) == block_texts(
                blocks_view(self.script.output_blocks@),
                if self.error.is_some() { OutputStatus::Error } else { OutputStatus::Success },
                merged_table(*self),
            ),
    {
        let code = self.code_vars();
        let all = self.merged(&code);
        let status = if self.error.is_some() { OutputStatus::Error } else { OutputStatus::Success };
        let ghost bv = blocks_view(self.script.output_blocks@);
        let ghost e = all.entries();
        let mut out: Vec<String> = Vec::new();
        let mut b: usize = 0;
        proof {
            assert(bv.subrange(0, 0) =~= Seq::<(OutputStatus, Seq<OCmd>)>::empty());
            assert(out@.map_values(|t: String| t@) =~= Seq::<Seq<char>>::empty());
        }
        while b < self.script.output_blocks.len()
            invariant
                bv == blocks_view(self.script.output_blocks@),
                e == all.entries(),
                b <= bv.len(),
                out@.map_values(|t: String| t@) == block_texts(bv.subrange(0, b as int), status, e),
            decreases self.script.output_blocks.len() - b,
        {
            proof {
                assert(bv.subrange(0, b + 1).drop_last() =~= bv.subrange(0, b as int));
                assert(bv.subrange(0, b + 1).last() == bv[b as int]);
            }
            let block = &self.script.output_blocks[b];
            let ghost before = out@.map_values(|t: String| t@);
            let ghost cv = block.commands@.map_values(|c: OutputCommand| c.view());
            if block.status == status {
                let mut c: usize = 0;
                proof {
                    assert(cv.subrange(0, 0) =~= Seq::<OCmd>::empty());
                    assert(before + Seq::<Seq<char>>::empty() =~= before);
                }
                while c < block.commands.len()
                    invariant
                        e == all.entries(),
                        cv == block.commands@.map_values(|c: OutputCommand| c.view()),
                        c <= cv.len(),
                        out@.map_values(|t: String| t@) == before + cmd_texts(cv.subrange(0, c as int), e),
                    decreases block.commands.len() - c,
                {
                    proof {
                        assert(cv.subrange(0, c + 1).drop_last() =~= cv.subrange(0, c as int));
                        assert(cv.subrange(0, c + 1).last() == block.commands@[c as int].view());
                    }
                    let ghost o = out@;
                    if let OutputCommand::JsonOutput(v) = &block.commands[c] {
                        if let Some(Value::Str(t)) = all.get(v.as_str()) {
                            out.push(t.clone());
                            proof {
                                assert(out@.map_values(|t: String| t@) =~= o.map_values(|t: String| t@).push(t@));
                            }
                        }
                    }
                    proof {
                        assert(out@.map_values(|t: String| t@) =~= before + cmd_texts(cv.subrange(0, c + 1), e));
                    }
                    c = c + 1;
                }
                proof {
                    assert(cv.subrange(0, cv.len() as int) =~= cv);
                }
            } else {
                proof {
                    assert(before + Seq::<Seq<char>>::empty() =~= before);
                }
            }
            b = b + 1;
        }
        proof {
            assert(bv.subrange(0, bv.len() as int) =~= bv);
        }
        out
    }

    /// Assembles the result. Code blocks run (a failing one contributes no
    /// variables); then, when no pair failed, the success blocks render and
    /// the parsed values are reported without pseudo-variables; when one
    /// failed, only the error blocks render, with the error's message.
    pub fn finish(&self, response_time_ms: u64, docs: &JsonDocs) -> (r: GameServerTestResult)
        requires
            self.wf(),
        ensures
            r.success == self.error.is_none(),
            self.error.is_some() ==> r.output_labels_success@.len() == 0 && r.error.is_some()
                && r.parsed_values.entries().len() == 0,
            self.error.is_none() ==> r.output_labels_error@.len() == 0 && r.error.is_none(),
            forall|k: Seq<char>| is_pseudo(k) ==> lookup(r.parsed_values.entries(), k) is None,
            self.error.is_none() ==> forall|k: Seq<char>| !is_pseudo(k) && k != "IP_LEN_HEX"@ ==> lookup(
                r.parsed_values.entries(),
                k,
            ) == lookup(self.vars.entries(), k),
            r.raw_response matches Some(t) && t@ == raw_spec(self.responses@.map_values(|b: Vec<u8>| b@)),
            self.error.is_none() ==> r.output_labels_success@.map_values(|t: String| t@) == labels_for(
                *self,
                OutputStatus::Success,
                docs_view(docs.docs@),
                Seq::empty(),
            ) && r.variables.entries() == code_table(*self),
            self.error matches Some(e) ==> r.output_labels_error@.map_values(|t: String| t@) == labels_for(
                *self,
                OutputStatus::Error,
                docs_view(docs.docs@),
                e.message@,
            ) && (r.error matches Some(x) && x.error_type@ == e.error_type@ && x.message@ == e.message@ && x.line
                == e.line),
            r.response_time_ms == response_time_ms,
    {
        let ghost rv = self.responses@.map_values(|b: Vec<u8>| b@);
        let mut raw: Vec<char> = Vec::new();
        let mut i: usize = 0;
        proof {
            assert(rv.subrange(0, 0) =~= Seq::<Seq<u8>>::empty());
        }
        while i < self.responses.len()
            invariant
                rv == self.responses@.map_values(|b: Vec<u8>| b@),
                i <= self.responses@.len(),
                raw@ == raw_spec(rv.subrange(0, i as int)),
            decreases self.responses.len() - i,
        {
            proof {
                assert(rv.subrange(0, i + 1).drop_last() =~= rv.subrange(0, i as int));
                assert(rv.subrange(0, i + 1).last() == self.responses@[i as int]@);
            }
            if i > 0 {
                raw.push(' ');
            }
            let h = hex_encode(self.responses[i].as_slice());
            raw.extend_from_slice(chars_of(h.as_str()).as_slice());
            proof {
                assert(raw@ =~= raw_spec(rv.subrange(0, i + 1)));
            }
            i = i + 1;
        }
        proof {
            assert(rv.subrange(0, rv.len() as int) =~= rv);
        }
        let raw_response = Some(string_of(raw.as_slice()));
        let code = self.code_vars();
        let mut all = self.merged(&code);
        match &self.error {
            Some(err) => {
                let labels = match process_output_blocks(
                    &self.script.output_blocks,
                    OutputStatus::Error,
                    &mut all,
                    docs,
                    &self.address,
                    self.port,
                    Some(&err.message),
                ) {
                    Some(l) => l,
                    None => Vec::new(),
                };
                let e = GameServerError { error_type: err.error_type.clone(), message: err.message.clone(), line: err.line };
                let empty = VarTable::new();
                proof {
                    assert forall|k: Seq<char>| is_pseudo(k) implies lookup(empty.entries(), k) is None by {}
                }
                GameServerTestResult {
                    success: false,
                    response_time_ms,
                    raw_response,
                    parsed_values: empty,
                    variables: VarTable::new(),
                    error: Some(e),
                    output_labels_success: Vec::new(),
                    output_labels_error: labels,
                }
            },
            None => {
                let labels = match process_output_blocks(
                    &self.script.output_blocks,
                    OutputStatus::Success,
                    &mut all,
                    docs,
                    &self.address,
                    self.port,
                    None,
                ) {
                    Some(l) => l,
                    None => Vec::new(),
                };
                let mut parsed = VarTable::new();
                parsed.extend_from(&self.vars);
                proof {
                    lemma_extend_empty(self.vars.entries());
                }
                strip_placeholder_vars(&mut parsed);
                GameServerTestResult {
                    success: true,
                    response_time_ms,
                    raw_response,
                    parsed_values: parsed,
                    variables: code,
                    error: None,
                    output_labels_success: labels,
                    output_labels_error: Vec::new(),
                }
            },
        }
    }
}

/// The received responses in lower-case hex, separated by single spaces.
pub open spec fn raw_spec(rs: Seq<Seq<u8>>) -> Seq<char>
    decreases rs.len(),
{
    if rs.len() == 0 {
        Seq::empty()
    } else if rs.len() == 1 {
        crate::lexicon::hex_lower(rs[0])
    } else {
        raw_spec(rs.drop_last()) + seq![' '] + crate::lexicon::hex_lower(rs.last())
    }
}

/// The code table a session's code blocks give; empty when one fails.
pub open spec fn code_table(s: ProbeSession) -> Seq<(Seq<char>, Json)> {
    match blocks_run(s.script.code_blocks@, 0, s.vars.entries(), Seq::empty()) {
        Ok(e) => e,
        Err(_) => Seq::empty(),
    }
}

/// The table the output blocks see: read variables, code variables over
/// them, pseudo-variables where absent.
pub open spec fn merged_table(s: ProbeSession) -> Seq<(Seq<char>, Json)> {
    with_pseudo(extend_entries(extend_entries(Seq::empty(), s.vars.entries()), code_table(s)), s.address@, s.port)
}

/// The lines the blocks with this tag render; none when one fails.
pub open spec fn labels_for(s: ProbeSession, status: OutputStatus, d: Seq<(Seq<char>, Option<Json>)>, msg: Seq<char>) -> Seq<Seq<char>> {
    match blocks_spec(blocks_view(s.script.output_blocks@), status, merged_table(s), d, s.address@, s.port, msg) {
        Some((ls, _)) => ls,
        None => Seq::empty(),
    }
}

/// The strings that the `JSON_OUTPUT` commands of a block's commands read
/// in the table `e`.
pub open spec fn cmd_texts(cs: Seq<OCmd>, e: Seq<(Seq<char>, Json)>) -> Seq<Seq<char>>
    decreases cs.len(),
{
    if cs.len() == 0 {
        Seq::empty()
    } else {
        cmd_texts(cs.drop_last(), e) + match cs.last() {
            OCmd::JsonOutput(v) => match lookup(e, v) {
                Some(Json::Str(t)) => seq![t],
                _ => Seq::empty(),
            },
            _ => Seq::empty(),
        }
    }
}

/// The strings that the `JSON_OUTPUT` commands of the blocks with this tag
/// read in the table `e`, in order.
pub open spec fn block_texts(bs: Seq<(OutputStatus, Seq<OCmd>)>, status: OutputStatus, e: Seq<(Seq<char>, Json)>) -> Seq<Seq<char>>
    decreases bs.len(),
{
    if bs.len() == 0 {
        Seq::empty()
    } else {
        block_texts(bs.drop_last(), status, e) + if bs.last().0 == status { cmd_texts(bs.last().1, e) } else { Seq::empty() }
    }
}

/// Setting the entries of a table with distinct keys into an empty one
/// gives the same entries.
proof fn lemma_extend_empty(f: Seq<(Seq<char>, Json)>)
    requires
        keys_unique(f),
    ensures
        extend_entries(Seq::empty(), f) == f,
    decreases f.len(),
{
    if f.len() > 0 {
        let g = f.drop_last();
        assert(keys_unique(g));
        lemma_extend_empty(g);
        crate::vars::lemma_key_pos(g, f.last().0);
        if crate::vars::key_pos(g, f.last().0) >= 0 {
            let p = crate::vars::key_pos(g, f.last().0);
            assert(f[p].0 == f[f.len() - 1].0);
        }
        assert(g.push(f.last()) =~= f);
    }
}

} // verus!
