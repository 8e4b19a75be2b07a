//! The binary response parser: runs read ops over received bytes with a
//! cursor that never moves back.
use vstd::prelude::*;
use vstd::utf8::{decode_utf8, valid_utf8};
use crate::codec::{decode_u16, decode_u32, read_varint, u16_of, u32_of, varint_read, VarIntError, VarIntRead};
use crate::packet_parser::ResponseCommand;
use crate::value::{Json, Value};
use crate::vars::{insert_entry, VarTable};

verus! {

/// The characters that `String::from_utf8_lossy` gives for a byte sequence.
pub uninterp spec fn utf8_lossy(b: Seq<u8>) -> Seq<char>;

/// The text of received bytes: their characters when they are valid
/// UTF-8, else what lossy decoding gives.
pub open spec fn lossy_text(b: Seq<u8>) -> Seq<char> {
    if valid_utf8(b) { decode_utf8(b) } else { utf8_lossy(b) }
}

/// Relies on `String::from_utf8_lossy`: the result depends on the bytes
/// alone, and valid UTF-8 decodes to its characters.
#[verifier::external_body]
pub(crate) fn decode_lossy(b: &[u8]) -> (r: String)
    ensures
        r@ == utf8_lossy(b@),
        valid_utf8(b@) ==> r@ == decode_utf8(b@),
{
    String::from_utf8_lossy(b).into_owned()
}

/// Why a response could not be parsed.
#[derive(Debug)]
pub enum ResponseError {
    /// A read needed more bytes than remain.
    Insufficient { needed: usize, available: usize },
    /// `EXPECT_BYTE` saw another byte; `op` counts from 1.
    ByteMismatch { op: usize, expected: u8, actual: u8 },
    /// `EXPECT_MAGIC` saw other bytes; `op` counts from 1.
    MagicMismatch { op: usize, expected: Vec<u8>, actual: Vec<u8> },
    VarInt(VarIntError),
    /// `READ_STRING` without a length.
    MissingLength,
    /// An HTTP-only op in a binary response; `op` counts from 1.
    HttpOnly { op: usize },
}

/// The model of a [`ResponseError`].
pub enum RespFail {
    Insufficient(nat, nat),
    ByteMismatch(nat, u8, u8),
    MagicMismatch(nat, Seq<u8>, Seq<u8>),
    VarInt(VarIntError),
    MissingLength,
    HttpOnly(nat),
}

impl ResponseError {
    pub open spec fn view(&self) -> RespFail {
        match self {
            ResponseError::Insufficient { needed, available } => RespFail::Insufficient(
                *needed as nat,
                *available as nat,
            ),
            ResponseError::ByteMismatch { op, expected, actual } => RespFail::ByteMismatch(
                *op as nat,
                *expected,
                *actual,
            ),
            ResponseError::MagicMismatch { op, expected, actual } => RespFail::MagicMismatch(
                *op as nat,
                expected@,
                actual@,
            ),
            ResponseError::VarInt(e) => RespFail::VarInt(*e),
            ResponseError::MissingLength => RespFail::MissingLength,
            ResponseError::HttpOnly { op } => RespFail::HttpOnly(*op as nat),
        }
    }

    /// Whether the failure is an expectation that did not hold.
    pub fn is_mismatch(&self) -> (r: bool)
        ensures
            r == (self.view() is ByteMismatch || self.view() is MagicMismatch),
    {
        match self {
            ResponseError::ByteMismatch { .. } => true,
            ResponseError::MagicMismatch { .. } => true,
            _ => false,
        }
    }
}

/// What one read op does: an optional variable to set and the next cursor.
pub enum Step {
    Next(Option<(Seq<char>, Json)>, nat),
    Fail(RespFail),
}

/// `s` without trailing NUL characters.
pub open spec fn trim_nul_end(s: Seq<char>) -> Seq<char>
    decreases s.len(),
{
    if s.len() > 0 && s.last() == '\0' {
        trim_nul_end(s.drop_last())
    } else {
        s
    }
}

/// The position of the first zero byte at or after `cur`, or the length.
pub open spec fn zero_at_or_after(data: Seq<u8>, cur: int) -> int
    decreases data.len() - cur,
{
    if cur >= data.len() {
        data.len() as int
    } else if data[cur] == 0 {
        cur
    } else {
        zero_at_or_after(data, cur + 1)
    }
}

/// The effect of read op number `op` (counting from 1) at cursor `cur`.
pub open spec fn read_op(c: ResponseCommand, data: Seq<u8>, cur: nat, op: nat) -> Step {
    let have = (data.len() - cur) as nat;
    match c {
        ResponseCommand::ReadByte(n) => if have < 1 {
            Step::Fail(RespFail::Insufficient(1, have))
        } else {
            Step::Next(Some((n@, Json::UInt(data[cur as int] as nat))), cur + 1)
        },
        ResponseCommand::ReadShort(n, be) => if have < 2 {
            Step::Fail(RespFail::Insufficient(2, have))
        } else {
            Step::Next(Some((n@, Json::UInt(u16_of(data.subrange(cur as int, cur as int + 2), be)))), cur + 2)
        },
        ResponseCommand::ReadInt(n, be) => if have < 4 {
            Step::Fail(RespFail::Insufficient(4, have))
        } else {
            Step::Next(Some((n@, Json::UInt(u32_of(data.subrange(cur as int, cur as int + 4), be)))), cur + 4)
        },
        ResponseCommand::ReadVarInt(n) => match varint_read(data, cur as int, 0) {
            VarIntRead::Value(v, end) => Step::Next(Some((n@, Json::UInt(v))), end as nat),
            VarIntRead::Truncated => Step::Fail(RespFail::VarInt(VarIntError::Truncated)),
            VarIntRead::TooLarge => Step::Fail(RespFail::VarInt(VarIntError::TooLarge)),
        },
        ResponseCommand::ReadString(n, len) => match len {
            None => Step::Fail(RespFail::MissingLength),
            Some(l) => if have < l {
                Step::Fail(RespFail::Insufficient(l as nat, have))
            } else {
                Step::Next(
                    Some((n@, Json::Str(trim_nul_end(lossy_text(data.subrange(cur as int, cur as int + l)))))),
                    (cur + l) as nat,
                )
            },
        },
        ResponseCommand::ReadStringNull(n) => {
            let end = zero_at_or_after(data, cur as int);
            Step::Next(
                Some((n@, Json::Str(lossy_text(data.subrange(cur as int, end))))),
                (if end < data.len() { end + 1 } else { end }) as nat,
            )
        },
        ResponseCommand::SkipBytes(k) => if have < k {
            Step::Fail(RespFail::Insufficient(k as nat, have))
        } else {
            Step::Next(None, (cur + k) as nat)
        },
        ResponseCommand::ExpectByte(v) => if have < 1 {
            Step::Fail(RespFail::Insufficient(1, have))
        } else if data[cur as int] != v {
            Step::Fail(RespFail::ByteMismatch(op, v, data[cur as int]))
        } else {
            Step::Next(None, cur + 1)
        },
        ResponseCommand::ExpectMagic(m) => if have < m@.len() {
            Step::Fail(RespFail::Insufficient(m@.len(), have))
        } else if data.subrange(cur as int, cur as int + m@.len()) != m@ {
            Step::Fail(RespFail::MagicMismatch(op, m@, data.subrange(cur as int, cur as int + m@.len())))
        } else {
            Step::Next(None, cur + m@.len())
        },
        _ => Step::Fail(RespFail::HttpOnly(op)),
    }
}

/// Running the read ops in order from cursor 0: the variables set and the
/// final cursor, or the first failure.
pub open spec fn run_reads(cs: Seq<ResponseCommand>, data: Seq<u8>) -> Result<(Seq<(Seq<char>, Json)>, nat), RespFail>
    decreases cs.len(),
{
    if cs.len() == 0 {
        Ok((Seq::empty(), 0))
    } else {
        match run_reads(cs.drop_last(), data) {
            Err(f) => Err(f),
            Ok((e, cur)) => match read_op(cs.last(), data, cur, cs.len()) {
                Step::Fail(f) => Err(f),
                Step::Next(None, c2) => Ok((e, c2)),
                Step::Next(Some((k, v)), c2) => Ok((insert_entry(e, k, v), c2)),
            },
        }
    }
}

proof fn lemma_zero_at(data: Seq<u8>, cur: int)
    requires
        0 <= cur <= data.len(),
    ensures
        cur <= zero_at_or_after(data, cur) <= data.len(),
        zero_at_or_after(data, cur) < data.len() ==> data[zero_at_or_after(data, cur)] == 0,
        forall|i: int| cur <= i < zero_at_or_after(data, cur) ==> data[i] != 0,
    decreases data.len() - cur,
{
    if cur < data.len() && data[cur] != 0 {
        lemma_zero_at(data, cur + 1);
    }
}

proof fn lemma_varint_end(data: Seq<u8>, cur: int, k: nat)
    ensures
        varint_read(data, cur, k) matches VarIntRead::Value(v, end) ==> cur + k < end <= data.len(),
    decreases 5 - k,
{
    if k < 5 && cur + k < data.len() && data[cur + k] >= 128 {
        lemma_varint_end(data, cur, k + 1);
    }
}

/// Each read op leaves the cursor where it was or further on, and never
/// past the end of the data.
pub proof fn lemma_read_op_monotone(c: ResponseCommand, data: Seq<u8>, cur: nat, op: nat)
    requires
        cur <= data.len(),
    ensures
        read_op(c, data, cur, op) matches Step::Next(_, c2) ==> cur <= c2 <= data.len(),
{
    lemma_zero_at(data, cur as int);
    lemma_varint_end(data, cur as int, 0);
}

/// The cursor after the first `i` ops, when they all succeed.
pub open spec fn cursor_after(cs: Seq<ResponseCommand>, data: Seq<u8>, i: int) -> Option<nat> {
    match run_reads(cs.subrange(0, i), data) {
        Ok((_, cur)) => Some(cur),
        Err(_) => None,
    }
}

proof fn lemma_run_reads_bound(cs: Seq<ResponseCommand>, data: Seq<u8>)
    ensures
        run_reads(cs, data) matches Ok((_, cur)) ==> cur <= data.len(),
    decreases cs.len(),
{
    if cs.len() > 0 {
        lemma_run_reads_bound(cs.drop_last(), data);
        if let Ok((e, cur)) = run_reads(cs.drop_last(), data) {
            lemma_read_op_monotone(cs.last(), data, cur, cs.len());
        }
    }
}

/// Response parsing is monotone: over any run of ops that succeed, the
/// cursor after `i` ops is at most the cursor after `j >= i` ops.
pub proof fn lemma_cursor_monotone(cs: Seq<ResponseCommand>, data: Seq<u8>, i: int, j: int)
    requires
        0 <= i <= j <= cs.len(),
        cursor_after(cs, data, j) is Some,
    ensures
        cursor_after(cs, data, i) is Some,
        cursor_after(cs, data, i)->0 <= cursor_after(cs, data, j)->0,
    decreases j - i,
{
    if i < j {
        let pj = cs.subrange(0, j);
        assert(pj.drop_last() =~= cs.subrange(0, j - 1));
        lemma_run_reads_bound(cs.subrange(0, j - 1), data);
        if let Ok((e, cur)) = run_reads(cs.subrange(0, j - 1), data) {
            lemma_read_op_monotone(pj.last(), data, cur, j as nat);
        }
        lemma_cursor_monotone(cs, data, i, j - 1);
    }
}

fn trim_nul_end_exec(s: String) -> (r: String)
    ensures
        r@ == trim_nul_end(s@),
{
    let cs = crate::text::chars_of(s.as_str());
    let mut n: usize = cs.len();
    proof {
        assert(cs@.subrange(0, n as int) =~= s@);
    }
    while n > 0 && cs[n - 1] == '\0'
        invariant
            n <= cs@.len(),
            trim_nul_end(cs@.subrange(0, n as int)) == trim_nul_end(s@),
        decreases n,
    {
        proof {
            assert(cs@.subrange(0, n as int).drop_last() =~= cs@.subrange(0, n - 1));
        }
        n = n - 1;
    }
    proof {
        assert(cs@.subrange(0, cs@.len() as int) =~= s@);
    }
    let t = crate::text::slice_range(cs.as_slice(), 0, n);
    crate::text::string_of(t.as_slice())
}

fn copy_bytes(data: &[u8], a: usize, b: usize) -> (r: Vec<u8>)
    requires
        a <= b <= data@.len(),
    ensures
        r@ == data@.subrange(a as int, b as int),
{
    let mut out: Vec<u8> = Vec::new();
    let mut i: usize = a;
    while i < b
        invariant
            a <= i <= b <= data@.len(),
            out@ == data@.subrange(a as int, i as int),
        decreases b - i,
    {
        out.push(data[i]);
        i = i + 1;
    }
    out
}

pub proof fn lemma_zero_at_pub(data: Seq<u8>, cur: int)
    requires
        0 <= cur <= data.len(),
    ensures
        cur <= zero_at_or_after(data, cur) <= data.len(),
{
    lemma_zero_at(data, cur);
}

/// The text without its trailing NUL characters.
pub fn text_without_trailing_nuls(s: String) -> (r: String)
    ensures
        r@ == trim_nul_end(s@),
{
    trim_nul_end_exec(s)
}

/// A copy of `data[a..b]`.
pub fn copy_bytes_pub(data: &[u8], a: usize, b: usize) -> (r: Vec<u8>)
    requires
        a <= b <= data@.len(),
    ensures
        r@ == data@.subrange(a as int, b as int),
{
    copy_bytes(data, a, b)
}

fn bytes_eq(x: &[u8], y: &[u8]) -> (r: bool)
    ensures
        r == (x@ == y@),
{
    if x.len() != y.len() {
        return false;
    }
    let mut i: usize = 0;
    while i < x.len()
        invariant
            x@.len() == y@.len(),
            i <= x@.len(),
            forall|k: int| 0 <= k < i ==> x@[k] == y@[k],
        decreases x.len() - i,
    {
        if x[i] != y[i] {
            return false;
        }
        i = i + 1;
    }
    proof {
        assert(x@ =~= y@);
    }
    true
}

/// Runs read op number `op` (from 1) at `cur`.
fn run_op(c: &ResponseCommand, data: &[u8], cur: usize, op: usize, vars: &mut VarTable) -> (r: Result<usize, ResponseError>)
    requires
        cur <= data@.len(),
    ensures
        match read_op(*c, data@, cur as nat, op as nat) {
            Step::Fail(f) => r matches Err(x) && x.view() == f,
            Step::Next(None, c2) => r == Ok::<usize, ResponseError>(c2 as usize) && final(vars).entries()
                == old(vars).entries(),
            Step::Next(Some((k, v)), c2) => r == Ok::<usize, ResponseError>(c2 as usize)
                && final(vars).entries() == insert_entry(old(vars).entries(), k, v),
        },
{
    let have = data.len() - cur;
    match c {
        ResponseCommand::ReadByte(n) => {
            if have < 1 {
                return Err(ResponseError::Insufficient { needed: 1, available: have });
            }
            let k = n.clone();
            vars.insert(k, Value::UInt(data[cur] as u64));
            Ok(cur + 1)
        },
        ResponseCommand::ReadShort(n, be) => {
            if have < 2 {
                return Err(ResponseError::Insufficient { needed: 2, available: have });
            }
            let v = decode_u16(data[cur], data[cur + 1], *be);
            proof {
                assert(data@.subrange(cur as int, cur + 2) =~= seq![data@[cur as int], data@[cur + 1]]);
            }
            vars.insert(n.clone(), Value::UInt(v as u64));
            Ok(cur + 2)
        },
        ResponseCommand::ReadInt(n, be) => {
            if have < 4 {
                return Err(ResponseError::Insufficient { needed: 4, available: have });
            }
            let v = decode_u32(data[cur], data[cur + 1], data[cur + 2], data[cur + 3], *be);
            proof {
                assert(data@.subrange(cur as int, cur + 4) =~= seq![
                    data@[cur as int],
                    data@[cur + 1],
                    data@[cur + 2],
                    data@[cur + 3],
                ]);
            }
            vars.insert(n.clone(), Value::UInt(v as u64));
            Ok(cur + 4)
        },
        ResponseCommand::ReadVarInt(n) => {
            match read_varint(data, cur) {
                Ok((v, end)) => {
                    vars.insert(n.clone(), Value::UInt(v));
                    Ok(end)
                },
                Err(e) => Err(ResponseError::VarInt(e)),
            }
        },
        ResponseCommand::ReadString(n, len) => {
            match len {
                None => Err(ResponseError::MissingLength),
                Some(l) => {
                    if have < *l {
                        return Err(ResponseError::Insufficient { needed: *l, available: have });
                    }
                    let b = copy_bytes(data, cur, cur + *l);
                    let t = trim_nul_end_exec(decode_lossy(b.as_slice()));
                    vars.insert(n.clone(), Value::Str(t));
                    Ok(cur + *l)
                },
            }
        },
        ResponseCommand::ReadStringNull(n) => {
            let mut end: usize = cur;
            while end < data.len() && data[end] != 0
                invariant
                    cur <= end <= data@.len(),
                    zero_at_or_after(data@, end as int) == zero_at_or_after(data@, cur as int),
                decreases data.len() - end,
            {
                end = end + 1;
            }
            proof {
                assert(zero_at_or_after(data@, end as int) == end);
            }
            let b = copy_bytes(data, cur, end);
            let t = decode_lossy(b.as_slice());
            vars.insert(n.clone(), Value::Str(t));
            if end < data.len() {
                Ok(end + 1)
            } else {
                Ok(end)
            }
        },
        ResponseCommand::SkipBytes(k) => {
            if have < *k {
                return Err(ResponseError::Insufficient { needed: *k, available: have });
            }
            Ok(cur + *k)
        },
        ResponseCommand::ExpectByte(v) => {
            if have < 1 {
                return Err(ResponseError::Insufficient { needed: 1, available: have });
            }
            if data[cur] != *v {
                return Err(ResponseError::ByteMismatch { op, expected: *v, actual: data[cur] });
            }
            Ok(cur + 1)
        },
        ResponseCommand::ExpectMagic(m) => {
            if have < m.len() {
                return Err(ResponseError::Insufficient { needed: m.len(), available: have });
            }
            let actual = copy_bytes(data, cur, cur + m.len());
            if !bytes_eq(actual.as_slice(), m.as_slice()) {
                let mut expected: Vec<u8> = Vec::new();
                expected.extend_from_slice(m.as_slice());
                proof {
                    assert(expected@ =~= m@);
                }
                return Err(ResponseError::MagicMismatch { op, expected, actual });
            }
            Ok(cur + m.len())
        },
        _ => Err(ResponseError::HttpOnly { op }),
    }
}

/// Parses a binary response with the pair's read ops: the variables read,
/// in order, and the final cursor; or the first op's failure.
pub fn parse_response(cmds: &Vec<ResponseCommand>, response: &[u8]) -> (r: Result<(VarTable, usize), ResponseError>)
    ensures
        match run_reads(cmds@, response@) {
            Ok((e, cur)) => r matches Ok((t, c)) && t.entries() == e && c == cur,
            Err(f) => r matches Err(x) && x.view() == f,
        },
{
    let mut vars = VarTable::new();
    let mut cur: usize = 0;
    let mut i: usize = 0;
    let rlen = response.len();
    while i < cmds.len()
        invariant
            rlen == response@.len(),
            i <= cmds@.len(),
            cur <= response@.len(),
            run_reads(cmds@.subrange(0, i as int), response@) == Ok::<(Seq<(Seq<char>, Json)>, nat), RespFail>(
                (vars.entries(), cur as nat),
            ),
        decreases cmds.len() - i,
    {
        proof {
            assert(cmds@.subrange(0, i as int + 1).drop_last() =~= cmds@.subrange(0, i as int));
            assert(cmds@.subrange(0, i as int + 1).last() == cmds@[i as int]);
            lemma_read_op_monotone(cmds@[i as int], response@, cur as nat, (i + 1) as nat);
        }
        let ghost e0 = vars.entries();
        let ghost c0 = cur as nat;
        let cmd = &cmds[i];
        proof {
            assert(*cmd == cmds@[i as int]);
        }
        match run_op(cmd, response, cur, i + 1, &mut vars) {
            Ok(c2) => {
                proof {
                    let pre = cmds@.subrange(0, i as int + 1);
                    assert(pre.len() == i + 1);
                    assert(run_reads(pre.drop_last(), response@) == Ok::<(Seq<(Seq<char>, Json)>, nat), RespFail>((e0, c0)));
                    match read_op(cmds@[i as int], response@, c0, (i + 1) as nat) {
                        Step::Next(None, c3) => {
                            assert(c3 <= response@.len());
                            assert(response@.len() <= usize::MAX);
                            assert(c3 == c2);
                        },
                        Step::Next(Some((k, v)), c3) => {
                            assert(c3 <= response@.len());
                            assert(response@.len() <= usize::MAX);
                            assert(c3 == c2);
                        },
                        Step::Fail(_) => {},
                    }
                }
                cur = c2;
            },
            Err(e) => {
                proof {
                    lemma_reads_err(cmds@, response@, i as int + 1);
                }
                return Err(e);
            },
        }
        i = i + 1;
    }
    proof {
        assert(cmds@.subrange(0, cmds@.len() as int) =~= cmds@);
    }
    Ok((vars, cur))
}

proof fn lemma_reads_err(cs: Seq<ResponseCommand>, data: Seq<u8>, i: int)
    requires
        0 <= i <= cs.len(),
        run_reads(cs.subrange(0, i), data) is Err,
    ensures
        run_reads(cs, data) == run_reads(cs.subrange(0, i), data),
    decreases cs.len() - i,
{
    if i < cs.len() {
        assert(cs.subrange(0, i + 1).drop_last() =~= cs.subrange(0, i));
        lemma_reads_err(cs, data, i + 1);
    } else {
        assert(cs.subrange(0, i) =~= cs);
    }
}

} // verus!
