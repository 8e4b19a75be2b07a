//! HTTP pairs: filling a request template from the variables, and reading
//! an HTTP response into variables.
use vstd::prelude::*;
use vstd::utf8::{decode_utf8, valid_utf8};
use crate::lexicon::{ascii_lower, eq_ignore_ascii_case};
use crate::output::{label_text, value_to_string};
use crate::packet_parser::{HttpBodyType, HttpMethod, HttpRequest, RCmd, ResponseCommand};
use crate::text::{chars_of, replace_all, replace_chars, string_of};
use crate::value::{Json, Value};
use crate::vars::{insert_entry, lookup, VarTable};
use crate::models::Protocol;

verus! {

/// An HTTP request ready to send.
#[derive(Debug)]
pub struct PreparedHttpRequest {
    pub method: String,
    pub path: String,
    pub params: Vec<(String, String)>,
    pub headers: Vec<(String, String)>,
    /// Content type and bytes.
    pub body: Option<(String, Vec<u8>)>,
}

/// A template fragment after substitution: a fragment equal to a variable's
/// name becomes that variable's text; any other stays.
pub open spec fn resolve_spec(s: Seq<char>, e: Seq<(Seq<char>, Json)>) -> Seq<char> {
    match lookup(e, s) {
        Some(j) => label_text(j),
        None => s,
    }
}

pub fn resolve_string_value(s: &String, vars: &VarTable) -> (r: String)
    ensures
        r@ == resolve_spec(s@, vars.entries()),
{
    match vars.get(s.as_str()) {
        Some(v) => string_of(value_to_string(v).as_slice()),
        None => s.clone(),
    }
}

fn resolve_pairs(v: &Vec<(String, String)>, vars: &VarTable) -> (r: Vec<(String, String)>)
    ensures
        r@.len() == v@.len(),
        forall|i: int| 0 <= i < v@.len() ==> (#[trigger] r@[i]).0@ == resolve_spec(v@[i].0@, vars.entries())
            && r@[i].1@ == resolve_spec(v@[i].1@, vars.entries()),
{
    let mut out: Vec<(String, String)> = Vec::new();
    let mut i: usize = 0;
    while i < v.len()
        invariant
            i <= v@.len(),
            out@.len() == i,
            forall|k: int| 0 <= k < i ==> (#[trigger] out@[k]).0@ == resolve_spec(v@[k].0@, vars.entries())
                && out@[k].1@ == resolve_spec(v@[k].1@, vars.entries()),
        decreases v.len() - i,
    {
        let k = resolve_string_value(&v[i].0, vars);
        let x = resolve_string_value(&v[i].1, vars);
        out.push((k, x));
        i = i + 1;
    }
    out
}

fn join_strings(v: &Vec<String>, sep: char) -> (r: Vec<char>)
    ensures
        r@ == crate::output::join_with(v@.map_values(|s: String| s@), sep),
{
    let ghost sv = v@.map_values(|s: String| s@);
    let mut out: Vec<char> = Vec::new();
    let mut i: usize = 0;
    proof {
        assert(sv.subrange(0, 0) =~= Seq::<Seq<char>>::empty());
    }
    while i < v.len()
        invariant
            sv == v@.map_values(|s: String| s@),
            i <= v@.len(),
            out@ == crate::output::join_with(sv.subrange(0, i as int), sep),
        decreases v.len() - i,
    {
        proof {
            assert(sv.subrange(0, i + 1).drop_last() =~= sv.subrange(0, i as int));
        }
        if i > 0 {
            out.push(sep);
        }
        let c = chars_of(v[i].as_str());
        out.extend_from_slice(c.as_slice());
        proof {
            if i == 0 {
                assert(out@ =~= crate::output::join_with(sv.subrange(0, 1), sep));
            } else {
                assert(out@ =~= crate::output::join_with(sv.subrange(0, i + 1), sep));
            }
        }
        i = i + 1;
    }
    proof {
        assert(sv.subrange(0, v@.len() as int) =~= sv);
    }
    out
}

/// The UTF-8 encoding of the characters.
fn utf8_of(cs: &[char]) -> (r: Vec<u8>)
    ensures
        r@ == vstd::utf8::encode_utf8(cs@),
{
    let s = string_of(cs);
    let b = s.as_str().as_bytes();
    let mut out: Vec<u8> = Vec::new();
    out.extend_from_slice(b);
    proof {
        assert(out@ =~= b@);
    }
    out
}

/// The method's name as sent.
pub open spec fn method_spec(m: HttpMethod) -> Seq<char> {
    match m {
        HttpMethod::Get => "GET"@,
        HttpMethod::Post => "POST"@,
        HttpMethod::Put => "PUT"@,
        HttpMethod::Delete => "DELETE"@,
        HttpMethod::Custom(c) => c@,
    }
}

/// The value of the first header named `name` (ASCII case ignored).
pub open spec fn first_header(hs: Seq<(Seq<char>, Seq<char>)>, name: Seq<char>) -> Option<Seq<char>>
    decreases hs.len(),
{
    if hs.len() == 0 {
        None
    } else if crate::lexicon::eq_ignore_case(hs[0].0, name) {
        Some(hs[0].1)
    } else {
        first_header(hs.drop_first(), name)
    }
}

/// The content type and bytes of the body a template gives, once its
/// fragments are substituted: a form joins them with `&`, a raw body with
/// new lines and takes the script's `Content-Type` header if any, else JSON.
pub open spec fn body_spec(
    body_type: Option<HttpBodyType>,
    data: Seq<Seq<char>>,
    resolved_headers: Seq<(Seq<char>, Seq<char>)>,
    e: Seq<(Seq<char>, Json)>,
) -> Option<(Seq<char>, Seq<u8>)> {
    match body_type {
        None => None,
        Some(HttpBodyType::Form) => Some((
            "application/x-www-form-urlencoded"@,
            vstd::utf8::encode_utf8(crate::output::join_with(data.map_values(|d: Seq<char>| resolve_spec(d, e)), '&')),
        )),
        Some(HttpBodyType::Raw) => Some((
            match first_header(resolved_headers, "Content-Type"@) {
                Some(v) => v,
                None => "application/json"@,
            },
            vstd::utf8::encode_utf8(resolve_spec(crate::output::join_with(data, '\n'), e)),
        )),
    }
}

/// Whether `q` is the template `req` filled with the variables `e`.
pub open spec fn prepared_from(q: PreparedHttpRequest, req: HttpRequest, e: Seq<(Seq<char>, Json)>) -> bool {
    &&& q.path@ == resolve_spec(req.path@, e)
    &&& q.method@ == method_spec(req.method)
    &&& q.params@.len() == req.params@.len()
    &&& q.headers@.len() == req.headers@.len()
    &&& forall|i: int| 0 <= i < req.params@.len() ==> (#[trigger] q.params@[i]).0@ == resolve_spec(req.params@[i].0@, e)
        && q.params@[i].1@ == resolve_spec(req.params@[i].1@, e)
    &&& forall|i: int| 0 <= i < req.headers@.len() ==> (#[trigger] q.headers@[i]).0@ == resolve_spec(req.headers@[i].0@, e)
        && q.headers@[i].1@ == resolve_spec(req.headers@[i].1@, e)
    &&& match body_spec(req.body_type, crate::packet_parser::strings_view(req.body_data@), crate::packet_parser::pairs_view(q.headers@), e) {
        None => q.body.is_none(),
        Some((ct, b)) => q.body matches Some((c, x)) && c@ == ct && x@ == b,
    }
}

/// Fills the request template with the current variables: each path,
/// param, header and body fragment that names a variable takes its text.
/// A form body joins its fragments with `&`; a raw body joins them with
/// new lines and keeps a `Content-Type` header the user set, else JSON.
pub fn prepare_http_request_with_vars(http_req: &HttpRequest, vars: &VarTable) -> (r: PreparedHttpRequest)
    ensures
        r.path@ == resolve_spec(http_req.path@, vars.entries()),
        r.params@.len() == http_req.params@.len(),
        r.headers@.len() == http_req.headers@.len(),
        forall|i: int| 0 <= i < http_req.params@.len() ==> (#[trigger] r.params@[i]).0@ == resolve_spec(
            http_req.params@[i].0@,
            vars.entries(),
        ) && r.params@[i].1@ == resolve_spec(http_req.params@[i].1@, vars.entries()),
        forall|i: int| 0 <= i < http_req.headers@.len() ==> (#[trigger] r.headers@[i]).0@ == resolve_spec(
            http_req.headers@[i].0@,
            vars.entries(),
        ) && r.headers@[i].1@ == resolve_spec(http_req.headers@[i].1@, vars.entries()),
        http_req.body_type.is_none() <==> r.body.is_none(),
        r.method@ == method_spec(http_req.method),
        match body_spec(
            http_req.body_type,
            crate::packet_parser::strings_view(http_req.body_data@),
            crate::packet_parser::pairs_view(r.headers@),
            vars.entries(),
        ) {
            None => r.body.is_none(),
            Some((ct, b)) => r.body matches Some((c, x)) && c@ == ct && x@ == b,
        },
        prepared_from(r, *http_req, vars.entries()),
{
    let path = resolve_string_value(&http_req.path, vars);
    let params = resolve_pairs(&http_req.params, vars);
    let headers = resolve_pairs(&http_req.headers, vars);
    let method = match &http_req.method {
        HttpMethod::Get => string_of(chars_of("GET").as_slice()),
        HttpMethod::Post => string_of(chars_of("POST").as_slice()),
        HttpMethod::Put => string_of(chars_of("PUT").as_slice()),
        HttpMethod::Delete => string_of(chars_of("DELETE").as_slice()),
        HttpMethod::Custom(m) => m.clone(),
    };
    let body = match http_req.body_type {
        None => None,
        Some(HttpBodyType::Form) => {
            let mut parts: Vec<String> = Vec::new();
            let mut i: usize = 0;
            let ghost dv = crate::packet_parser::strings_view(http_req.body_data@);
            while i < http_req.body_data.len()
                invariant
                    dv == crate::packet_parser::strings_view(http_req.body_data@),
                    i <= http_req.body_data@.len(),
                    parts@.map_values(|s: String| s@) == dv.subrange(0, i as int).map_values(|d: Seq<char>| resolve_spec(d, vars.entries())),
                decreases http_req.body_data.len() - i,
            {
                let ghost before = parts@;
                let x = resolve_string_value(&http_req.body_data[i], vars);
                parts.push(x);
                proof {
                    assert(dv[i as int] == http_req.body_data@[i as int]@);
                    assert(x@ == resolve_spec(dv[i as int], vars.entries()));
                    assert(parts@.map_values(|s: String| s@) =~= before.map_values(|s: String| s@).push(x@));
                    assert(dv.subrange(0, i + 1).map_values(|d: Seq<char>| resolve_spec(d, vars.entries())) =~= dv.subrange(0, i as int).map_values(|d: Seq<char>| resolve_spec(d, vars.entries())).push(resolve_spec(dv[i as int], vars.entries())));
                }
                i = i + 1;
            }
            proof {
                assert(dv.subrange(0, dv.len() as int) =~= dv);
            }
            let joined = join_strings(&parts, '&');
            Some((string_of(chars_of("application/x-www-form-urlencoded").as_slice()), utf8_of(joined.as_slice())))
        },
        Some(HttpBodyType::Raw) => {
            let mut ct: Option<String> = None;
            let mut i: usize = 0;
            let ghost hv = crate::packet_parser::pairs_view(headers@);
            proof {
                assert(hv.subrange(0, hv.len() as int) =~= hv);
            }
            while i < headers.len() && ct.is_none()
                invariant
                    hv == crate::packet_parser::pairs_view(headers@),
                    i <= headers@.len(),
                    ct.is_none() ==> first_header(hv.subrange(i as int, hv.len() as int), "Content-Type"@) == first_header(hv, "Content-Type"@),
                    ct matches Some(v) ==> first_header(hv, "Content-Type"@) == Some(v@),
                decreases headers.len() - i,
            {
                proof {
                    assert(hv.subrange(i as int, hv.len() as int).drop_first() =~= hv.subrange(i + 1, hv.len() as int));
                    assert(hv.subrange(i as int, hv.len() as int)[0] == hv[i as int]);
                }
                if eq_ignore_ascii_case(chars_of(headers[i].0.as_str()).as_slice(), "Content-Type") {
                    ct = Some(headers[i].1.clone());
                }
                i = i + 1;
            }
            proof {
                if ct.is_none() {
                    assert(hv.subrange(hv.len() as int, hv.len() as int) =~= Seq::<(Seq<char>, Seq<char>)>::empty());
                }
            }
            let content_type = match ct {
                Some(c) => c,
                None => string_of(chars_of("application/json").as_slice()),
            };
            let joined = join_strings(&http_req.body_data, '\n');
            let resolved = resolve_string_value(&string_of(joined.as_slice()), vars);
            Some((content_type, utf8_of(chars_of(resolved.as_str()).as_slice())))
        },
    };
    PreparedHttpRequest { method, path, params, headers, body }
}

/// Relies on `std::str::from_utf8`: valid UTF-8 decodes to its
/// characters, anything else is an error.
#[verifier::external_body]
fn utf8_text(b: &[u8]) -> (r: Option<String>)
    ensures
        r.is_some() == valid_utf8(b@),
        r matches Some(s) ==> s@ == decode_utf8(b@),
{
    std::str::from_utf8(b).ok().map(|s| s.to_string())
}

/// Why an HTTP response did not satisfy its ops; `op` counts from 1.
#[derive(Debug)]
pub enum HttpResponseError {
    StatusMismatch { op: usize, expected: u16, actual: u16 },
    HeaderMissing { op: usize, key: String },
    HeaderMismatch { op: usize, key: String, expected: String, actual: String },
    NotJson { op: usize },
    NotText { op: usize },
    BinaryOnly { op: usize },
}

impl HttpResponseError {
    /// Whether the failure is an expectation that did not hold.
    pub fn is_mismatch(&self) -> (r: bool)
        ensures
            r == (self is StatusMismatch || self is HeaderMissing || self is HeaderMismatch),
    {
        match self {
            HttpResponseError::StatusMismatch { .. } => true,
            HttpResponseError::HeaderMissing { .. } => true,
            HttpResponseError::HeaderMismatch { .. } => true,
            _ => false,
        }
    }
}

/// The variable a response header is stored under: `HEADER_` then the
/// name with `-` turned into `_`.
pub open spec fn header_var(name: Seq<char>) -> Seq<char> {
    "HEADER_"@ + replace_all(name, seq!['-'], seq!['_'])
}

/// The table before the ops run: `STATUS_CODE`, then one variable per
/// header, a later header of the same name overwriting an earlier one.
pub open spec fn http_base(status: u16, hs: Seq<(Seq<char>, Seq<char>)>) -> Seq<(Seq<char>, Json)>
    decreases hs.len(),
{
    if hs.len() == 0 {
        seq![("STATUS_CODE"@, Json::UInt(status as nat))]
    } else {
        insert_entry(http_base(status, hs.drop_last()), header_var(hs.last().0), Json::Str(hs.last().1))
    }
}

/// The value of the first header named `key`, names compared up to ASCII case.
pub open spec fn header_lookup(hs: Seq<(Seq<char>, Seq<char>)>, key: Seq<char>) -> Option<Seq<char>>
    decreases hs.len(),
{
    if hs.len() == 0 {
        None
    } else if crate::lexicon::eq_ignore_case(hs[0].0, key) {
        Some(hs[0].1)
    } else {
        header_lookup(hs.drop_first(), key)
    }
}

fn header_get(headers: &Vec<(String, String)>, key: &String) -> (r: Option<String>)
    ensures
        match header_lookup(crate::packet_parser::pairs_view(headers@), key@) {
            Some(v) => r matches Some(x) && x@ == v,
            None => r.is_none(),
        },
{
    let ghost hv = crate::packet_parser::pairs_view(headers@);
    let mut i: usize = 0;
    proof {
        assert(hv.subrange(0, hv.len() as int) =~= hv);
    }
    while i < headers.len()
        invariant
            hv == crate::packet_parser::pairs_view(headers@),
            i <= hv.len(),
            header_lookup(hv.subrange(i as int, hv.len() as int), key@) == header_lookup(hv, key@),
        decreases headers.len() - i,
    {
        proof {
            assert(hv.subrange(i as int, hv.len() as int).drop_first() =~= hv.subrange(i + 1, hv.len() as int));
            assert(hv.subrange(i as int, hv.len() as int)[0] == hv[i as int]);
        }
        if eq_ignore_ascii_case(chars_of(headers[i].0.as_str()).as_slice(), key.as_str()) {
            return Some(headers[i].1.clone());
        }
        i = i + 1;
    }
    None
}

/// The model of an [`HttpResponseError`]: the op number (from 1) and what
/// failed.
pub enum HttpFail {
    StatusMismatch(nat, u16, u16),
    HeaderMissing(nat, Seq<char>),
    HeaderMismatch(nat, Seq<char>, Seq<char>, Seq<char>),
    NotJson(nat),
    NotText(nat),
    BinaryOnly(nat),
}

impl HttpResponseError {
    pub open spec fn view(&self) -> HttpFail {
        match self {
            HttpResponseError::StatusMismatch { op, expected, actual } => HttpFail::StatusMismatch(*op as nat, *expected, *actual),
            HttpResponseError::HeaderMissing { op, key } => HttpFail::HeaderMissing(*op as nat, key@),
            HttpResponseError::HeaderMismatch { op, key, expected, actual } => HttpFail::HeaderMismatch(*op as nat, key@, expected@, actual@),
            HttpResponseError::NotJson { op } => HttpFail::NotJson(*op as nat),
            HttpResponseError::NotText { op } => HttpFail::NotText(*op as nat),
            HttpResponseError::BinaryOnly { op } => HttpFail::BinaryOnly(*op as nat),
        }
    }
}

pub open spec fn opt_model(j: Option<Value>) -> Option<Json> {
    match j {
        Some(v) => Some(v.model()),
        None => None,
    }
}

/// One op of an HTTP response, numbered `op` from 1.
pub open spec fn http_read(
    c: RCmd,
    op: nat,
    e: Seq<(Seq<char>, Json)>,
    status: u16,
    hs: Seq<(Seq<char>, Seq<char>)>,
    body: Seq<u8>,
    body_json: Option<Json>,
) -> Result<Seq<(Seq<char>, Json)>, HttpFail> {
    match c {
        RCmd::ExpectStatus(x) => if x == status { Ok(e) } else { Err(HttpFail::StatusMismatch(op, x, status)) },
        RCmd::ExpectHeader(k, v) => match header_lookup(hs, k) {
            None => Err(HttpFail::HeaderMissing(op, k)),
            Some(a) => if a == v { Ok(e) } else { Err(HttpFail::HeaderMismatch(op, k, v, a)) },
        },
        RCmd::ReadBodyJson(n) => match body_json {
            Some(j) => Ok(insert_entry(e, n, j)),
            None => Err(HttpFail::NotJson(op)),
        },
        RCmd::ReadBody(n) => if valid_utf8(body) {
            Ok(insert_entry(e, n, Json::Str(decode_utf8(body))))
        } else {
            Err(HttpFail::NotText(op))
        },
        _ => Err(HttpFail::BinaryOnly(op)),
    }
}

/// The variables an HTTP response gives: the base variables, then each op
/// in order; or the first op's failure.
pub open spec fn http_reads(
    cs: Seq<RCmd>,
    status: u16,
    hs: Seq<(Seq<char>, Seq<char>)>,
    body: Seq<u8>,
    body_json: Option<Json>,
) -> Result<Seq<(Seq<char>, Json)>, HttpFail>
    decreases cs.len(),
{
    if cs.len() == 0 {
        Ok(http_base(status, hs))
    } else {
        match http_reads(cs.drop_last(), status, hs, body, body_json) {
            Err(f) => Err(f),
            Ok(e) => http_read(cs.last(), cs.len(), e, status, hs, body, body_json),
        }
    }
}

proof fn lemma_http_reads_err(cs: Seq<RCmd>, status: u16, hs: Seq<(Seq<char>, Seq<char>)>, body: Seq<u8>, bj: Option<Json>, i: int)
    requires
        0 <= i <= cs.len(),
        http_reads(cs.subrange(0, i), status, hs, body, bj) is Err,
    ensures
        http_reads(cs, status, hs, body, bj) == http_reads(cs.subrange(0, i), status, hs, body, bj),
    decreases cs.len() - i,
{
    if i < cs.len() {
        assert(cs.subrange(0, i + 1).drop_last() =~= cs.subrange(0, i));
        lemma_http_reads_err(cs, status, hs, body, bj, i + 1);
    } else {
        assert(cs.subrange(0, i) =~= cs);
    }
}

pub open spec fn rcmds_view(v: Seq<ResponseCommand>) -> Seq<RCmd> {
    v.map_values(|c: ResponseCommand| c.view())
}

/// Reads an HTTP response: `STATUS_CODE` and the header variables first,
/// then each op in order. `body_json` is the body parsed as JSON, `None`
/// when it is not JSON.
pub fn parse_http_response(
    response_commands: &Vec<ResponseCommand>,
    status_code: u16,
    headers: &Vec<(String, String)>,
    body: &[u8],
    body_json: &Option<Value>,
) -> (r: Result<VarTable, HttpResponseError>)
    ensures
        match http_reads(rcmds_view(response_commands@), status_code, crate::packet_parser::pairs_view(headers@), body@, opt_model(*body_json)) {
            Ok(e) => r matches Ok(t) && t.entries() == e,
            Err(f) => r matches Err(x) && x.view() == f,
        },
{
    let ghost cv = rcmds_view(response_commands@);
    let ghost bj = opt_model(*body_json);
    let ghost hv = crate::packet_parser::pairs_view(headers@);
    let mut vars = VarTable::new();
    vars.insert(string_of(chars_of("STATUS_CODE").as_slice()), Value::UInt(status_code as u64));
    let mut i: usize = 0;
    proof {
        assert(hv.subrange(0, 0) =~= Seq::<(Seq<char>, Seq<char>)>::empty());
        assert(vars.entries() == http_base(status_code, hv.subrange(0, 0)));
    }
    while i < headers.len()
        invariant
            hv == crate::packet_parser::pairs_view(headers@),
            i <= hv.len(),
            vars.entries() == http_base(status_code, hv.subrange(0, i as int)),
        decreases headers.len() - i,
    {
        proof {
            assert(hv.subrange(0, i + 1).drop_last() =~= hv.subrange(0, i as int));
            assert(hv.subrange(0, i + 1).last() == hv[i as int]);
        }
        let mut name = chars_of("HEADER_");
        let n2 = replace_chars(chars_of(headers[i].0.as_str()).as_slice(), chars_of("-").as_slice(), chars_of("_").as_slice());
        proof {
            assert("-"@ =~= seq!['-']) by {
                reveal_strlit("-");
            }
            assert("_"@ =~= seq!['_']) by {
                reveal_strlit("_");
            }
        }
        name.extend_from_slice(n2.as_slice());
        proof {
            assert(name@ =~= "HEADER_"@ + n2@);
            assert(name@ == header_var(hv[i as int].0));
        }
        vars.insert(string_of(name.as_slice()), Value::Str(headers[i].1.clone()));
        i = i + 1;
    }
    proof {
        assert(hv.subrange(0, hv.len() as int) =~= hv);
    }
    let mut k: usize = 0;
    proof {
        assert(cv.subrange(0, 0) =~= Seq::<RCmd>::empty());
    }
    while k < response_commands.len()
        invariant
            cv == rcmds_view(response_commands@),
            bj == opt_model(*body_json),
            k <= response_commands@.len(),
            hv == crate::packet_parser::pairs_view(headers@),
            http_reads(cv.subrange(0, k as int), status_code, hv, body@, bj) == Ok::<Seq<(Seq<char>, Json)>, HttpFail>(vars.entries()),
        decreases response_commands.len() - k,
    {
        let op = k + 1;
        proof {
            assert(cv.subrange(0, k + 1).drop_last() =~= cv.subrange(0, k as int));
            assert(cv.subrange(0, k + 1).last() == response_commands@[k as int].view());
        }
        let r0 = parse_http_op(&response_commands[k], op, &mut vars, status_code, headers, body, body_json);
        if let Err(x) = r0 {
            proof {
                lemma_http_reads_err(cv, status_code, hv, body@, bj, k + 1);
            }
            return Err(x);
        }
        k = k + 1;
    }
    proof {
        assert(cv.subrange(0, cv.len() as int) =~= cv);
    }
    Ok(vars)
}

fn parse_http_op(
    cmd: &ResponseCommand,
    op: usize,
    vars: &mut VarTable,
    status_code: u16,
    headers: &Vec<(String, String)>,
    body: &[u8],
    body_json: &Option<Value>,
) -> (r: Result<(), HttpResponseError>)
    ensures
        match http_read(cmd.view(), op as nat, old(vars).entries(), status_code, crate::packet_parser::pairs_view(headers@), body@, opt_model(*body_json)) {
            Ok(e) => r is Ok && final(vars).entries() == e,
            Err(f) => r matches Err(x) && x.view() == f,
        },
{
    {
        match cmd {
            ResponseCommand::ExpectStatus(expected) => {
                if status_code != *expected {
                    return Err(HttpResponseError::StatusMismatch { op, expected: *expected, actual: status_code });
                }
            },
            ResponseCommand::ExpectHeader { key, value } => {
                match header_get(headers, key) {
                    Some(v) => {
                        if !crate::text::chars_eq(chars_of(v.as_str()).as_slice(), chars_of(value.as_str()).as_slice()) {
                            return Err(HttpResponseError::HeaderMismatch { op, key: key.clone(), expected: value.clone(), actual: v });
                        }
                    },
                    None => {
                        return Err(HttpResponseError::HeaderMissing { op, key: key.clone() });
                    },
                }
            },
            ResponseCommand::ReadBodyJson(name) => {
                match body_json {
                    Some(j) => {
                        vars.insert(name.clone(), j.deep_clone());
                    },
                    None => {
                        return Err(HttpResponseError::NotJson { op });
                    },
                }
            },
            ResponseCommand::ReadBody(name) => {
                match utf8_text(body) {
                    Some(t) => {
                        vars.insert(name.clone(), Value::Str(t));
                    },
                    None => {
                        return Err(HttpResponseError::NotText { op });
                    },
                }
            },
            _ => {
                return Err(HttpResponseError::BinaryOnly { op });
            },
        }
    }
    Ok(())
}

/// The base URL of an HTTP endpoint: scheme, address, and the port unless
/// it is the scheme's default.
pub open spec fn base_url_spec(https: bool, address: Seq<char>, port: u16) -> Seq<char> {
    let scheme = if https { "https://"@ } else { "http://"@ };
    let default_port: u16 = if https { 443 } else { 80 };
    if port == default_port {
        scheme + address
    } else {
        scheme + address + seq![':'] + crate::number::decimal(port as nat)
    }
}

pub fn base_url(protocol: Protocol, address: &str, port: u16) -> (r: String)
    ensures
        r@ == base_url_spec(protocol == Protocol::Https, address@, port),
{
    let https = protocol == Protocol::Https;
    let mut out = if https { chars_of("https://") } else { chars_of("http://") };
    let a = chars_of(address);
    out.extend_from_slice(a.as_slice());
    let default_port: u16 = if https { 443 } else { 80 };
    if port != default_port {
        out.push(':');
        let d = crate::number::decimal_chars(port as u64);
        out.extend_from_slice(d.as_slice());
    }
    string_of(out.as_slice())
}

/// Whether a header of this name (ASCII case ignored) is among `hs`.
pub open spec fn has_header(hs: Seq<(Seq<char>, Seq<char>)>, name: Seq<char>) -> bool {
    exists|i: int| 0 <= i < hs.len() && crate::lexicon::eq_ignore_case(#[trigger] hs[i].0, name)
}

/// The headers with every `Authorization` header after the first dropped.
pub open spec fn single_authorization(hs: Seq<(Seq<char>, Seq<char>)>) -> Seq<(Seq<char>, Seq<char>)>
    decreases hs.len(),
{
    if hs.len() == 0 {
        hs
    } else {
        let d = single_authorization(hs.drop_last());
        if crate::lexicon::eq_ignore_case(hs.last().0, "Authorization"@) && has_header(hs.drop_last(), "Authorization"@) {
            d
        } else {
            d.push(hs.last())
        }
    }
}

/// The product string sent as `User-Agent` when the script sets none.
pub open spec fn user_agent() -> Seq<char> {
    "net-sentinel/0.1"@
}

/// The headers a request goes out with: the script's (one `Authorization`
/// at most), then the body's content type unless the script set one, then
/// the product `User-Agent` unless the script set one.
pub open spec fn outgoing_spec(hs: Seq<(Seq<char>, Seq<char>)>, content_type: Option<Seq<char>>) -> Seq<(Seq<char>, Seq<char>)> {
    let a = single_authorization(hs);
    let b = match content_type {
        Some(ct) => if has_header(hs, "Content-Type"@) { a } else { a.push(("Content-Type"@, ct)) },
        None => a,
    };
    if has_header(hs, "User-Agent"@) { b } else { b.push(("User-Agent"@, user_agent())) }
}

fn has_header_exec(hs: &Vec<(String, String)>, upto: usize, name: &str) -> (r: bool)
    requires
        upto <= hs@.len(),
    ensures
        r == has_header(crate::packet_parser::pairs_view(hs@).subrange(0, upto as int), name@),
{
    let ghost hv = crate::packet_parser::pairs_view(hs@).subrange(0, upto as int);
    let mut i: usize = 0;
    while i < upto
        invariant
            upto <= hs@.len(),
            hv == crate::packet_parser::pairs_view(hs@).subrange(0, upto as int),
            i <= upto,
            forall|j: int| 0 <= j < i ==> !crate::lexicon::eq_ignore_case(#[trigger] hv[j].0, name@),
        decreases upto - i,
    {
        if eq_ignore_ascii_case(chars_of(hs[i].0.as_str()).as_slice(), name) {
            proof {
                assert(hv[i as int].0 == hs@[i as int].0@);
            }
            return true;
        }
        proof {
            assert(hv[i as int].0 == hs@[i as int].0@);
        }
        i = i + 1;
    }
    false
}

/// The headers a prepared request goes out with.
pub fn outgoing_headers(req: &PreparedHttpRequest) -> (r: Vec<(String, String)>)
    ensures
        crate::packet_parser::pairs_view(r@) == outgoing_spec(
            crate::packet_parser::pairs_view(req.headers@),
            match req.body {
                Some(b) => Some(b.0@),
                None => None,
            },
        ),
{
    let hs = &req.headers;
    let ghost hv = crate::packet_parser::pairs_view(hs@);
    let mut out: Vec<(String, String)> = Vec::new();
    let mut i: usize = 0;
    proof {
        assert(hv.subrange(0, 0) =~= Seq::<(Seq<char>, Seq<char>)>::empty());
        assert(crate::packet_parser::pairs_view(out@) =~= Seq::<(Seq<char>, Seq<char>)>::empty());
    }
    while i < hs.len()
        invariant
            hv == crate::packet_parser::pairs_view(hs@),
            i <= hs@.len(),
            crate::packet_parser::pairs_view(out@) == single_authorization(hv.subrange(0, i as int)),
        decreases hs.len() - i,
    {
        proof {
            assert(hv.subrange(0, i + 1).drop_last() =~= hv.subrange(0, i as int));
            assert(hv.subrange(0, i + 1).last() == hv[i as int]);
        }
        let is_auth = eq_ignore_ascii_case(chars_of(hs[i].0.as_str()).as_slice(), "Authorization");
        let seen = has_header_exec(hs, i, "Authorization");
        if !(is_auth && seen) {
            let ghost before = out@;
            out.push((hs[i].0.clone(), hs[i].1.clone()));
            proof {
                assert(crate::packet_parser::pairs_view(out@) =~= crate::packet_parser::pairs_view(before).push(hv[i as int]));
            }
        }
        i = i + 1;
    }
    proof {
        assert(hv.subrange(0, hs@.len() as int) =~= hv);
    }
    let n = hs.len();
    match &req.body {
        Some((ct, _)) => {
            if !has_header_exec(hs, n, "Content-Type") {
                let ghost before = out@;
                out.push((string_of(chars_of("Content-Type").as_slice()), ct.clone()));
                proof {
                    assert(crate::packet_parser::pairs_view(out@) =~= crate::packet_parser::pairs_view(before).push(("Content-Type"@, ct@)));
                }
            }
        },
        None => {},
    }
    if !has_header_exec(hs, n, "User-Agent") {
        let ghost before = out@;
        out.push((string_of(chars_of("User-Agent").as_slice()), string_of(chars_of("net-sentinel/0.1").as_slice())));
        proof {
            assert(crate::packet_parser::pairs_view(out@) =~= crate::packet_parser::pairs_view(before).push(("User-Agent"@, user_agent())));
        }
    }
    out
}

} // verus!
