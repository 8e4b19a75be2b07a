use net_sentinel::http::{base_url, outgoing_headers, PreparedHttpRequest};
use net_sentinel::models::{GameServer, Protocol};
use net_sentinel::output::JsonDocs;
use net_sentinel::probe::{GameServerTestResult, ProbeAction, ProbeSession};
use net_sentinel::value::Value;

fn server(address: &str, port: u16, protocol: Protocol, script: &str) -> GameServer {
    GameServer {
        id: 1,
        name: "test".to_string(),
        address: address.to_string(),
        port,
        protocol,
        timeout_ms: 2000,
        pseudo_code: script.to_string(),
    }
}

fn get_str(t: &net_sentinel::vars::VarTable, k: &str) -> Option<String> {
    match t.get(k) {
        Some(Value::Str(s)) => Some(s.clone()),
        _ => None,
    }
}

fn finish(s: &ProbeSession) -> GameServerTestResult {
    s.finish(5, &JsonDocs { docs: Vec::new() })
}

const SOURCE_QUERY: &str = "PACKET_START
WRITE_INT 0xFFFFFFFF
WRITE_BYTE 0x54
WRITE_STRING \"Source Engine Query\"
PACKET_END
RESPONSE_START
SKIP_BYTES 5
READ_STRING_NULL name
READ_STRING_NULL map
RESPONSE_END
OUTPUT_SUCCESS
RETURN \"name=name, map=map\"
OUTPUT_END
";

#[test]
fn source_query_over_udp() {
    let srv = server("1.2.3.4", 27015, Protocol::Udp, SOURCE_QUERY);
    let mut s = ProbeSession::start(&srv).expect("script parses");
    let packet = match s.next_action() {
        ProbeAction::SendDatagram(p) => p,
        other => panic!("expected a datagram, got {:?}", other),
    };
    let mut expected = vec![0xFF, 0xFF, 0xFF, 0xFF, 0x54];
    expected.extend_from_slice(b"Source Engine Query\0");
    assert_eq!(packet, expected);
    let mut reply = vec![0xFF, 0xFF, 0xFF, 0xFF, 0x49];
    reply.extend_from_slice(b"srv1\0de_dust2\0");
    s.on_reply(reply);
    assert!(matches!(s.next_action(), ProbeAction::Finish));
    let r = finish(&s);
    assert!(r.success);
    assert_eq!(r.output_labels_success, vec!["name=srv1, map=de_dust2".to_string()]);
    assert_eq!(r.parsed_values.len(), 2);
    assert_eq!(get_str(&r.parsed_values, "name"), Some("srv1".to_string()));
    assert_eq!(get_str(&r.parsed_values, "map"), Some("de_dust2".to_string()));
    assert_eq!(r.raw_response, Some("ffffffff49737276310064655f6475737432 00".replace(" ", "")));
}

fn handshake_script(delimiter: &str) -> String {
    format!(
        "PACKET_START
WRITE_VARINT PACKET_LEN
WRITE_VARINT 0
WRITE_VARINT 765
WRITE_VARINT 9
WRITE_STRING_LEN \"localhost\" 9
WRITE_SHORT_BE 25565
WRITE_VARINT 1
PACKET_END
RESPONSE_START
RESPONSE_END
PACKET_START
WRITE_VARINT PACKET_LEN
WRITE_VARINT 0
PACKET_END
RESPONSE_START
READ_VARINT frame_len
READ_VARINT packet_id
READ_VARINT json_len
READ_STRING payload 29
RESPONSE_END
CODE_START
ARRAY SPLIT_OUT = SPLIT(payload, {})
IF SPLIT_OUT[1] CONTAINS \"version\":
  STRING status = \"online\"
CODE_END
OUTPUT_SUCCESS
RETURN \"status=status\"
OUTPUT_END
",
        delimiter
    )
}

fn run_handshake(script: &str) -> (GameServerTestResult, usize, Vec<Vec<u8>>) {
    let srv = server("mc.example.org", 25565, Protocol::Tcp, script);
    let mut s = ProbeSession::start(&srv).expect("script parses");
    assert!(s.script.pairs.iter().all(|p| !p.close_connection_before));
    let json = b"{\"version\":{\"name\":\"1.20.1\"}}";
    let mut body = vec![0x00, json.len() as u8];
    body.extend_from_slice(json);
    let mut reply = vec![body.len() as u8];
    reply.extend_from_slice(&body);
    let mut connects = 0;
    let mut sent = Vec::new();
    for _ in 0..10 {
        match s.next_action() {
            ProbeAction::Connect => {
                connects += 1;
                s.on_connected();
            }
            ProbeAction::SendTcp { packets, read_reply } => {
                sent.extend(packets);
                if read_reply {
                    s.on_reply(reply.clone());
                } else {
                    s.on_tcp_sent();
                }
            }
            ProbeAction::Finish => break,
            other => panic!("unexpected action {:?}", other),
        }
    }
    (finish(&s), connects, sent)
}

#[test]
fn minecraft_handshake_over_tcp() {
    let (r, connects, sent) = run_handshake(&handshake_script("\"\\\"\""));
    assert_eq!(connects, 1);
    assert!(r.success);
    assert_eq!(r.output_labels_success.len(), 1);
    // The handshake: length prefix, then id 0, protocol 765, host, port, next state.
    let mut hs = vec![0x00, 0xFD, 0x05, 0x09];
    hs.extend_from_slice(b"localhost");
    hs.extend_from_slice(&[0x63, 0xDD, 0x01]);
    let mut framed = vec![hs.len() as u8];
    framed.extend_from_slice(&hs);
    assert_eq!(sent[0], framed);
    assert_eq!(sent[1], vec![0x01, 0x00]);
}

#[test]
fn minecraft_handshake_splits_on_quote() {
    let (r, connects, _) = run_handshake(&handshake_script("'\"'"));
    assert_eq!(connects, 1);
    assert_eq!(r.output_labels_success, vec!["status=online".to_string()]);
    assert_eq!(get_str(&r.variables, "status"), Some("online".to_string()));
}

const HTTP_SCRIPT: &str = "HTTP_START REQUEST GET /status
HEADER Authorization token_var
HTTP_END
RESPONSE_START
EXPECT_STATUS 200
READ_BODY_JSON payload
RESPONSE_END
OUTPUT_SUCCESS
JSON_OUTPUT payload
RETURN \"version=payload.server.version, players=payload.players.online\"
OUTPUT_END
";

fn status_body() -> Value {
    Value::Object(vec![
        ("server".to_string(), Value::Object(vec![("version".to_string(), Value::Str("1.20.1".to_string()))])),
        ("players".to_string(), Value::Object(vec![("online".to_string(), Value::UInt(42))])),
    ])
}

#[test]
fn http_json_probe() {
    let srv = server("api.example.net", 443, Protocol::Https, HTTP_SCRIPT);
    let mut s = ProbeSession::start(&srv).expect("script parses");
    let req = match s.next_action() {
        ProbeAction::SendHttp(r) => r,
        other => panic!("expected an HTTP request, got {:?}", other),
    };
    assert_eq!(req.method, "GET");
    assert_eq!(req.path, "/status");
    assert_eq!(req.headers, vec![("Authorization".to_string(), "token_var".to_string())]);
    let body = br#"{"server":{"version":"1.20.1"},"players":{"online":42}}"#.to_vec();
    s.on_http_response(200, &Vec::new(), body, &Some(status_body()));
    assert!(matches!(s.next_action(), ProbeAction::Finish));
    let r = finish(&s);
    assert!(r.success);
    assert!(r.output_labels_success.iter().any(|l| l.contains("version=1.20.1, players=42")));
}

#[test]
fn http_json_output_parses_string_variable() {
    let script = "HTTP_START REQUEST GET /status
HTTP_END
RESPONSE_START
READ_BODY body
RESPONSE_END
OUTPUT_SUCCESS
JSON_OUTPUT body
RETURN \"v=body.server.version\"
OUTPUT_END
";
    let srv = server("api.example.net", 8080, Protocol::Http, script);
    let mut s = ProbeSession::start(&srv).expect("script parses");
    assert!(matches!(s.next_action(), ProbeAction::SendHttp(_)));
    let text = r#"{"server":{"version":"1.20.1"}}"#;
    s.on_http_response(200, &Vec::new(), text.as_bytes().to_vec(), &None);
    let texts = s.json_output_texts();
    assert_eq!(texts, vec![text.to_string()]);
    let docs = JsonDocs { docs: vec![(text.to_string(), Some(status_body()))] };
    let r = s.finish(1, &docs);
    assert_eq!(r.output_labels_success, vec!["v=1.20.1".to_string()]);
}

#[test]
fn expect_mismatch_is_a_validation_error() {
    let script = "PACKET_START
WRITE_BYTE 1
PACKET_END
RESPONSE_START
EXPECT_BYTE 0x00
RESPONSE_END
OUTPUT_SUCCESS
RETURN \"ok=1\"
OUTPUT_END
OUTPUT_ERROR
RETURN \"reason=<ERROR REASON>\"
OUTPUT_END
";
    let srv = server("10.0.0.1", 7777, Protocol::Udp, script);
    let mut s = ProbeSession::start(&srv).expect("script parses");
    assert!(matches!(s.next_action(), ProbeAction::SendDatagram(_)));
    s.on_reply(vec![0xFF, 0x01]);
    let r = finish(&s);
    assert!(!r.success);
    let e = r.error.expect("an error");
    assert_eq!(e.error_type, "ValidationError");
    assert_eq!(e.line, Some(1));
    assert!(r.output_labels_success.is_empty());
    assert_eq!(r.output_labels_error, vec!["reason=Expected byte 0x00, got 0xFF".to_string()]);
}

#[test]
fn length_back_patching() {
    let script = "PACKET_START
WRITE_INT_BE PACKET_LEN
WRITE_BYTES \"DEADBEEF\"
PACKET_END
RESPONSE_START
RESPONSE_END
";
    let srv = server("10.0.0.1", 9000, Protocol::Tcp, script);
    let mut s = ProbeSession::start(&srv).expect("script parses");
    assert!(matches!(s.next_action(), ProbeAction::Connect));
    s.on_connected();
    match s.next_action() {
        ProbeAction::SendTcp { packets, read_reply } => {
            assert!(!read_reply);
            assert_eq!(packets, vec![vec![0x00, 0x00, 0x00, 0x04, 0xDE, 0xAD, 0xBE, 0xEF]]);
        }
        other => panic!("expected a TCP send, got {:?}", other),
    }
}

#[test]
fn connection_recycling() {
    let script = "PACKET_START
WRITE_BYTE 1
PACKET_END
RESPONSE_START
RESPONSE_END
CONNECTION_CLOSE
PACKET_START
WRITE_BYTE 2
PACKET_END
RESPONSE_START
RESPONSE_END
";
    let srv = server("10.0.0.1", 9000, Protocol::Tcp, script);
    let mut s = ProbeSession::start(&srv).expect("script parses");
    let mut log = Vec::new();
    for _ in 0..10 {
        match s.next_action() {
            ProbeAction::Connect => {
                log.push("connect".to_string());
                s.on_connected();
            }
            ProbeAction::Disconnect => log.push("drop".to_string()),
            ProbeAction::SendTcp { packets, .. } => {
                log.push(format!("send {}", packets[0][0]));
                s.on_tcp_sent();
            }
            ProbeAction::Finish => break,
            other => panic!("unexpected action {:?}", other),
        }
    }
    assert_eq!(log, vec!["connect", "send 1", "drop", "connect", "send 2"]);
    assert!(finish(&s).success);
}

#[test]
fn http_request_headers_and_url() {
    let req = PreparedHttpRequest {
        method: "POST".to_string(),
        path: "/x".to_string(),
        params: Vec::new(),
        headers: vec![
            ("Authorization".to_string(), "Bearer a".to_string()),
            ("authorization".to_string(), "Bearer b".to_string()),
        ],
        body: Some(("application/json".to_string(), b"{}".to_vec())),
    };
    assert_eq!(
        outgoing_headers(&req),
        vec![
            ("Authorization".to_string(), "Bearer a".to_string()),
            ("Content-Type".to_string(), "application/json".to_string()),
            ("User-Agent".to_string(), "net-sentinel/0.1".to_string()),
        ]
    );
    assert_eq!(base_url(Protocol::Https, "api.example.net", 443), "https://api.example.net");
    assert_eq!(base_url(Protocol::Http, "h", 8080), "http://h:8080");
    assert_eq!(net_sentinel::metrics::site_of("https://example.com:8443/path"), "example.com");
}
