use net_sentinel::db::{preview_server, Database, RecordError};
use net_sentinel::models::Protocol;
use net_sentinel::lexicon::is_variable_name;
use net_sentinel::metrics::{escape_prometheus_label, parse_return_output, sanitize_metric_name};
use net_sentinel::output::{format_return, json_chars};
use net_sentinel::packet::{build_packet, hex_dump, parse_packet_commands, parse_response, parse_response_commands, PacketCommand, ResponseCommand, ShortResponse};
use net_sentinel::packet_parser::{parse_output_command, parse_packet_command, OutputCommand, PacketCommand as Cmd};
use net_sentinel::probe::replace_placeholders;
use net_sentinel::text::chars_of;
use net_sentinel::value::Value;
use net_sentinel::vars::VarTable;

fn c(s: &str) -> Vec<char> {
    s.chars().collect()
}

#[test]
fn next_ids_count_up() {
    let mut db = Database::new();
    assert_eq!(db.get_next_id(), 1);
    assert_eq!(db.get_next_id(), 2);
}

#[test]
fn hex_wrappers() {
    assert!(matches!(parse_packet_command(&c("WRITE_BYTES DEad01"), 1), Ok(Cmd::WriteBytes(b)) if b == vec![0xDE, 0xAD, 0x01]));
    assert!(parse_packet_command(&c("WRITE_BYTES abc"), 1).is_err());
    assert!(parse_packet_command(&c("WRITE_BYTES zz"), 1).is_err());
    let d = hex_dump(&[0xAB]);
    assert!(d.starts_with("00000000: AB "));
}

#[test]
fn variable_names() {
    assert!(is_variable_name(&c("player_count")));
    assert!(is_variable_name(&c("_x1")));
    assert!(!is_variable_name(&c("1x")));
    assert!(!is_variable_name(&c("0x10")));
    assert!(is_variable_name(&c("größe")));
}

#[test]
fn packet_commands_parse() {
    assert!(matches!(parse_packet_command(&c("WRITE_BYTE 0x54"), 1), Ok(Cmd::WriteByte(0x54))));
    assert!(matches!(parse_packet_command(&c("WRITE_INT packet_len"), 1), Ok(Cmd::WriteIntLen(false))));
    assert!(matches!(parse_packet_command(&c("WRITE_SHORT_BE port"), 1), Ok(Cmd::WriteShortVar(n, true)) if n == "port"));
    assert!(matches!(parse_packet_command(&c("WRITE_STRING \"a b\""), 1), Ok(Cmd::WriteString(t, None)) if t == "a b"));
    assert!(matches!(parse_packet_command(&c("WRITE_STRING_LEN \"ab\" 4"), 1), Ok(Cmd::WriteString(t, Some(4))) if t == "ab"));
    assert!(matches!(parse_packet_command(&c("WRITE_BYTES 0xDEAD"), 1), Ok(Cmd::WriteBytes(b)) if b == vec![0xDE, 0xAD]));
    assert!(matches!(parse_packet_command(&c("WRITE_BYTE 256"), 7), Err(e) if e.line == 7));
    assert!(matches!(parse_packet_command(&c("WRITE_NOTHING 1"), 3), Err(e) if e.line == 3));
}

#[test]
fn output_commands_parse() {
    assert!(matches!(parse_output_command(&c("RETURN \"a=b\""), 1), Ok(OutputCommand::Return(t)) if t == "a=b"));
    assert!(matches!(parse_output_command(&c("JSON_OUTPUT payload"), 1), Ok(OutputCommand::JsonOutput(t)) if t == "payload"));
    assert!(parse_output_command(&c("RETURN"), 1).is_err());
}

#[test]
fn return_templates() {
    let mut vars = VarTable::new();
    vars.insert("players".to_string(), Value::UInt(12));
    vars.insert("name".to_string(), Value::Str("srv".to_string()));
    let addr = "10.0.0.5".to_string();
    assert_eq!(format_return(&"players".to_string(), &vars, &addr, 25565, None), "players=\"12\"");
    assert_eq!(format_return(&"'up=players'".to_string(), &vars, &addr, 25565, None), "\"up=12\"");
    assert_eq!(format_return(&"at=HOST:PORT len=HOST_LEN".to_string(), &vars, &addr, 25565, None), "at=10.0.0.5:25565 len=8");
    assert_eq!(format_return(&"x=missing.path".to_string(), &vars, &addr, 1, None), "x=missing.path");
    let msg = "boom".to_string();
    assert_eq!(format_return(&"err=ERROR".to_string(), &vars, &addr, 1, Some(&msg)), "err=boom");
    assert_eq!(format_return(&"err=ERROR".to_string(), &vars, &addr, 1, None), "err=");
}

#[test]
fn json_text_of_values() {
    let v = Value::Array(vec![Value::UInt(1), Value::Int(-2), Value::Str("a\"b".to_string()), Value::Null, Value::Bool(true)]);
    let s: String = json_chars(&v).into_iter().collect();
    assert_eq!(s, "[1,-2,\"a\\\"b\",null,true]");
    let o = Value::Object(vec![("k".to_string(), Value::Object(vec![]))]);
    let s: String = json_chars(&o).into_iter().collect();
    assert_eq!(s, "{\"k\":{}}");
}

#[test]
fn placeholders_expand_whole_words() {
    let addr = "1.2.3.4".to_string();
    assert_eq!(
        replace_placeholders("SKIP_BYTES 5\nWRITE_STRING \"IP\"\nHOST:PORT IP_LEN IP_LEN_HEX HOST_LEN", &addr, 27015),
        "SKIP_BYTES 5\nWRITE_STRING \"1.2.3.4\"\n1.2.3.4:27015 7 7 7"
    );
    let long: String = "a".repeat(26);
    assert_eq!(replace_placeholders("IP_LEN_HEX", &long, 1), "1A");
}

#[test]
fn metrics_helpers() {
    assert_eq!(
        parse_return_output("server=10.0.2.27, protocol=773, name='x', =skip, noeq"),
        vec![
            ("server".to_string(), "10.0.2.27".to_string()),
            ("protocol".to_string(), "773".to_string()),
            ("name".to_string(), "x".to_string()),
        ]
    );
    assert_eq!(escape_prometheus_label("a\"b\\c\nd"), "a\\\"b\\\\c\\nd");
    assert_eq!(sanitize_metric_name("1abc-d:e"), "_1abc_d:e");
    assert_eq!(sanitize_metric_name("ok_name"), "ok_name");
    assert_eq!(sanitize_metric_name(""), "");
}

#[test]
fn single_packet_format() {
    let cmds = parse_packet_commands(
        "# header\nWRITE_BYTE 9\nPACKET_START\nWRITE_BYTE 0x01\nWRITE_SHORT_BE 258\nWRITE_STRING \"hi\"\nWRITE_STRING_LEN \"abc\" 2\nWRITE_BYTES \"DE AD\"\nPACKET_END\n",
    )
    .expect("parses");
    assert_eq!(cmds.len(), 7);
    assert!(matches!(cmds[0], PacketCommand::PacketStart));
    let p = build_packet(&cmds).expect("builds");
    assert_eq!(p, vec![0x01, 0x01, 0x02, b'h', b'i', 0x00, b'a', b'b', 0xDE, 0xAD]);
    assert!(parse_packet_commands("PACKET_START\nWRITE_BYTE x\n").is_err());
    let r = parse_response_commands("RESPONSE_START\nREAD_STRING name 4\nEXPECT_MAGIC \"FFFF\"\nRESPONSE_END\n").expect("parses");
    assert_eq!(r.len(), 4);
    assert!(matches!(&r[1], ResponseCommand::ReadString(n, 4) if n == "name"));
    assert!(matches!(&r[2], ResponseCommand::ExpectMagic(m) if *m == vec![0xFF, 0xFF]));
    let e = parse_response_commands("RESPONSE_START\nBOGUS\n").err().expect("fails");
    assert_eq!(e.line, 2);
}

#[test]
fn hex_dump_lines() {
    let data: Vec<u8> = (0x41u8..0x41 + 18).collect();
    let d = hex_dump(&data);
    let lines: Vec<&str> = d.lines().collect();
    assert_eq!(lines.len(), 2);
    assert_eq!(lines[0], "00000000: 41 42 43 44 45 46 47 48  49 4A 4B 4C 4D 4E 4F 50  ABCDEFGHIJKLMNOP");
    assert!(lines[1].starts_with("00000010: 51 52 "));
    assert!(lines[1].ends_with(" QR"));
    assert_eq!(hex_dump(&[]), "");
    assert_eq!(chars_of("ab"), vec!['a', 'b']);
}

#[test]
fn single_response_format() {
    let cmds = parse_response_commands("RESPONSE_START\nREAD_BYTE a\nREAD_SHORT_BE b\nEXPECT_BYTE 0x09\nREAD_BYTE c\nRESPONSE_END\n").expect("parses");
    let (vars, mismatch) = parse_response(&cmds, &[1, 0, 2, 7, 5]).expect("reads");
    assert!(matches!(vars.get("a"), Some(Value::UInt(1))));
    assert!(matches!(vars.get("b"), Some(Value::UInt(2))));
    assert!(vars.get("c").is_none());
    assert_eq!(mismatch.map(|m| m.0), Some(4));
    let (vars, mismatch) = parse_response(&cmds, &[1, 0, 2, 9, 5]).expect("reads");
    assert!(mismatch.is_none());
    assert!(matches!(vars.get("c"), Some(Value::UInt(5))));
    assert_eq!(parse_response(&cmds, &[1, 0]).err(), Some(ShortResponse { position: 1 }));
}

#[test]
fn record_rules() {
    let mut db = Database::new();
    assert_eq!(db.add_isp("  ".to_string(), "1.1.1.1".to_string()), Err(RecordError::EmptyName));
    assert_eq!(db.add_isp("a".to_string(), " ".to_string()), Err(RecordError::EmptyIp));
    assert_eq!(db.add_isp("a".to_string(), "1.1.1.1".to_string()), Ok(1));
    assert_eq!(db.add_isp("b".to_string(), "1.1.1.1".to_string()), Err(RecordError::AlreadyExists));
    assert_eq!(db.add_website("".to_string(), false, None), Err(RecordError::EmptyUrl));
    assert_eq!(db.add_website("example.com".to_string(), true, None), Ok(2));
    assert_eq!(db.add_website("example.com".to_string(), false, None), Err(RecordError::AlreadyExists));
    let add = |db: &mut Database, proto: Protocol| {
        db.add_game_server("mc".to_string(), "10.0.0.1".to_string(), 25565, proto, 1000, "PACKET_START".to_string())
    };
    assert_eq!(add(&mut db, Protocol::Tcp), Ok(3));
    assert_eq!(add(&mut db, Protocol::Tcp), Err(RecordError::AlreadyExists));
    assert_eq!(add(&mut db, Protocol::Udp), Ok(4));
    assert_eq!(
        db.add_game_server("x".to_string(), "h".to_string(), 1, Protocol::Udp, 1, " ".to_string()),
        Err(RecordError::EmptyScript)
    );
    assert_eq!(db.remove_game_server(3), Ok(()));
    assert_eq!(db.remove_game_server(3), Err(RecordError::NotFound));
    assert_eq!(db.game_servers.len(), 1);
    assert_eq!(db.remove_isp(1), Ok(()));
    assert!(db.isps.is_empty());
    assert_eq!(db.remove_website(9), Err(RecordError::NotFound));
    let p = preview_server(" ".to_string(), "h".to_string(), 1, Protocol::Udp, 5, "x".to_string()).expect("valid");
    assert_eq!(p.name, "Preview Server");
    assert_eq!(p.id, 0);
    assert_eq!(preview_server("n".to_string(), "".to_string(), 1, Protocol::Udp, 5, "x".to_string()).err(), Some(RecordError::EmptyAddress));
}
