use net_sentinel::builder::{build_packet_bytes, BuildError};
use net_sentinel::codec::{encode_varint, read_varint, VarIntError};
use net_sentinel::http::{parse_http_response, HttpResponseError};
use net_sentinel::interp::{execute_code_blocks, get_variable_value, CodeError};
use net_sentinel::packet_parser::{parse_script, CodeBlock, CodeCommand, Expression, PacketCommand, ResponseCommand, VariableType};
use net_sentinel::probe::{insert_server_placeholders, strip_placeholder_vars};
use net_sentinel::response::{parse_response, ResponseError};
use net_sentinel::value::Value;
use net_sentinel::vars::VarTable;

fn table(entries: Vec<(&str, Value)>) -> VarTable {
    let mut t = VarTable::new();
    for (k, v) in entries {
        t.insert(k.to_string(), v);
    }
    t
}

#[test]
fn varint_round_trip_samples() {
    for n in [0u64, 1, 127, 128, 255, 300, 16383, 16384, 2097151, 268435455, 34359738367] {
        let e = encode_varint(n);
        assert_eq!(read_varint(&e, 0), Ok((n, e.len())));
    }
    assert_eq!(encode_varint(300), vec![0xAC, 0x02]);
    assert_eq!(encode_varint(0), vec![0x00]);
}

#[test]
fn varint_too_large_and_truncated() {
    assert_eq!(read_varint(&[0x80, 0x80, 0x80, 0x80, 0x80, 0x01], 0), Err(VarIntError::TooLarge));
    assert_eq!(read_varint(&[0x80, 0x80], 0), Err(VarIntError::Truncated));
    assert_eq!(read_varint(&encode_varint(34359738368), 0), Err(VarIntError::TooLarge));
}

#[test]
fn build_then_parse_recovers_values() {
    let vars = table(vec![("b", Value::UInt(7)), ("s", Value::Str("0x1234".to_string())), ("t", Value::Str("abc".to_string()))]);
    let cmds = vec![
        PacketCommand::WriteByte(0xAB),
        PacketCommand::WriteShort(0x1234, false),
        PacketCommand::WriteShort(0x1234, true),
        PacketCommand::WriteInt(0xDEADBEEF, false),
        PacketCommand::WriteIntVar("s".to_string(), true),
        PacketCommand::WriteByteVar("b".to_string()),
        PacketCommand::WriteVarInt(300),
        PacketCommand::WriteString("hello".to_string(), None),
        PacketCommand::WriteStringVar("t".to_string(), Some(5)),
    ];
    let bytes = build_packet_bytes(&cmds, &vars).expect("builds");
    let reads = vec![
        ResponseCommand::ReadByte("a".to_string()),
        ResponseCommand::ReadShort("c".to_string(), false),
        ResponseCommand::ReadShort("d".to_string(), true),
        ResponseCommand::ReadInt("e".to_string(), false),
        ResponseCommand::ReadInt("f".to_string(), true),
        ResponseCommand::ReadByte("g".to_string()),
        ResponseCommand::ReadVarInt("h".to_string()),
        ResponseCommand::ReadStringNull("i".to_string()),
        ResponseCommand::ReadString("j".to_string(), Some(5)),
    ];
    let (t, cursor) = parse_response(&reads, &bytes).expect("parses");
    assert_eq!(cursor, bytes.len());
    let want: Vec<(&str, Value)> = vec![
        ("a", Value::UInt(0xAB)),
        ("c", Value::UInt(0x1234)),
        ("d", Value::UInt(0x1234)),
        ("e", Value::UInt(0xDEADBEEF)),
        ("f", Value::UInt(0x1234)),
        ("g", Value::UInt(7)),
        ("h", Value::UInt(300)),
    ];
    for (k, v) in want {
        match (t.get(k), v) {
            (Some(Value::UInt(x)), Value::UInt(y)) => assert_eq!(*x, y, "{}", k),
            other => panic!("{}: {:?}", k, other),
        }
    }
    assert!(matches!(t.get("i"), Some(Value::Str(s)) if s == "hello"));
    assert!(matches!(t.get("j"), Some(Value::Str(s)) if s == "abc"));
}

#[test]
fn length_placeholders_count_following_bytes() {
    let vars = VarTable::new();
    let cmds = vec![
        PacketCommand::WriteVarIntLen,
        PacketCommand::WriteByte(1),
        PacketCommand::WriteIntLen(false),
        PacketCommand::WriteBytes(vec![9, 9, 9]),
    ];
    let b = build_packet_bytes(&cmds, &vars).expect("builds");
    assert_eq!(b, vec![0x08, 0x01, 0x03, 0x00, 0x00, 0x00, 0x09, 0x09, 0x09]);
    let big = vec![PacketCommand::WriteVarIntLen, PacketCommand::WriteBytes(vec![0; 200])];
    let b = build_packet_bytes(&big, &vars).expect("builds");
    assert_eq!(&b[..2], &[0xC8, 0x01]);
    assert_eq!(b.len(), 202);
}

#[test]
fn build_errors() {
    let vars = table(vec![("s", Value::Str("abc".to_string())), ("n", Value::UInt(5))]);
    assert!(matches!(
        build_packet_bytes(&vec![PacketCommand::WriteByteVar("x".to_string())], &vars),
        Err(BuildError::UnknownVariable(n)) if n == "x"
    ));
    assert!(matches!(
        build_packet_bytes(&vec![PacketCommand::WriteByteVar("s".to_string())], &vars),
        Err(BuildError::NotNumeric(n)) if n == "s"
    ));
    assert!(matches!(
        build_packet_bytes(&vec![PacketCommand::WriteStringVar("n".to_string(), None)], &vars),
        Err(BuildError::NotString(n)) if n == "n"
    ));
}

#[test]
fn cursor_is_monotone_and_errors() {
    let data = [1u8, 2, 3, 4, 5];
    let reads = vec![ResponseCommand::SkipBytes(2), ResponseCommand::ReadByte("x".to_string())];
    let (_, c) = parse_response(&reads, &data).expect("parses");
    assert_eq!(c, 3);
    let r = parse_response(&vec![ResponseCommand::SkipBytes(6)], &data);
    assert!(matches!(r, Err(ResponseError::Insufficient { needed: 6, available: 5 })));
    let r = parse_response(&vec![ResponseCommand::ExpectMagic(vec![1, 3])], &data);
    assert!(matches!(r, Err(ResponseError::MagicMismatch { op: 1, .. })));
    let r = parse_response(&vec![ResponseCommand::ExpectStatus(200)], &data);
    assert!(matches!(r, Err(ResponseError::HttpOnly { op: 1 })));
    let r = parse_response(&vec![ResponseCommand::ReadStringNull("s".to_string())], &data);
    let (t, c) = r.expect("parses");
    assert_eq!(c, 5);
    assert!(matches!(t.get("s"), Some(Value::Str(s)) if s.as_bytes() == [1, 2, 3, 4, 5]));
}

#[test]
fn lossy_decoding_replaces_invalid_bytes() {
    let (t, _) = parse_response(&vec![ResponseCommand::ReadStringNull("s".to_string())], &[0x61, 0xFF, 0x62, 0x00]).unwrap();
    assert!(matches!(t.get("s"), Some(Value::Str(s)) if s == "a\u{FFFD}b"));
}

#[test]
fn code_shadows_parsed_shadows_pseudo() {
    let parsed = table(vec![("x", Value::UInt(1)), ("HOST", Value::Str("parsed-host".to_string()))]);
    let code = table(vec![("x", Value::UInt(2))]);
    assert!(matches!(get_variable_value(&"x".to_string(), &parsed, &code), Ok(Value::UInt(2))));
    assert!(matches!(get_variable_value(&"y".to_string(), &parsed, &code), Err(CodeError::UnknownVariable)));
    let mut all = VarTable::new();
    all.extend_from(&parsed);
    all.extend_from(&code);
    insert_server_placeholders(&mut all, &"10.1.2.3".to_string(), 27015);
    assert!(matches!(all.get("x"), Some(Value::UInt(2))));
    assert!(matches!(all.get("HOST"), Some(Value::Str(s)) if s == "parsed-host"));
    assert!(matches!(all.get("IP"), Some(Value::Str(s)) if s == "10.1.2.3"));
    assert!(matches!(all.get("PORT"), Some(Value::UInt(27015))));
    assert!(matches!(all.get("IP_LEN"), Some(Value::UInt(8))));
}

#[test]
fn pseudo_variables_are_stripped() {
    let mut t = table(vec![("HOST", Value::Str("h".to_string())), ("a", Value::UInt(1)), ("PORT", Value::UInt(1)), ("IP_LEN_HEX", Value::UInt(1))]);
    strip_placeholder_vars(&mut t);
    assert_eq!(t.len(), 1);
    assert!(t.get("a").is_some());
}

#[test]
fn code_blocks_split_replace_and_loop() {
    let blocks = vec![CodeBlock {
        commands: vec![
            CodeCommand::Split {
                var_name: "parts".to_string(),
                source_expr: Expression::Variable("csv".to_string()),
                delimiter: ",".to_string(),
            },
            CodeCommand::Replace {
                var_name: "r".to_string(),
                source_expr: Expression::Variable("csv".to_string()),
                search: ",".to_string(),
                replace: ";".to_string(),
            },
            CodeCommand::DeclareVar {
                var_type: VariableType::Int,
                name: "count".to_string(),
                value: Expression::Literal(Value::UInt(0)),
            },
            CodeCommand::ForInArray {
                var_name: "p".to_string(),
                array_name: "parts".to_string(),
                body: vec![
                    CodeCommand::AssignVar { name: "last".to_string(), value: Expression::Variable("p".to_string()) },
                    CodeCommand::Break,
                ],
            },
        ],
    }];
    let parsed = table(vec![("csv", Value::Str("a,b,,c".to_string()))]);
    let code = execute_code_blocks(&blocks, &parsed).expect("runs");
    match code.get("parts") {
        Some(Value::Array(items)) => {
            let texts: Vec<String> = items
                .iter()
                .map(|v| match v {
                    Value::Str(s) => s.clone(),
                    _ => panic!("not a string"),
                })
                .collect();
            assert_eq!(texts, vec!["a", "b", "", "c"]);
        }
        other => panic!("{:?}", other),
    }
    assert!(matches!(code.get("r"), Some(Value::Str(s)) if s == "a;b;;c"));
    assert!(matches!(code.get("last"), Some(Value::Str(s)) if s == "a"));
    let bad = vec![CodeBlock { commands: vec![CodeCommand::Break] }];
    assert!(matches!(execute_code_blocks(&bad, &parsed), Err(CodeError::BreakOutsideLoop)));
}

#[test]
fn script_pairs_are_well_formed() {
    let s = parse_script(
        "PACKET_START\nWRITE_BYTE 1\nPACKET_END\nPACKET_START\nWRITE_BYTE 2\nPACKET_END\nRESPONSE_START\nREAD_BYTE a\nRESPONSE_END\nCONNECTION_CLOSE\nHTTP_START REQUEST POST /x\nPARAM k v w\nBODY_START TYPE form\nDATA a=1\nDATA b=2\nBODY_END\nHTTP_END\nRESPONSE_START\nRESPONSE_END\n",
    )
    .expect("parses");
    assert_eq!(s.pairs.len(), 2);
    assert_eq!(s.pairs[0].packets.len(), 2);
    assert!(!s.pairs[0].close_connection_before);
    assert!(s.pairs[1].close_connection_before);
    let h = s.pairs[1].http_request.as_ref().expect("http");
    assert_eq!(h.params, vec![("k".to_string(), "v w".to_string())]);
    assert_eq!(h.body_data, vec!["a=1".to_string(), "b=2".to_string()]);
}

#[test]
fn syntax_errors_carry_the_line() {
    let e = parse_script("PACKET_START\nWRITE_BYTE 300\nPACKET_END\n").err().expect("fails");
    assert_eq!(e.line, 2);
    let e = parse_script("# comment\n\nOUTPUT_END\n").err().expect("fails");
    assert_eq!(e.line, 3);
    let e = parse_script("PACKET_START\nWRITE_BYTES zz\nPACKET_END\n").err().expect("fails");
    assert_eq!(e.line, 2);
}

#[test]
fn if_elif_else_picks_the_first_true_branch() {
    let s = parse_script(
        "CODE_START\nINT n = 5\nIF n > 10:\n  STRING size = \"big\"\nELIF n > 3:\n  STRING size = \"medium\"\nELSE:\n  STRING size = \"small\"\nSTRING after = \"done\"\nCODE_END\n",
    )
    .expect("parses");
    let code = execute_code_blocks(&s.code_blocks, &VarTable::new()).expect("runs");
    assert!(matches!(code.get("size"), Some(Value::Str(v)) if v == "medium"));
    assert!(matches!(code.get("after"), Some(Value::Str(v)) if v == "done"));
    let s = parse_script("CODE_START\nINT n = 1\nIF n > 10:\n  STRING size = \"big\"\nELSE:\n  STRING size = \"small\"\nCODE_END\n").expect("parses");
    let code = execute_code_blocks(&s.code_blocks, &VarTable::new()).expect("runs");
    assert!(matches!(code.get("size"), Some(Value::Str(v)) if v == "small"));
}

fn eval(e: Expression, parsed: &VarTable) -> Result<Value, CodeError> {
    net_sentinel::interp::evaluate_expression(&e, parsed, &VarTable::new())
}

#[test]
fn interpreter_errors() {
    let parsed = table(vec![
        ("arr", Value::Array(vec![Value::UInt(10), Value::UInt(20)])),
        ("s", Value::Str("x".to_string())),
        ("n", Value::UInt(3)),
    ]);
    let idx = |name: &str, i: Expression| Expression::ArrayIndex { array_name: name.to_string(), index: Box::new(i) };
    assert!(matches!(eval(idx("arr", Expression::Literal(Value::UInt(1))), &parsed), Ok(Value::UInt(20))));
    assert_eq!(eval(idx("s", Expression::Literal(Value::UInt(0))), &parsed).err(), Some(CodeError::NotAnArray));
    assert_eq!(eval(idx("arr", Expression::Literal(Value::Str("0".to_string()))), &parsed).err(), Some(CodeError::BadIndex));
    assert_eq!(eval(idx("arr", Expression::Literal(Value::UInt(2))), &parsed).err(), Some(CodeError::IndexOutOfBounds));
    assert_eq!(
        eval(Expression::FunctionCall { name: "LEN".to_string(), args: vec![] }, &parsed).err(),
        Some(CodeError::UnknownFunction)
    );
    let split_num = vec![CodeBlock {
        commands: vec![CodeCommand::Split { var_name: "x".to_string(), source_expr: Expression::Variable("n".to_string()), delimiter: ",".to_string() }],
    }];
    assert_eq!(execute_code_blocks(&split_num, &parsed).err(), Some(CodeError::NotAString));
    let cond = net_sentinel::packet_parser::Condition::GreaterThan(Expression::Variable("s".to_string()), Expression::Literal(Value::UInt(1)));
    assert_eq!(net_sentinel::interp::evaluate_condition(&cond, &parsed, &VarTable::new()).err(), Some(CodeError::NotANumber));
    let cond = net_sentinel::packet_parser::Condition::LessOrEqual(Expression::Variable("n".to_string()), Expression::Literal(Value::Int(-1)));
    assert_eq!(net_sentinel::interp::evaluate_condition(&cond, &parsed, &VarTable::new()), Ok(false));
    let arr = eval(Expression::ArrayLiteral(vec![Expression::Variable("n".to_string()), Expression::Literal(Value::Null)]), &parsed);
    assert!(matches!(arr, Ok(Value::Array(v)) if v.len() == 2));
}

#[test]
fn http_response_errors() {
    let headers = vec![("content-type".to_string(), "text/plain".to_string()), ("x-a-b".to_string(), "1".to_string())];
    let t = parse_http_response(&vec![], 200, &headers, b"hi", &None).expect("no ops");
    assert!(matches!(t.get("STATUS_CODE"), Some(Value::UInt(200))));
    assert!(matches!(t.get("HEADER_x_a_b"), Some(Value::Str(v)) if v == "1"));
    let r = parse_http_response(&vec![ResponseCommand::ExpectStatus(204)], 200, &headers, b"hi", &None);
    assert!(matches!(r, Err(HttpResponseError::StatusMismatch { op: 1, expected: 204, actual: 200 })));
    let hdr = |k: &str, v: &str| ResponseCommand::ExpectHeader { key: k.to_string(), value: v.to_string() };
    assert!(parse_http_response(&vec![hdr("Content-Type", "text/plain")], 200, &headers, b"", &None).is_ok());
    assert!(matches!(parse_http_response(&vec![hdr("X-Missing", "1")], 200, &headers, b"", &None), Err(HttpResponseError::HeaderMissing { op: 1, .. })));
    assert!(matches!(parse_http_response(&vec![hdr("content-type", "x")], 200, &headers, b"", &None), Err(HttpResponseError::HeaderMismatch { .. })));
    assert!(matches!(parse_http_response(&vec![ResponseCommand::ReadBodyJson("j".to_string())], 200, &headers, b"hi", &None), Err(HttpResponseError::NotJson { op: 1 })));
    assert!(matches!(parse_http_response(&vec![ResponseCommand::ReadBody("b".to_string())], 200, &headers, &[0xFF], &None), Err(HttpResponseError::NotText { op: 1 })));
    assert!(matches!(parse_http_response(&vec![ResponseCommand::SkipBytes(1)], 200, &headers, b"", &None), Err(HttpResponseError::BinaryOnly { op: 1 })));
    let t = parse_http_response(&vec![ResponseCommand::ReadBody("b".to_string())], 200, &headers, b"hi", &None).expect("text");
    assert!(matches!(t.get("b"), Some(Value::Str(v)) if v == "hi"));
}

#[test]
fn binary_read_errors() {
    let r = parse_response(&vec![ResponseCommand::ReadVarInt("v".to_string())], &[0x80]);
    assert!(matches!(r, Err(ResponseError::VarInt(VarIntError::Truncated))));
    let r = parse_response(&vec![ResponseCommand::ReadString("v".to_string(), None)], &[1]);
    assert!(matches!(r, Err(ResponseError::MissingLength)));
    let r = parse_response(&vec![ResponseCommand::ExpectByte(1), ResponseCommand::ExpectByte(3)], &[1, 2]);
    assert!(matches!(r, Err(ResponseError::ByteMismatch { op: 2, expected: 3, actual: 2 })));
    let (t, _) = parse_response(&vec![ResponseCommand::ReadString("s".to_string(), Some(4))], b"ab\0\0").unwrap();
    assert!(matches!(t.get("s"), Some(Value::Str(v)) if v == "ab"));
}

#[test]
fn script_errors_name_the_offending_line() {
    assert_eq!(parse_script("PACKET_START\nWRITE_FOO 1\nPACKET_END").err().map(|e| e.line), Some(2));
    assert_eq!(parse_script("OUTPUT_SUCCESS\nRETURN x\n\nBOGUS line\nOUTPUT_END").err().map(|e| e.line), Some(4));
    assert_eq!(parse_script("OUTPUT_SUCCESS\nOUTPUT_ERROR\n").err().map(|e| e.line), Some(2));
    let s = parse_script(
        "PACKET_START\nWRITE_BYTE 1\nPACKET_END\nPACKET_START\nWRITE_BYTE 2\nPACKET_END\nRESPONSE_START\nREAD_BYTE a\nRESPONSE_END\nOUTPUT_SUCCESS\nRETURN a\nOUTPUT_END",
    )
    .expect("parses");
    assert_eq!(s.pairs.len(), 1);
    assert_eq!(s.pairs[0].packets.len(), 2);
    assert_eq!(s.output_blocks.len(), 1);
    assert_eq!(s.output_blocks[0].commands.len(), 1);
}
