use http_server_rust::json::{json_parse_x, json_ser_vec, json_step};

fn parse(raw: &[u8]) -> Option<(u32, Vec<u8>)> {
    json_parse_x(&raw.to_vec())
}

#[test]
fn parse_plain_document() {
    let p = parse(b"{\"id\":41,\"value\":\"hello\"}").expect("parses");
    assert_eq!(p.0, 41);
    assert_eq!(p.1, b"hello".to_vec());
}

#[test]
fn parse_accepts_either_member_order() {
    let p = parse(b"{\"value\":\"v\",\"id\":3}").expect("parses");
    assert_eq!(p.0, 3);
    assert_eq!(p.1, b"v".to_vec());
}

#[test]
fn parse_accepts_whitespace() {
    let p = parse(b" {\n\t\"id\" : 9 ,\r\n \"value\" : \"w s\" } ").expect("parses");
    assert_eq!(p.0, 9);
    assert_eq!(p.1, b"w s".to_vec());
}

#[test]
fn parse_keeps_escapes_verbatim() {
    let p = parse(b"{\"id\":1,\"value\":\"a\\\"b\\\\c\\u0041\"}").expect("parses");
    assert_eq!(p.1, b"a\\\"b\\\\c\\u0041".to_vec());
}

#[test]
fn parse_rejects_malformed_documents() {
    assert!(parse(b"").is_none());
    assert!(parse(b"{}").is_none());
    assert!(parse(b"{\"id\":1}").is_none());
    assert!(parse(b"{\"id\":1,\"value\":2}").is_none());
    assert!(parse(b"{\"id\":\"1\",\"value\":\"v\"}").is_none());
    assert!(parse(b"{\"id\":1,\"value\":\"v\"").is_none());
    assert!(parse(b"{\"id\":1,\"value\":\"v\"}}").is_none());
    assert!(parse(b"{\"id\":1,\"value\":\"v\",\"extra\":0}").is_none());
    assert!(parse(b"{\"id\":01,\"value\":\"v\"}").is_none());
    assert!(parse(b"{\"id\":-1,\"value\":\"v\"}").is_none());
    assert!(parse(b"{\"id\":1,\"value\":\"bad\\x\"}").is_none());
    assert!(parse(b"{\"id\":1,\"value\":\"bad\\u00g1\"}").is_none());
}

#[test]
fn parse_rejects_identifier_beyond_range() {
    assert!(parse(b"{\"id\":4294967296,\"value\":\"v\"}").is_none());
    let p = parse(b"{\"id\":4294967295,\"value\":\"v\"}").expect("max fits");
    assert_eq!(p.0, u32::MAX);
}

#[test]
fn serializer_output_parses_back() {
    let v = b"some text with \\\"escape\\\"".to_vec();
    let doc = json_ser_vec(7, &v);
    let p = parse(&doc).expect("round trip");
    assert_eq!(p.0, 7);
    assert_eq!(p.1, v);
}

#[test]
fn step_increments_exactly_once_per_application() {
    let doc = b"{\"id\":40,\"value\":\"vv\"}".to_vec();
    let once = json_step(&doc).expect("steps");
    assert_eq!(once, b"{\"id\":41,\"value\":\"vv\"}".to_vec());
    let twice = json_step(&once).expect("steps again");
    assert_eq!(twice, b"{\"id\":42,\"value\":\"vv\"}".to_vec());
}

#[test]
fn step_refuses_identifier_at_the_ceiling() {
    let doc = b"{\"id\":4294967295,\"value\":\"v\"}".to_vec();
    assert!(json_step(&doc).is_none());
}

#[test]
fn serializer_agrees_with_a_general_json_parser() {
    let doc = json_ser_vec(123, &b"plain value".to_vec());
    let parsed: serde_json::Value = serde_json::from_slice(&doc).expect("well-formed JSON");
    assert_eq!(parsed["id"].as_u64(), Some(123));
    assert_eq!(parsed["value"].as_str(), Some("plain value"));
}

#[test]
fn parser_agrees_with_a_general_json_serializer() {
    let mut m = serde_json::Map::new();
    m.insert("id".to_string(), serde_json::Value::from(5u32));
    m.insert("value".to_string(), serde_json::Value::from("xyz"));
    let doc = serde_json::to_vec(&serde_json::Value::Object(m)).expect("serializes");
    let p = parse(&doc).expect("parses");
    assert_eq!(p.0, 5);
    assert_eq!(p.1, b"xyz".to_vec());
}
