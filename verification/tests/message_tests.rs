use debugbus::json::JsonValue;
use debugbus::message::{message_from_value, message_to_value, Message};
use debugbus::session::encode_message;

fn chars(s: &str) -> Vec<char> {
    s.chars().collect()
}

#[test]
fn connect_message_wire_bytes() {
    let msg = Message {
        from: "root".to_string(),
        to: None,
        body: vec![("type".to_string(), JsonValue::Str(chars("connect")))],
    };
    let frame = encode_message(&msg);
    assert_eq!(
        frame,
        b"32:{\"from\":\"root\",\"type\":\"connect\"}".to_vec(),
    );
}

#[test]
fn absent_to_is_omitted_and_present_to_is_kept() {
    let msg = Message {
        from: "a".to_string(),
        to: Some("b".to_string()),
        body: vec![],
    };
    let text: String = debugbus::json::encode_value(&message_to_value(&msg))
        .into_iter()
        .collect();
    assert_eq!(text, "{\"from\":\"a\",\"to\":\"b\"}");
}

#[test]
fn envelope_round_trip() {
    let msg = Message {
        from: "console-1".to_string(),
        to: Some("root".to_string()),
        body: vec![
            ("type".to_string(), JsonValue::Str(chars("cachedMessages"))),
            ("count".to_string(), JsonValue::UInt(3)),
        ],
    };
    let v = message_to_value(&msg);
    let back = message_from_value(&v).expect("an envelope must decode");
    assert_eq!(back.from, "console-1");
    assert_eq!(back.to, Some("root".to_string()));
    assert_eq!(back.body.len(), 2);
    assert_eq!(back.body[0].0, "type");
    assert_eq!(back.body[0].1, JsonValue::Str(chars("cachedMessages")));
    assert_eq!(back.body[1].0, "count");
    assert_eq!(back.body[1].1, JsonValue::UInt(3));
}

#[test]
fn envelope_without_from_is_no_message() {
    let v = JsonValue::Obj(vec![(chars("type"), JsonValue::Str(chars("connect")))]);
    assert!(message_from_value(&v).is_none());
    let v2 = JsonValue::Obj(vec![(chars("from"), JsonValue::UInt(3))]);
    assert!(message_from_value(&v2).is_none());
    let v3 = JsonValue::Arr(vec![]);
    assert!(message_from_value(&v3).is_none());
}

#[test]
fn envelope_with_non_string_to_is_no_message() {
    let v = JsonValue::Obj(vec![
        (chars("from"), JsonValue::Str(chars("root"))),
        (chars("to"), JsonValue::UInt(9)),
    ]);
    assert!(message_from_value(&v).is_none());
}
