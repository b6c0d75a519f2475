use debugbus::codec::{encode_frame, FrameDecoder, FrameStep};
use debugbus::json::{encode_value, parse_payload, JsonValue};

fn chars(s: &str) -> Vec<char> {
    s.chars().collect()
}

fn sample_value() -> JsonValue {
    JsonValue::Obj(vec![
        (chars("type"), JsonValue::Str(chars("connect"))),
        (chars("count"), JsonValue::UInt(18446744073709551615)),
        (chars("flag"), JsonValue::Bool(true)),
        (chars("nothing"), JsonValue::Null),
        (
            chars("nested"),
            JsonValue::Arr(vec![
                JsonValue::UInt(0),
                JsonValue::Str(chars("quote \" backslash \\ tab \t done")),
                JsonValue::Obj(vec![(chars("k"), JsonValue::Arr(vec![]))]),
            ]),
        ),
    ])
}

#[test]
fn round_trip_structured_payload() {
    let v = sample_value();
    let text = encode_value(&v);
    let back = parse_payload(&text).expect("canonical text must parse");
    assert_eq!(back, sample_value());
}

#[test]
fn round_trip_scalars() {
    for v in [
        JsonValue::Null,
        JsonValue::Bool(false),
        JsonValue::Bool(true),
        JsonValue::UInt(0),
        JsonValue::UInt(10),
        JsonValue::Str(vec![]),
        JsonValue::Arr(vec![]),
        JsonValue::Obj(vec![]),
    ] {
        let text = encode_value(&v);
        let back = parse_payload(&text).expect("canonical text must parse");
        assert_eq!(format!("{:?}", back), format!("{:?}", v));
    }
}

#[test]
fn encode_emits_expected_text() {
    let v = JsonValue::Obj(vec![
        (chars("a"), JsonValue::UInt(7)),
        (chars("b"), JsonValue::Arr(vec![JsonValue::Null, JsonValue::Bool(true)])),
    ]);
    let text: String = encode_value(&v).into_iter().collect();
    assert_eq!(text, "{\"a\":7,\"b\":[null,true]}");
}

#[test]
fn control_characters_escape_and_return() {
    let v = JsonValue::Str(vec!['\u{1}', '\n', 'x']);
    let text: String = encode_value(&v).into_iter().collect();
    assert_eq!(text, "\"\\u0001\\u000ax\"");
    let back = parse_payload(&encode_value(&v)).expect("escapes must parse");
    assert_eq!(back, JsonValue::Str(vec!['\u{1}', '\n', 'x']));
}

#[test]
fn bad_payload_is_rejected() {
    assert_eq!(parse_payload(&chars("nope")), None);
    assert_eq!(parse_payload(&chars("{\"a\":}")), None);
    assert_eq!(parse_payload(&chars("12 ")), None);
    assert_eq!(parse_payload(&chars("")), None);
}

#[test]
fn frame_has_length_prefix() {
    let frame = encode_frame(&b"hello".to_vec());
    assert_eq!(frame, b"5:hello".to_vec());
    let empty = encode_frame(&Vec::new());
    assert_eq!(empty, b"0:".to_vec());
}

fn collect_frames(dec: &mut FrameDecoder) -> Vec<Vec<u8>> {
    let mut out = Vec::new();
    loop {
        match dec.try_next() {
            FrameStep::Frame(p) => out.push(p),
            FrameStep::NeedMore => return out,
            FrameStep::Malformed => panic!("unexpected malformed frame"),
        }
    }
}

#[test]
fn chunking_does_not_change_frames() {
    let mut wire: Vec<u8> = Vec::new();
    wire.extend_from_slice(&encode_frame(&b"first".to_vec()));
    wire.extend_from_slice(&encode_frame(&b"".to_vec()));
    wire.extend_from_slice(&encode_frame(&b"second payload".to_vec()));

    let mut whole = FrameDecoder::new();
    whole.feed(&wire);
    let all_at_once = collect_frames(&mut whole);

    let mut byte_wise = FrameDecoder::new();
    let mut dribbled: Vec<Vec<u8>> = Vec::new();
    for b in &wire {
        byte_wise.feed(std::slice::from_ref(b));
        dribbled.extend(collect_frames(&mut byte_wise));
    }

    assert_eq!(all_at_once, dribbled);
    assert_eq!(all_at_once, vec![b"first".to_vec(), b"".to_vec(), b"second payload".to_vec()]);
}

#[test]
fn partial_frame_waits_for_more() {
    let mut dec = FrameDecoder::new();
    dec.feed(b"11:hello");
    assert!(matches!(dec.try_next(), FrameStep::NeedMore));
    dec.feed(b" world");
    match dec.try_next() {
        FrameStep::Frame(p) => assert_eq!(p, b"hello world".to_vec()),
        _ => panic!("frame must complete once its bytes arrive"),
    }
}

#[test]
fn malformed_length_prefix_is_fatal() {
    let mut dec = FrameDecoder::new();
    dec.feed(b"5x:hello");
    assert!(matches!(dec.try_next(), FrameStep::Malformed));

    let mut dec2 = FrameDecoder::new();
    dec2.feed(b":payload");
    assert!(matches!(dec2.try_next(), FrameStep::Malformed));
}
