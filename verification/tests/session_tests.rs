use debugbus::actors::console::ConsoleActor;
use debugbus::actors::debugger::DebuggerActor;
use debugbus::codec::{FrameDecoder, FrameStep};
use debugbus::json::JsonValue;
use debugbus::message::{message_from_value, Message};
use debugbus::session::{encode_message, fresh_actor_id, Session, SessionState};
use debugbus::actors::network::NetworkActor;
use debugbus::actors::AnyActor;

fn chars(s: &str) -> Vec<char> {
    s.chars().collect()
}

fn typed(from: &str, to: &str, ty: &str) -> Message {
    Message {
        from: from.to_string(),
        to: Some(to.to_string()),
        body: vec![("type".to_string(), JsonValue::Str(chars(ty)))],
    }
}

fn two_actor_session() -> Session {
    let mut s = Session::new();
    assert!(s.registry.register(AnyActor::Console(ConsoleActor::new("console-1".to_string()))).is_ok());
    assert!(s.registry.register(AnyActor::Debugger(DebuggerActor::new("debugger-1".to_string()))).is_ok());
    s.activate();
    s
}

fn decode_reply(frame: &[u8]) -> Message {
    let mut dec = FrameDecoder::new();
    dec.feed(frame);
    match dec.try_next() {
        FrameStep::Frame(p) => {
            let text = String::from_utf8(p).expect("replies are UTF-8");
            let cs: Vec<char> = text.chars().collect();
            let v = debugbus::json::parse_payload(&cs).expect("replies are structured values");
            message_from_value(&v).expect("replies are messages")
        },
        _ => panic!("a whole reply frame was expected"),
    }
}

#[test]
fn two_back_to_back_frames_both_deliver_and_session_stays_active() {
    let mut s = two_actor_session();
    let mut wire = encode_message(&typed("root", "console-1", "noSuchRequest"));
    wire.extend_from_slice(&encode_message(&typed("root", "debugger-1", "noSuchRequest")));
    s.feed_bytes(&wire);
    s.pump();
    assert_eq!(s.state, SessionState::Active);
    assert!(s.take_outbound().is_empty());
    assert!(s.registry.lookup("console-1").is_some());
    assert!(s.registry.lookup("debugger-1").is_some());
    // the stream stayed aligned: a further message still dispatches
    s.feed_bytes(&encode_message(&typed("root", "debugger-1", "pause")));
    s.pump();
    assert_eq!(s.state, SessionState::Active);
    assert_eq!(s.take_outbound().len(), 1);
}

#[test]
fn unknown_destination_is_dropped_and_registry_unchanged() {
    let mut s = two_actor_session();
    s.feed_bytes(&encode_message(&typed("root", "nobody-9", "pause")));
    s.pump();
    assert_eq!(s.state, SessionState::Active);
    assert!(s.take_outbound().is_empty());
    assert_eq!(s.registry.len(), 2);
    assert!(s.registry.lookup("console-1").is_some());
    assert!(s.registry.lookup("debugger-1").is_some());
}

#[test]
fn reply_is_framed_and_answers_the_sender() {
    let mut s = two_actor_session();
    s.feed_bytes(&encode_message(&typed("client-7", "console-1", "startListeners")));
    s.pump();
    assert_eq!(s.state, SessionState::Active);
    let out = s.take_outbound();
    assert_eq!(out.len(), 1);
    let reply = decode_reply(&out[0]);
    assert_eq!(reply.from, "console-1");
    assert_eq!(reply.to, Some("client-7".to_string()));
    assert_eq!(reply.body[0].0, "type");
    assert_eq!(reply.body[0].1, JsonValue::Str(chars("listenersStarted")));
}

#[test]
fn replies_follow_wire_order() {
    let mut s = two_actor_session();
    let mut wire = encode_message(&typed("c", "debugger-1", "pause"));
    wire.extend_from_slice(&encode_message(&typed("c", "debugger-1", "resume")));
    s.feed_bytes(&wire);
    s.pump();
    let out = s.take_outbound();
    assert_eq!(out.len(), 2);
    assert_eq!(decode_reply(&out[0]).body[0].1, JsonValue::Str(chars("paused")));
    assert_eq!(decode_reply(&out[1]).body[0].1, JsonValue::Str(chars("resumed")));
}

#[test]
fn undecodable_payload_is_dropped_but_stream_continues() {
    let mut s = two_actor_session();
    let mut wire = b"7:not use".to_vec();
    wire.extend_from_slice(&encode_message(&typed("c", "debugger-1", "pause")));
    s.feed_bytes(&wire);
    s.pump();
    assert_eq!(s.state, SessionState::Active);
    assert_eq!(s.take_outbound().len(), 1);
}

#[test]
fn malformed_length_prefix_drains_the_session() {
    let mut s = two_actor_session();
    s.feed_bytes(b"x5:abc");
    s.pump();
    assert_eq!(s.state, SessionState::Draining);
}

#[test]
fn byte_at_a_time_feeding_matches_contiguous() {
    let wire = {
        let mut w = encode_message(&typed("c", "debugger-1", "pause"));
        w.extend_from_slice(&encode_message(&typed("c", "console-1", "startListeners")));
        w
    };

    let mut whole = two_actor_session();
    whole.feed_bytes(&wire);
    whole.pump();
    let out_whole = whole.take_outbound();

    let mut dribble = two_actor_session();
    let mut out_dribble = Vec::new();
    for b in &wire {
        dribble.feed_bytes(std::slice::from_ref(b));
        dribble.pump();
        out_dribble.extend(dribble.take_outbound());
    }

    assert_eq!(out_whole, out_dribble);
    assert_eq!(out_whole.len(), 2);
}

#[test]
fn lifecycle_runs_to_closed() {
    let mut s = Session::new();
    assert_eq!(s.state, SessionState::Connecting);
    let ids = s.init_actors();
    assert_eq!(ids.len(), 4);
    assert_eq!(ids[0], "root");
    assert!(ids[1].starts_with("console-"));
    assert!(ids[2].starts_with("debugger-"));
    assert!(ids[3].starts_with("network-"));
    assert_eq!(s.registry.len(), 4);
    s.activate();
    assert_eq!(s.state, SessionState::Active);
    s.drain();
    assert_eq!(s.state, SessionState::Draining);
    s.close();
    assert_eq!(s.state, SessionState::Closed);
    assert_eq!(s.registry.len(), 0);
}

#[test]
fn broadcast_goes_to_root() {
    let mut s = Session::new();
    let _ = s.init_actors();
    s.activate();
    let msg = Message {
        from: "client".to_string(),
        to: None,
        body: vec![("type".to_string(), JsonValue::Str(chars("listTabs")))],
    };
    s.feed_bytes(&encode_message(&msg));
    s.pump();
    let out = s.take_outbound();
    assert_eq!(out.len(), 1);
    let reply = decode_reply(&out[0]);
    assert_eq!(reply.from, "root");
    assert_eq!(reply.body[0].1, JsonValue::Str(chars("tabList")));
}

#[test]
fn created_tab_is_registered_and_attaches() {
    let mut s = Session::new();
    let _ = s.init_actors();
    let tab_id = s.create_tab("https://example.test".to_string());
    assert!(tab_id.starts_with("tab-"));
    s.activate();
    s.feed_bytes(&encode_message(&typed("client", &tab_id, "attach")));
    s.pump();
    let out = s.take_outbound();
    assert_eq!(out.len(), 1);
    let reply = decode_reply(&out[0]);
    assert_eq!(reply.from, tab_id);
    assert_eq!(reply.body[0].1, JsonValue::Str(chars("attached")));
}

#[test]
fn dropped_frames_are_counted() {
    let mut s = two_actor_session();
    assert_eq!(s.dropped_frames(), 0);
    // payload is not a structured value
    s.feed_bytes(b"7:not use");
    s.pump();
    assert_eq!(s.dropped_frames(), 1);
    // structured value but no envelope
    s.feed_bytes(b"7:[1,2,3]");
    s.pump();
    assert_eq!(s.dropped_frames(), 2);
    // unknown destination
    s.feed_bytes(&encode_message(&typed("root", "nobody-9", "pause")));
    s.pump();
    assert_eq!(s.dropped_frames(), 3);
    // a delivered message is not dropped, reply or not
    s.feed_bytes(&encode_message(&typed("root", "debugger-1", "pause")));
    s.feed_bytes(&encode_message(&typed("root", "debugger-1", "noSuchRequest")));
    s.pump();
    assert_eq!(s.dropped_frames(), 3);
    assert_eq!(s.state, SessionState::Active);
}

#[test]
fn partial_input_is_visible_for_truncation_reports() {
    let mut s = two_actor_session();
    assert!(!s.has_partial_input());
    s.feed_bytes(b"11:hello");
    s.pump();
    assert!(s.has_partial_input());
    s.feed_bytes(b" world");
    s.pump();
    assert!(!s.has_partial_input());
}

#[test]
fn eager_ids_are_distinct() {
    let mut s = Session::new();
    let ids = s.init_actors();
    assert_eq!(ids.len(), 4);
    for a in 0..4 {
        for b in (a + 1)..4 {
            assert_ne!(ids[a], ids[b]);
        }
    }
    assert_eq!(s.registry.len(), 4);
    for id in &ids {
        assert!(s.registry.lookup(id).is_some());
    }
}

#[test]
fn two_created_tabs_are_both_live() {
    let mut s = Session::new();
    let t1 = s.create_tab("https://one.test".to_string());
    let t2 = s.create_tab("https://two.test".to_string());
    assert_ne!(t1, t2);
    assert_eq!(s.registry.len(), 2);
    assert_eq!(s.registry.lookup(&t1).unwrap().type_tag(), "tab");
    assert_eq!(s.registry.lookup(&t2).unwrap().type_tag(), "tab");
}

#[test]
fn queued_notifications_flush_to_the_wire() {
    let mut s = Session::new();
    let mut net = NetworkActor::new("network-1".to_string());
    // a subscribed listener, then one recorded request, queues one notice
    let sub = Message {
        from: "listener-1".to_string(),
        to: Some("network-1".to_string()),
        body: vec![("type".to_string(), JsonValue::Str(chars("startListeners")))],
    };
    let _ = net.handle_message(sub);
    net.add_request(debugbus::actors::network::NetworkRequest::new(
        "req1".to_string(),
        "https://example.test".to_string(),
        "GET".to_string(),
        vec![],
    ));
    assert!(s.registry.register(AnyActor::Network(net)).is_ok());
    s.flush_notifications();
    let out = s.take_outbound();
    assert_eq!(out.len(), 1);
    let notice = decode_reply(&out[0]);
    assert_eq!(notice.from, "network-1");
    assert_eq!(notice.to, Some("listener-1".to_string()));
    assert_eq!(notice.body[0].1, JsonValue::Str(chars("requestStarted")));
    // the queue is drained: a second flush moves nothing
    s.flush_notifications();
    assert!(s.take_outbound().is_empty());
}

#[test]
fn fresh_ids_carry_their_prefix() {
    let a = fresh_actor_id("tab");
    let b = fresh_actor_id("tab");
    assert_eq!(a.len(), 3 + 37);
    assert!(a.starts_with("tab-"));
    assert_ne!(a, b);
}
