use debugbus::actors::console::{ConsoleActor, ConsoleMessage};
use debugbus::actors::debugger::{Breakpoint, DebuggerActor, Location};
use debugbus::actors::network::{NetworkActor, NetworkRequest};
use debugbus::actors::{RootActor, TabActor};
use debugbus::json::JsonValue;
use debugbus::message::Message;

fn chars(s: &str) -> Vec<char> {
    s.chars().collect()
}

fn typed(from: &str, ty: &str) -> Message {
    Message {
        from: from.to_string(),
        to: Some("whoever".to_string()),
        body: vec![("type".to_string(), JsonValue::Str(chars(ty)))],
    }
}

fn body_get<'a>(m: &'a Message, key: &str) -> &'a JsonValue {
    &m.body.iter().find(|(k, _)| k == key).expect("field must be present").1
}

#[test]
fn console_buffers_messages() {
    let mut c = ConsoleActor::new("console-1".to_string());
    assert!(c.get_messages().is_empty());
    c.add_message(ConsoleMessage {
        level: "warn".to_string(),
        text: "careful".to_string(),
        timestamp: 12,
        filename: Some("a.js".to_string()),
        line_number: Some(3),
        column_number: None,
    });
    assert_eq!(c.get_messages().len(), 1);
    assert_eq!(c.get_messages()[0].text, "careful");
    assert_eq!(c.name(), "console-1");
    assert_eq!(c.type_tag(), "console");
}

#[test]
fn console_returns_cached_messages() {
    let mut c = ConsoleActor::new("console-1".to_string());
    c.add_message(ConsoleMessage {
        level: "log".to_string(),
        text: "hi".to_string(),
        timestamp: 5,
        filename: None,
        line_number: None,
        column_number: None,
    });
    let reply = c.handle_message(typed("client", "getCachedMessages")).expect("a reply is owed");
    assert_eq!(reply.from, "console-1");
    assert_eq!(reply.to, Some("client".to_string()));
    match body_get(&reply, "messages") {
        JsonValue::Arr(items) => assert_eq!(items.len(), 1),
        _ => panic!("messages must be a list"),
    }
}

#[test]
fn console_evaluates_to_undefined() {
    let mut c = ConsoleActor::new("console-1".to_string());
    let mut msg = typed("client", "evaluateJS");
    msg.body.push(("expr".to_string(), JsonValue::Str(chars("1+1"))));
    let reply = c.handle_message(msg).expect("a reply is owed");
    match body_get(&reply, "result") {
        JsonValue::Obj(ms) => {
            assert_eq!(ms[0].1, JsonValue::Str(chars("undefined")));
        },
        _ => panic!("the result must be an object"),
    }
    // without an expression there is nothing to answer
    assert!(c.handle_message(typed("client", "evaluateJS")).is_none());
}

#[test]
fn debugger_pauses_and_resumes() {
    let mut d = DebuggerActor::new("debugger-1".to_string());
    let reply = d.handle_message(typed("client", "pause")).expect("a reply is owed");
    assert_eq!(body_get(&reply, "type"), &JsonValue::Str(chars("paused")));
    assert!(d.paused);
    let reply = d.handle_message(typed("client", "resume")).expect("a reply is owed");
    assert_eq!(body_get(&reply, "type"), &JsonValue::Str(chars("resumed")));
    assert!(!d.paused);
}

fn breakpoint(id: &str, line: u32) -> Breakpoint {
    Breakpoint {
        id: id.to_string(),
        location: Location { line, column: 1, source_id: "main.js".to_string() },
        condition: None,
        enabled: true,
    }
}

#[test]
fn debugger_manages_breakpoints() {
    let mut d = DebuggerActor::new("debugger-1".to_string());
    d.add_breakpoint(breakpoint("bp1", 10));
    d.add_breakpoint(breakpoint("bp2", 20));
    d.add_breakpoint(breakpoint("bp1", 30));
    assert_eq!(d.breakpoints.len(), 2);
    let taken = d.remove_breakpoint("bp1").expect("bp1 is live");
    assert_eq!(taken.location.line, 30);
    assert!(d.remove_breakpoint("bp1").is_none());
    assert_eq!(d.breakpoints.len(), 1);
    d.set_paused(true, Some(Location { line: 1, column: 2, source_id: "x".to_string() }));
    assert!(d.paused);
}

#[test]
fn debugger_sets_breakpoint_from_the_wire() {
    let mut d = DebuggerActor::new("debugger-1".to_string());
    let bp = JsonValue::Obj(vec![
        (chars("id"), JsonValue::Str(chars("bp1"))),
        (
            chars("location"),
            JsonValue::Obj(vec![
                (chars("line"), JsonValue::UInt(10)),
                (chars("column"), JsonValue::UInt(1)),
                (chars("source_id"), JsonValue::Str(chars("main.js"))),
            ]),
        ),
        (chars("condition"), JsonValue::Null),
        (chars("enabled"), JsonValue::Bool(true)),
    ]);
    let mut msg = typed("client", "setBreakpoint");
    msg.body.push(("breakpoint".to_string(), bp));
    let reply = d.handle_message(msg).expect("a reply is owed");
    assert_eq!(body_get(&reply, "type"), &JsonValue::Str(chars("breakpointAdded")));
    assert_eq!(d.breakpoints.len(), 1);
    assert_eq!(d.breakpoints[0].id, "bp1");

    let mut rm = typed("client", "removeBreakpoint");
    rm.body.push(("id".to_string(), JsonValue::Str(chars("bp1"))));
    let reply = d.handle_message(rm).expect("a reply is owed");
    assert_eq!(body_get(&reply, "type"), &JsonValue::Str(chars("breakpointRemoved")));
    assert!(d.breakpoints.is_empty());
}

#[test]
fn network_records_requests_and_notifies_listeners() {
    let mut n = NetworkActor::new("network-1".to_string());
    let started = n.handle_message(typed("listener-1", "startListeners")).expect("a reply is owed");
    assert_eq!(body_get(&started, "type"), &JsonValue::Str(chars("listenersStarted")));

    let req = NetworkRequest::new(
        "req1".to_string(),
        "https://example.test/data".to_string(),
        "GET".to_string(),
        vec![("Accept".to_string(), "application/json".to_string())],
    );
    assert!(req.status.is_none());
    n.add_request(req);
    assert_eq!(n.outbound.len(), 1);
    assert_eq!(n.outbound[0].to, Some("listener-1".to_string()));
    assert_eq!(n.outbound[0].body[0].1, JsonValue::Str(chars("requestStarted")));

    n.update_request("req1", 200, "OK".to_string(), vec![], Some(vec![1, 2]));
    assert_eq!(n.outbound.len(), 2);
    assert_eq!(n.outbound[1].body[0].1, JsonValue::Str(chars("requestFinished")));
    assert_eq!(n.requests[0].status, Some(200));
    assert_eq!(n.requests[0].response_body, Some(vec![1, 2]));
    assert!(n.requests[0].duration.is_some());

    // an unknown id changes nothing
    n.update_request("ghost", 404, "gone".to_string(), vec![], None);
    assert_eq!(n.outbound.len(), 2);
}

#[test]
fn network_serves_request_content() {
    let mut n = NetworkActor::new("network-1".to_string());
    let req = NetworkRequest::new(
        "req1".to_string(),
        "https://example.test".to_string(),
        "GET".to_string(),
        vec![],
    );
    n.add_request(req);
    let mut msg = typed("client", "getRequestContent");
    msg.body.push(("id".to_string(), JsonValue::Str(chars("req1"))));
    let reply = n.handle_message(msg).expect("a reply is owed");
    assert_eq!(body_get(&reply, "type"), &JsonValue::Str(chars("requestContent")));
    assert_eq!(body_get(&reply, "id"), &JsonValue::Str(chars("req1")));

    let mut ghost = typed("client", "getRequestContent");
    ghost.body.push(("id".to_string(), JsonValue::Str(chars("ghost"))));
    assert!(n.handle_message(ghost).is_none());
}

#[test]
fn network_hands_over_queued_notices() {
    let mut n = NetworkActor::new("network-1".to_string());
    let _ = n.handle_message(typed("listener-1", "startListeners"));
    n.add_request(NetworkRequest::new(
        "req1".to_string(),
        "https://example.test".to_string(),
        "GET".to_string(),
        vec![],
    ));
    assert_eq!(n.outbound.len(), 1);
    let taken = n.take_outbound();
    assert_eq!(taken.len(), 1);
    assert_eq!(taken[0].to, Some("listener-1".to_string()));
    assert!(n.outbound.is_empty());
    assert_eq!(n.listeners, vec!["listener-1".to_string()]);
}

#[test]
fn network_stops_listening() {
    let mut n = NetworkActor::new("network-1".to_string());
    let _ = n.handle_message(typed("listener-1", "startListeners"));
    let _ = n.handle_message(typed("listener-2", "startListeners"));
    let stopped = n.handle_message(typed("listener-1", "stopListeners")).expect("a reply is owed");
    assert_eq!(body_get(&stopped, "type"), &JsonValue::Str(chars("listenersStopped")));
    assert_eq!(n.listeners, vec!["listener-2".to_string()]);
}

#[test]
fn root_lists_tabs() {
    let mut r = RootActor::new();
    assert_eq!(r.name(), "root");
    assert_eq!(r.type_tag(), "root");
    let reply = r.handle_message(typed("client", "listTabs")).expect("a reply is owed");
    assert_eq!(body_get(&reply, "type"), &JsonValue::Str(chars("tabList")));
    assert_eq!(body_get(&reply, "selected"), &JsonValue::UInt(0));
    assert!(r.handle_message(typed("client", "somethingElse")).is_none());
}

#[test]
fn tab_attaches_with_a_thread_actor() {
    let mut t = TabActor::new(
        "tab-1".to_string(),
        "New Tab".to_string(),
        "https://example.test".to_string(),
    );
    assert_eq!(t.type_tag(), "tab");
    let reply = t.handle_message(typed("client", "attach")).expect("a reply is owed");
    assert_eq!(body_get(&reply, "type"), &JsonValue::Str(chars("attached")));
    assert_eq!(body_get(&reply, "threadActor"), &JsonValue::Str(chars("tab-1-thread")));
}
