//! The addressable capabilities of the runtime.
//!
//! Every actor exposes the same narrow interface: a stable id, a stable
//! type tag, and a handler that takes one inbound message and yields at
//! most one reply.  The set of capabilities is closed, so the runtime
//! dispatches over one enum rather than over downcasts.

pub mod console;
pub mod debugger;
pub mod network;

use vstd::prelude::*;
use crate::json::{JsonValue, JsonVal, jv};
use crate::message::{
    Message,
    MsgView,
    find_key,
    opt_view,
    body2,
    body_get,
    str_value,
    chars_eq,
    chars_of_str,
};
use crate::actors::console::{ConsoleActor, spec_console_handle};
use crate::actors::debugger::{DebuggerActor, spec_debugger_handle};
use crate::actors::network::{NetworkActor, spec_network_handle};

verus! {

/// The root actor: answers session-level requests addressed to nobody in
/// particular.
#[derive(Debug)]
pub struct RootActor {
    pub name: String,
}

pub struct RootActorV {
    pub name: Seq<char>,
}

impl View for RootActor {
    type V = RootActorV;

    open spec fn view(&self) -> RootActorV {
        RootActorV { name: self.name@ }
    }
}

/// What the root actor does with one inbound message.
pub open spec fn spec_root_handle(c: RootActorV, m: MsgView) -> (RootActorV, Option<MsgView>) {
    match find_key(m.body, "type"@) {
        Some(JsonVal::Str(t)) => if t == "listTabs"@ {
            (
                c,
                Some(
                    MsgView {
                        from: c.name,
                        to: None,
                        body: seq![
                            ("type"@, JsonVal::Str("tabList"@)),
                            ("tabs"@, JsonVal::Arr(Seq::empty())),
                            ("selected"@, JsonVal::UInt(0)),
                        ],
                    },
                ),
            )
        } else {
            (c, None)
        },
        _ => (c, None),
    }
}

impl RootActor {
    pub fn new() -> (r: RootActor)
        ensures
            r@.name == "root"@,
    {
        RootActor { name: root_name() }
    }

    pub fn name(&self) -> (r: &String)
        ensures
            r@ == self@.name,
    {
        &self.name
    }

    pub fn type_tag(&self) -> (r: &'static str)
        ensures
            r@ == "root"@,
    {
        "root"
    }

    /// Answer one inbound message addressed to the root actor.
    pub fn handle_message(&mut self, msg: Message) -> (r: Option<Message>)
        ensures
            ({
                let (s2, rv) = spec_root_handle(old(self)@, msg@);
                final(self)@ == s2 && opt_view(r) == rv
            }),
    {
        let t = match body_get(&msg.body, "type") {
            Some(JsonValue::Str(tc)) => tc,
            _ => {
                return None;
            },
        };
        if chars_eq(&t, &chars_of_str("listTabs")) {
            let empty: Vec<JsonValue> = Vec::new();
            let ghost ev = empty@;
            let tabs = JsonValue::Arr(empty);
            proof {
                assert(ev =~= Seq::<JsonValue>::empty());
                assert(crate::json::jv_seq(ev) =~= Seq::<JsonVal>::empty());
                assert(jv(tabs) == JsonVal::Arr(Seq::<JsonVal>::empty()));
            }
            let mut body = body2("type", str_value("tabList"), "tabs", tabs);
            let ghost prev = body@;
            body.push((new_string("selected"), JsonValue::UInt(0)));
            proof {
                assert(body@.drop_last() =~= prev);
                assert(crate::message::body_view(body@) =~= seq![
                    ("type"@, JsonVal::Str("tabList"@)),
                    ("tabs"@, JsonVal::Arr(Seq::<JsonVal>::empty())),
                    ("selected"@, JsonVal::UInt(0)),
                ]);
            }
            Some(Message { from: self.name.clone(), to: None, body })
        } else {
            None
        }
    }
}

fn root_name() -> (r: String)
    ensures
        r@ == "root"@,
{
    new_string("root")
}

fn new_string(s: &str) -> (r: String)
    ensures
        r@ == s@,
{
    s.to_owned()
}

/// A tab actor: stands for one inspectable page.
#[derive(Debug)]
pub struct TabActor {
    pub name: String,
    pub title: String,
    pub url: String,
}

pub struct TabActorV {
    pub name: Seq<char>,
    pub title: Seq<char>,
    pub url: Seq<char>,
}

impl View for TabActor {
    type V = TabActorV;

    open spec fn view(&self) -> TabActorV {
        TabActorV { name: self.name@, title: self.title@, url: self.url@ }
    }
}

/// What a tab actor does with one inbound message: an `attach` request is
/// answered with the name of the tab's thread actor.
pub open spec fn spec_tab_handle(c: TabActorV, m: MsgView) -> (TabActorV, Option<MsgView>) {
    match find_key(m.body, "type"@) {
        Some(JsonVal::Str(t)) => if t == "attach"@ {
            (
                c,
                Some(
                    MsgView {
                        from: c.name,
                        to: None,
                        body: seq![
                            ("type"@, JsonVal::Str("attached"@)),
                            ("threadActor"@, JsonVal::Str(c.name + "-thread"@)),
                        ],
                    },
                ),
            )
        } else {
            (c, None)
        },
        _ => (c, None),
    }
}

impl TabActor {
    pub fn new(name: String, title: String, url: String) -> (r: TabActor)
        ensures
            r@.name == name@,
            r@.title == title@,
            r@.url == url@,
    {
        TabActor { name, title, url }
    }

    pub fn name(&self) -> (r: &String)
        ensures
            r@ == self@.name,
    {
        &self.name
    }

    pub fn type_tag(&self) -> (r: &'static str)
        ensures
            r@ == "tab"@,
    {
        "tab"
    }

    /// Answer one inbound message addressed to this tab.
    pub fn handle_message(&mut self, msg: Message) -> (r: Option<Message>)
        ensures
            ({
                let (s2, rv) = spec_tab_handle(old(self)@, msg@);
                final(self)@ == s2 && opt_view(r) == rv
            }),
    {
        let t = match body_get(&msg.body, "type") {
            Some(JsonValue::Str(tc)) => tc,
            _ => {
                return None;
            },
        };
        if chars_eq(&t, &chars_of_str("attach")) {
            let thread = vstd::string::StringExecFns::concat(self.name.clone(), "-thread");
            let body = body2(
                "type",
                str_value("attached"),
                "threadActor",
                JsonValue::Str(crate::message::chars_of_str(thread.as_str())),
            );
            Some(Message { from: self.name.clone(), to: None, body })
        } else {
            None
        }
    }
}

/// One live actor of any capability.
#[derive(Debug)]
pub enum AnyActor {
    Root(RootActor),
    Tab(TabActor),
    Console(ConsoleActor),
    Debugger(DebuggerActor),
    Network(NetworkActor),
}

/// Mathematical model of a live actor.
pub enum AnyActorV {
    Root(RootActorV),
    Tab(TabActorV),
    Console(console::ConsoleActorV),
    Debugger(debugger::DebuggerActorV),
    Network(network::NetworkActorV),
}

impl View for AnyActor {
    type V = AnyActorV;

    open spec fn view(&self) -> AnyActorV {
        match self {
            AnyActor::Root(a) => AnyActorV::Root(a@),
            AnyActor::Tab(a) => AnyActorV::Tab(a@),
            AnyActor::Console(a) => AnyActorV::Console(a@),
            AnyActor::Debugger(a) => AnyActorV::Debugger(a@),
            AnyActor::Network(a) => AnyActorV::Network(a@),
        }
    }
}

/// The unsolicited notifications an actor has queued for the outbound
/// path: only the network capability queues any.
pub open spec fn actor_notices(a: AnyActorV) -> Seq<MsgView> {
    match a {
        AnyActorV::Network(x) => x.outbound,
        _ => Seq::empty(),
    }
}

/// The same actor with its notification queue emptied.
pub open spec fn drained_actor(a: AnyActorV) -> AnyActorV {
    match a {
        AnyActorV::Network(x) => AnyActorV::Network(
            network::NetworkActorV { outbound: Seq::empty(), ..x },
        ),
        other => other,
    }
}

/// The id of an actor.
pub open spec fn actor_id(a: AnyActorV) -> Seq<char> {
    match a {
        AnyActorV::Root(x) => x.name,
        AnyActorV::Tab(x) => x.name,
        AnyActorV::Console(x) => x.name,
        AnyActorV::Debugger(x) => x.name,
        AnyActorV::Network(x) => x.name,
    }
}

/// What any actor does with one inbound message.
pub open spec fn spec_handle(a: AnyActorV, m: MsgView) -> (AnyActorV, Option<MsgView>) {
    match a {
        AnyActorV::Root(x) => {
            let (s2, r) = spec_root_handle(x, m);
            (AnyActorV::Root(s2), r)
        },
        AnyActorV::Tab(x) => {
            let (s2, r) = spec_tab_handle(x, m);
            (AnyActorV::Tab(s2), r)
        },
        AnyActorV::Console(x) => {
            let (s2, r) = spec_console_handle(x, m);
            (AnyActorV::Console(s2), r)
        },
        AnyActorV::Debugger(x) => {
            let (s2, r) = spec_debugger_handle(x, m);
            (AnyActorV::Debugger(s2), r)
        },
        AnyActorV::Network(x) => {
            let (s2, r) = spec_network_handle(x, m);
            (AnyActorV::Network(s2), r)
        },
    }
}

impl AnyActor {
    /// The actor's id.
    pub fn name(&self) -> (r: &String)
        ensures
            r@ == actor_id(self@),
    {
        match self {
            AnyActor::Root(a) => a.name(),
            AnyActor::Tab(a) => a.name(),
            AnyActor::Console(a) => a.name(),
            AnyActor::Debugger(a) => a.name(),
            AnyActor::Network(a) => a.name(),
        }
    }

    /// The actor's capability tag.
    pub fn type_tag(&self) -> (r: &'static str)
        ensures
            r@ == match self@ {
                AnyActorV::Root(_) => "root"@,
                AnyActorV::Tab(_) => "tab"@,
                AnyActorV::Console(_) => "console"@,
                AnyActorV::Debugger(_) => "debugger"@,
                AnyActorV::Network(_) => "network"@,
            },
    {
        match self {
            AnyActor::Root(a) => a.type_tag(),
            AnyActor::Tab(a) => a.type_tag(),
            AnyActor::Console(a) => a.type_tag(),
            AnyActor::Debugger(a) => a.type_tag(),
            AnyActor::Network(a) => a.type_tag(),
        }
    }

    /// Drain the actor's queued notifications, oldest first; an actor
    /// that queues none hands back nothing and stands unchanged.
    pub fn take_notices(&mut self) -> (r: Vec<Message>)
        ensures
            crate::actors::network::msg_seq_view(r@) == actor_notices(old(self)@),
            final(self)@ == drained_actor(old(self)@),
    {
        match self {
            AnyActor::Network(x) => x.take_outbound(),
            _ => {
                let r: Vec<Message> = Vec::new();
                proof {
                    assert(crate::actors::network::msg_seq_view(r@) =~= Seq::<
                        MsgView,
                    >::empty());
                }
                r
            },
        }
    }

    /// Hand one inbound message to the actor; at most one reply comes
    /// back.
    pub fn handle_message(&mut self, msg: Message) -> (r: Option<Message>)
        ensures
            ({
                let (s2, rv) = spec_handle(old(self)@, msg@);
                final(self)@ == s2 && opt_view(r) == rv
            }),
    {
        match self {
            AnyActor::Root(a) => a.handle_message(msg),
            AnyActor::Tab(a) => a.handle_message(msg),
            AnyActor::Console(a) => a.handle_message(msg),
            AnyActor::Debugger(a) => a.handle_message(msg),
            AnyActor::Network(a) => a.handle_message(msg),
        }
    }
}

} // verus!
