//! The console capability: buffers log entries and answers console
//! requests.

use vstd::prelude::*;
use crate::json::{JsonValue, JsonVal, jv, jv_seq, lemma_jv_seq_push};
use crate::message::{
    Message,
    MsgView,
    find_key,
    opt_view,
    body2,
    body_get,
    new_members,
    push_member,
    str_value,
    chars_eq,
    chars_of_str,
};

verus! {

/// One buffered console entry.
#[derive(Debug)]
pub struct ConsoleMessage {
    pub level: String,
    pub text: String,
    pub timestamp: u64,
    pub filename: Option<String>,
    pub line_number: Option<u32>,
    pub column_number: Option<u32>,
}

/// Mathematical model of a console entry.
pub struct ConsoleMessageV {
    pub level: Seq<char>,
    pub text: Seq<char>,
    pub timestamp: u64,
    pub filename: Option<Seq<char>>,
    pub line_number: Option<u32>,
    pub column_number: Option<u32>,
}

impl View for ConsoleMessage {
    type V = ConsoleMessageV;

    open spec fn view(&self) -> ConsoleMessageV {
        ConsoleMessageV {
            level: self.level@,
            text: self.text@,
            timestamp: self.timestamp,
            filename: match self.filename {
                Some(f) => Some(f@),
                None => None,
            },
            line_number: self.line_number,
            column_number: self.column_number,
        }
    }
}

pub open spec fn opt_str_value(o: Option<Seq<char>>) -> JsonVal {
    match o {
        Some(s) => JsonVal::Str(s),
        None => JsonVal::Null,
    }
}

pub open spec fn opt_u32_value(o: Option<u32>) -> JsonVal {
    match o {
        Some(n) => JsonVal::UInt(n as u64),
        None => JsonVal::Null,
    }
}

/// Wire object of one console entry; absent optional fields appear as
/// null.
pub open spec fn cm_value(c: ConsoleMessageV) -> JsonVal {
    JsonVal::Obj(
        seq![
            ("level"@, JsonVal::Str(c.level)),
            ("text"@, JsonVal::Str(c.text)),
            ("timestamp"@, JsonVal::UInt(c.timestamp)),
            ("filename"@, opt_str_value(c.filename)),
            ("line_number"@, opt_u32_value(c.line_number)),
            ("column_number"@, opt_u32_value(c.column_number)),
        ],
    )
}

/// Wire objects of a run of console entries, oldest first.
pub open spec fn cm_values(s: Seq<ConsoleMessage>) -> Seq<JsonVal>
    decreases s,
{
    if s.len() == 0 {
        Seq::empty()
    } else {
        cm_values(s.drop_last()).push(cm_value(s.last()@))
    }
}

fn console_message_to_value(c: &ConsoleMessage) -> (r: JsonValue)
    ensures
        jv(r) == cm_value(c@),
{
    let mut ms = new_members();
    push_member(&mut ms, "level", str_value(self_str(&c.level)));
    push_member(&mut ms, "text", str_value(self_str(&c.text)));
    push_member(&mut ms, "timestamp", JsonValue::UInt(c.timestamp));
    match &c.filename {
        Some(f) => push_member(&mut ms, "filename", str_value(self_str(f))),
        None => push_member(&mut ms, "filename", JsonValue::Null),
    }
    match c.line_number {
        Some(n) => push_member(&mut ms, "line_number", JsonValue::UInt(n as u64)),
        None => push_member(&mut ms, "line_number", JsonValue::Null),
    }
    match c.column_number {
        Some(n) => push_member(&mut ms, "column_number", JsonValue::UInt(n as u64)),
        None => push_member(&mut ms, "column_number", JsonValue::Null),
    }
    proof {
        assert(crate::json::jv_members(ms@) =~= match cm_value(c@) {
            JsonVal::Obj(x) => x,
            _ => Seq::empty(),
        });
    }
    JsonValue::Obj(ms)
}

fn self_str(s: &String) -> (r: &str)
    ensures
        r@ == s@,
{
    s.as_str()
}

/// The console actor: a name and its buffered entries.
#[derive(Debug)]
pub struct ConsoleActor {
    pub name: String,
    pub messages: Vec<ConsoleMessage>,
}

/// Mathematical model of a console actor.
pub struct ConsoleActorV {
    pub name: Seq<char>,
    pub messages: Seq<ConsoleMessage>,
}

impl View for ConsoleActor {
    type V = ConsoleActorV;

    open spec fn view(&self) -> ConsoleActorV {
        ConsoleActorV { name: self.name@, messages: self.messages@ }
    }
}

/// What the console actor does with one inbound message: its next state
/// and its reply, if any.
pub open spec fn spec_console_handle(c: ConsoleActorV, m: MsgView) -> (ConsoleActorV, Option<
    MsgView,
>) {
    match find_key(m.body, "type"@) {
        Some(JsonVal::Str(t)) => if t == "startListeners"@ {
            (
                c,
                Some(
                    MsgView {
                        from: c.name,
                        to: Some(m.from),
                        body: seq![
                            ("type"@, JsonVal::Str("listenersStarted"@)),
                            ("nativeConsoleAPI"@, JsonVal::Bool(true)),
                        ],
                    },
                ),
            )
        } else if t == "getCachedMessages"@ {
            (
                c,
                Some(
                    MsgView {
                        from: c.name,
                        to: Some(m.from),
                        body: seq![
                            ("type"@, JsonVal::Str("cachedMessages"@)),
                            ("messages"@, JsonVal::Arr(cm_values(c.messages))),
                        ],
                    },
                ),
            )
        } else if t == "evaluateJS"@ {
            match find_key(m.body, "expr"@) {
                Some(JsonVal::Str(_)) => (
                    c,
                    Some(
                        MsgView {
                            from: c.name,
                            to: Some(m.from),
                            body: seq![
                                ("type"@, JsonVal::Str("evaluationResult"@)),
                                ("result"@, undefined_value()),
                            ],
                        },
                    ),
                ),
                _ => (c, None),
            }
        } else {
            (c, None)
        },
        _ => (c, None),
    }
}

/// The wire object for a value the evaluator does not produce.
pub open spec fn undefined_value() -> JsonVal {
    JsonVal::Obj(seq![("type"@, JsonVal::Str("undefined"@)), ("value"@, JsonVal::Null)])
}

impl ConsoleActor {
    pub fn new(name: String) -> (r: ConsoleActor)
        ensures
            r@.name == name@,
            r@.messages == Seq::<ConsoleMessage>::empty(),
    {
        let r = ConsoleActor { name, messages: Vec::new() };
        proof {
            assert(r@.messages =~= Seq::<ConsoleMessage>::empty());
        }
        r
    }

    /// Buffer one entry.
    pub fn add_message(&mut self, message: ConsoleMessage)
        ensures
            final(self)@.name == old(self)@.name,
            final(self)@.messages == old(self)@.messages.push(message),
    {
        self.messages.push(message);
    }

    /// The buffered entries, oldest first.
    pub fn get_messages(&self) -> (r: &Vec<ConsoleMessage>)
        ensures
            r@ == self@.messages,
    {
        &self.messages
    }

    pub fn name(&self) -> (r: &String)
        ensures
            r@ == self@.name,
    {
        &self.name
    }

    pub fn type_tag(&self) -> (r: &'static str)
        ensures
            r@ == "console"@,
    {
        "console"
    }

    /// Answer one inbound message addressed to this actor.
    #[verifier::loop_isolation(false)]
    #[verifier::rlimit(60)]
    pub fn handle_message(&mut self, msg: Message) -> (r: Option<Message>)
        ensures
            ({
                let (s2, rv) = spec_console_handle(old(self)@, msg@);
                final(self)@ == s2 && opt_view(r) == rv
            }),
    {
        let t = match body_get(&msg.body, "type") {
            Some(JsonValue::Str(tc)) => tc,
            _ => {
                return None;
            },
        };
        if chars_eq(&t, &chars_of_str("startListeners")) {
            let body = body2(
                "type",
                str_value("listenersStarted"),
                "nativeConsoleAPI",
                JsonValue::Bool(true),
            );
            Some(Message { from: self.name.clone(), to: Some(msg.from), body })
        } else if chars_eq(&t, &chars_of_str("getCachedMessages")) {
            let n = self.messages.len();
            let mut vals: Vec<JsonValue> = Vec::new();
            let mut i: usize = 0;
            while i < n
                invariant
                    n == self.messages@.len(),
                    i <= n,
                    jv_seq(vals@) == cm_values(self.messages@.take(i as int)),
                decreases n - i,
            {
                let v = console_message_to_value(&self.messages[i]);
                let ghost gv = jv(v);
                let ghost prev = vals@;
                vals.push(v);
                proof {
                    lemma_jv_seq_push(prev, gv);
                    assert(jv_seq(prev.push(v)) == jv_seq(prev).push(gv));
                    let tk = self.messages@.take(i + 1);
                    assert(tk.drop_last() =~= self.messages@.take(i as int));
                    assert(tk.last() == self.messages@[i as int]);
                }
                i = i + 1;
            }
            proof {
                assert(self.messages@.take(n as int) =~= self.messages@);
            }
            let body = body2("type", str_value("cachedMessages"), "messages", JsonValue::Arr(vals));
            Some(Message { from: self.name.clone(), to: Some(msg.from), body })
        } else if chars_eq(&t, &chars_of_str("evaluateJS")) {
            match body_get(&msg.body, "expr") {
                Some(JsonValue::Str(expr)) => {
                    let result = self.evaluate_js(&string_from_vec(&expr));
                    let body = body2("type", str_value("evaluationResult"), "result", result);
                    Some(Message { from: self.name.clone(), to: Some(msg.from), body })
                },
                _ => None,
            }
        } else {
            None
        }
    }

    /// What evaluating an expression yields; evaluation is an external
    /// collaborator, so every expression answers as undefined here.
    fn evaluate_js(&self, _expr: &str) -> (r: JsonValue)
        ensures
            jv(r) == undefined_value(),
    {
        let mut ms = new_members();
        push_member(&mut ms, "type", str_value("undefined"));
        push_member(&mut ms, "value", JsonValue::Null);
        proof {
            assert(crate::json::jv_members(ms@) =~= match undefined_value() {
                JsonVal::Obj(x) => x,
                _ => Seq::empty(),
            });
        }
        JsonValue::Obj(ms)
    }
}

fn string_from_vec(cs: &Vec<char>) -> (r: String)
    ensures
        r@ == cs@,
{
    crate::message::string_from_chars(cs)
}

} // verus!
