//! The execution-control capability: breakpoints and pause state.

use vstd::prelude::*;
use crate::json::{JsonValue, JsonVal, jv, jv_seq, lemma_jv_seq_push};
use crate::message::{
    Message,
    MsgView,
    find_key,
    opt_view,
    body2,
    body_get,
    find_key_exec,
    new_members,
    push_member,
    str_value,
    chars_eq,
    chars_of_str,
    string_from_chars,
};

verus! {

/// A source position.
#[derive(Debug)]
pub struct Location {
    pub line: u32,
    pub column: u32,
    pub source_id: String,
}

pub struct LocationV {
    pub line: u32,
    pub column: u32,
    pub source_id: Seq<char>,
}

impl View for Location {
    type V = LocationV;

    open spec fn view(&self) -> LocationV {
        LocationV { line: self.line, column: self.column, source_id: self.source_id@ }
    }
}

/// One breakpoint.
#[derive(Debug)]
pub struct Breakpoint {
    pub id: String,
    pub location: Location,
    pub condition: Option<String>,
    pub enabled: bool,
}

pub struct BreakpointV {
    pub id: Seq<char>,
    pub location: LocationV,
    pub condition: Option<Seq<char>>,
    pub enabled: bool,
}

impl View for Breakpoint {
    type V = BreakpointV;

    open spec fn view(&self) -> BreakpointV {
        BreakpointV {
            id: self.id@,
            location: self.location@,
            condition: match self.condition {
                Some(c) => Some(c@),
                None => None,
            },
            enabled: self.enabled,
        }
    }
}

/// The execution-control actor.
#[derive(Debug)]
pub struct DebuggerActor {
    pub name: String,
    pub breakpoints: Vec<Breakpoint>,
    pub paused: bool,
    pub current_frame: Option<Location>,
}

pub struct DebuggerActorV {
    pub name: Seq<char>,
    pub breakpoints: Seq<BreakpointV>,
    pub paused: bool,
    pub current_frame: Option<LocationV>,
}

pub open spec fn bp_seq_view(s: Seq<Breakpoint>) -> Seq<BreakpointV>
    decreases s,
{
    if s.len() == 0 {
        Seq::empty()
    } else {
        bp_seq_view(s.drop_last()).push(s.last()@)
    }
}

impl View for DebuggerActor {
    type V = DebuggerActorV;

    open spec fn view(&self) -> DebuggerActorV {
        DebuggerActorV {
            name: self.name@,
            breakpoints: bp_seq_view(self.breakpoints@),
            paused: self.paused,
            current_frame: match self.current_frame {
                Some(l) => Some(l@),
                None => None,
            },
        }
    }
}

/// Breakpoints with the given id removed.
pub open spec fn bp_drop(s: Seq<BreakpointV>, id: Seq<char>) -> Seq<BreakpointV>
    decreases s.len(),
{
    if s.len() == 0 {
        Seq::empty()
    } else {
        let rest = bp_drop(s.drop_last(), id);
        if s.last().id == id {
            rest
        } else {
            rest.push(s.last())
        }
    }
}

/// First breakpoint under the given id.
pub open spec fn bp_find(s: Seq<BreakpointV>, id: Seq<char>) -> Option<BreakpointV>
    decreases s.len(),
{
    if s.len() == 0 {
        None
    } else if s[0].id == id {
        Some(s[0])
    } else {
        bp_find(s.drop_first(), id)
    }
}

pub open spec fn opt_str_val(o: Option<Seq<char>>) -> JsonVal {
    match o {
        Some(s) => JsonVal::Str(s),
        None => JsonVal::Null,
    }
}

/// Wire object of a source position.
pub open spec fn loc_value(l: LocationV) -> JsonVal {
    JsonVal::Obj(
        seq![
            ("line"@, JsonVal::UInt(l.line as u64)),
            ("column"@, JsonVal::UInt(l.column as u64)),
            ("source_id"@, JsonVal::Str(l.source_id)),
        ],
    )
}

/// Wire object of a breakpoint.
pub open spec fn bp_value(b: BreakpointV) -> JsonVal {
    JsonVal::Obj(
        seq![
            ("id"@, JsonVal::Str(b.id)),
            ("location"@, loc_value(b.location)),
            ("condition"@, opt_str_val(b.condition)),
            ("enabled"@, JsonVal::Bool(b.enabled)),
        ],
    )
}

pub open spec fn bp_values(s: Seq<BreakpointV>) -> Seq<JsonVal>
    decreases s.len(),
{
    if s.len() == 0 {
        Seq::empty()
    } else {
        bp_values(s.drop_last()).push(bp_value(s.last()))
    }
}

/// The source position a wire object denotes, if any: `line` and `column`
/// must be integers in range, `source_id` a string.
pub open spec fn loc_of_value(v: JsonVal) -> Option<LocationV> {
    match v {
        JsonVal::Obj(ms) => match (find_key(ms, "line"@), find_key(ms, "column"@), find_key(
            ms,
            "source_id"@,
        )) {
            (Some(JsonVal::UInt(line)), Some(JsonVal::UInt(column)), Some(
                JsonVal::Str(sid),
            )) => if line <= u32::MAX as u64 && column <= u32::MAX as u64 {
                Some(LocationV { line: line as u32, column: column as u32, source_id: sid })
            } else {
                None
            },
            _ => None,
        },
        _ => None,
    }
}

/// The breakpoint a wire object denotes, if any: `id` a string,
/// `location` a position, `condition` a string or null, `enabled` a
/// boolean.
pub open spec fn bp_of_value(v: JsonVal) -> Option<BreakpointV> {
    match v {
        JsonVal::Obj(ms) => match (find_key(ms, "id"@), find_key(ms, "location"@), find_key(
            ms,
            "condition"@,
        ), find_key(ms, "enabled"@)) {
            (Some(JsonVal::Str(id)), Some(locv), Some(condv), Some(JsonVal::Bool(en))) => match (
                loc_of_value(locv),
                condv,
            ) {
                (Some(loc), JsonVal::Null) => Some(
                    BreakpointV { id, location: loc, condition: None, enabled: en },
                ),
                (Some(loc), JsonVal::Str(c)) => Some(
                    BreakpointV { id, location: loc, condition: Some(c), enabled: en },
                ),
                _ => None,
            },
            _ => None,
        },
        _ => None,
    }
}

/// What the execution-control actor does with one inbound message.
pub open spec fn spec_debugger_handle(c: DebuggerActorV, m: MsgView) -> (DebuggerActorV, Option<
    MsgView,
>) {
    match find_key(m.body, "type"@) {
        Some(JsonVal::Str(t)) => if t == "setBreakpoint"@ {
            match find_key(m.body, "breakpoint"@) {
                Some(bv) => match bp_of_value(bv) {
                    Some(b) => {
                        let bps = bp_drop(c.breakpoints, b.id).push(b);
                        let c2 = DebuggerActorV { breakpoints: bps, ..c };
                        (
                            c2,
                            Some(
                                MsgView {
                                    from: c.name,
                                    to: Some(m.from),
                                    body: seq![
                                        ("type"@, JsonVal::Str("breakpointAdded"@)),
                                        ("breakpoints"@, JsonVal::Arr(bp_values(bps))),
                                    ],
                                },
                            ),
                        )
                    },
                    None => (c, None),
                },
                None => (c, None),
            }
        } else if t == "removeBreakpoint"@ {
            match find_key(m.body, "id"@) {
                Some(JsonVal::Str(id)) => match bp_find(c.breakpoints, id) {
                    Some(b) => {
                        let c2 = DebuggerActorV { breakpoints: bp_drop(c.breakpoints, id), ..c };
                        (
                            c2,
                            Some(
                                MsgView {
                                    from: c.name,
                                    to: Some(m.from),
                                    body: seq![
                                        ("type"@, JsonVal::Str("breakpointRemoved"@)),
                                        ("id"@, JsonVal::Str(b.id)),
                                    ],
                                },
                            ),
                        )
                    },
                    None => (c, None),
                },
                _ => (c, None),
            }
        } else if t == "pause"@ {
            let c2 = DebuggerActorV { paused: true, current_frame: None, ..c };
            (
                c2,
                Some(
                    MsgView {
                        from: c.name,
                        to: Some(m.from),
                        body: seq![
                            ("type"@, JsonVal::Str("paused"@)),
                            ("why"@, why_value("clientRequest"@)),
                        ],
                    },
                ),
            )
        } else if t == "resume"@ {
            let c2 = DebuggerActorV { paused: false, current_frame: None, ..c };
            (
                c2,
                Some(
                    MsgView {
                        from: c.name,
                        to: Some(m.from),
                        body: seq![("type"@, JsonVal::Str("resumed"@))],
                    },
                ),
            )
        } else if t == "stepOver"@ {
            (c, step_reply(c.name, m.from, "stepOver"@))
        } else if t == "stepIn"@ {
            (c, step_reply(c.name, m.from, "stepIn"@))
        } else if t == "stepOut"@ {
            (c, step_reply(c.name, m.from, "stepOut"@))
        } else if t == "frames"@ {
            (
                c,
                Some(
                    MsgView {
                        from: c.name,
                        to: Some(m.from),
                        body: seq![
                            ("type"@, JsonVal::Str("frames"@)),
                            ("frames"@, JsonVal::Arr(Seq::empty())),
                        ],
                    },
                ),
            )
        } else {
            (c, None)
        },
        _ => (c, None),
    }
}

pub open spec fn why_value(reason: Seq<char>) -> JsonVal {
    JsonVal::Obj(seq![("type"@, JsonVal::Str(reason))])
}

pub open spec fn step_reply(name: Seq<char>, to: Seq<char>, kind: Seq<char>) -> Option<MsgView> {
    Some(
        MsgView {
            from: name,
            to: Some(to),
            body: seq![("type"@, JsonVal::Str("stepped"@)), ("why"@, why_value(kind))],
        },
    )
}

fn copy_string_opt(o: &Option<String>) -> (r: Option<String>)
    ensures
        (match r {
            Some(s) => match o {
                Some(x) => s@ == x@,
                None => false,
            },
            None => o matches None,
        }),
{
    match o {
        Some(s) => Some(s.clone()),
        None => None,
    }
}

fn copy_breakpoint(b: &Breakpoint) -> (r: Breakpoint)
    ensures
        r@ == b@,
{
    Breakpoint {
        id: b.id.clone(),
        location: Location {
            line: b.location.line,
            column: b.location.column,
            source_id: b.location.source_id.clone(),
        },
        condition: copy_string_opt(&b.condition),
        enabled: b.enabled,
    }
}

proof fn lemma_bp_view_index(s: Seq<Breakpoint>)
    ensures
        bp_seq_view(s).len() == s.len(),
        forall|j: int| 0 <= j < s.len() ==> #[trigger] bp_seq_view(s)[j] == s[j]@,
    decreases s.len(),
{
    if s.len() > 0 {
        lemma_bp_view_index(s.drop_last());
        assert(forall|j: int| 0 <= j < s.len() - 1 ==> #[trigger] s.drop_last()[j] == s[j]);
        assert(s.last() == s[s.len() - 1]);
    }
}

proof fn lemma_bp_drop_take(s: Seq<BreakpointV>, id: Seq<char>, i: int)
    requires
        0 <= i < s.len(),
    ensures
        bp_drop(s.take(i + 1), id) == if s[i].id == id {
            bp_drop(s.take(i), id)
        } else {
            bp_drop(s.take(i), id).push(s[i])
        },
{
    let t = s.take(i + 1);
    assert(t.drop_last() =~= s.take(i));
    assert(t.last() == s[i]);
}

proof fn lemma_bp_find_skip(s: Seq<BreakpointV>, id: Seq<char>, i: int)
    requires
        0 <= i <= s.len(),
        forall|j: int| 0 <= j < i ==> (#[trigger] s[j]).id != id,
    ensures
        bp_find(s, id) == bp_find(s.skip(i), id),
    decreases i,
{
    if i > 0 {
        lemma_bp_find_skip(s, id, i - 1);
        let t = s.skip(i - 1);
        assert(t[0] == s[i - 1]);
        assert(t.drop_first() =~= s.skip(i));
    } else {
        assert(s.skip(0) =~= s);
    }
}

fn loc_to_value(l: &Location) -> (r: JsonValue)
    ensures
        jv(r) == loc_value(l@),
{
    let mut ms = new_members();
    push_member(&mut ms, "line", JsonValue::UInt(l.line as u64));
    push_member(&mut ms, "column", JsonValue::UInt(l.column as u64));
    push_member(&mut ms, "source_id", str_value(l.source_id.as_str()));
    proof {
        assert(crate::json::jv_members(ms@) =~= match loc_value(l@) {
            JsonVal::Obj(x) => x,
            _ => Seq::empty(),
        });
    }
    JsonValue::Obj(ms)
}

fn bp_to_value(b: &Breakpoint) -> (r: JsonValue)
    ensures
        jv(r) == bp_value(b@),
{
    let mut ms = new_members();
    push_member(&mut ms, "id", str_value(b.id.as_str()));
    push_member(&mut ms, "location", loc_to_value(&b.location));
    match &b.condition {
        Some(c) => push_member(&mut ms, "condition", str_value(c.as_str())),
        None => push_member(&mut ms, "condition", JsonValue::Null),
    }
    push_member(&mut ms, "enabled", JsonValue::Bool(b.enabled));
    proof {
        assert(crate::json::jv_members(ms@) =~= match bp_value(b@) {
            JsonVal::Obj(x) => x,
            _ => Seq::empty(),
        });
    }
    JsonValue::Obj(ms)
}

/// The breakpoint a decoded wire object denotes, if it is one.
fn breakpoint_from_value(v: &JsonValue) -> (r: Option<Breakpoint>)
    ensures
        match r {
            Some(b) => bp_of_value(jv(*v)) == Some(b@),
            None => bp_of_value(jv(*v)) == None::<BreakpointV>,
        },
{
    let ms = match v {
        JsonValue::Obj(ms) => ms,
        _ => {
            return None;
        },
    };
    let id = match find_key_exec(ms, &chars_of_str("id")) {
        Some(JsonValue::Str(s)) => string_from_chars(&s),
        Some(_) => {
            return None;
        },
        None => {
            return None;
        },
    };
    let locv = match find_key_exec(ms, &chars_of_str("location")) {
        Some(x) => x,
        None => {
            return None;
        },
    };
    let cond = match find_key_exec(ms, &chars_of_str("condition")) {
        Some(JsonValue::Null) => None,
        Some(JsonValue::Str(s)) => Some(string_from_chars(&s)),
        Some(_) => {
            return None;
        },
        None => {
            return None;
        },
    };
    let en = match find_key_exec(ms, &chars_of_str("enabled")) {
        Some(JsonValue::Bool(b)) => b,
        Some(_) => {
            return None;
        },
        None => {
            return None;
        },
    };
    let loc = match location_from_value(&locv) {
        Some(l) => l,
        None => {
            return None;
        },
    };
    Some(Breakpoint { id, location: loc, condition: cond, enabled: en })
}

fn location_from_value(v: &JsonValue) -> (r: Option<Location>)
    ensures
        match r {
            Some(l) => loc_of_value(jv(*v)) == Some(l@),
            None => loc_of_value(jv(*v)) == None::<LocationV>,
        },
{
    let ms = match v {
        JsonValue::Obj(ms) => ms,
        _ => {
            return None;
        },
    };
    let line = match find_key_exec(ms, &chars_of_str("line")) {
        Some(JsonValue::UInt(n)) => n,
        Some(_) => {
            return None;
        },
        None => {
            return None;
        },
    };
    let column = match find_key_exec(ms, &chars_of_str("column")) {
        Some(JsonValue::UInt(n)) => n,
        Some(_) => {
            return None;
        },
        None => {
            return None;
        },
    };
    let sid = match find_key_exec(ms, &chars_of_str("source_id")) {
        Some(JsonValue::Str(s)) => string_from_chars(&s),
        Some(_) => {
            return None;
        },
        None => {
            return None;
        },
    };
    if line <= u32::MAX as u64 && column <= u32::MAX as u64 {
        Some(Location { line: line as u32, column: column as u32, source_id: sid })
    } else {
        None
    }
}

impl DebuggerActor {
    pub fn new(name: String) -> (r: DebuggerActor)
        ensures
            r@.name == name@,
            r@.breakpoints == Seq::<BreakpointV>::empty(),
            !r@.paused,
            r@.current_frame matches None,
    {
        let r = DebuggerActor {
            name,
            breakpoints: Vec::new(),
            paused: false,
            current_frame: None,
        };
        proof {
            assert(r@.breakpoints =~= Seq::<BreakpointV>::empty());
        }
        r
    }

    /// Install a breakpoint, superseding any live one with the same id.
    #[verifier::loop_isolation(false)]
    pub fn add_breakpoint(&mut self, breakpoint: Breakpoint)
        ensures
            final(self)@ == (DebuggerActorV {
                breakpoints: bp_drop(old(self)@.breakpoints, breakpoint@.id).push(breakpoint@),
                ..old(self)@
            }),
    {
        let ghost bs = bp_seq_view(self.breakpoints@);
        proof {
            lemma_bp_view_index(self.breakpoints@);
        }
        let n = self.breakpoints.len();
        let mut kept: Vec<Breakpoint> = Vec::new();
        let mut i: usize = 0;
        while i < n
            invariant
                n == self.breakpoints@.len(),
                bs == bp_seq_view(self.breakpoints@),
                bs.len() == n,
                forall|j: int| 0 <= j < n ==> #[trigger] bs[j] == self.breakpoints@[j]@,
                i <= n,
                bp_seq_view(kept@) == bp_drop(bs.take(i as int), breakpoint@.id),
            decreases n - i,
        {
            if !string_eq(&self.breakpoints[i].id, &breakpoint.id) {
                let c = copy_breakpoint(&self.breakpoints[i]);
                let ghost prev = kept@;
                kept.push(c);
                proof {
                    assert(kept@.drop_last() =~= prev);
                    assert(bp_seq_view(kept@) == bp_seq_view(prev).push(c@));
                    lemma_bp_drop_take(bs, breakpoint@.id, i as int);
                }
            } else {
                proof {
                    lemma_bp_drop_take(bs, breakpoint@.id, i as int);
                }
            }
            i = i + 1;
        }
        proof {
            assert(bs.take(n as int) =~= bs);
        }
        let ghost bview = breakpoint@;
        let ghost prev = kept@;
        kept.push(breakpoint);
        proof {
            assert(kept@.drop_last() =~= prev);
            assert(bp_seq_view(kept@) == bp_seq_view(prev).push(bview));
        }
        self.breakpoints = kept;
    }

    /// Remove the breakpoint with the given id, handing it back.
    #[verifier::loop_isolation(false)]
    pub fn remove_breakpoint(&mut self, id: &str) -> (r: Option<Breakpoint>)
        ensures
            final(self)@ == (DebuggerActorV {
                breakpoints: bp_drop(old(self)@.breakpoints, id@),
                ..old(self)@
            }),
            match r {
                Some(b) => bp_find(old(self)@.breakpoints, id@) == Some(b@),
                None => bp_find(old(self)@.breakpoints, id@) == None::<BreakpointV>,
            },
    {
        let ghost bs = bp_seq_view(self.breakpoints@);
        proof {
            lemma_bp_view_index(self.breakpoints@);
        }
        let ids: String = id.to_owned();
        let n = self.breakpoints.len();
        let mut kept: Vec<Breakpoint> = Vec::new();
        let mut found: Option<Breakpoint> = None;
        let mut i: usize = 0;
        while i < n
            invariant
                n == self.breakpoints@.len(),
                bs == bp_seq_view(self.breakpoints@),
                bs.len() == n,
                ids@ == id@,
                forall|j: int| 0 <= j < n ==> #[trigger] bs[j] == self.breakpoints@[j]@,
                i <= n,
                bp_seq_view(kept@) == bp_drop(bs.take(i as int), id@),
                match found {
                    Some(b) => bp_find(bs, id@) == Some(b@),
                    None => forall|j: int| 0 <= j < i ==> (#[trigger] bs[j]).id != id@,
                },
            decreases n - i,
        {
            if !string_eq(&self.breakpoints[i].id, &ids) {
                let c = copy_breakpoint(&self.breakpoints[i]);
                let ghost prev = kept@;
                kept.push(c);
                proof {
                    assert(kept@.drop_last() =~= prev);
                    assert(bp_seq_view(kept@) == bp_seq_view(prev).push(c@));
                    lemma_bp_drop_take(bs, id@, i as int);
                }
            } else {
                if matches!(found, None) {
                    let c = copy_breakpoint(&self.breakpoints[i]);
                    proof {
                        lemma_bp_find_skip(bs, id@, i as int);
                        let t = bs.skip(i as int);
                        assert(t[0] == bs[i as int]);
                    }
                    found = Some(c);
                }
                proof {
                    lemma_bp_drop_take(bs, id@, i as int);
                }
            }
            i = i + 1;
        }
        proof {
            assert(bs.take(n as int) =~= bs);
            if (found matches None) {
                lemma_bp_find_skip(bs, id@, n as int);
                assert(bs.skip(n as int) =~= Seq::<BreakpointV>::empty());
            }
        }
        self.breakpoints = kept;
        found
    }

    /// Record whether execution is paused and where.
    pub fn set_paused(&mut self, paused: bool, location: Option<Location>)
        ensures
            final(self)@ == (DebuggerActorV {
                paused,
                current_frame: match location {
                    Some(l) => Some(l@),
                    None => None,
                },
                ..old(self)@
            }),
    {
        self.paused = paused;
        self.current_frame = location;
    }

    pub fn name(&self) -> (r: &String)
        ensures
            r@ == self@.name,
    {
        &self.name
    }

    pub fn type_tag(&self) -> (r: &'static str)
        ensures
            r@ == "debugger"@,
    {
        "debugger"
    }

    /// Answer one inbound message addressed to this actor.
    #[verifier::loop_isolation(false)]
    #[verifier::rlimit(100)]
    pub fn handle_message(&mut self, msg: Message) -> (r: Option<Message>)
        ensures
            ({
                let (s2, rv) = spec_debugger_handle(old(self)@, msg@);
                final(self)@ == s2 && opt_view(r) == rv
            }),
    {
        let t = match body_get(&msg.body, "type") {
            Some(JsonValue::Str(tc)) => tc,
            _ => {
                return None;
            },
        };
        if chars_eq(&t, &chars_of_str("setBreakpoint")) {
            let bv = match body_get(&msg.body, "breakpoint") {
                Some(x) => x,
                None => {
                    return None;
                },
            };
            let b = match breakpoint_from_value(&bv) {
                Some(b) => b,
                None => {
                    return None;
                },
            };
            self.add_breakpoint(b);
            let n = self.breakpoints.len();
            let ghost bs = bp_seq_view(self.breakpoints@);
            proof {
                lemma_bp_view_index(self.breakpoints@);
            }
            let mut vals: Vec<JsonValue> = Vec::new();
            let mut i: usize = 0;
            while i < n
                invariant
                    n == self.breakpoints@.len(),
                    bs == bp_seq_view(self.breakpoints@),
                    bs.len() == n,
                    forall|j: int| 0 <= j < n ==> #[trigger] bs[j] == self.breakpoints@[j]@,
                    i <= n,
                    jv_seq(vals@) == bp_values(bs.take(i as int)),
                decreases n - i,
            {
                let v = bp_to_value(&self.breakpoints[i]);
                let ghost gv = jv(v);
                let ghost prev = vals@;
                vals.push(v);
                proof {
                    lemma_jv_seq_push(prev, gv);
                    assert(jv_seq(prev.push(v)) == jv_seq(prev).push(gv));
                    let tk = bs.take(i + 1);
                    assert(tk.drop_last() =~= bs.take(i as int));
                    assert(tk.last() == bs[i as int]);
                }
                i = i + 1;
            }
            proof {
                assert(bs.take(n as int) =~= bs);
            }
            let body = body2(
                "type",
                str_value("breakpointAdded"),
                "breakpoints",
                JsonValue::Arr(vals),
            );
            Some(Message { from: self.name.clone(), to: Some(msg.from), body })
        } else if chars_eq(&t, &chars_of_str("removeBreakpoint")) {
            let id = match body_get(&msg.body, "id") {
                Some(JsonValue::Str(s)) => string_from_chars(&s),
                _ => {
                    return None;
                },
            };
            match self.remove_breakpoint(id.as_str()) {
                Some(b) => {
                    let body = body2(
                        "type",
                        str_value("breakpointRemoved"),
                        "id",
                        str_value(b.id.as_str()),
                    );
                    Some(Message { from: self.name.clone(), to: Some(msg.from), body })
                },
                None => {
                    proof {
                        assert(final(self)@ =~~= old(self)@) by {
                            assert(bp_drop(old(self)@.breakpoints, id@) =~= old(
                                self,
                            )@.breakpoints) by {
                                lemma_bp_drop_absent(old(self)@.breakpoints, id@);
                            }
                        }
                    }
                    None
                },
            }
        } else if chars_eq(&t, &chars_of_str("pause")) {
            self.set_paused(true, None);
            let why = make_why("clientRequest");
            let body = body2("type", str_value("paused"), "why", why);
            Some(Message { from: self.name.clone(), to: Some(msg.from), body })
        } else if chars_eq(&t, &chars_of_str("resume")) {
            self.set_paused(false, None);
            let body = crate::message::body1("type", str_value("resumed"));
            Some(Message { from: self.name.clone(), to: Some(msg.from), body })
        } else if chars_eq(&t, &chars_of_str("stepOver")) {
            let body = body2("type", str_value("stepped"), "why", make_why("stepOver"));
            Some(Message { from: self.name.clone(), to: Some(msg.from), body })
        } else if chars_eq(&t, &chars_of_str("stepIn")) {
            let body = body2("type", str_value("stepped"), "why", make_why("stepIn"));
            Some(Message { from: self.name.clone(), to: Some(msg.from), body })
        } else if chars_eq(&t, &chars_of_str("stepOut")) {
            let body = body2("type", str_value("stepped"), "why", make_why("stepOut"));
            Some(Message { from: self.name.clone(), to: Some(msg.from), body })
        } else if chars_eq(&t, &chars_of_str("frames")) {
            let empty: Vec<JsonValue> = Vec::new();
            proof {
                assert(jv_seq(empty@) =~= Seq::<JsonVal>::empty());
            }
            let body = body2("type", str_value("frames"), "frames", JsonValue::Arr(empty));
            Some(Message { from: self.name.clone(), to: Some(msg.from), body })
        } else {
            None
        }
    }
}

proof fn lemma_bp_drop_absent(s: Seq<BreakpointV>, id: Seq<char>)
    requires
        bp_find(s, id) == None::<BreakpointV>,
    ensures
        bp_drop(s, id) == s,
    decreases s.len(),
{
    if s.len() > 0 {
        assert(bp_find(s, id) == if s[0].id == id {
            Some(s[0])
        } else {
            bp_find(s.drop_first(), id)
        });
        lemma_bp_find_drop_last(s, id);
        lemma_bp_drop_absent(s.drop_last(), id);
        assert(bp_drop(s, id) =~= s);
    }
}

/// When an id is absent from a run it is absent from the run less its
/// last element, and the last element does not carry it.
proof fn lemma_bp_find_drop_last(s: Seq<BreakpointV>, id: Seq<char>)
    requires
        s.len() > 0,
        bp_find(s, id) == None::<BreakpointV>,
    ensures
        bp_find(s.drop_last(), id) == None::<BreakpointV>,
        s.last().id != id,
    decreases s.len(),
{
    lemma_bp_find_none_iff(s, id);
    lemma_bp_find_none_iff(s.drop_last(), id);
    assert(forall|j: int| 0 <= j < s.len() - 1 ==> #[trigger] s.drop_last()[j] == s[j]);
    assert(s.last() == s[s.len() - 1]);
}

proof fn lemma_bp_find_none_iff(s: Seq<BreakpointV>, id: Seq<char>)
    ensures
        (bp_find(s, id) == None::<BreakpointV>) <==> (forall|j: int|
            0 <= j < s.len() ==> (#[trigger] s[j]).id != id),
    decreases s.len(),
{
    if s.len() > 0 {
        lemma_bp_find_none_iff(s.drop_first(), id);
        assert(forall|j: int|
            0 <= j < s.drop_first().len() ==> #[trigger] s.drop_first()[j] == s[j + 1]);
        if s[0].id != id && (forall|j: int|
            0 <= j < s.drop_first().len() ==> (#[trigger] s.drop_first()[j]).id != id) {
            assert forall|j: int| 0 <= j < s.len() implies (#[trigger] s[j]).id != id by {
                if j > 0 {
                    assert(s.drop_first()[j - 1] == s[j]);
                }
            }
        }
    }
}

fn make_why(reason: &str) -> (r: JsonValue)
    ensures
        jv(r) == why_value(reason@),
{
    let mut ms = new_members();
    push_member(&mut ms, "type", str_value(reason));
    proof {
        assert(crate::json::jv_members(ms@) =~= seq![(("type"@), JsonVal::Str(reason@))]);
    }
    JsonValue::Obj(ms)
}

fn string_eq(a: &String, b: &String) -> (r: bool)
    ensures
        r == (a@ == b@),
{
    a.eq(b)
}

} // verus!
