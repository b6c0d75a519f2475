//! The network-inspection capability: records requests and pushes
//! notifications to its listeners through the outbound queue.

use vstd::prelude::*;
use crate::json::{JsonValue, JsonVal, jv, jv_members, lemma_jv_members_push};
use crate::message::{
    Message,
    MsgView,
    find_key,
    opt_view,
    body2,
    body_get,
    new_members,
    push_member,
    str_value,
    chars_eq,
    chars_of_str,
    string_from_chars,
};

verus! {

/// One recorded network request.
#[derive(Debug)]
pub struct NetworkRequest {
    pub request_id: String,
    pub url: String,
    pub method: String,
    pub headers: Vec<(String, String)>,
    pub timestamp: u64,
    pub status: Option<u16>,
    pub status_text: Option<String>,
    pub content_type: Option<String>,
    pub content_length: Option<u64>,
    pub response_headers: Option<Vec<(String, String)>>,
    pub response_body: Option<Vec<u8>>,
    pub duration: Option<u64>,
}

pub struct NetworkRequestV {
    pub request_id: Seq<char>,
    pub url: Seq<char>,
    pub method: Seq<char>,
    pub headers: Seq<(Seq<char>, Seq<char>)>,
    pub timestamp: u64,
    pub status: Option<u16>,
    pub status_text: Option<Seq<char>>,
    pub content_type: Option<Seq<char>>,
    pub content_length: Option<u64>,
    pub response_headers: Option<Seq<(Seq<char>, Seq<char>)>>,
    pub response_body: Option<Seq<u8>>,
    pub duration: Option<u64>,
}

pub open spec fn hdr_view(s: Seq<(String, String)>) -> Seq<(Seq<char>, Seq<char>)>
    decreases s,
{
    if s.len() == 0 {
        Seq::empty()
    } else {
        hdr_view(s.drop_last()).push((s.last().0@, s.last().1@))
    }
}

impl View for NetworkRequest {
    type V = NetworkRequestV;

    open spec fn view(&self) -> NetworkRequestV {
        NetworkRequestV {
            request_id: self.request_id@,
            url: self.url@,
            method: self.method@,
            headers: hdr_view(self.headers@),
            timestamp: self.timestamp,
            status: self.status,
            status_text: match self.status_text {
                Some(s) => Some(s@),
                None => None,
            },
            content_type: match self.content_type {
                Some(s) => Some(s@),
                None => None,
            },
            content_length: self.content_length,
            response_headers: match self.response_headers {
                Some(h) => Some(hdr_view(h@)),
                None => None,
            },
            response_body: match self.response_body {
                Some(b) => Some(b@),
                None => None,
            },
            duration: self.duration,
        }
    }
}

/// Relies on std `SystemTime::now` and `duration_since`: the milliseconds
/// since the Unix epoch, or zero on a clock before it.  The result depends
/// on the clock, so nothing is promised of it.
#[verifier::external_body]
fn now_millis() -> u64 {
    std::time::SystemTime::now().duration_since(std::time::UNIX_EPOCH).map(
        |d| d.as_millis() as u64,
    ).unwrap_or(0)
}

impl NetworkRequest {
    /// A fresh request record, stamped with the clock's current
    /// milliseconds (on which nothing is promised) and no response yet.
    pub fn new(request_id: String, url: String, method: String, headers: Vec<(String, String)>)
        -> (r: NetworkRequest)
        ensures
            r@.request_id == request_id@,
            r@.url == url@,
            r@.method == method@,
            r@.headers == hdr_view(headers@),
            r@.status matches None,
            r@.status_text matches None,
            r@.content_type matches None,
            r@.content_length matches None,
            r@.response_headers matches None,
            r@.response_body matches None,
            r@.duration matches None,
    {
        NetworkRequest {
            request_id,
            url,
            method,
            headers,
            timestamp: now_millis(),
            status: None,
            status_text: None,
            content_type: None,
            content_length: None,
            response_headers: None,
            response_body: None,
            duration: None,
        }
    }

    /// Record the response; the duration is measured against the clock
    /// (on which nothing is promised beyond its presence).
    pub fn set_response(
        &mut self,
        status: u16,
        status_text: String,
        headers: Vec<(String, String)>,
        body: Option<Vec<u8>>,
    )
        ensures
            resp_set(old(self)@, final(self)@, status, status_text@, hdr_view(headers@), match body {
                Some(b) => Some(b@),
                None => None,
            }),
    {
        self.status = Some(status);
        self.status_text = Some(status_text);
        self.response_headers = Some(headers);
        self.response_body = body;
        let now = now_millis();
        let d: u64 = if now >= self.timestamp {
            now - self.timestamp
        } else {
            0
        };
        self.duration = Some(d);
    }
}

/// How a record changes when its response arrives: the response fields are
/// set, a duration appears, everything else stands.
pub open spec fn resp_set(
    o: NetworkRequestV,
    n: NetworkRequestV,
    status: u16,
    status_text: Seq<char>,
    headers: Seq<(Seq<char>, Seq<char>)>,
    body: Option<Seq<u8>>,
) -> bool {
    &&& n.request_id == o.request_id
    &&& n.url == o.url
    &&& n.method == o.method
    &&& n.headers == o.headers
    &&& n.timestamp == o.timestamp
    &&& n.status == Some(status)
    &&& n.status_text == Some(status_text)
    &&& n.content_type == o.content_type
    &&& n.content_length == o.content_length
    &&& n.response_headers == Some(headers)
    &&& n.response_body == body
    &&& n.duration matches Some(_)
}

/// The network actor.
#[derive(Debug)]
pub struct NetworkActor {
    pub name: String,
    pub requests: Vec<NetworkRequest>,
    pub listeners: Vec<String>,
    pub outbound: Vec<Message>,
}

pub struct NetworkActorV {
    pub name: Seq<char>,
    pub requests: Seq<NetworkRequestV>,
    pub listeners: Seq<Seq<char>>,
    pub outbound: Seq<MsgView>,
}

pub open spec fn nr_seq_view(s: Seq<NetworkRequest>) -> Seq<NetworkRequestV>
    decreases s,
{
    if s.len() == 0 {
        Seq::empty()
    } else {
        nr_seq_view(s.drop_last()).push(s.last()@)
    }
}

pub open spec fn str_seq_view(s: Seq<String>) -> Seq<Seq<char>>
    decreases s,
{
    if s.len() == 0 {
        Seq::empty()
    } else {
        str_seq_view(s.drop_last()).push(s.last()@)
    }
}

pub open spec fn msg_seq_view(s: Seq<Message>) -> Seq<MsgView>
    decreases s,
{
    if s.len() == 0 {
        Seq::empty()
    } else {
        msg_seq_view(s.drop_last()).push(s.last()@)
    }
}

impl View for NetworkActor {
    type V = NetworkActorV;

    open spec fn view(&self) -> NetworkActorV {
        NetworkActorV {
            name: self.name@,
            requests: nr_seq_view(self.requests@),
            listeners: str_seq_view(self.listeners@),
            outbound: msg_seq_view(self.outbound@),
        }
    }
}

/// Index of the live record under an id: the newest one, since a newer
/// record supersedes an older one with the same id.
pub open spec fn nr_last_idx(s: Seq<NetworkRequestV>, id: Seq<char>) -> int
    decreases s.len(),
{
    if s.len() == 0 {
        -1
    } else if s.last().request_id == id {
        s.len() - 1
    } else {
        nr_last_idx(s.drop_last(), id)
    }
}

/// One unsolicited notification to one listener.
pub open spec fn notice(name: Seq<char>, l: Seq<char>, kind: Seq<char>, id: Seq<char>) -> MsgView {
    MsgView {
        from: name,
        to: Some(l),
        body: seq![("type"@, JsonVal::Str(kind)), ("id"@, JsonVal::Str(id))],
    }
}

/// The notifications for all listeners, in listener order.
pub open spec fn notices(name: Seq<char>, ls: Seq<Seq<char>>, kind: Seq<char>, id: Seq<char>)
    -> Seq<MsgView>
    decreases ls.len(),
{
    if ls.len() == 0 {
        Seq::empty()
    } else {
        notices(name, ls.drop_last(), kind, id).push(notice(name, ls.last(), kind, id))
    }
}

/// A state that queued one notification per listener and changed nothing
/// else.
pub open spec fn notified(o: NetworkActorV, n: NetworkActorV, kind: Seq<char>, id: Seq<char>)
    -> bool {
    &&& n.name == o.name
    &&& n.requests == o.requests
    &&& n.listeners == o.listeners
    &&& n.outbound == o.outbound + notices(o.name, o.listeners, kind, id)
}

/// The listeners with one subscriber removed.
pub open spec fn listeners_drop(ls: Seq<Seq<char>>, x: Seq<char>) -> Seq<Seq<char>>
    decreases ls.len(),
{
    if ls.len() == 0 {
        Seq::empty()
    } else {
        let rest = listeners_drop(ls.drop_last(), x);
        if ls.last() == x {
            rest
        } else {
            rest.push(ls.last())
        }
    }
}

/// What the network actor does with one inbound message.
pub open spec fn spec_network_handle(c: NetworkActorV, m: MsgView) -> (NetworkActorV, Option<
    MsgView,
>) {
    match find_key(m.body, "type"@) {
        Some(JsonVal::Str(t)) => if t == "startListeners"@ {
            let c2 = NetworkActorV { listeners: c.listeners.push(m.from), ..c };
            (
                c2,
                Some(
                    MsgView {
                        from: c.name,
                        to: Some(m.from),
                        body: seq![("type"@, JsonVal::Str("listenersStarted"@))],
                    },
                ),
            )
        } else if t == "stopListeners"@ {
            let c2 = NetworkActorV { listeners: listeners_drop(c.listeners, m.from), ..c };
            (
                c2,
                Some(
                    MsgView {
                        from: c.name,
                        to: Some(m.from),
                        body: seq![("type"@, JsonVal::Str("listenersStopped"@))],
                    },
                ),
            )
        } else if t == "getRequestContent"@ {
            match find_key(m.body, "id"@) {
                Some(JsonVal::Str(id)) => {
                    let j = nr_last_idx(c.requests, id);
                    if j >= 0 {
                        (
                            c,
                            Some(
                                MsgView {
                                    from: c.name,
                                    to: Some(m.from),
                                    body: seq![
                                        ("type"@, JsonVal::Str("requestContent"@)),
                                        ("id"@, JsonVal::Str(id)),
                                        ("content"@, content_value(c.requests[j])),
                                    ],
                                },
                            ),
                        )
                    } else {
                        (c, None)
                    }
                },
                _ => (c, None),
            }
        } else {
            (c, None)
        },
        _ => (c, None),
    }
}

pub open spec fn hdrs_value(h: Seq<(Seq<char>, Seq<char>)>) -> JsonVal
    decreases h.len(),
{
    JsonVal::Obj(hdr_members(h))
}

pub open spec fn hdr_members(h: Seq<(Seq<char>, Seq<char>)>) -> Seq<(Seq<char>, JsonVal)>
    decreases h.len(),
{
    if h.len() == 0 {
        Seq::empty()
    } else {
        hdr_members(h.drop_last()).push((h.last().0, JsonVal::Str(h.last().1)))
    }
}

pub open spec fn opt_u64_value(o: Option<u64>) -> JsonVal {
    match o {
        Some(n) => JsonVal::UInt(n),
        None => JsonVal::Null,
    }
}

pub open spec fn bytes_value(b: Seq<u8>) -> JsonVal
    decreases b.len(),
{
    JsonVal::Arr(byte_items(b))
}

pub open spec fn byte_items(b: Seq<u8>) -> Seq<JsonVal>
    decreases b.len(),
{
    if b.len() == 0 {
        Seq::empty()
    } else {
        byte_items(b.drop_last()).push(JsonVal::UInt(b.last() as u64))
    }
}

/// The content object of a recorded request: what was asked and what came
/// back.
pub open spec fn content_value(r: NetworkRequestV) -> JsonVal {
    JsonVal::Obj(
        seq![
            ("request"@, JsonVal::Obj(request_members(r))),
            ("response"@, JsonVal::Obj(response_members(r))),
        ],
    )
}

pub open spec fn request_members(r: NetworkRequestV) -> Seq<(Seq<char>, JsonVal)> {
    seq![
        ("url"@, JsonVal::Str(r.url)),
        ("method"@, JsonVal::Str(r.method)),
        ("headers"@, hdrs_value(r.headers)),
    ]
}

pub open spec fn response_members(r: NetworkRequestV) -> Seq<(Seq<char>, JsonVal)> {
    seq![
        (
            "status"@,
            match r.status {
                Some(s) => JsonVal::UInt(s as u64),
                None => JsonVal::Null,
            },
        ),
        (
            "statusText"@,
            match r.status_text {
                Some(s) => JsonVal::Str(s),
                None => JsonVal::Null,
            },
        ),
        (
            "headers"@,
            match r.response_headers {
                Some(h) => hdrs_value(h),
                None => JsonVal::Null,
            },
        ),
        (
            "content"@,
            match r.response_body {
                Some(b) => bytes_value(b),
                None => JsonVal::Null,
            },
        ),
    ]
}

impl NetworkActor {
    pub fn new(name: String) -> (r: NetworkActor)
        ensures
            r@.name == name@,
            r@.requests == Seq::<NetworkRequestV>::empty(),
            r@.listeners == Seq::<Seq<char>>::empty(),
            r@.outbound == Seq::<MsgView>::empty(),
    {
        let r = NetworkActor {
            name,
            requests: Vec::new(),
            listeners: Vec::new(),
            outbound: Vec::new(),
        };
        proof {
            assert(r@.requests =~= Seq::<NetworkRequestV>::empty());
            assert(r@.listeners =~= Seq::<Seq<char>>::empty());
            assert(r@.outbound =~= Seq::<MsgView>::empty());
        }
        r
    }

    /// Record a new request (superseding any older record with its id at
    /// lookup) and notify every listener that it started.
    pub fn add_request(&mut self, request: NetworkRequest)
        ensures
            final(self)@.name == old(self)@.name,
            final(self)@.requests == old(self)@.requests.push(request@),
            final(self)@.listeners == old(self)@.listeners,
            final(self)@.outbound == old(self)@.outbound + notices(
                old(self)@.name,
                old(self)@.listeners,
                "requestStarted"@,
                request@.request_id,
            ),
    {
        let ghost rv = request@;
        let rid = request.request_id.clone();
        let ghost prev = self.requests@;
        self.requests.push(request);
        proof {
            assert(self.requests@.drop_last() =~= prev);
            assert(nr_seq_view(self.requests@) == nr_seq_view(prev).push(rv));
        }
        proof {
            let rs2 = nr_seq_view(self.requests@);
            assert(rs2.last() == rv);
            assert(nr_last_idx(rs2, rv.request_id) == rs2.len() - 1);
        }
        self.notify_request_started(rid.as_str());
    }

    /// Tell every listener that the request under an id started; nothing
    /// happens for an unknown id.
    fn notify_request_started(&mut self, request_id: &str)
        ensures
            if nr_last_idx(old(self)@.requests, request_id@) >= 0 {
                notified(old(self)@, final(self)@, "requestStarted"@, request_id@)
            } else {
                final(self)@ == old(self)@
            },
    {
        if self.has_request(request_id) {
            self.push_notices(request_id, "requestStarted");
        }
    }

    /// Tell every listener that the request under an id finished; nothing
    /// happens for an unknown id.
    fn notify_request_finished(&mut self, request_id: &str)
        ensures
            if nr_last_idx(old(self)@.requests, request_id@) >= 0 {
                notified(old(self)@, final(self)@, "requestFinished"@, request_id@)
            } else {
                final(self)@ == old(self)@
            },
    {
        if self.has_request(request_id) {
            self.push_notices(request_id, "requestFinished");
        }
    }

    /// Whether a record under this id is live.
    #[verifier::loop_isolation(false)]
    fn has_request(&self, request_id: &str) -> (r: bool)
        ensures
            r == (nr_last_idx(self@.requests, request_id@) >= 0),
    {
        let ghost rs = nr_seq_view(self.requests@);
        proof {
            lemma_nr_view_index(self.requests@);
        }
        let rid: String = request_id.to_owned();
        let n = self.requests.len();
        let mut i: usize = n;
        while i > 0
            invariant
                n == self.requests@.len(),
                rs == nr_seq_view(self.requests@),
                rs.len() == n,
                rid@ == request_id@,
                forall|j: int| 0 <= j < n ==> #[trigger] rs[j] == self.requests@[j]@,
                i <= n,
                forall|j: int| i <= j < n ==> (#[trigger] rs[j]).request_id != request_id@,
            decreases i,
        {
            i = i - 1;
            if self.requests[i].request_id == rid {
                proof {
                    lemma_nr_last_idx_suffix(rs, request_id@, i + 1);
                    assert(rs.take(i + 1).last() == rs[i as int]);
                    assert(nr_last_idx(rs, request_id@) == i as int);
                }
                return true;
            }
        }
        proof {
            lemma_nr_last_idx_suffix(rs, request_id@, 0);
            assert(rs.take(0) =~= Seq::<NetworkRequestV>::empty());
        }
        false
    }

    /// Record the response to the live request under an id, if any, and
    /// notify every listener that it finished.
    #[verifier::loop_isolation(false)]
    pub fn update_request(
        &mut self,
        request_id: &str,
        status: u16,
        status_text: String,
        headers: Vec<(String, String)>,
        body: Option<Vec<u8>>,
    )
        ensures
            ({
                let j = nr_last_idx(old(self)@.requests, request_id@);
                if j >= 0 {
                    &&& final(self)@.name == old(self)@.name
                    &&& final(self)@.listeners == old(self)@.listeners
                    &&& final(self)@.requests.len() == old(self)@.requests.len()
                    &&& forall|k: int|
                        0 <= k < old(self)@.requests.len() && k != j
                            ==> final(self)@.requests[k] == old(self)@.requests[k]
                    &&& resp_set(
                        old(self)@.requests[j],
                        final(self)@.requests[j],
                        status,
                        status_text@,
                        hdr_view(headers@),
                        match body {
                            Some(b) => Some(b@),
                            None => None,
                        },
                    )
                    &&& final(self)@.outbound == old(self)@.outbound + notices(
                        old(self)@.name,
                        old(self)@.listeners,
                        "requestFinished"@,
                        request_id@,
                    )
                } else {
                    final(self)@ == old(self)@
                }
            }),
    {
        let ghost rs = nr_seq_view(self.requests@);
        proof {
            lemma_nr_view_index(self.requests@);
        }
        let rid: String = request_id.to_owned();
        let n = self.requests.len();
        let mut i: usize = n;
        while i > 0
            invariant
                n == self.requests@.len(),
                rs == nr_seq_view(self.requests@),
                rs.len() == n,
                rid@ == request_id@,
                self@ == old(self)@,
                forall|j: int| 0 <= j < n ==> #[trigger] rs[j] == self.requests@[j]@,
                i <= n,
                forall|j: int| i <= j < n ==> (#[trigger] rs[j]).request_id != request_id@,
            decreases i,
        {
            i = i - 1;
            if self.requests[i].request_id == rid {
                proof {
                    lemma_nr_last_idx_suffix(rs, request_id@, i + 1);
                    assert(rs.take(i + 1).last() == rs[i as int]);
                    assert(rs.take(i + 1).len() - 1 == i as int);
                    assert(nr_last_idx(rs, request_id@) == i as int);
                }
                let ghost prevreqs = self.requests@;
                self.requests[i].set_response(status, status_text, headers, body);
                proof {
                    lemma_nr_view_update(prevreqs, self.requests@, i as int);
                }
                proof {
                    let rs2 = nr_seq_view(self.requests@);
                    lemma_nr_view_index(self.requests@);
                    assert(rs2 == rs.update(i as int, rs2[i as int]));
                    assert(resp_set(rs[i as int], rs2[i as int], status, status_text@, hdr_view(
                        headers@,
                    ), match body {
                        Some(b) => Some(b@),
                        None => None,
                    }));
                    assert(rs2[i as int].request_id == rs[i as int].request_id);
                    lemma_nr_last_suffix_same(rs, rs2, request_id@, i as int);
                    assert(forall|k: int|
                        0 <= k < rs.len() && k != i as int ==> #[trigger] rs2[k] == rs[k]);
                }
                self.notify_request_finished(rid.as_str());
                proof {
                    assert(self@.name == old(self)@.name);
                    assert(self@.listeners == old(self)@.listeners);
                    assert(self@.requests.len() == old(self)@.requests.len());
                    assert(self@.outbound == old(self)@.outbound + notices(
                        old(self)@.name,
                        old(self)@.listeners,
                        "requestFinished"@,
                        request_id@,
                    ));
                    assert(nr_last_idx(old(self)@.requests, request_id@) == i as int);
                }
                return ;
            }
        }
        proof {
            lemma_nr_last_idx_suffix(rs, request_id@, 0);
            assert(rs.take(0) =~= Seq::<NetworkRequestV>::empty());
            assert(nr_last_idx(Seq::<NetworkRequestV>::empty(), request_id@) == -1);
            assert(self@ == old(self)@);
        }
    }

    /// Queue one notification per listener about a request, in listener
    /// order, onto the outbound queue.
    #[verifier::loop_isolation(false)]
    fn push_notices(&mut self, request_id: &str, kind: &str)
        ensures
            final(self)@.name == old(self)@.name,
            final(self)@.requests == old(self)@.requests,
            final(self)@.listeners == old(self)@.listeners,
            final(self)@.outbound == old(self)@.outbound + notices(
                old(self)@.name,
                old(self)@.listeners,
                kind@,
                request_id@,
            ),
    {
        let ghost ls = str_seq_view(self.listeners@);
        let ghost start = msg_seq_view(self.outbound@);
        proof {
            lemma_str_view_index(self.listeners@);
            assert(start + notices(self@.name, ls.take(0), kind@, request_id@) =~= start) by {
                assert(ls.take(0) =~= Seq::<Seq<char>>::empty());
            }
        }
        let n = self.listeners.len();
        let mut i: usize = 0;
        while i < n
            invariant
                n == self.listeners@.len(),
                ls == str_seq_view(self.listeners@),
                ls.len() == n,
                forall|j: int| 0 <= j < n ==> #[trigger] ls[j] == self.listeners@[j]@,
                i <= n,
                self.name@ == old(self)@.name,
                self.requests@ == old(self).requests@,
                self.listeners@ == old(self).listeners@,
                msg_seq_view(self.outbound@) == start + notices(
                    old(self)@.name,
                    ls.take(i as int),
                    kind@,
                    request_id@,
                ),
            decreases n - i,
    {
            let body = body2("type", str_value(kind), "id", str_value(request_id));
            let m = Message {
                from: self.name.clone(),
                to: Some(self.listeners[i].clone()),
                body,
            };
            let ghost mv = m@;
            let ghost prev = self.outbound@;
            self.outbound.push(m);
            proof {
                assert(self.outbound@.drop_last() =~= prev);
                assert(msg_seq_view(self.outbound@) == msg_seq_view(prev).push(mv));
                let tk = ls.take(i + 1);
                assert(tk.drop_last() =~= ls.take(i as int));
                assert(tk.last() == ls[i as int]);
                assert(mv == notice(old(self)@.name, ls[i as int], kind@, request_id@));
            }
            i = i + 1;
        }
        proof {
            assert(ls.take(n as int) =~= ls);
        }
    }

    /// Hand over the queued notifications, oldest first, leaving the
    /// queue empty.
    pub fn take_outbound(&mut self) -> (r: Vec<Message>)
        ensures
            msg_seq_view(r@) == old(self)@.outbound,
            final(self)@ == (NetworkActorV { outbound: Seq::empty(), ..old(self)@ }),
    {
        let mut out: Vec<Message> = Vec::new();
        core::mem::swap(&mut out, &mut self.outbound);
        proof {
            assert(msg_seq_view(self.outbound@) =~= Seq::<MsgView>::empty());
        }
        out
    }

    pub fn name(&self) -> (r: &String)
        ensures
            r@ == self@.name,
    {
        &self.name
    }

    pub fn type_tag(&self) -> (r: &'static str)
        ensures
            r@ == "network"@,
    {
        "network"
    }

    /// Answer one inbound message addressed to this actor.
    #[verifier::loop_isolation(false)]
    #[verifier::rlimit(100)]
    pub fn handle_message(&mut self, msg: Message) -> (r: Option<Message>)
        ensures
            ({
                let (s2, rv) = spec_network_handle(old(self)@, msg@);
                final(self)@ == s2 && opt_view(r) == rv
            }),
    {
        let t = match body_get(&msg.body, "type") {
            Some(JsonValue::Str(tc)) => tc,
            _ => {
                return None;
            },
        };
        if chars_eq(&t, &chars_of_str("startListeners")) {
            let ghost prev = self.listeners@;
            self.listeners.push(msg.from.clone());
            proof {
                assert(self.listeners@.drop_last() =~= prev);
                assert(str_seq_view(self.listeners@) == str_seq_view(prev).push(msg.from@));
            }
            let body = crate::message::body1("type", str_value("listenersStarted"));
            Some(Message { from: self.name.clone(), to: Some(msg.from), body })
        } else if chars_eq(&t, &chars_of_str("stopListeners")) {
            let ghost ls = str_seq_view(self.listeners@);
            proof {
                lemma_str_view_index(self.listeners@);
            }
            let n = self.listeners.len();
            let mut kept: Vec<String> = Vec::new();
            let mut i: usize = 0;
            while i < n
                invariant
                    n == self.listeners@.len(),
                    ls == str_seq_view(self.listeners@),
                    ls.len() == n,
                    forall|j: int| 0 <= j < n ==> #[trigger] ls[j] == self.listeners@[j]@,
                    i <= n,
                    str_seq_view(kept@) == listeners_drop(ls.take(i as int), msg.from@),
                decreases n - i,
            {
                if !(self.listeners[i] == msg.from) {
                    let c = self.listeners[i].clone();
                    let ghost prev = kept@;
                    kept.push(c);
                    proof {
                        assert(kept@.drop_last() =~= prev);
                        assert(str_seq_view(kept@) == str_seq_view(prev).push(ls[i as int]));
                        lemma_filter_take_push(ls, msg.from@, i as int);
                    }
                } else {
                    proof {
                        lemma_filter_take_push(ls, msg.from@, i as int);
                    }
                }
                i = i + 1;
            }
            proof {
                assert(ls.take(n as int) =~= ls);
            }
            self.listeners = kept;
            let body = crate::message::body1("type", str_value("listenersStopped"));
            Some(Message { from: self.name.clone(), to: Some(msg.from), body })
        } else if chars_eq(&t, &chars_of_str("getRequestContent")) {
            let id = match body_get(&msg.body, "id") {
                Some(JsonValue::Str(s)) => string_from_chars(&s),
                _ => {
                    return None;
                },
            };
            let ghost rs = nr_seq_view(self.requests@);
            proof {
                lemma_nr_view_index(self.requests@);
            }
            let n = self.requests.len();
            let mut i: usize = n;
            while i > 0
                invariant
                    n == self.requests@.len(),
                    rs == nr_seq_view(self.requests@),
                    rs.len() == n,
                    forall|j: int| 0 <= j < n ==> #[trigger] rs[j] == self.requests@[j]@,
                    i <= n,
                    forall|j: int| i <= j < n ==> (#[trigger] rs[j]).request_id != id@,
                decreases i,
            {
                i = i - 1;
                if self.requests[i].request_id == id {
                    proof {
                        lemma_nr_last_idx_suffix(rs, id@, i + 1);
                        assert(rs.take(i + 1).last() == rs[i as int]);
                        assert(nr_last_idx(rs, id@) == i as int);
                    }
                    let content = content_to_value(&self.requests[i]);
                    let mut body = body2("type", str_value("requestContent"), "id", str_value(
                        id.as_str(),
                    ));
                    let ghost prevb = body@;
                    body.push((content_key(), content));
                    proof {
                        assert(body@.drop_last() =~= prevb);
                        assert(crate::message::body_view(body@) =~= seq![
                            ("type"@, JsonVal::Str("requestContent"@)),
                            ("id"@, JsonVal::Str(id@)),
                            ("content"@, content_value(rs[i as int])),
                        ]);
                    }
                    return Some(Message { from: self.name.clone(), to: Some(msg.from), body });
                }
            }
            proof {
                lemma_nr_last_idx_suffix(rs, id@, 0);
                assert(rs.take(0) =~= Seq::<NetworkRequestV>::empty());
            }
            None
        } else {
            None
        }
    }
}

fn content_key() -> (r: String)
    ensures
        r@ == "content"@,
{
    let k: &str = "content";
    k.to_owned()
}

proof fn lemma_filter_take_push(ls: Seq<Seq<char>>, x: Seq<char>, i: int)
    requires
        0 <= i < ls.len(),
    ensures
        listeners_drop(ls.take(i + 1), x) == if ls[i] == x {
            listeners_drop(ls.take(i), x)
        } else {
            listeners_drop(ls.take(i), x).push(ls[i])
        },
{
    let t = ls.take(i + 1);
    assert(t.drop_last() =~= ls.take(i));
    assert(t.last() == ls[i]);
}

proof fn lemma_nr_view_index(s: Seq<NetworkRequest>)
    ensures
        nr_seq_view(s).len() == s.len(),
        forall|j: int| 0 <= j < s.len() ==> #[trigger] nr_seq_view(s)[j] == s[j]@,
    decreases s.len(),
{
    if s.len() > 0 {
        lemma_nr_view_index(s.drop_last());
        assert(forall|j: int| 0 <= j < s.len() - 1 ==> #[trigger] s.drop_last()[j] == s[j]);
        assert(s.last() == s[s.len() - 1]);
    }
}

/// Message views line up with message entries.
pub proof fn lemma_msg_view_index(s: Seq<Message>)
    ensures
        msg_seq_view(s).len() == s.len(),
        forall|j: int| 0 <= j < s.len() ==> #[trigger] msg_seq_view(s)[j] == s[j]@,
    decreases s.len(),
{
    if s.len() > 0 {
        lemma_msg_view_index(s.drop_last());
        assert(forall|j: int| 0 <= j < s.len() - 1 ==> #[trigger] s.drop_last()[j] == s[j]);
        assert(s.last() == s[s.len() - 1]);
    }
}

proof fn lemma_str_view_index(s: Seq<String>)
    ensures
        str_seq_view(s).len() == s.len(),
        forall|j: int| 0 <= j < s.len() ==> #[trigger] str_seq_view(s)[j] == s[j]@,
    decreases s.len(),
{
    if s.len() > 0 {
        lemma_str_view_index(s.drop_last());
        assert(forall|j: int| 0 <= j < s.len() - 1 ==> #[trigger] s.drop_last()[j] == s[j]);
        assert(s.last() == s[s.len() - 1]);
    }
}

/// When no record at or after `i` carries the id, the live index is the
/// live index of the prefix.
proof fn lemma_nr_last_idx_suffix(s: Seq<NetworkRequestV>, id: Seq<char>, i: int)
    requires
        0 <= i <= s.len(),
        forall|j: int| i <= j < s.len() ==> (#[trigger] s[j]).request_id != id,
    ensures
        nr_last_idx(s, id) == nr_last_idx(s.take(i), id),
    decreases s.len() - i,
{
    if i < s.len() {
        assert(forall|j: int| 0 <= j < s.len() - 1 ==> #[trigger] s.drop_last()[j] == s[j]);
        assert(s.last() == s[s.len() - 1]);
        assert(s.last().request_id != id);
        lemma_nr_last_idx_suffix(s.drop_last(), id, i);
        assert(s.drop_last().take(i) =~= s.take(i));
    } else {
        assert(s.take(i) =~= s);
    }
}

/// Two runs agreeing on ids keep the same live index.
proof fn lemma_nr_last_suffix_same(
    a: Seq<NetworkRequestV>,
    b: Seq<NetworkRequestV>,
    id: Seq<char>,
    i: int,
)
    requires
        a.len() == b.len(),
        0 <= i < a.len(),
        nr_last_idx(a, id) == i,
        b[i].request_id == a[i].request_id,
        forall|j: int| 0 <= j < a.len() && j != i ==> #[trigger] b[j] == a[j],
    ensures
        nr_last_idx(b, id) >= 0,
    decreases a.len(),
{
    lemma_nr_last_idx_props(a, id);
    assert(a[i].request_id == id);
    assert(b[i].request_id == id);
    lemma_nr_last_idx_found(b, id, i);
}

/// A live index names a record carrying the id.
proof fn lemma_nr_last_idx_props(s: Seq<NetworkRequestV>, id: Seq<char>)
    ensures
        nr_last_idx(s, id) >= 0 ==> 0 <= nr_last_idx(s, id) < s.len() && s[nr_last_idx(
            s,
            id,
        )].request_id == id,
    decreases s.len(),
{
    if s.len() > 0 && s.last().request_id != id {
        lemma_nr_last_idx_props(s.drop_last(), id);
        if nr_last_idx(s, id) >= 0 {
            assert(s.drop_last()[nr_last_idx(s, id)] == s[nr_last_idx(s, id)]);
        }
    }
}

/// A record carrying the id makes the live index non-negative.
proof fn lemma_nr_last_idx_found(s: Seq<NetworkRequestV>, id: Seq<char>, i: int)
    requires
        0 <= i < s.len(),
        s[i].request_id == id,
    ensures
        nr_last_idx(s, id) >= 0,
    decreases s.len(),
{
    if s.len() > 0 && s.last().request_id != id {
        assert(i < s.len() - 1);
        assert(s.drop_last()[i] == s[i]);
        lemma_nr_last_idx_found(s.drop_last(), id, i);
    }
}

/// After an in-place update of one element, the view updates at that
/// index alone.
proof fn lemma_nr_view_update(prev: Seq<NetworkRequest>, cur: Seq<NetworkRequest>, i: int)
    requires
        0 <= i < prev.len(),
        cur == prev.update(i, cur[i]),
        cur.len() == prev.len(),
    ensures
        nr_seq_view(cur) == nr_seq_view(prev).update(i, cur[i]@),
{
    lemma_nr_view_index(prev);
    lemma_nr_view_index(cur);
    assert forall|j: int| 0 <= j < cur.len() implies #[trigger] nr_seq_view(cur)[j]
        == nr_seq_view(prev).update(i, cur[i]@)[j] by {
        if j != i {
            assert(cur[j] == prev[j]);
        }
    }
    assert(nr_seq_view(cur) =~= nr_seq_view(prev).update(i, cur[i]@));
}

fn content_to_value(r: &NetworkRequest) -> (v: JsonValue)
    ensures
        jv(v) == content_value(r@),
{
    let mut req = new_members();
    push_member(&mut req, "url", str_value(r.url.as_str()));
    push_member(&mut req, "method", str_value(r.method.as_str()));
    push_member(&mut req, "headers", hdrs_to_value(&r.headers));
    proof {
        assert(jv_members(req@) =~= request_members(r@));
    }
    let mut resp = new_members();
    match r.status {
        Some(s) => push_member(&mut resp, "status", JsonValue::UInt(s as u64)),
        None => push_member(&mut resp, "status", JsonValue::Null),
    }
    match &r.status_text {
        Some(s) => push_member(&mut resp, "statusText", str_value(s.as_str())),
        None => push_member(&mut resp, "statusText", JsonValue::Null),
    }
    match &r.response_headers {
        Some(h) => push_member(&mut resp, "headers", hdrs_to_value(h)),
        None => push_member(&mut resp, "headers", JsonValue::Null),
    }
    match &r.response_body {
        Some(b) => push_member(&mut resp, "content", bytes_to_value(b)),
        None => push_member(&mut resp, "content", JsonValue::Null),
    }
    proof {
        assert(jv_members(resp@) =~= response_members(r@));
    }
    let mut top = new_members();
    push_member(&mut top, "request", JsonValue::Obj(req));
    push_member(&mut top, "response", JsonValue::Obj(resp));
    proof {
        assert(jv_members(top@) =~= match content_value(r@) {
            JsonVal::Obj(x) => x,
            _ => Seq::empty(),
        });
    }
    JsonValue::Obj(top)
}

#[verifier::loop_isolation(false)]
fn hdrs_to_value(h: &Vec<(String, String)>) -> (v: JsonValue)
    ensures
        jv(v) == hdrs_value(hdr_view(h@)),
{
    let n = h.len();
    let mut ms = new_members();
    let mut i: usize = 0;
    while i < n
        invariant
            n == h@.len(),
            i <= n,
            jv_members(ms@) == hdr_members(hdr_view(h@.take(i as int))),
        decreases n - i,
    {
        push_member(&mut ms, h[i].0.as_str(), str_value(h[i].1.as_str()));
        proof {
            let tk = h@.take(i + 1);
            assert(tk.drop_last() =~= h@.take(i as int));
            assert(tk.last() == h@[i as int]);
            let hv = hdr_view(tk);
            assert(hv.drop_last() =~= hdr_view(h@.take(i as int)));
            assert(hv.last() == (h@[i as int].0@, h@[i as int].1@));
            assert(hdr_members(hv) =~= hdr_members(hv.drop_last()).push(
                (hv.last().0, JsonVal::Str(hv.last().1)),
            ));
        }
        i = i + 1;
    }
    proof {
        assert(h@.take(n as int) =~= h@);
    }
    JsonValue::Obj(ms)
}

#[verifier::loop_isolation(false)]
fn bytes_to_value(b: &Vec<u8>) -> (v: JsonValue)
    ensures
        jv(v) == bytes_value(b@),
{
    let n = b.len();
    let mut items: Vec<JsonValue> = Vec::new();
    let mut i: usize = 0;
    while i < n
        invariant
            n == b@.len(),
            i <= n,
            crate::json::jv_seq(items@) == byte_items(b@.take(i as int)),
        decreases n - i,
    {
        let x = JsonValue::UInt(b[i] as u64);
        let ghost gx = jv(x);
        let ghost prev = items@;
        items.push(x);
        proof {
            crate::json::lemma_jv_seq_push(prev, gx);
            assert(crate::json::jv_seq(prev.push(x)) == crate::json::jv_seq(prev).push(gx));
            let tk = b@.take(i + 1);
            assert(tk.drop_last() =~= b@.take(i as int));
            assert(tk.last() == b@[i as int]);
        }
        i = i + 1;
    }
    proof {
        assert(b@.take(n as int) =~= b@);
    }
    JsonValue::Arr(items)
}

} // verus!
