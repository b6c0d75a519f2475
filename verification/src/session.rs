//! The session: one connection's registry, decoder and outbound queue.
//!
//! A session moves through `Connecting`, `Active`, `Draining` and
//! `Closed`.  While active, stream bytes fed in arbitrary chunks are
//! framed, decoded, dispatched, and any replies are framed onto the
//! outbound queue; a malformed length prefix is fatal and drains the
//! session, while an undecodable payload or an unknown destination only
//! drops that one message.

use vstd::prelude::*;
use crate::actors::{AnyActor, AnyActorV, RootActor, RootActorV, TabActor, TabActorV,
    actor_notices, drained_actor};
use crate::actors::console::{ConsoleActor, ConsoleActorV};
use crate::actors::debugger::{DebuggerActor, DebuggerActorV};
use crate::actors::network::{NetworkActor, NetworkActorV};
use crate::codec::{FrameDecoder, FrameStep, FrameScan, scan_frame, encode_frame,
    lemma_scan_ready_bounds};
use crate::dispatch::{route, spec_route};
use crate::json::{sp_payload, encode_value};
use crate::message::{
    Message,
    MsgView,
    msg_of_value,
    msg_frame,
    msg_text,
    message_to_value,
    message_from_value,
    string_of_bytes,
    string_from_chars,
    bytes_of_string,
    chars_of_str,
};
use crate::registry::{ActorRegistry, reg_contains, spec_register};

verus! {

/// Where a session stands in its life.
#[derive(Debug, PartialEq, Eq, Structural, Clone, Copy)]
pub enum SessionState {
    Connecting,
    Active,
    Draining,
    Closed,
}

/// One live session.
#[derive(Debug)]
pub struct Session {
    pub state: SessionState,
    pub registry: ActorRegistry,
    pub decoder: FrameDecoder,
    pub outbound: Vec<Vec<u8>>,
    pub dropped: u64,
}

pub open spec fn bytes_seq_view(s: Seq<Vec<u8>>) -> Seq<Seq<u8>>
    decreases s,
{
    if s.len() == 0 {
        Seq::empty()
    } else {
        bytes_seq_view(s.drop_last()).push(s.last()@)
    }
}

pub open spec fn opt_seq(m: Option<MsgView>) -> Seq<MsgView> {
    match m {
        Some(x) => seq![x],
        None => Seq::empty(),
    }
}

/// What one frame payload does to the registry, and the reply it
/// produces: a payload that is not UTF-8, not a structured value, not a
/// message, or addressed to nobody live is dropped.
pub open spec fn spec_frame_step(reg: Seq<AnyActorV>, payload: Seq<u8>) -> (Seq<AnyActorV>, Option<
    MsgView,
>) {
    if vstd::utf8::valid_utf8(payload) {
        match sp_payload(vstd::utf8::decode_utf8(payload)) {
            Some(v) => match msg_of_value(v) {
                Some(m) => {
                    let r = spec_route(reg, m);
                    (r.0, r.1)
                },
                None => (reg, None),
            },
            None => (reg, None),
        }
    } else {
        (reg, None)
    }
}

/// Whether a frame payload is dropped without effect: not UTF-8, not a
/// structured value, not a message envelope, or addressed to nobody
/// live.  Such frames are reported through the session's dropped-frame
/// count.
pub open spec fn spec_frame_dropped(reg: Seq<AnyActorV>, payload: Seq<u8>) -> bool {
    if vstd::utf8::valid_utf8(payload) {
        match sp_payload(vstd::utf8::decode_utf8(payload)) {
            Some(v) => match msg_of_value(v) {
                Some(m) => !spec_route(reg, m).2,
                None => true,
            },
            None => true,
        }
    } else {
        true
    }
}

/// A count one higher, held at the ceiling.
pub open spec fn sat_inc(d: u64) -> u64 {
    if d == u64::MAX {
        d
    } else {
        (d + 1) as u64
    }
}

/// The dropped-frame count after a run of frames, counted on from `d`.
pub open spec fn spec_run_dropped(d: u64, reg: Seq<AnyActorV>, fs: Seq<Seq<u8>>) -> u64
    decreases fs.len(),
{
    if fs.len() == 0 {
        d
    } else {
        let st = spec_frame_step(reg, fs[0]);
        let d2 = if spec_frame_dropped(reg, fs[0]) {
            sat_inc(d)
        } else {
            d
        };
        spec_run_dropped(d2, st.0, fs.drop_first())
    }
}

/// Folding a run of frame payloads through the registry: the registry
/// afterwards and the replies, in the order their frames arrived.
pub open spec fn spec_run(reg: Seq<AnyActorV>, fs: Seq<Seq<u8>>) -> (Seq<AnyActorV>, Seq<MsgView>)
    decreases fs.len(),
{
    if fs.len() == 0 {
        (reg, Seq::empty())
    } else {
        let st = spec_frame_step(reg, fs[0]);
        let rest = spec_run(st.0, fs.drop_first());
        (rest.0, opt_seq(st.1) + rest.1)
    }
}

/// The whole frames at the front of a buffer: the frame payloads, the
/// unconsumed tail, and whether the tail is still well-formed (a `false`
/// means the length prefix was malformed, which is fatal).
pub open spec fn frames_of(b: Seq<u8>) -> (Seq<Seq<u8>>, Seq<u8>, bool)
    decreases b.len(),
{
    match scan_frame(b) {
        FrameScan::Ready(p, c) => if 0 < c <= b.len() {
            let rest = frames_of(b.skip(c));
            (seq![p] + rest.0, rest.1, rest.2)
        } else {
            (Seq::empty(), b, false)
        },
        FrameScan::Incomplete => (Seq::empty(), b, true),
        FrameScan::Bad => (Seq::empty(), b, false),
    }
}

/// The queued notifications of every actor, in registry order.
pub open spec fn pending_notices(reg: Seq<AnyActorV>) -> Seq<MsgView>
    decreases reg.len(),
{
    if reg.len() == 0 {
        Seq::empty()
    } else {
        pending_notices(reg.drop_last()) + actor_notices(reg.last())
    }
}

/// The registry with every notification queue emptied.
pub open spec fn drained_reg(reg: Seq<AnyActorV>) -> Seq<AnyActorV>
    decreases reg.len(),
{
    if reg.len() == 0 {
        Seq::empty()
    } else {
        drained_reg(reg.drop_last()).push(drained_actor(reg.last()))
    }
}

proof fn lemma_drained_len(reg: Seq<AnyActorV>)
    ensures
        drained_reg(reg).len() == reg.len(),
    decreases reg.len(),
{
    if reg.len() > 0 {
        lemma_drained_len(reg.drop_last());
    }
}

proof fn lemma_drain_take(rs: Seq<AnyActorV>, i: int)
    requires
        0 <= i < rs.len(),
    ensures
        drained_reg(rs.take(i + 1)) == drained_reg(rs.take(i)).push(drained_actor(rs[i])),
        pending_notices(rs.take(i + 1)) == pending_notices(rs.take(i)) + actor_notices(rs[i]),
{
    let t = rs.take(i + 1);
    assert(t.drop_last() =~= rs.take(i));
    assert(t.last() == rs[i]);
}

/// The wire frames of a run of replies, in order.
pub open spec fn reply_frames(ms: Seq<MsgView>) -> Seq<Seq<u8>>
    decreases ms.len(),
{
    if ms.len() == 0 {
        Seq::empty()
    } else {
        seq![msg_frame(ms[0])] + reply_frames(ms.drop_first())
    }
}

/// The wire frame of one message: its payload text in UTF-8 behind a
/// decimal length prefix counting the payload bytes.
pub fn encode_message(m: &Message) -> (r: Vec<u8>)
    ensures
        r@ == msg_frame(m@),
{
    let v = message_to_value(m);
    let chars = encode_value(&v);
    proof {
        assert(chars@ == msg_text(m@));
    }
    let s = string_from_chars(&chars);
    let bytes = bytes_of_string(&s);
    encode_frame(&bytes)
}

/// Relies on `uuid::Uuid::new_v4` and its `Display` form: a fresh random
/// v4 id, hyphenated, 36 characters long.  The value is random, so
/// nothing more is promised of it.  Should the operating system's
/// randomness source fail, the call panics rather than hand out weak
/// ids: an environmental failure, like running out of memory.
#[verifier::external_body]
fn fresh_uuid() -> (r: String)
    ensures
        r@.len() == 36,
{
    uuid::Uuid::new_v4().to_string()
}

/// A fresh process-unique actor id: the prefix, a hyphen, and a random
/// uuid.
pub fn fresh_actor_id(prefix: &str) -> (r: String)
    ensures
        r@.len() == prefix@.len() + 37,
        r@.subrange(0, prefix@.len() + 1 as int) == prefix@ + "-"@,
{
    let head = vstd::string::StringExecFns::concat(prefix.to_owned(), "-");
    let u = fresh_uuid();
    let r = vstd::string::StringExecFns::concat(head, u.as_str());
    proof {
        reveal_strlit("-");
        assert(r@.subrange(0, prefix@.len() + 1 as int) =~= prefix@ + "-"@);
    }
    r
}

impl Session {
    /// A fresh session: connecting, nothing live, nothing buffered.
    pub fn new() -> (r: Session)
        ensures
            r.state == SessionState::Connecting,
            r.registry@ == Seq::<AnyActorV>::empty(),
            r.decoder@ == Seq::<u8>::empty(),
            bytes_seq_view(r.outbound@) == Seq::<Seq<u8>>::empty(),
            r.dropped == 0,
    {
        let r = Session {
            state: SessionState::Connecting,
            registry: ActorRegistry::new(),
            decoder: FrameDecoder::new(),
            outbound: Vec::new(),
            dropped: 0,
        };
        proof {
            assert(bytes_seq_view(r.outbound@) =~= Seq::<Seq<u8>>::empty());
        }
        r
    }

    /// The eager actors' models, given their ids.
    pub open spec fn eager_actors(ids: Seq<Seq<char>>) -> Seq<AnyActorV> {
        seq![
            AnyActorV::Root(RootActorV { name: "root"@ }),
            AnyActorV::Console(ConsoleActorV { name: ids[1], messages: Seq::empty() }),
            AnyActorV::Debugger(
                DebuggerActorV {
                    name: ids[2],
                    breakpoints: Seq::empty(),
                    paused: false,
                    current_frame: None,
                },
            ),
            AnyActorV::Network(
                NetworkActorV {
                    name: ids[3],
                    requests: Seq::empty(),
                    listeners: Seq::empty(),
                    outbound: Seq::empty(),
                },
            ),
        ]
    }

    /// Register the session's eager actors: the root actor under its
    /// fixed id, then a console, a debugger and a network actor under
    /// fresh ids, pairwise distinct and distinct from the root id.  The
    /// four ids come back in that order; on a registry that held none of
    /// them, all four actors are live afterwards, each under its own id.
    pub fn init_actors(&mut self) -> (ids: Vec<String>)
        ensures
            ids@.len() == 4,
            ids@[0]@ == "root"@,
            ids@[1]@.len() == "console"@.len() + 37,
            ids@[1]@.subrange(0, "console"@.len() + 1 as int) == "console"@ + "-"@,
            ids@[2]@.len() == "debugger"@.len() + 37,
            ids@[2]@.subrange(0, "debugger"@.len() + 1 as int) == "debugger"@ + "-"@,
            ids@[3]@.len() == "network"@.len() + 37,
            ids@[3]@.subrange(0, "network"@.len() + 1 as int) == "network"@ + "-"@,
            ids@[1]@ != ids@[2]@ && ids@[1]@ != ids@[3]@ && ids@[2]@ != ids@[3]@,
            ids@[1]@ != "root"@ && ids@[2]@ != "root"@ && ids@[3]@ != "root"@,
            final(self).state == old(self).state,
            final(self).decoder@ == old(self).decoder@,
            final(self).outbound@ == old(self).outbound@,
            final(self).dropped == old(self).dropped,
            ({
                let ea = Self::eager_actors(
                    seq![ids@[0]@, ids@[1]@, ids@[2]@, ids@[3]@],
                );
                let r0 = spec_register(old(self).registry@, ea[0]);
                let r1 = spec_register(r0.0, ea[1]);
                let r2 = spec_register(r1.0, ea[2]);
                let r3 = spec_register(r2.0, ea[3]);
                &&& final(self).registry@ == r3.0
                &&& ((!reg_contains(old(self).registry@, "root"@) && !reg_contains(
                    old(self).registry@,
                    ids@[1]@,
                ) && !reg_contains(old(self).registry@, ids@[2]@) && !reg_contains(
                    old(self).registry@,
                    ids@[3]@,
                )) ==> final(self).registry@ == old(self).registry@.push(ea[0]).push(
                    ea[1],
                ).push(ea[2]).push(ea[3]) && final(self).registry@.len() == old(
                    self,
                ).registry@.len() + 4)
            }),
    {
        let root = RootActor::new();
        let id0 = root.name().clone();
        let id1 = fresh_actor_id("console");
        let id2 = fresh_actor_id("debugger");
        let id3 = fresh_actor_id("network");
        proof {
            reveal_strlit("root");
            reveal_strlit("console");
            reveal_strlit("debugger");
            reveal_strlit("network");
            lemma_prefixed_ids_differ(id1@, id3@, "console"@, "network"@);
            assert(id1@.len() != id2@.len());
            assert(id2@.len() != id3@.len());
        }
        let console = ConsoleActor::new(id1.clone());
        let dbg = DebuggerActor::new(id2.clone());
        let net = NetworkActor::new(id3.clone());
        let ghost s0 = self.registry@;
        let ghost root_v = AnyActorV::Root(RootActorV { name: "root"@ });
        let ghost con_v = AnyActorV::Console(
            ConsoleActorV { name: id1@, messages: Seq::empty() },
        );
        let ghost dbg_v = AnyActorV::Debugger(
            DebuggerActorV {
                name: id2@,
                breakpoints: Seq::empty(),
                paused: false,
                current_frame: None,
            },
        );
        let ghost net_v = AnyActorV::Network(
            NetworkActorV {
                name: id3@,
                requests: Seq::empty(),
                listeners: Seq::empty(),
                outbound: Seq::empty(),
            },
        );
        let _ = self.registry.register(AnyActor::Root(root));
        let _ = self.registry.register(AnyActor::Console(console));
        let _ = self.registry.register(AnyActor::Debugger(dbg));
        let _ = self.registry.register(AnyActor::Network(net));
        proof {
            if !reg_contains(s0, "root"@) && !reg_contains(s0, id1@) && !reg_contains(
                s0,
                id2@,
            ) && !reg_contains(s0, id3@) {
                let s1 = s0.push(root_v);
                crate::registry::lemma_reg_contains_push(s0, root_v, id1@);
                crate::registry::lemma_reg_contains_push(s0, root_v, id2@);
                crate::registry::lemma_reg_contains_push(s0, root_v, id3@);
                let s2 = s1.push(con_v);
                crate::registry::lemma_reg_contains_push(s1, con_v, id2@);
                crate::registry::lemma_reg_contains_push(s1, con_v, id3@);
                let s3 = s2.push(dbg_v);
                crate::registry::lemma_reg_contains_push(s2, dbg_v, id3@);
            }
        }
        let mut ids: Vec<String> = Vec::new();
        ids.push(id0);
        ids.push(id1);
        ids.push(id2);
        ids.push(id3);
        ids
    }

    /// Create a tab actor for a page and register it under a fresh tab
    /// id, which is returned; the id starts `tab-`, and on a registry
    /// that did not hold it the tab is live afterwards beside every
    /// earlier actor.
    pub fn create_tab(&mut self, url: String) -> (tab_id: String)
        ensures
            tab_id@.len() == "tab"@.len() + 37,
            tab_id@.subrange(0, "tab"@.len() + 1 as int) == "tab"@ + "-"@,
            final(self).state == old(self).state,
            final(self).decoder@ == old(self).decoder@,
            final(self).outbound@ == old(self).outbound@,
            final(self).dropped == old(self).dropped,
            final(self).registry@ == spec_register(
                old(self).registry@,
                AnyActorV::Tab(
                    TabActorV { name: tab_id@, title: "New Tab"@, url: url@ },
                ),
            ).0,
            !reg_contains(old(self).registry@, tab_id@) ==> final(self).registry@ == old(
                self,
            ).registry@.push(
                AnyActorV::Tab(TabActorV { name: tab_id@, title: "New Tab"@, url: url@ }),
            ) && final(self).registry@.len() == old(self).registry@.len() + 1,
    {
        let tab_id = fresh_actor_id("tab");
        let title: String = new_tab_title();
        let tab = TabActor::new(tab_id.clone(), title, url);
        let _ = self.registry.register(AnyActor::Tab(tab));
        tab_id
    }

    /// Enter the active state: the stream is established and reading may
    /// begin.
    pub fn activate(&mut self)
        requires
            old(self).state == SessionState::Connecting,
        ensures
            final(self).state == SessionState::Active,
            final(self).registry@ == old(self).registry@,
            final(self).decoder@ == old(self).decoder@,
            final(self).outbound@ == old(self).outbound@,
            final(self).dropped == old(self).dropped,
    {
        self.state = SessionState::Active;
    }

    /// Buffer one chunk of stream bytes, of any size.
    pub fn feed_bytes(&mut self, chunk: &[u8])
        ensures
            final(self).state == old(self).state,
            final(self).registry@ == old(self).registry@,
            final(self).outbound@ == old(self).outbound@,
            final(self).decoder@ == old(self).decoder@ + chunk@,
            final(self).dropped == old(self).dropped,
    {
        self.decoder.feed(chunk);
    }

    /// Whether bytes of an incomplete frame are still buffered after
    /// pumping: a stream that ends while this holds ended mid-frame, a
    /// truncated frame, which the caller should treat as fatal.
    pub fn has_partial_input(&self) -> (r: bool)
        ensures
            r == (self.decoder@.len() > 0),
    {
        self.decoder.buffered() > 0
    }

    /// How many inbound frames were dropped as unusable (payload not
    /// text, not a structured value, not an envelope, or addressed to
    /// nobody live) since the session began, held at the counter's
    /// ceiling.
    pub fn dropped_frames(&self) -> (r: u64)
        ensures
            r == self.dropped,
    {
        self.dropped
    }

    /// Decode, dispatch and answer every whole frame sitting in the
    /// buffer.  Outside the active state nothing happens.  A malformed
    /// length prefix drains the session; every other bad message is
    /// dropped alone.
    #[verifier::loop_isolation(false)]
    #[verifier::rlimit(100)]
    pub fn pump(&mut self)
        ensures
            ({
                let fo = frames_of(old(self).decoder@);
                let run = spec_run(old(self).registry@, fo.0);
                if old(self).state == SessionState::Active {
                    &&& final(self).registry@ == run.0
                    &&& bytes_seq_view(final(self).outbound@) == bytes_seq_view(
                        old(self).outbound@,
                    ) + reply_frames(run.1)
                    &&& final(self).decoder@ == fo.1
                    &&& final(self).dropped == spec_run_dropped(
                        old(self).dropped,
                        old(self).registry@,
                        fo.0,
                    )
                    &&& final(self).state == if fo.2 {
                        SessionState::Active
                    } else {
                        SessionState::Draining
                    }
                } else {
                    &&& final(self).state == old(self).state
                    &&& final(self).registry@ == old(self).registry@
                    &&& final(self).outbound@ == old(self).outbound@
                    &&& final(self).decoder@ == old(self).decoder@
                    &&& final(self).dropped == old(self).dropped
                }
            }),
    {
        if !(matches!(self.state, SessionState::Active)) {
            return ;
        }
        let ghost fo0 = frames_of(old(self).decoder@);
        let ghost run0 = spec_run(old(self).registry@, fo0.0);
        loop
            invariant
                self.state == SessionState::Active,
                frames_of(self.decoder@).1 == fo0.1,
                frames_of(self.decoder@).2 == fo0.2,
                spec_run(self.registry@, frames_of(self.decoder@).0).0 == run0.0,
                bytes_seq_view(self.outbound@) + reply_frames(
                    spec_run(self.registry@, frames_of(self.decoder@).0).1,
                ) == bytes_seq_view(old(self).outbound@) + reply_frames(run0.1),
                spec_run_dropped(self.dropped, self.registry@, frames_of(self.decoder@).0)
                    == spec_run_dropped(old(self).dropped, old(self).registry@, fo0.0),
            decreases self.decoder@.len(),
        {
            let ghost buf = self.decoder@;
            proof {
                lemma_scan_ready_bounds(buf);
            }
            match self.decoder.try_next() {
                FrameStep::NeedMore => {
                    proof {
                        assert(frames_of(buf).0 =~= Seq::<Seq<u8>>::empty());
                        assert(reply_frames(Seq::<MsgView>::empty()) =~= Seq::<
                            Seq<u8>,
                        >::empty());
                        assert(bytes_seq_view(self.outbound@) + Seq::<Seq<u8>>::empty()
                            =~= bytes_seq_view(self.outbound@));
                    }
                    return ;
                },
                FrameStep::Malformed => {
                    self.state = SessionState::Draining;
                    proof {
                        assert(frames_of(buf).0 =~= Seq::<Seq<u8>>::empty());
                        assert(reply_frames(Seq::<MsgView>::empty()) =~= Seq::<
                            Seq<u8>,
                        >::empty());
                        assert(bytes_seq_view(self.outbound@) + Seq::<Seq<u8>>::empty()
                            =~= bytes_seq_view(self.outbound@));
                        assert(!frames_of(buf).2);
                    }
                    return ;
                },
                FrameStep::Frame(p) => {
                    let ghost c = match scan_frame(buf) {
                        FrameScan::Ready(_, c0) => c0,
                        _ => 0,
                    };
                    proof {
                        assert(self.decoder@ == buf.skip(c));
                        assert(frames_of(buf).0 =~= seq![p@] + frames_of(buf.skip(c)).0);
                        assert(frames_of(buf).1 == frames_of(buf.skip(c)).1);
                        assert(frames_of(buf).2 == frames_of(buf.skip(c)).2);
                    }
                    let ghost reg_before = self.registry@;
                    let ghost fs_rest = frames_of(buf.skip(c)).0;
                    let ghost outb_before = bytes_seq_view(self.outbound@);
                    let ghost d_before = self.dropped;
                    self.process_frame(p);
                    proof {
                        let st = spec_frame_step(reg_before, seq![p@][0]);
                        let whole = seq![p@] + fs_rest;
                        assert(whole[0] == p@);
                        assert(whole.drop_first() =~= fs_rest);
                        assert(spec_run_dropped(d_before, reg_before, whole)
                            == spec_run_dropped(self.dropped, st.0, fs_rest));
                        assert(spec_run(reg_before, whole).0 == spec_run(st.0, fs_rest).0);
                        assert(spec_run(reg_before, whole).1 == opt_seq(st.1) + spec_run(
                            st.0,
                            fs_rest,
                        ).1);
                        lemma_reply_frames_app(opt_seq(st.1), spec_run(st.0, fs_rest).1);
                        lemma_bytes_app(
                            bytes_seq_view(old(self).outbound@),
                            reply_frames(run0.1),
                            outb_before,
                            reply_frames(opt_seq(st.1)),
                            reply_frames(spec_run(st.0, fs_rest).1),
                        );
                    }
                },
            }
        }
    }

    /// Decode and dispatch one frame payload, framing any reply onto the
    /// outbound queue; an unusable frame is counted as dropped.
    fn process_frame(&mut self, payload: Vec<u8>)
        ensures
            ({
                let st = spec_frame_step(old(self).registry@, payload@);
                &&& final(self).registry@ == st.0
                &&& bytes_seq_view(final(self).outbound@) == bytes_seq_view(old(self).outbound@)
                    + reply_frames(opt_seq(st.1))
                &&& final(self).state == old(self).state
                &&& final(self).decoder@ == old(self).decoder@
                &&& final(self).dropped == if spec_frame_dropped(
                    old(self).registry@,
                    payload@,
                ) {
                    sat_inc(old(self).dropped)
                } else {
                    old(self).dropped
                }
            }),
    {
        let ghost st = spec_frame_step(old(self).registry@, payload@);
        let text = match string_of_bytes(&payload) {
            Some(t) => t,
            None => {
                self.bump_dropped();
                proof {
                    lemma_bytes_noreply(old(self).outbound@);
                }
                return ;
            },
        };
        let chars = chars_of_str(text.as_str());
        let value = match crate::json::parse_payload(&chars) {
            Some(v) => v,
            None => {
                self.bump_dropped();
                proof {
                    lemma_bytes_noreply(old(self).outbound@);
                }
                return ;
            },
        };
        let msg = match message_from_value(&value) {
            Some(m) => m,
            None => {
                self.bump_dropped();
                proof {
                    lemma_bytes_noreply(old(self).outbound@);
                }
                return ;
            },
        };
        match route(&mut self.registry, msg) {
            Ok(Some(reply)) => {
                let frame = encode_message(&reply);
                let ghost fv = frame@;
                let ghost prev = self.outbound@;
                self.outbound.push(frame);
                proof {
                    assert(self.outbound@.drop_last() =~= prev);
                    assert(bytes_seq_view(self.outbound@) == bytes_seq_view(prev).push(fv));
                    assert(reply_frames(opt_seq(st.1)) =~= seq![fv]) by {
                        assert(opt_seq(st.1) == seq![reply@]);
                        assert(seq![reply@].drop_first() =~= Seq::<MsgView>::empty());
                        assert(reply_frames(Seq::<MsgView>::empty()) =~= Seq::<Seq<u8>>::empty());
                    }
                    assert(bytes_seq_view(self.outbound@) =~= bytes_seq_view(prev) + seq![fv]);
                }
            },
            Ok(None) => {
                proof {
                    lemma_bytes_noreply(old(self).outbound@);
                }
            },
            Err(_) => {
                self.bump_dropped();
                proof {
                    lemma_bytes_noreply(old(self).outbound@);
                }
            },
        }
    }

    /// Count one more dropped frame, holding at the counter's ceiling.
    fn bump_dropped(&mut self)
        ensures
            final(self).dropped == sat_inc(old(self).dropped),
            final(self).state == old(self).state,
            final(self).registry@ == old(self).registry@,
            final(self).outbound@ == old(self).outbound@,
            final(self).decoder@ == old(self).decoder@,
    {
        if self.dropped < u64::MAX {
            self.dropped = self.dropped + 1;
        }
    }

    /// Hand over everything queued for the wire, leaving the queue empty.
    pub fn take_outbound(&mut self) -> (r: Vec<Vec<u8>>)
        ensures
            r@ == old(self).outbound@,
            final(self).outbound@ == Seq::<Vec<u8>>::empty(),
            final(self).state == old(self).state,
            final(self).registry@ == old(self).registry@,
            final(self).decoder@ == old(self).decoder@,
            final(self).dropped == old(self).dropped,
    {
        let mut out: Vec<Vec<u8>> = Vec::new();
        core::mem::swap(&mut out, &mut self.outbound);
        out
    }

    /// Move every actor's queued unsolicited notifications onto the
    /// outbound queue as wire frames, in registry order, oldest first
    /// within one actor, so that the one writer sends them.
    #[verifier::loop_isolation(false)]
    #[verifier::rlimit(100)]
    pub fn flush_notifications(&mut self)
        ensures
            final(self).state == old(self).state,
            final(self).decoder@ == old(self).decoder@,
            final(self).dropped == old(self).dropped,
            final(self).registry@ == drained_reg(old(self).registry@),
            bytes_seq_view(final(self).outbound@) == bytes_seq_view(old(self).outbound@)
                + reply_frames(pending_notices(old(self).registry@)),
    {
        let ghost rs0 = old(self).registry@;
        let ghost base = bytes_seq_view(old(self).outbound@);
        proof {
            crate::registry::lemma_actor_view_index(self.registry.actors@);
            assert(rs0.take(0) =~= Seq::<AnyActorV>::empty());
            assert(rs0.skip(0) =~= rs0);
            assert(drained_reg(Seq::<AnyActorV>::empty()) + rs0 =~= rs0);
            assert(reply_frames(pending_notices(Seq::<AnyActorV>::empty())) =~= Seq::<
                Seq<u8>,
            >::empty());
            assert(base + Seq::<Seq<u8>>::empty() =~= base);
        }
        let n = self.registry.actors.len();
        let mut i: usize = 0;
        while i < n
            invariant
                n == self.registry.actors@.len(),
                rs0.len() == n,
                i <= n,
                self.state == old(self).state,
                self.decoder@ == old(self).decoder@,
                self.dropped == old(self).dropped,
                self.registry@ == drained_reg(rs0.take(i as int)) + rs0.skip(i as int),
                bytes_seq_view(self.outbound@) == base + reply_frames(
                    pending_notices(rs0.take(i as int)),
                ),
            decreases n - i,
        {
            proof {
                lemma_drained_len(rs0.take(i as int));
                crate::registry::lemma_actor_view_index(self.registry.actors@);
                assert(self.registry@[i as int] == rs0.skip(i as int)[0]);
                assert(rs0.skip(i as int)[0] == rs0[i as int]);
                assert(self.registry.actors@[i as int]@ == rs0[i as int]);
            }
            let ghost prev_actors = self.registry.actors@;
            let msgs = self.registry.actors[i].take_notices();
            let ghost q = crate::actors::network::msg_seq_view(msgs@);
            proof {
                crate::registry::lemma_actor_view_update(
                    prev_actors,
                    self.registry.actors@,
                    i as int,
                );
                crate::actors::network::lemma_msg_view_index(msgs@);
                lemma_drain_take(rs0, i as int);
                lemma_drained_len(rs0.take(i + 1));
                assert(self.registry@ =~= drained_reg(rs0.take(i + 1)) + rs0.skip(i + 1))
                    by {
                    assert(self.registry@ == crate::registry::actor_seq_view(prev_actors).update(
                        i as int,
                        drained_actor(rs0[i as int]),
                    ));
                }
            }
            let ghost outb_mid = bytes_seq_view(self.outbound@);
            let m = msgs.len();
            let mut j: usize = 0;
            while j < m
                invariant
                    m == msgs@.len(),
                    q == crate::actors::network::msg_seq_view(msgs@),
                    q.len() == m,
                    forall|k: int| 0 <= k < m ==> #[trigger] q[k] == msgs@[k]@,
                    j <= m,
                    self.state == old(self).state,
                    self.decoder@ == old(self).decoder@,
                    self.dropped == old(self).dropped,
                    self.registry.actors@.len() == n,
                    self.registry@ == drained_reg(rs0.take(i + 1)) + rs0.skip(i + 1),
                    bytes_seq_view(self.outbound@) == outb_mid + reply_frames(
                        q.take(j as int),
                    ),
                decreases m - j,
            {
                let frame = encode_message(&msgs[j]);
                let ghost fv = frame@;
                let ghost prev = self.outbound@;
                self.outbound.push(frame);
                proof {
                    assert(self.outbound@.drop_last() =~= prev);
                    assert(bytes_seq_view(self.outbound@) == bytes_seq_view(prev).push(fv));
                    assert(q.take(j + 1) =~= q.take(j as int) + seq![q[j as int]]);
                    lemma_reply_frames_app(q.take(j as int), seq![q[j as int]]);
                    assert(reply_frames(seq![q[j as int]]) =~= seq![fv]) by {
                        assert(seq![q[j as int]].drop_first() =~= Seq::<MsgView>::empty());
                        assert(reply_frames(Seq::<MsgView>::empty()) =~= Seq::<
                            Seq<u8>,
                        >::empty());
                    }
                    assert(bytes_seq_view(self.outbound@) =~= outb_mid + reply_frames(
                        q.take(j + 1),
                    ));
                }
                j = j + 1;
            }
            proof {
                assert(q.take(m as int) =~= q);
                lemma_reply_frames_app(pending_notices(rs0.take(i as int)), q);
                assert(bytes_seq_view(self.outbound@) =~= base + reply_frames(
                    pending_notices(rs0.take(i + 1)),
                )) by {
                    assert(pending_notices(rs0.take(i + 1)) == pending_notices(
                        rs0.take(i as int),
                    ) + q);
                    assert((base + reply_frames(pending_notices(rs0.take(i as int))))
                        + reply_frames(q) =~= base + (reply_frames(pending_notices(rs0.take(
                        i as int,
                    ))) + reply_frames(q)));
                }
            }
            i = i + 1;
        }
        proof {
            assert(rs0.take(n as int) =~= rs0);
            assert(rs0.skip(n as int) =~= Seq::<AnyActorV>::empty());
            assert(drained_reg(rs0) + Seq::<AnyActorV>::empty() =~= drained_reg(rs0));
        }
    }

    /// The stream ended or a fatal error struck: stop accepting inbound
    /// frames.
    pub fn drain(&mut self)
        ensures
            final(self).state == SessionState::Draining,
            final(self).registry@ == old(self).registry@,
            final(self).decoder@ == old(self).decoder@,
            final(self).outbound@ == old(self).outbound@,
            final(self).dropped == old(self).dropped,
    {
        self.state = SessionState::Draining;
    }

    /// Tear the session down: every actor is dropped and nothing more
    /// moves.  Terminal.
    pub fn close(&mut self)
        ensures
            final(self).state == SessionState::Closed,
            final(self).registry@ == Seq::<AnyActorV>::empty(),
            final(self).outbound@ == Seq::<Vec<u8>>::empty(),
            final(self).dropped == old(self).dropped,
    {
        self.state = SessionState::Closed;
        self.registry = ActorRegistry::new();
        self.outbound = Vec::new();
        self.decoder = FrameDecoder::new();
    }
}

fn new_tab_title() -> (r: String)
    ensures
        r@ == "New Tab"@,
{
    let s: &str = "New Tab";
    s.to_owned()
}

/// Two ids whose prefixes before the hyphen begin with different
/// characters differ.
proof fn lemma_prefixed_ids_differ(a: Seq<char>, b: Seq<char>, pa: Seq<char>, pb: Seq<char>)
    requires
        pa.len() + 1 <= a.len(),
        pb.len() + 1 <= b.len(),
        a.subrange(0, pa.len() + 1 as int) == pa + "-"@,
        b.subrange(0, pb.len() + 1 as int) == pb + "-"@,
        pa.len() > 0,
        pb.len() > 0,
        pa[0] != pb[0],
    ensures
        a != b,
{
    assert(a.subrange(0, pa.len() + 1 as int)[0] == a[0]);
    assert(b.subrange(0, pb.len() + 1 as int)[0] == b[0]);
    assert((pa + "-"@)[0] == pa[0]);
    assert((pb + "-"@)[0] == pb[0]);
    assert(a[0] != b[0]);
}

proof fn lemma_bytes_noreply(outb: Seq<Vec<u8>>)
    ensures
        bytes_seq_view(outb) == bytes_seq_view(outb) + reply_frames(opt_seq(None::<MsgView>)),
{
    assert(reply_frames(Seq::<MsgView>::empty()) =~= Seq::<Seq<u8>>::empty());
    assert(bytes_seq_view(outb) + Seq::<Seq<u8>>::empty() =~= bytes_seq_view(outb));
}

proof fn lemma_reply_frames_app(a: Seq<MsgView>, b: Seq<MsgView>)
    ensures
        reply_frames(a + b) == reply_frames(a) + reply_frames(b),
    decreases a.len(),
{
    if a.len() == 0 {
        assert(a + b =~= b);
        assert(reply_frames(a) =~= Seq::<Seq<u8>>::empty());
        assert(reply_frames(a) + reply_frames(b) =~= reply_frames(b));
    } else {
        assert((a + b).drop_first() =~= a.drop_first() + b);
        assert((a + b)[0] == a[0]);
        lemma_reply_frames_app(a.drop_first(), b);
        assert(reply_frames(a + b) =~= reply_frames(a) + reply_frames(b));
    }
}

proof fn lemma_bytes_app(
    base: Seq<Seq<u8>>,
    all: Seq<Seq<u8>>,
    cur: Seq<Seq<u8>>,
    first: Seq<Seq<u8>>,
    rest: Seq<Seq<u8>>,
)
    requires
        cur + (first + rest) == base + all,
    ensures
        (cur + first) + rest == base + all,
{
    assert((cur + first) + rest =~= cur + (first + rest));
}

} // verus!
