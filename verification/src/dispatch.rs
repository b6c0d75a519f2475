//! The dispatcher: routes one inbound message to its destination actor.
//!
//! A message without a destination goes to the root actor.  An unknown
//! destination is reported and changes nothing: one bad message never
//! takes down a session.  A reply's sender id is forced to the handling
//! actor's own id, so no actor can speak under another's name.

use vstd::prelude::*;
use crate::actors::{AnyActorV, actor_id, spec_handle};
use crate::message::{Message, MsgView, opt_view};
use crate::registry::{ActorRegistry, reg_idx, lemma_actor_view_index, lemma_actor_view_update};

verus! {

/// Why a dispatch failed.
#[derive(Debug, PartialEq, Eq, Structural)]
pub enum DispatchError {
    UnknownActor,
}

/// The id a message is addressed to: its destination, or the root actor
/// for a broadcast.
pub open spec fn dest_id(m: MsgView) -> Seq<char> {
    match m.to {
        Some(t) => t,
        None => "root"@,
    }
}

/// What routing one message does: the registry afterwards, the reply (its
/// sender forced to the handling actor's id), and whether a destination
/// was found.
pub open spec fn spec_route(s: Seq<AnyActorV>, m: MsgView) -> (Seq<AnyActorV>, Option<MsgView>, bool) {
    let j = reg_idx(s, dest_id(m));
    if j < 0 {
        (s, None, false)
    } else {
        let (a2, rep) = spec_handle(s[j], m);
        let rep2 = match rep {
            Some(rm) => Some(MsgView { from: actor_id(a2), ..rm }),
            None => None,
        };
        (s.update(j, a2), rep2, true)
    }
}

/// Unknown actor: a message to a dead or never-live id is dropped and the
/// registry is exactly what it was.
pub proof fn lemma_unknown_actor(s: Seq<AnyActorV>, m: MsgView)
    requires
        reg_idx(s, dest_id(m)) < 0,
    ensures
        spec_route(s, m).0 == s,
        spec_route(s, m).1 matches None,
        !spec_route(s, m).2,
{
}

/// A run of messages folded through the registry, in arrival order.
pub open spec fn run_msgs(s: Seq<AnyActorV>, ms: Seq<MsgView>) -> Seq<AnyActorV>
    decreases ms.len(),
{
    if ms.len() == 0 {
        s
    } else {
        run_msgs(spec_route(s, ms[0]).0, ms.drop_first())
    }
}

/// The messages addressed to one id, in arrival order.
pub open spec fn msgs_to(ms: Seq<MsgView>, id: Seq<char>) -> Seq<MsgView>
    decreases ms.len(),
{
    if ms.len() == 0 {
        Seq::empty()
    } else if dest_id(ms[0]) == id {
        seq![ms[0]] + msgs_to(ms.drop_first(), id)
    } else {
        msgs_to(ms.drop_first(), id)
    }
}

/// Handling a message never changes an actor's id.
proof fn lemma_handle_keeps_id(a: AnyActorV, m: MsgView)
    ensures
        actor_id(spec_handle(a, m).0) == actor_id(a),
{
}

/// Two registries with the same ids in the same slots.
pub open spec fn ids_eq(r1: Seq<AnyActorV>, r2: Seq<AnyActorV>) -> bool {
    r1.len() == r2.len() && forall|k: int|
        0 <= k < r1.len() ==> actor_id(#[trigger] r1[k]) == actor_id(#[trigger] r2[k])
}

proof fn lemma_reg_idx_ids(r1: Seq<AnyActorV>, r2: Seq<AnyActorV>, id: Seq<char>)
    requires
        ids_eq(r1, r2),
    ensures
        reg_idx(r1, id) == reg_idx(r2, id),
    decreases r1.len(),
{
    if r1.len() > 0 {
        assert(actor_id(r1[0]) == actor_id(r2[0]));
        assert(forall|k: int|
            0 <= k < r1.drop_first().len() ==> #[trigger] r1.drop_first()[k] == r1[k + 1]);
        assert(forall|k: int|
            0 <= k < r2.drop_first().len() ==> #[trigger] r2.drop_first()[k] == r2[k + 1]);
        assert(ids_eq(r1.drop_first(), r2.drop_first()));
        lemma_reg_idx_ids(r1.drop_first(), r2.drop_first(), id);
    }
}

proof fn lemma_route_preserves_ids(s: Seq<AnyActorV>, m: MsgView)
    ensures
        ids_eq(s, spec_route(s, m).0),
{
    let j = reg_idx(s, dest_id(m));
    crate::registry::lemma_reg_idx_props(s, dest_id(m));
    if j >= 0 {
        lemma_handle_keeps_id(s[j], m);
    }
}

proof fn lemma_run_preserves_ids(s: Seq<AnyActorV>, ms: Seq<MsgView>)
    ensures
        ids_eq(s, run_msgs(s, ms)),
    decreases ms.len(),
{
    if ms.len() > 0 {
        lemma_route_preserves_ids(s, ms[0]);
        let s1 = spec_route(s, ms[0]).0;
        lemma_run_preserves_ids(s1, ms.drop_first());
        let r = run_msgs(s1, ms.drop_first());
        assert(run_msgs(s, ms) == r);
        assert forall|k: int|
            0 <= k < s.len() implies actor_id(#[trigger] s[k]) == actor_id(r[k]) by {
            assert(actor_id(s[k]) == actor_id(s1[k]));
            assert(actor_id(s1[k]) == actor_id(r[k]));
        }
    }
}

/// What one slot becomes under a run depends only on that slot's actor,
/// given the same ids everywhere.
proof fn lemma_run_slot(
    r1: Seq<AnyActorV>,
    r2: Seq<AnyActorV>,
    ms: Seq<MsgView>,
    id: Seq<char>,
)
    requires
        ids_eq(r1, r2),
        reg_idx(r1, id) >= 0 ==> r1[reg_idx(r1, id)] == r2[reg_idx(r1, id)],
    ensures
        reg_idx(r1, id) >= 0 ==> run_msgs(r1, ms)[reg_idx(r1, id)] == run_msgs(r2, ms)[reg_idx(
            r1,
            id,
        )],
    decreases ms.len(),
{
    if ms.len() > 0 {
        let m = ms[0];
        let j1 = reg_idx(r1, dest_id(m));
        lemma_reg_idx_ids(r1, r2, dest_id(m));
        lemma_reg_idx_ids(r1, r2, id);
        crate::registry::lemma_reg_idx_props(r1, dest_id(m));
        crate::registry::lemma_reg_idx_props(r1, id);
        let s1 = spec_route(r1, m).0;
        let s2 = spec_route(r2, m).0;
        lemma_route_preserves_ids(r1, m);
        lemma_route_preserves_ids(r2, m);
        let ja = reg_idx(r1, id);
        assert(ids_eq(s1, s2)) by {
            assert(forall|k: int|
                0 <= k < s1.len() ==> actor_id(#[trigger] s1[k]) == actor_id(r1[k]));
            assert(forall|k: int|
                0 <= k < s2.len() ==> actor_id(#[trigger] s2[k]) == actor_id(r2[k]));
        }
        lemma_reg_idx_ids(r1, s1, id);
        assert(reg_idx(s1, id) == ja);
        if ja >= 0 {
            if j1 >= 0 {
                if j1 == ja {
                    assert(s1[ja] == s2[ja]);
                } else {
                    assert(s1[ja] == r1[ja]);
                    assert(s2[ja] == r2[ja]);
                    assert(s1[ja] == s2[ja]);
                }
            } else {
                assert(s1 == r1 && s2 == r2);
            }
        }
        lemma_run_slot(s1, s2, ms.drop_first(), id);
    }
}

/// Dispatch ordering: what an actor becomes after a run of messages is
/// exactly what it becomes after just the messages addressed to it, in
/// the order they arrived; traffic to other actors cannot touch it.
pub proof fn lemma_dispatch_ordering(s: Seq<AnyActorV>, ms: Seq<MsgView>, id: Seq<char>)
    ensures
        ids_eq(s, run_msgs(s, ms)),
        reg_idx(s, id) >= 0 ==> run_msgs(s, ms)[reg_idx(s, id)] == run_msgs(
            s,
            msgs_to(ms, id),
        )[reg_idx(s, id)],
    decreases ms.len(),
{
    lemma_run_preserves_ids(s, ms);
    if ms.len() > 0 {
        let m = ms[0];
        let tail = ms.drop_first();
        let s1 = spec_route(s, m).0;
        let ja = reg_idx(s, id);
        lemma_route_preserves_ids(s, m);
        lemma_reg_idx_ids(s, s1, id);
        lemma_dispatch_ordering(s1, tail, id);
        crate::registry::lemma_reg_idx_props(s, dest_id(m));
        crate::registry::lemma_reg_idx_props(s, id);
        if dest_id(m) == id {
            let w = seq![m] + msgs_to(tail, id);
            assert(msgs_to(ms, id) == w);
            assert(w[0] == m);
            assert(w.drop_first() =~= msgs_to(tail, id));
            assert(run_msgs(s, w) == run_msgs(s1, msgs_to(tail, id)));
        } else {
            assert(msgs_to(ms, id) == msgs_to(tail, id));
            if ja >= 0 {
                let j1 = reg_idx(s, dest_id(m));
                assert(s1[ja] == s[ja]) by {
                    if j1 >= 0 {
                        assert(actor_id(s[j1]) == dest_id(m));
                        assert(actor_id(s[ja]) == id);
                        assert(j1 != ja);
                    }
                }
                assert(ids_eq(s1, s)) by {
                    assert(forall|k: int|
                        0 <= k < s1.len() ==> actor_id(#[trigger] s1[k]) == actor_id(s[k]));
                }
                lemma_run_slot(s1, s, msgs_to(tail, id), id);
                assert(reg_idx(s1, id) == ja);
            }
        }
    } else {
        assert(msgs_to(ms, id) == Seq::<MsgView>::empty());
    }
}

/// Route one inbound message through the registry.
pub fn route(reg: &mut ActorRegistry, msg: Message) -> (r: Result<Option<Message>, DispatchError>)
    ensures
        ({
            let (s2, rep, found) = spec_route(old(reg)@, msg@);
            &&& final(reg)@ == s2
            &&& match r {
                Ok(opt) => found && opt_view(opt) == rep,
                Err(e) => !found && e == DispatchError::UnknownActor,
            }
        }),
{
    let dest: String = match &msg.to {
        Some(t) => t.clone(),
        None => root_id(),
    };
    proof {
        assert(dest@ == dest_id(msg@));
    }
    let j = match reg.find_index(dest.as_str()) {
        Some(j) => j,
        None => {
            return Err(DispatchError::UnknownActor);
        },
    };
    proof {
        lemma_actor_view_index(reg.actors@);
        crate::registry::lemma_reg_idx_props(old(reg)@, dest@);
    }
    let ghost prev = reg.actors@;
    let rep = reg.actors[j].handle_message(msg);
    proof {
        lemma_actor_view_update(prev, reg.actors@, j as int);
    }
    match rep {
        Some(mut rm) => {
            let nm = reg.actors[j].name().clone();
            rm.from = nm;
            Ok(Some(rm))
        },
        None => Ok(None),
    }
}

fn root_id() -> (r: String)
    ensures
        r@ == "root"@,
{
    let s: &str = "root";
    s.to_owned()
}

} // verus!
