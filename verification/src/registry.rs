//! The live-actor registry: one owner of every actor in a session.
//!
//! At most one live actor carries an id at any instant: registering a
//! colliding id fails without touching the registry.  Registration order
//! is kept, and lookups resolve an id to the actor registered under it.

use vstd::prelude::*;
use crate::actors::{AnyActor, AnyActorV, actor_id};

verus! {

/// Why a registry operation was refused.
#[derive(Debug, PartialEq, Eq, Structural)]
pub enum RegistryError {
    DuplicateId,
}

/// The registry: live actors in registration order.
#[derive(Debug)]
pub struct ActorRegistry {
    pub actors: Vec<AnyActor>,
}

pub open spec fn actor_seq_view(s: Seq<AnyActor>) -> Seq<AnyActorV>
    decreases s,
{
    if s.len() == 0 {
        Seq::empty()
    } else {
        actor_seq_view(s.drop_last()).push(s.last()@)
    }
}

impl View for ActorRegistry {
    type V = Seq<AnyActorV>;

    open spec fn view(&self) -> Seq<AnyActorV> {
        actor_seq_view(self.actors@)
    }
}

/// Index of the actor registered under an id, or a negative value if the
/// id is not live.
pub open spec fn reg_idx(s: Seq<AnyActorV>, id: Seq<char>) -> int
    decreases s.len(),
{
    if s.len() == 0 {
        -1
    } else if actor_id(s[0]) == id {
        0
    } else {
        let r = reg_idx(s.drop_first(), id);
        if r < 0 {
            -1
        } else {
            r + 1
        }
    }
}

/// Whether an id is live.
pub open spec fn reg_contains(s: Seq<AnyActorV>, id: Seq<char>) -> bool {
    reg_idx(s, id) >= 0
}

/// What registering an actor does: nothing but a refusal on a live id,
/// an append otherwise.
pub open spec fn spec_register(s: Seq<AnyActorV>, a: AnyActorV) -> (Seq<AnyActorV>, bool) {
    if reg_contains(s, actor_id(a)) {
        (s, false)
    } else {
        (s.push(a), true)
    }
}

/// The registered index is in range and carries the id.
pub proof fn lemma_reg_idx_props(s: Seq<AnyActorV>, id: Seq<char>)
    ensures
        reg_idx(s, id) >= 0 ==> 0 <= reg_idx(s, id) < s.len() && actor_id(s[reg_idx(s, id)])
            == id,
        reg_idx(s, id) < 0 ==> forall|k: int| 0 <= k < s.len() ==> actor_id(#[trigger] s[k]) != id,
    decreases s.len(),
{
    if s.len() > 0 && actor_id(s[0]) != id {
        lemma_reg_idx_props(s.drop_first(), id);
        assert(forall|k: int|
            0 <= k < s.drop_first().len() ==> #[trigger] s.drop_first()[k] == s[k + 1]);
        if reg_idx(s, id) < 0 {
            assert forall|k: int| 0 <= k < s.len() implies actor_id(#[trigger] s[k]) != id by {
                if k > 0 {
                    assert(s.drop_first()[k - 1] == s[k]);
                }
            }
        }
    }
}

/// An id absent from a run is found exactly at the end once pushed there.
pub proof fn lemma_reg_idx_push(s: Seq<AnyActorV>, a: AnyActorV)
    requires
        !reg_contains(s, actor_id(a)),
    ensures
        reg_idx(s.push(a), actor_id(a)) == s.len(),
    decreases s.len(),
{
    if s.len() == 0 {
        assert(s.push(a)[0] == a);
    } else {
        assert(s.push(a)[0] == s[0]);
        assert(s.push(a).drop_first() =~= s.drop_first().push(a));
        lemma_reg_idx_push(s.drop_first(), a);
    }
}

/// An id is live in a run plus one actor exactly when it is live in the
/// run or names that actor.
pub proof fn lemma_reg_contains_push(s: Seq<AnyActorV>, a: AnyActorV, id: Seq<char>)
    ensures
        reg_contains(s.push(a), id) <==> (reg_contains(s, id) || actor_id(a) == id),
    decreases s.len(),
{
    if s.len() == 0 {
        assert(s.push(a)[0] == a);
        assert(s.push(a).drop_first() =~= Seq::<AnyActorV>::empty());
        assert(reg_idx(Seq::<AnyActorV>::empty(), id) == -1);
        assert(reg_idx(s, id) == -1);
    } else {
        assert(s.push(a)[0] == s[0]);
        assert(s.push(a).drop_first() =~= s.drop_first().push(a));
        lemma_reg_contains_push(s.drop_first(), a, id);
        if actor_id(s[0]) != id {
            assert(reg_idx(s, id) >= 0 <==> reg_idx(s.drop_first(), id) >= 0);
            assert(reg_idx(s.push(a), id) >= 0 <==> reg_idx(s.drop_first().push(a), id)
                >= 0);
        }
    }
}

/// Registry uniqueness: once an actor is registered under a free id,
/// registering any other actor under that id fails, every registration
/// stands, and the id still resolves to the first actor.
pub proof fn lemma_registry_uniqueness(s: Seq<AnyActorV>, a: AnyActorV, b: AnyActorV)
    requires
        !reg_contains(s, actor_id(a)),
        actor_id(b) == actor_id(a),
    ensures
        ({
            let s1 = spec_register(s, a).0;
            &&& spec_register(s, a).1
            &&& !spec_register(s1, b).1
            &&& spec_register(s1, b).0 == s1
            &&& reg_idx(s1, actor_id(a)) >= 0
            &&& s1[reg_idx(s1, actor_id(a))] == a
        }),
{
    lemma_reg_idx_push(s, a);
    let s1 = s.push(a);
    assert(s1[s.len() as int] == a);
}

impl ActorRegistry {
    pub fn new() -> (r: ActorRegistry)
        ensures
            r@ == Seq::<AnyActorV>::empty(),
    {
        let r = ActorRegistry { actors: Vec::new() };
        proof {
            assert(r@ =~= Seq::<AnyActorV>::empty());
        }
        r
    }

    /// Register a live actor under its own id; a collision with a live id
    /// is refused and changes nothing.
    #[verifier::loop_isolation(false)]
    pub fn register(&mut self, actor: AnyActor) -> (r: Result<(), RegistryError>)
        ensures
            ({
                let (s2, ok) = spec_register(old(self)@, actor@);
                &&& final(self)@ == s2
                &&& ((r matches Ok(_)) <==> ok)
                &&& (r matches Err(e) ==> e == RegistryError::DuplicateId)
            }),
    {
        if self.find_index(actor.name().as_str()).is_some() {
            return Err(RegistryError::DuplicateId);
        }
        let ghost av = actor@;
        let ghost prev = self.actors@;
        self.actors.push(actor);
        proof {
            assert(self.actors@.drop_last() =~= prev);
            assert(actor_seq_view(self.actors@) == actor_seq_view(prev).push(av));
        }
        Ok(())
    }

    /// Remove and hand back the actor under an id, if the id is live.
    #[verifier::loop_isolation(false)]
    pub fn unregister(&mut self, id: &str) -> (r: Option<AnyActor>)
        ensures
            ({
                let j = reg_idx(old(self)@, id@);
                if j >= 0 {
                    final(self)@ == old(self)@.remove(j) && (r matches Some(a) && a@ == old(
                        self,
                    )@[j])
                } else {
                    final(self)@ == old(self)@ && (r matches None)
                }
            }),
    {
        match self.find_index(id) {
            Some(j) => {
                proof {
                    lemma_actor_view_index(self.actors@);
                    lemma_reg_idx_props(actor_seq_view(self.actors@), id@);
                }
                let ghost prev = self.actors@;
                let a = self.actors.remove(j);
                proof {
                    lemma_actor_view_remove(prev, j as int);
                }
                Some(a)
            },
            None => None,
        }
    }

    /// Borrow the actor under an id, if the id is live.
    pub fn lookup(&self, id: &str) -> (r: Option<&AnyActor>)
        ensures
            ({
                let j = reg_idx(self@, id@);
                if j >= 0 {
                    r matches Some(a) && a@ == self@[j]
                } else {
                    r matches None
                }
            }),
    {
        match self.find_index(id) {
            Some(j) => {
                proof {
                    lemma_actor_view_index(self.actors@);
                    lemma_reg_idx_props(actor_seq_view(self.actors@), id@);
                }
                Some(&self.actors[j])
            },
            None => None,
        }
    }

    /// The index of the actor under an id.
    #[verifier::loop_isolation(false)]
    pub fn find_index(&self, id: &str) -> (r: Option<usize>)
        ensures
            ({
                let j = reg_idx(self@, id@);
                if j >= 0 {
                    r matches Some(u) && u as int == j
                } else {
                    r matches None
                }
            }),
    {
        let ghost s = actor_seq_view(self.actors@);
        proof {
            lemma_actor_view_index(self.actors@);
        }
        let ids: String = id.to_owned();
        let n = self.actors.len();
        let mut i: usize = 0;
        while i < n
            invariant
                n == self.actors@.len(),
                s == actor_seq_view(self.actors@),
                s.len() == n,
                ids@ == id@,
                forall|k: int| 0 <= k < n ==> #[trigger] s[k] == self.actors@[k]@,
                i <= n,
                forall|k: int| 0 <= k < i ==> actor_id(#[trigger] s[k]) != id@,
            decreases n - i,
        {
            if self.actors[i].name().eq(&ids) {
                proof {
                    lemma_reg_idx_at(s, id@, i as int);
                }
                return Some(i);
            }
            i = i + 1;
        }
        proof {
            lemma_reg_idx_props(s, id@);
            if reg_idx(s, id@) >= 0 {
                assert(actor_id(s[reg_idx(s, id@)]) == id@);
            }
        }
        None
    }

    /// A snapshot of the live ids, in registration order.
    #[verifier::loop_isolation(false)]
    pub fn list(&self) -> (r: Vec<String>)
        ensures
            r@.len() == self@.len(),
            forall|k: int| 0 <= k < r@.len() ==> (#[trigger] r@[k])@ == actor_id(self@[k]),
    {
        let ghost s = actor_seq_view(self.actors@);
        proof {
            lemma_actor_view_index(self.actors@);
        }
        let n = self.actors.len();
        let mut out: Vec<String> = Vec::new();
        let mut i: usize = 0;
        while i < n
            invariant
                n == self.actors@.len(),
                s == actor_seq_view(self.actors@),
                s.len() == n,
                forall|k: int| 0 <= k < n ==> #[trigger] s[k] == self.actors@[k]@,
                i <= n,
                out@.len() == i,
                forall|k: int| 0 <= k < i ==> (#[trigger] out@[k])@ == actor_id(s[k]),
            decreases n - i,
        {
            out.push(self.actors[i].name().clone());
            i = i + 1;
        }
        out
    }

    /// How many actors are live.
    pub fn len(&self) -> (r: usize)
        ensures
            r == self@.len(),
    {
        proof {
            lemma_actor_view_index(self.actors@);
        }
        self.actors.len()
    }
}

/// Actor views line up with actor entries.
pub proof fn lemma_actor_view_index(s: Seq<AnyActor>)
    ensures
        actor_seq_view(s).len() == s.len(),
        forall|j: int| 0 <= j < s.len() ==> #[trigger] actor_seq_view(s)[j] == s[j]@,
    decreases s.len(),
{
    if s.len() > 0 {
        lemma_actor_view_index(s.drop_last());
        assert(forall|j: int| 0 <= j < s.len() - 1 ==> #[trigger] s.drop_last()[j] == s[j]);
        assert(s.last() == s[s.len() - 1]);
    }
}

/// A prefix free of the id makes a hit at `i` the registered index.
proof fn lemma_reg_idx_at(s: Seq<AnyActorV>, id: Seq<char>, i: int)
    requires
        0 <= i < s.len(),
        actor_id(s[i]) == id,
        forall|k: int| 0 <= k < i ==> actor_id(#[trigger] s[k]) != id,
    ensures
        reg_idx(s, id) == i,
    decreases i,
{
    if i == 0 {
    } else {
        assert(forall|k: int|
            0 <= k < s.drop_first().len() ==> #[trigger] s.drop_first()[k] == s[k + 1]);
        assert(s.drop_first()[i - 1] == s[i]);
        lemma_reg_idx_at(s.drop_first(), id, i - 1);
    }
}

/// Removing one entry removes its view entry.
pub proof fn lemma_actor_view_remove(s: Seq<AnyActor>, j: int)
    requires
        0 <= j < s.len(),
    ensures
        actor_seq_view(s.remove(j)) == actor_seq_view(s).remove(j),
{
    lemma_actor_view_index(s);
    lemma_actor_view_index(s.remove(j));
    assert forall|k: int|
        0 <= k < s.len() - 1 implies #[trigger] actor_seq_view(s.remove(j))[k] == actor_seq_view(
        s,
    ).remove(j)[k] by {
        if k < j {
            assert(s.remove(j)[k] == s[k]);
        } else {
            assert(s.remove(j)[k] == s[k + 1]);
        }
    }
    assert(actor_seq_view(s.remove(j)) =~= actor_seq_view(s).remove(j));
}

/// Updating one entry updates its view entry.
pub proof fn lemma_actor_view_update(prev: Seq<AnyActor>, cur: Seq<AnyActor>, i: int)
    requires
        0 <= i < prev.len(),
        cur == prev.update(i, cur[i]),
        cur.len() == prev.len(),
    ensures
        actor_seq_view(cur) == actor_seq_view(prev).update(i, cur[i]@),
{
    lemma_actor_view_index(prev);
    lemma_actor_view_index(cur);
    assert forall|j: int| 0 <= j < cur.len() implies #[trigger] actor_seq_view(cur)[j]
        == actor_seq_view(prev).update(i, cur[i]@)[j] by {
        if j != i {
            assert(cur[j] == prev[j]);
        }
    }
    assert(actor_seq_view(cur) =~= actor_seq_view(prev).update(i, cur[i]@));
}

} // verus!
