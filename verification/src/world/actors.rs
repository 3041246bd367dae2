//! Actors come and go: allocation, ownership, and the end of their slots.
use vstd::prelude::*;
use std::sync::Arc;
use super::living;
use super::{Actor, ActorView, World, WorldView};
use crate::clock::Instant;
use crate::expiry::ActorDeadlines;
use crate::failures::FailureRecord;
use crate::held;
use crate::operations::OpsView;
use crate::ordered;
use crate::types::{ActorRef, EndpointKind, Error, Lifecycle};

verus! {

/// The most owners that an actor may have above it.
pub const MAX_OWNERS: usize = 128;

/// An actor that just got its slot.
pub open spec fn fresh_actor(
    reference: ActorRef,
    ready_order: u64,
    kind: EndpointKind,
    parent: Option<ActorRef>,
) -> ActorView {
    ActorView {
        reference,
        ready_order,
        kind,
        state: Lifecycle::Starting,
        parent,
        children: Seq::empty(),
        queue: Seq::empty(),
        staged: Seq::empty(),
        in_flight: false,
        control_in_flight: false,
        notification: None,
        pending_failures: 0,
        reported_failure: None,
        native_tasks: 0,
        python_done: kind == EndpointKind::Native,
        drain_root: None,
        drain_deadline: None,
        publication_cutoff: None,
        drain_timed_out: false,
        errors: 0,
        last_error: None,
        component: None,
    }
}

/// The children but one.
pub open spec fn without_child(children: Seq<ActorRef>, r: ActorRef) -> Seq<ActorRef> {
    children.filter(|c: ActorRef| c != r)
}

pub open spec fn capped_sum(a: u64, b: u64) -> u64 {
    if a + b > u64::MAX {
        u64::MAX
    } else {
        (a + b) as u64
    }
}

/// The later of two failures.
pub open spec fn latest(
    current: Option<Arc<FailureRecord>>,
    candidate: Option<Arc<FailureRecord>>,
) -> Option<Arc<FailureRecord>> {
    match candidate {
        Some(c) => match current {
            Some(old) => if old.sequence < c.sequence {
                candidate
            } else {
                current
            },
            None => candidate,
        },
        None => current,
    }
}

pub(crate) fn latest_of(
    current: &Option<Arc<FailureRecord>>,
    candidate: &Option<Arc<FailureRecord>>,
) -> (r: Option<Arc<FailureRecord>>)
    ensures
        r == latest(*current, *candidate),
{
    match candidate {
        Some(c) => match current {
            Some(old) => if old.sequence < c.sequence {
                Some(c.clone())
            } else {
                Some(old.clone())
            },
            None => Some(c.clone()),
        },
        None => match current {
            Some(old) => Some(old.clone()),
            None => None,
        },
    }
}

impl WorldView {
    /// Why the owners above an actor forbid another one below it.
    pub open spec fn depth_fault(self, r: ActorRef, depth: nat) -> Option<Error>
        decreases self.order(r),
    {
        match self.at(r).parent {
            None => None,
            Some(p) => if depth + 1 > MAX_OWNERS {
                Some(Error::LimitExceeded)
            } else if !self.valid(p) {
                Some(self.stale(p))
            } else if self.order(p) < self.order(r) {
                self.depth_fault(p, depth + 1)
            } else {
                Some(Error::StaleReference)
            },
        }
    }

    pub open spec fn next_slot(self) -> u32 {
        if self.free.len() > 0 {
            self.free.last()
        } else {
            self.actors.len() as u32
        }
    }

    /// The reference that the next actor gets.
    pub open spec fn next_ref(self) -> ActorRef {
        ActorRef {
            world: self.id,
            slot: self.next_slot(),
            generation: if self.free.len() > 0 {
                (self.actors[self.free.last() as int].reference.generation + 1) as u64
            } else {
                1
            },
        }
    }

    /// Why an allocation is refused.
    pub open spec fn refuses_actor(self, parent: Option<ActorRef>) -> Option<Error> {
        if self.live() >= self.cfg.max_actors {
            Some(Error::LimitExceeded)
        } else if parent is Some && !self.valid(parent->0) {
            Some(self.stale(parent->0))
        } else if parent is Some && !super::is_open(self.at(parent->0).state) {
            Some(Error::ActorStopped)
        } else if parent is Some && self.depth_fault(parent->0, 1) is Some {
            self.depth_fault(parent->0, 1)
        } else if self.next_ready_order == u64::MAX {
            Some(Error::LimitExceeded)
        } else if self.free.len() > 0 && self.actors[self.free.last() as int].reference.generation
            == u64::MAX {
            Some(Error::LimitExceeded)
        } else {
            None
        }
    }

    /// Why a caller is refused an actor.
    pub open spec fn refuses_allocation(self, parent: Option<ActorRef>) -> Option<Error> {
        if self.closed {
            Some(Error::ActorStopped)
        } else {
            self.refuses_actor(parent)
        }
    }

    /// The World with one more actor in it, not yet announced.
    pub open spec fn seated(self, kind: EndpointKind, parent: Option<ActorRef>) -> WorldView {
        let r = self.next_ref();
        let actor = fresh_actor(r, self.next_ready_order, kind, parent);
        let added = WorldView {
            actors: if self.free.len() > 0 {
                self.actors.update(r.slot as int, actor)
            } else {
                self.actors.push(actor)
            },
            free: if self.free.len() > 0 {
                self.free.drop_last()
            } else {
                self.free
            },
            next_ready_order: (self.next_ready_order + 1) as u64,
            ..self
        };
        match parent {
            Some(p) => added.put(
                p,
                ActorView { children: added.at(p).children.push(r), ..added.at(p) },
            ),
            None => added,
        }
    }

    pub open spec fn allocated(self, kind: EndpointKind, parent: Option<ActorRef>) -> WorldView {
        let r = self.next_ref();
        self.seated(kind, parent).refreshed(r).marked(r)
    }

    /// Whether nothing holds an actor that stops.
    pub open spec fn can_retire(self, r: ActorRef) -> bool {
        let a = self.at(r);
        &&& a.state == Lifecycle::Stopping
        &&& !a.in_flight
        &&& !a.control_in_flight
        &&& a.notification is None
        &&& a.native_tasks == 0
        &&& a.python_done
        &&& forall|k: int|
            0 <= k < a.children.len() ==> self.child_done(#[trigger] a.children[k])
    }

    pub open spec fn child_done(self, c: ActorRef) -> bool {
        !self.valid(c) || self.at(c).state == Lifecycle::Stopped
    }

    /// The slot of an actor that stopped is free again.
    pub open spec fn retired(self, r: ActorRef) -> WorldView {
        WorldView {
            free: self.free.push(r.slot),
            ..self
        }.put(r, ActorView { state: Lifecycle::Stopped, ..self.at(r) })
    }

    /// An owner takes over what a retired child leaves.
    pub open spec fn bereaved(self, p: ActorRef, r: ActorRef) -> WorldView {
        let owner = self.at(p);
        let child = self.at(r);
        self.put(
            p,
            ActorView {
                children: without_child(owner.children, r),
                drain_timed_out: owner.drain_timed_out || child.drain_timed_out,
                errors: capped_sum(owner.errors, child.errors),
                last_error: latest(owner.last_error, child.last_error),
                ..owner
            },
        )
    }

    /// After an actor that stops was looked at: once nothing holds it, its slot
    /// is freed and its owner is looked at in turn.
    #[verifier::opaque]
    pub open spec fn finalized(self, r: ActorRef) -> WorldView
        decreases self.order(r),
    {
        let seen = self.refreshed(r).marked(r);
        if !self.valid(r) || !seen.can_retire(r) {
            seen
        } else {
            let gone = seen.retired(r).refreshed(r);
            let settled = gone.with_ops(gone.ops.owner_retired(r));
            match self.at(r).parent {
                Some(p) => {
                    let told = if settled.valid(p) {
                        settled.bereaved(p, r)
                    } else {
                        settled
                    };
                    if told.order(p) < self.order(r) {
                        told.finalized(p)
                    } else {
                        told
                    }
                },
                None => settled,
            }
        }
    }

    /// Whether two states of a World have the same actors in the same slots.
    pub open spec fn same_roster(self, other: WorldView) -> bool {
        &&& self.id == other.id
        &&& self.cfg == other.cfg
        &&& self.next_ready_order == other.next_ready_order
        &&& self.actors.len() == other.actors.len()
        &&& forall|i: int|
            0 <= i < self.actors.len() ==> {
                &&& (#[trigger] self.actors[i]).reference == other.actors[i].reference
                &&& self.actors[i].ready_order == other.actors[i].ready_order
                &&& self.actors[i].parent == other.actors[i].parent
                &&& self.actors[i].kind == other.actors[i].kind
            }
    }
}

pub proof fn lemma_same_roster(v: WorldView, n: WorldView, r: ActorRef)
    requires
        n.same_roster(v),
    ensures
        n.valid(r) == v.valid(r),
        n.order(r) == v.order(r),
        n.valid(r) ==> n.at(r).parent == v.at(r).parent && n.at(r).kind == v.at(r).kind,
{
    if (r.slot as int) < n.actors.len() {
        assert(n.actors[r.slot as int].reference == v.actors[r.slot as int].reference);
    }
}

/// Giving payloads back touches nothing but the budget.
pub proof fn lemma_releasing_all(v: WorldView, shares: Seq<u64>)
    ensures
        v.releasing_all(shares) == (WorldView { budget: v.releasing_all(shares).budget, ..v }),
    decreases shares.len(),
{
    if shares.len() > 0 {
        lemma_releasing_all(v, shares.drop_last());
    }
}

/// Another state of the operations touches nothing else but the budget.
pub proof fn lemma_with_ops(v: WorldView, ops: OpsView)
    ensures
        v.with_ops(ops) == (WorldView {
            budget: v.with_ops(ops).budget,
            ops: (OpsView { dropped: Seq::empty(), ..ops }),
            ..v
        }),
{
    lemma_releasing_all(
        WorldView { ops: OpsView { dropped: Seq::empty(), ..ops }, ..v },
        ops.dropped,
    );
}

proof fn lemma_finalized_roster(v: WorldView, r: ActorRef)
    ensures
        v.finalized(r).same_roster(v),
    decreases v.order(r),
{
    reveal(WorldView::finalized);
    let seen = v.refreshed(r).marked(r);
    if !(!v.valid(r) || !seen.can_retire(r)) {
        let gone = seen.retired(r).refreshed(r);
        let settled = gone.with_ops(gone.ops.owner_retired(r));
        lemma_with_ops(gone, gone.ops.owner_retired(r));
        assert(settled.same_roster(v));
        match v.at(r).parent {
            Some(p) => {
                let told = if settled.valid(p) {
                    settled.bereaved(p, r)
                } else {
                    settled
                };
                assert(told.same_roster(v));
                if told.order(p) < v.order(r) {
                    lemma_finalized_roster(told, p);
                }
            },
            None => {},
        }
    }
}

/// After an actor freed its slot and its owner took over what it leaves.
spec fn taken_leave(v: WorldView, r: ActorRef) -> WorldView {
    let freed = v.retired(r);
    match v.at(r).parent {
        Some(p) => if freed.valid(p) {
            freed.bereaved(p, r)
        } else {
            freed
        },
        None => freed,
    }
}

/// An owner sits in another slot than what it owns.
proof fn lemma_apart(v: WorldView, r: ActorRef)
    requires
        v.sound(),
        v.valid(r),
    ensures
        v.at(r).reference == r,
        v.at(r).parent matches Some(p) ==> v.valid(p) ==> p.slot != r.slot && v.at(p).reference == p
            && v.order(p) < v.order(r),
{
    super::lemma_placed(v, r.slot as int);
    match v.at(r).parent {
        Some(p) => {
            if v.valid(p) {
                super::lemma_placed(v, p.slot as int);
            }
        },
        None => {},
    }
}

/// An actor that leaves owns nothing and is listed by nobody any more.
proof fn lemma_kin_left(v: WorldView, r: ActorRef)
    requires
        v.sound(),
        v.kin(),
        v.valid(r),
        v.can_retire(r),
    ensures
        taken_leave(v, r).kin(),
{
    reveal(WorldView::kin);
    lemma_apart(v, r);
    let s = r.slot as int;
    let n = taken_leave(v, r);
    assert(v.actors[s].children.len() == 0) by {
        if v.actors[s].children.len() > 0 {
            assert(v.owned(v.actors[s].children[0], v.actors[s].reference));
            assert(v.child_done(v.at(r).children[0]));
        }
    }
    match v.at(r).parent {
        Some(p) => {
            assert(v.owning(v.actors[s].parent->0, v.actors[s].reference));
        },
        None => {},
    }
    assert(n.actors.len() == v.actors.len());
    assert forall|x: ActorRef| #[trigger] n.valid(x) == v.valid(x) by {}
    assert forall|i: int, k: int|
        0 <= i < n.actors.len() && 0 <= k < n.actors[i].children.len() implies n.owned(
        #[trigger] n.actors[i].children[k],
        n.actors[i].reference,
    ) by {
        let c = n.actors[i].children[k];
        lemma_without_child(v.actors[i].children, r);
        assert(n.actors[i].children.contains(c));
        assert(v.actors[i].children.contains(c));
        let j = v.actors[i].children.index_of(c);
        assert(v.owned(v.actors[i].children[j], v.actors[i].reference));
        super::lemma_placed(v, c.slot as int);
        if c.slot == r.slot {
            assert(c == r);
            super::lemma_placed(v, i);
            assert(v.at(r).parent == Some(v.actors[i].reference));
        }
    }
    assert forall|i: int|
        0 <= i < n.actors.len() && (#[trigger] n.actors[i]).state != Lifecycle::Stopped
            && n.actors[i].parent is Some implies n.owning(
        n.actors[i].parent->0,
        n.actors[i].reference,
    ) by {
        let q = v.actors[i].parent->0;
        let own = v.actors[i].reference;
        assert(v.owning(q, own));
        assert(i != s);
        super::lemma_placed(v, i);
        if q.slot == r.slot {
            assert(v.actors[s].children.contains(own));
        }
        lemma_without_child(v.at(q).children, r);
    }
}

proof fn lemma_living_left(v: WorldView, r: ActorRef)
    requires
        v.sound(),
        v.living(),
        v.valid(r),
        v.can_retire(r),
    ensures
        taken_leave(v, r).living(),
{
    lemma_apart(v, r);
    living::lemma_living_frame(v, taken_leave(v, r));
}

/// What stays of a list of children.
pub(super) proof fn lemma_without_child(children: Seq<ActorRef>, r: ActorRef)
    ensures
        forall|c: ActorRef| #[trigger]
            without_child(children, r).contains(c) <==> children.contains(c) && c != r,
    decreases children.len(),
{
    reveal(Seq::filter);
    if children.len() > 0 {
        let rest = children.drop_last();
        let last = children.last();
        lemma_without_child(rest, r);
        let kept = without_child(children, r);
        let fewer = without_child(rest, r);
        assert(kept == if last != r {
            fewer.push(last)
        } else {
            fewer
        });
        assert forall|c: ActorRef| #[trigger] kept.contains(c) <==> children.contains(c) && c != r by {
            assert(fewer.contains(c) <==> rest.contains(c) && c != r);
            if children.contains(c) {
                let k = children.index_of(c);
                if k < rest.len() {
                    assert(rest[k] == c);
                }
            }
            if rest.contains(c) {
                assert(children[rest.index_of(c)] == c);
            }
            if last != r {
                assert(kept.last() == last);
                if fewer.contains(c) {
                    assert(kept[fewer.index_of(c)] == c);
                }
                if kept.contains(c) && c != last {
                    assert(fewer[kept.index_of(c)] == c);
                }
            }
        }
    }
}

proof fn lemma_released_alike(v: WorldView, n: WorldView, shares: Seq<u64>)
    requires
        v.budget == n.budget,
    ensures
        v.releasing_all(shares).budget == n.releasing_all(shares).budget,
    decreases shares.len(),
{
    if shares.len() > 0 {
        lemma_released_alike(v, n, shares.drop_last());
    }
}

/// What an owner takes over does not depend on when the operations end.
proof fn lemma_left_in_turn(v: WorldView, r: ActorRef)
    requires
        v.sound(),
        v.valid(r),
        v.at(r).parent is Some,
    ensures
        ({
            let gone = v.retired(r).refreshed(r);
            let settled = gone.with_ops(gone.ops.owner_retired(r));
            let p = v.at(r).parent->0;
            let told = if settled.valid(p) {
                settled.bereaved(p, r)
            } else {
                settled
            };
            let left = taken_leave(v, r).refreshed(r);
            &&& told == left.with_ops(left.ops.owner_retired(r))
            &&& told.same_roster(v)
        }),
{
    lemma_apart(v, r);
    let p = v.at(r).parent->0;
    let freed = v.retired(r);
    let gone = freed.refreshed(r);
    let ops = gone.ops.owner_retired(r);
    let settled = gone.with_ops(ops);
    lemma_with_ops(gone, ops);
    let left = taken_leave(v, r).refreshed(r);
    lemma_with_ops(left, ops);
    assert(freed.valid(p) == v.valid(p));
    assert(settled.valid(p) == v.valid(p));
    assert(taken_leave(v, r).at(r) == freed.at(r));
    assert(!freed.executable(r));
    assert(!taken_leave(v, r).executable(r));
    assert(left.python_ready == gone.python_ready);
    lemma_released_alike(
        WorldView { ops: OpsView { dropped: Seq::empty(), ..ops }, ..gone },
        WorldView { ops: OpsView { dropped: Seq::empty(), ..ops }, ..left },
        ops.dropped,
    );
    let told = if settled.valid(p) {
        settled.bereaved(p, r)
    } else {
        settled
    };
    assert(told.actors =~= left.with_ops(ops).actors);
    assert(told =~= left.with_ops(ops));
}

/// A slot that is freed keeps the World sound.
proof fn lemma_retired(v: WorldView, r: ActorRef)
    requires
        v.sound(),
        v.valid(r),
        v.at(r).state != Lifecycle::Stopped,
    ensures
        v.retired(r).sound(),
{
    let n = v.retired(r);
    let i = r.slot as int;
    super::lemma_placed(v, i);
    super::lemma_sound_parts(v);
    reveal(WorldView::sound);
    assert forall|x: ActorRef| #[trigger] n.valid(x) == v.valid(x) by {}
    assert forall|x: ActorRef| #[trigger] n.order(x) == v.order(x) by {
        assert(n.valid(x) == v.valid(x));
    }
    assert forall|k: int| 0 <= k < n.actors.len() implies n.placed(
        k,
        #[trigger] n.actors[k],
    ) by {
        assert(v.placed(k, v.actors[k]));
        let a = n.actors[k];
        assert forall|c: int| 0 <= c < a.children.len() implies n.younger(
            #[trigger] a.children[c],
            a.ready_order,
        ) by {
            assert(v.younger(v.actors[k].children[c], v.actors[k].ready_order));
        }
    }
    assert forall|k: int| 0 <= k < n.free.len() implies (#[trigger] n.free[k] as int)
        < n.actors.len() && n.actors[n.free[k] as int].state == Lifecycle::Stopped by {
        if k < v.free.len() {
            assert(v.free[k] == n.free[k]);
        }
    }
    assert forall|k: int|
        0 <= k < n.actors.len() && (#[trigger] n.actors[k]).state
            == Lifecycle::Stopped implies n.free.contains(k as u32) by {
        if k == i {
            assert(n.free[v.free.len() as int] == k as u32);
        } else {
            assert(v.actors[k].state == Lifecycle::Stopped);
            let j = v.free.index_of(k as u32);
            assert(n.free[j] == k as u32);
        }
    }
    assert forall|k: int, j: int| 0 <= k < j < n.free.len() implies #[trigger] n.free[k]
        != #[trigger] n.free[j] by {
        if j == v.free.len() {
            assert(v.actors[v.free[k] as int].state == Lifecycle::Stopped);
        } else {
            assert(v.free[k] != v.free[j]);
        }
    }
}

impl World {
    /// Whether the children of an actor have all stopped.
    fn children_done(&self, i: usize) -> (r: bool)
        requires
            self.steady(),
            i < self.actors@.len(),
        ensures
            r == forall|k: int|
                0 <= k < self@.actors[i as int].children.len() ==> self@.child_done(
                    #[trigger] self@.actors[i as int].children[k],
                ),
    {
        let ghost children = self@.actors[i as int].children;
        assert(children == self.actors@[i as int].children@);
        let mut k: usize = 0;
        while k < self.actors[i].children.len()
            invariant
                self.steady(),
                i < self.actors@.len(),
                children == self.actors@[i as int].children@,
                children == self@.actors[i as int].children,
                k <= children.len(),
                forall|j: int| 0 <= j < k ==> self@.child_done(#[trigger] children[j]),
            decreases children.len() - k,
        {
            let child: ActorRef = self.actors[i].children[k];
            let done: bool = match self.locate(child) {
                Ok(c) => self.actors[c].state == Lifecycle::Stopped,
                Err(_) => true,
            };
            if !done {
                assert(!self@.child_done(children[k as int]));
                return false;
            }
            k += 1;
        }
        true
    }

    /// Frees the slot of an actor that stopped.
    fn retire(&mut self, i: usize)
        requires
            old(self).steady(),
            i < old(self).actors@.len(),
            old(self)@.actors[i as int].state != Lifecycle::Stopped,
        ensures
            final(self).loose(),
            final(self)@ == old(self)@.retired(old(self)@.actors[i as int].reference),
    {
        let ghost v = self@;
        proof {
            super::lemma_placed(v, i as int);
            super::lemma_sound_parts(v);
        }
        let ghost r = v.actors[i as int].reference;
        let slot: u32 = self.actors[i].reference.slot;
        self.actors[i].state = Lifecycle::Stopped;
        self.free.push(slot);
        proof {
            let n = v.retired(r);
            assert(self@.actors =~= n.actors);
            assert(self@ =~= n);
            lemma_retired(v, r);
            assert forall|x: ActorRef| #[trigger] n.valid(x) == v.valid(x) by {}
            reveal(World::exact_but);
            assert forall|k: int| 0 <= k < self.actors@.len() implies (
            #[trigger] self.actors@[k]).wf() by {
                assert(old(self).actors@[k].wf());
            }
            assert forall|x: ActorRef| (x.slot as int) < n.actors.len() implies (
            #[trigger] n.at(x)).first_deadline() == v.at(x).first_deadline() && n.at(x).staged
                == v.at(x).staged && n.at(x).reference == v.at(x).reference by {}
            assert forall|s: int| 0 <= s < n.actors.len() implies (
            #[trigger] n.actors[s]).staged == v.actors[s].staged && n.actors[s].reference
                == v.actors[s].reference by {}
        }
    }

    /// An owner takes over what a retired child leaves.
    fn inherit(&mut self, p: usize, child: usize)
        requires
            old(self).loose(),
            p < old(self).actors@.len(),
            child < old(self).actors@.len(),
        ensures
            final(self).loose(),
            final(self)@ == old(self)@.bereaved(
                old(self)@.actors[p as int].reference,
                old(self)@.actors[child as int].reference,
            ),
    {
        let ghost v = self@;
        proof {
            super::lemma_placed(v, p as int);
            super::lemma_placed(v, child as int);
        }
        let r = self.actors[child].reference;
        let timed_out = self.actors[child].drain_timed_out;
        let errors: u64 = self.actors[child].errors;
        let last = latest_of(&self.actors[p].last_error, &self.actors[child].last_error);
        let mut kept: Vec<ActorRef> = Vec::new();
        let ghost children = v.actors[p as int].children;
        let mut k: usize = 0;
        proof {
            assert(children == self.actors@[p as int].children@);
            assert(children.take(0) =~= Seq::<ActorRef>::empty());
            reveal(Seq::filter);
        }
        while k < self.actors[p].children.len()
            invariant
                p < self.actors@.len(),
                children == self.actors@[p as int].children@,
                k <= children.len(),
                kept@ == without_child(children.take(k as int), r),
                forall|j: int| 0 <= j < kept@.len() ==> children.contains(#[trigger] kept@[j]),
            decreases children.len() - k,
        {
            proof {
                reveal(Seq::filter);
                assert(children.take(k + 1).drop_last() =~= children.take(k as int));
                assert(children.take(k + 1).last() == children[k as int]);
            }
            let c: ActorRef = self.actors[p].children[k];
            if c != r {
                let ghost before = kept@;
                kept.push(c);
                proof {
                    assert(children.contains(c));
                    assert forall|j: int| 0 <= j < kept@.len() implies children.contains(
                        #[trigger] kept@[j],
                    ) by {
                        if j < before.len() {
                            assert(kept@[j] == before[j]);
                        }
                    }
                }
            }
            k += 1;
        }
        proof {
            assert(children.take(k as int) =~= children);
            assert(without_child(children, r) == kept@);
        }
        let a = self.actor_mut(p);
        a.children = kept;
        a.drain_timed_out = a.drain_timed_out || timed_out;
        a.errors = a.errors.saturating_add(errors);
        a.last_error = last;
        proof {
            let n = v.bereaved(v.actors[p as int].reference, v.actors[child as int].reference);
            assert(self@.actors =~= n.actors);
        }
    }

    /// Looks at an actor that may have stopped, and at its owners.
    pub(super) fn finalize(&mut self, r: ActorRef)
        requires
            old(self).steady(),
        ensures
            final(self).steady(),
            final(self)@ == old(self)@.finalized(r),
            final(self)@.same_roster(old(self)@),
        decreases old(self)@.order(r),
    {
        proof {
            reveal(WorldView::finalized);
        }
        let ghost v = self@;
        proof {
            lemma_finalized_roster(v, r);
        }
        self.refresh(r);
        self.mark(r);
        let i = match self.locate(r) {
            Ok(i) => i,
            Err(_) => return,
        };
        let ghost seen = self@;
        let done = self.actors[i].state == Lifecycle::Stopping && !self.actors[i].in_flight
            && !self.actors[i].control_in_flight && self.actors[i].notification.is_none()
            && self.actors[i].native_tasks == 0 && self.actors[i].python_done
            && self.children_done(i);
        assert(done == seen.can_retire(r));
        if !done {
            return;
        }
        let parent = self.actors[i].parent;
        self.retire(i);
        match parent {
            Some(p) => {
                match self.locate(p) {
                    Ok(k) => self.inherit(k, i),
                    Err(_) => {},
                }
            },
            None => {},
        }
        proof {
            super::lemma_placed(seen, i as int);
            assert(self@ == taken_leave(seen, r));
            lemma_kin_left(seen, r);
            lemma_living_left(seen, r);
        }
        self.refresh(r);
        self.retire_operations(r);
        match parent {
            Some(p) => {
                proof {
                    lemma_left_in_turn(seen, r);
                    lemma_same_roster(v, self@, p);
                    lemma_same_roster(v, self@, r);
                }
                self.finalize(p);
            },
            None => {},
        }
    }

    /// Ends and forgets the operations of an actor.
    fn retire_operations(&mut self, owner: ActorRef)
        requires
            old(self).steady(),
        ensures
            final(self).steady(),
            final(self)@ == old(self)@.with_ops(old(self)@.ops.owner_retired(owner)),
    {
        let ghost v = self@;
        let ghost prior = *self;
        let _n = self.operations.retire_owner(owner);
        proof {
            v.ops.lemma_owner_retired(owner);
            prior.lemma_operations();
            super::endings::lemma_retired_all(v.ops, ordered::sorted(v.ops.owned(owner)));
            self.lemma_ops_changed(prior);
        }
        self.settle();
    }
}

/// The World with a new actor in a free or a new slot.
spec fn housed(v: WorldView, kind: EndpointKind, parent: Option<ActorRef>) -> WorldView {
    let r = v.next_ref();
    let actor = fresh_actor(r, v.next_ready_order, kind, parent);
    WorldView {
        actors: if v.free.len() > 0 {
            v.actors.update(r.slot as int, actor)
        } else {
            v.actors.push(actor)
        },
        free: if v.free.len() > 0 {
            v.free.drop_last()
        } else {
            v.free
        },
        next_ready_order: (v.next_ready_order + 1) as u64,
        ..v
    }
}

proof fn lemma_housed(v: WorldView, kind: EndpointKind, parent: Option<ActorRef>)
    requires
        v.sound(),
        v.refuses_actor(parent) is None,
    ensures
        housed(v, kind, parent).sound(),
        (v.next_slot() as int) <= v.actors.len(),
        v.free.len() > 0 ==> (v.next_slot() as int) < v.actors.len(),
        housed(v, kind, parent).valid(v.next_ref()),
        !v.valid(v.next_ref()),
        forall|x: ActorRef|
            x.slot != v.next_slot() ==> #[trigger] housed(v, kind, parent).valid(x) == v.valid(x),
{
    reveal(WorldView::sound);
    let r = v.next_ref();
    let s = r.slot as int;
    let n = housed(v, kind, parent);
    if v.free.len() > 0 {
        let last = v.free.len() - 1;
        assert((v.free[last] as int) < v.actors.len());
        assert(v.actors[s].state == Lifecycle::Stopped);
        assert(v.placed(s, v.actors[s]));
    }
    assert forall|x: ActorRef| x.slot != r.slot implies #[trigger] n.valid(x) == v.valid(x) by {}
    assert forall|x: ActorRef| v.known(x) implies #[trigger] n.known(x) by {}
    assert forall|x: ActorRef| v.known(x) && x.slot == r.slot implies !#[trigger] n.valid(x) by {}
    assert forall|x: ActorRef| x.slot != r.slot implies #[trigger] n.order(x) == v.order(x) by {
        assert(n.valid(x) == v.valid(x));
    }
    assert(held::queue_costs(Seq::empty()) =~= Seq::<usize>::empty());
    assert(held::staged_costs(Seq::empty()) =~= Seq::<usize>::empty());
    assert(n.actors.len() <= n.cfg.max_actors) by {
        if v.free.len() == 0 {
            assert(v.live() == v.actors.len());
        }
    }
    assert forall|k: int| 0 <= k < n.actors.len() implies n.placed(k, #[trigger] n.actors[k]) by {
        if k == s {
            match parent {
                Some(p) => {
                    assert(v.valid(p));
                    assert(v.placed(p.slot as int, v.actors[p.slot as int]));
                    assert(v.known(p));
                    assert(p.slot != r.slot);
                    assert(n.order(p) == v.order(p));
                },
                None => {},
            }
        } else {
            assert(v.placed(k, v.actors[k]));
            let a = n.actors[k];
            assert(a == v.actors[k]);
            match a.parent {
                Some(p) => {
                    assert(n.known(p));
                    if n.valid(p) {
                        assert(p.slot != r.slot);
                        assert(n.order(p) == v.order(p));
                    }
                },
                None => {},
            }
            assert forall|c: int| 0 <= c < a.children.len() implies n.younger(
                #[trigger] a.children[c],
                a.ready_order,
            ) by {
                let x = a.children[c];
                assert(v.younger(x, a.ready_order));
                assert(n.known(x));
                if n.valid(x) {
                    assert(x.slot != r.slot);
                    assert(n.order(x) == v.order(x));
                }
            }
        }
    }
    assert forall|i: int, j: int| 0 <= i < j < n.actors.len() implies (
    #[trigger] n.actors[i]).ready_order != (#[trigger] n.actors[j]).ready_order by {
        if i != s {
            assert(v.placed(i, v.actors[i]));
        }
        if j != s {
            assert(v.placed(j, v.actors[j]));
        }
        if i != s && j != s {
            assert(v.actors[i].ready_order != v.actors[j].ready_order);
        }
    }
    assert forall|k: int| 0 <= k < n.free.len() implies (#[trigger] n.free[k] as int)
        < n.actors.len() && n.actors[n.free[k] as int].state == Lifecycle::Stopped by {
        assert(n.free[k] == v.free[k]);
        assert((v.free[k] as int) < v.actors.len());
        if v.free.len() > 0 {
            assert(v.free[k] != v.free[v.free.len() - 1]);
        }
    }
    assert forall|k: int|
        0 <= k < n.actors.len() && (#[trigger] n.actors[k]).state
            == Lifecycle::Stopped implies n.free.contains(k as u32) by {
        assert(k != s);
        assert(v.actors[k].state == Lifecycle::Stopped);
        let j = v.free.index_of(k as u32);
        assert(v.free[j] == k as u32);
        assert(n.free[j] == k as u32);
    }
    assert forall|x: ActorRef| #[trigger] n.services.leases.dom().contains(x) implies {
        let lease = n.services.leases[x];
        &&& lease.scope == x
        &&& n.known(x)
        &&& n.known(lease.service)
        &&& n.valid(x) && n.valid(lease.service) ==> n.order(lease.service) < n.order(x)
    } by {
        let lease = v.services.leases[x];
        assert(v.services.leases.dom().contains(x));
        assert(n.known(x) && n.known(lease.service));
        if n.valid(x) && n.valid(lease.service) {
            assert(x.slot != r.slot && lease.service.slot != r.slot);
            assert(n.order(x) == v.order(x));
            assert(n.order(lease.service) == v.order(lease.service));
        }
    }
}

/// An owner may take in a younger actor.
proof fn lemma_adopted(v: WorldView, i: int, r: ActorRef)
    requires
        v.sound(),
        0 <= i < v.actors.len(),
        v.younger(r, v.actors[i].ready_order),
    ensures
        (WorldView {
            actors: v.actors.update(
                i,
                (ActorView { children: v.actors[i].children.push(r), ..v.actors[i] }),
            ),
            ..v
        }).sound(),
{
    reveal(WorldView::sound);
    let b = ActorView { children: v.actors[i].children.push(r), ..v.actors[i] };
    let n = WorldView { actors: v.actors.update(i, b), ..v };
    assert forall|x: ActorRef| #[trigger] n.valid(x) == v.valid(x) by {}
    assert forall|x: ActorRef| #[trigger] n.order(x) == v.order(x) by {
        assert(n.valid(x) == v.valid(x));
    }
    assert forall|k: int| 0 <= k < n.actors.len() implies n.placed(k, #[trigger] n.actors[k]) by {
        assert(v.placed(k, v.actors[k]));
        let a = n.actors[k];
        assert forall|c: int| 0 <= c < a.children.len() implies n.younger(
            #[trigger] a.children[c],
            a.ready_order,
        ) by {
            if c < v.actors[k].children.len() {
                assert(a.children[c] == v.actors[k].children[c]);
                assert(v.younger(v.actors[k].children[c], v.actors[k].ready_order));
            }
        }
    }
}

/// Whether an actor stays in its slot between two states, with what it owned.
spec fn stays(v: WorldView, n: WorldView, x: ActorRef) -> bool {
    &&& n.valid(x)
    &&& n.at(x).state == v.at(x).state
    &&& n.at(x).parent == v.at(x).parent
    &&& n.at(x).reference == v.at(x).reference
    &&& forall|c: ActorRef| #[trigger]
        v.at(x).children.contains(c) ==> n.at(x).children.contains(c)
}

/// A new actor takes no slot from one that has not stopped.
proof fn lemma_seated(v: WorldView, kind: EndpointKind, parent: Option<ActorRef>, x: ActorRef)
    requires
        v.sound(),
        v.refuses_actor(parent) is None,
        v.valid(x),
        v.at(x).state != Lifecycle::Stopped,
    ensures
        x.slot != v.next_slot(),
        stays(v, v.seated(kind, parent), x),
{
    lemma_housed(v, kind, parent);
    let n = v.seated(kind, parent);
    if v.free.len() > 0 {
        lemma_free_slot(v, v.free.len() - 1);
    }
    match parent {
        Some(p) => {
            lemma_free_fresh(v, kind, parent);
            if p.slot == x.slot {
                assert forall|c: ActorRef| #[trigger] v.at(x).children.contains(c) implies n.at(
                    x,
                ).children.contains(c) by {
                    let k = v.at(x).children.index_of(c);
                    assert(n.at(x).children[k] == c);
                }
            }
        },
        None => {},
    }
}

/// The slot that is taken next is free, or the first behind all others.
proof fn lemma_vacant(v: WorldView)
    requires
        v.sound(),
        v.live() < v.cfg.max_actors,
    ensures
        v.free.len() > 0 ==> (v.next_ref().slot as int) < v.actors.len()
            && v.actors[v.next_ref().slot as int].state == Lifecycle::Stopped,
        v.free.len() == 0 ==> v.next_ref().slot == v.actors.len(),
{
    reveal(WorldView::sound);
    if v.free.len() > 0 {
        assert(v.free[v.free.len() - 1] == v.free.last());
    }
}

/// Seating an actor fills its slot and adds it to the children of its owner; no
/// other slot changes.
pub(super) proof fn lemma_seat(v: WorldView, kind: EndpointKind, parent: Option<ActorRef>)
    requires
        v.sound(),
        v.refuses_actor(parent) is None,
    ensures
        ({
            let r = v.next_ref();
            let n = v.seated(kind, parent);
            &&& !v.valid(r)
            &&& (r.slot as int) < n.actors.len()
            &&& n.actors[r.slot as int] == fresh_actor(
                r,
                v.next_ready_order,
                kind,
                parent,
            )
            &&& parent matches Some(p) ==> {
                &&& p.slot != r.slot
                &&& (p.slot as int) < v.actors.len()
                &&& n.actors[p.slot as int] == (ActorView {
                    children: v.actors[p.slot as int].children.push(r),
                    ..v.actors[p.slot as int]
                })
            }
            &&& forall|i: int|
                0 <= i < v.actors.len() && i != r.slot && (parent matches Some(p) ==> i != p.slot)
                    ==> n.actors[i] == v.actors[i]
            &&& v.actors.len() <= n.actors.len() <= v.actors.len() + 1
            &&& n.actors.len() > v.actors.len() ==> r.slot == v.actors.len()
            &&& n == (WorldView {
                actors: n.actors,
                free: n.free,
                next_ready_order: n.next_ready_order,
                ..v
            })
        }),
{
    lemma_vacant(v);
    match parent {
        Some(p) => {
            assert(p.slot != v.next_ref().slot);
        },
        None => {},
    }
}

/// A new actor sits in its slot, listed by its owner.
pub(super) proof fn lemma_newcomer(v: WorldView, kind: EndpointKind, parent: Option<ActorRef>)
    requires
        v.sound(),
        v.refuses_actor(parent) is None,
    ensures
        ({
            let n = v.seated(kind, parent);
            let r = v.next_ref();
            &&& n.valid(r)
            &&& n.at(r) == fresh_actor(r, v.next_ready_order, kind, parent)
            &&& parent matches Some(p) ==> {
                &&& p.slot != r.slot
                &&& v.at(p).reference == p
                &&& n.at(p).children == v.at(p).children.push(r)
                &&& n.owning(p, r)
            }
            &&& forall|i: int|
                0 <= i < n.actors.len() && i != r.slot ==> {
                    &&& i < v.actors.len()
                    &&& (#[trigger] n.actors[i]).reference == v.actors[i].reference
                    &&& n.actors[i].state == v.actors[i].state
                    &&& n.actors[i].parent == v.actors[i].parent
                    &&& n.actors[i].children == v.actors[i].children || (parent is Some && i
                        == parent->0.slot)
                }
        }),
{
    lemma_seat(v, kind, parent);
    let n = v.seated(kind, parent);
    let r = v.next_ref();
    match parent {
        Some(p) => {
            super::lemma_placed(v, p.slot as int);
            assert(n.at(p).children[v.at(p).children.len() as int] == r);
        },
        None => {},
    }
}

/// A new actor is listed by its owner, and nobody has listed its slot.
proof fn lemma_kin_seated(v: WorldView, kind: EndpointKind, parent: Option<ActorRef>)
    requires
        v.sound(),
        v.kin(),
        v.refuses_actor(parent) is None,
    ensures
        v.seated(kind, parent).kin(),
{
    reveal(WorldView::kin);
    let n = v.seated(kind, parent);
    let r = v.next_ref();
    lemma_newcomer(v, kind, parent);
    assert forall|i: int, k: int|
        0 <= i < n.actors.len() && 0 <= k < n.actors[i].children.len() implies n.owned(
        #[trigger] n.actors[i].children[k],
        n.actors[i].reference,
    ) by {
        lemma_listed(v, kind, parent, i, k);
    }
    assert forall|i: int|
        0 <= i < n.actors.len() && (#[trigger] n.actors[i]).state != Lifecycle::Stopped
            && n.actors[i].parent is Some implies n.owning(
        n.actors[i].parent->0,
        n.actors[i].reference,
    ) by {
        if i == r.slot {
            assert(n.at(r) == n.actors[i]);
        } else {
            let q = v.actors[i].parent->0;
            assert(v.owning(q, v.actors[i].reference));
            lemma_seated(v, kind, parent, q);
        }
    }
}

/// Who was there keeps what it held when a new actor comes.
proof fn lemma_entries_seated(v: WorldView, kind: EndpointKind, parent: Option<ActorRef>, i: int)
    requires
        v.sound(),
        v.refuses_actor(parent) is None,
        0 <= i < v.actors.len(),
        i != v.next_slot(),
    ensures
        v.seated(kind, parent).actors[i].same_entries(v.actors[i]),
{
    lemma_housed(v, kind, parent);
    if parent is Some {
        lemma_free_fresh(v, kind, parent);
    }
}

/// A new actor comes below one that lives, and takes part in nothing yet.
proof fn lemma_living_seated(v: WorldView, kind: EndpointKind, parent: Option<ActorRef>)
    requires
        v.sound(),
        v.living(),
        v.refuses_actor(parent) is None,
    ensures
        v.seated(kind, parent).living(),
{
    reveal(WorldView::living);
    let n = v.seated(kind, parent);
    let r = v.next_ref();
    lemma_newcomer(v, kind, parent);
    assert forall|x: ActorRef| v.lives(x) implies #[trigger] n.lives(x) by {
        lemma_seated(v, kind, parent, x);
    }
    assert forall|i: int|
        0 <= i < n.actors.len() && super::is_ended(
            (#[trigger] n.actors[i]).state,
        ) implies n.actors[i].queue.len() == 0 && n.actors[i].staged.len() == 0 by {
        if i == r.slot {
            assert(n.at(r) == n.actors[i]);
        } else {
            assert(super::is_ended(v.actors[i].state));
            lemma_entries_seated(v, kind, parent, i);
        }
    }
    assert forall|i: int|
        0 <= i < n.actors.len() && !super::is_ended((#[trigger] n.actors[i]).state)
            && n.actors[i].parent is Some implies n.lives(n.actors[i].parent->0) by {
        if i == r.slot {
            assert(n.at(r) == n.actors[i]);
            assert(v.lives(parent->0));
        } else {
            assert(v.lives(v.actors[i].parent->0));
        }
    }
    assert forall|id: u64| #[trigger] n.subs.dom().contains(id) implies n.route_lives(n.subs[id]) by {
        assert(v.route_lives(v.subs[id]));
    }
    assert forall|s: ActorRef| #[trigger] n.services.records.dom().contains(s) implies n.serves(
        s,
    ) by {
        assert(v.serves(s));
        lemma_seated(v, kind, parent, s);
    }
    assert forall|s: ActorRef| #[trigger] n.services.leases.dom().contains(s) implies n.scopes(
        s,
        n.services.leases[s].service,
    ) by {
        let service = v.services.leases[s].service;
        assert(v.scopes(s, service));
        lemma_seated(v, kind, parent, s);
        if n.valid(service) {
            super::joining::lemma_seat_shape(v, kind, parent);
            assert(v.known(service)) by {
                reveal(WorldView::sound);
            }
            assert(service.slot != r.slot);
            assert(n.actors[service.slot as int].parent == v.actors[service.slot as int].parent);
        }
    }
}

proof fn lemma_listed(v: WorldView, kind: EndpointKind, parent: Option<ActorRef>, i: int, k: int)
    requires
        v.sound(),
        v.kin(),
        v.refuses_actor(parent) is None,
        0 <= i < v.seated(kind, parent).actors.len(),
        0 <= k < v.seated(kind, parent).actors[i].children.len(),
    ensures
        v.seated(kind, parent).owned(
            v.seated(kind, parent).actors[i].children[k],
            v.seated(kind, parent).actors[i].reference,
        ),
{
    reveal(WorldView::kin);
    let n = v.seated(kind, parent);
    let r = v.next_ref();
    lemma_newcomer(v, kind, parent);
    let c = n.actors[i].children[k];
    assert(i != r.slot) by {
        if i == r.slot {
            assert(n.at(r) == n.actors[i]);
        }
    }
    assert(n.actors[i].reference == v.actors[i].reference);
    if k < v.actors[i].children.len() {
        assert(v.actors[i].children[k] == c);
        assert(v.owned(v.actors[i].children[k], v.actors[i].reference));
        lemma_seated(v, kind, parent, c);
    } else {
        assert(c == r);
    }
}

impl World {
    /// Why the owners above an actor forbid another one below it.
    fn depth_fault(&self, parent: ActorRef) -> (r: Option<Error>)
        requires
            self.steady(),
            self@.valid(parent),
        ensures
            r == self@.depth_fault(parent, 1),
    {
        let mut depth: usize = 1;
        let mut current: ActorRef = parent;
        loop
            invariant
                self.steady(),
                self@.valid(current),
                1 <= depth <= MAX_OWNERS,
                self@.depth_fault(parent, 1) == self@.depth_fault(current, depth as nat),
            decreases self@.order(current),
        {
            let i: usize = current.slot as usize;
            proof {
                super::lemma_placed(self@, i as int);
            }
            match self.actors[i].parent {
                None => return None,
                Some(p) => {
                    if depth + 1 > MAX_OWNERS {
                        return Some(Error::LimitExceeded);
                    }
                    match self.locate(p) {
                        Ok(_) => {},
                        Err(e) => return Some(e),
                    }
                    depth = depth + 1;
                    current = p;
                },
            }
        }
    }

    /// Gives an actor a slot.
    fn house(&mut self, kind: EndpointKind, parent: Option<ActorRef>) -> (r: ActorRef)
        requires
            old(self).steady(),
            old(self)@.refuses_actor(parent) is None,
        ensures
            final(self).loose(),
            final(self)@ == housed(old(self)@, kind, parent),
            r == old(self)@.next_ref(),
    {
        let ghost v = self@;
        let ghost n = housed(v, kind, parent);
        proof {
            lemma_housed(v, kind, parent);
            super::lemma_sound_parts(v);
        }
        let order: u64 = self.next_ready_order;
        let (slot, generation): (u32, u64) = match self.free.pop() {
            Some(slot) => {
                let last = self.actors[slot as usize].reference;
                proof {
                    super::lemma_placed(v, slot as int);
                }
                self.event_deadlines.remove(last);
                let _gone = self.staged_actors.remove(&slot);
                (slot, last.generation + 1)
            },
            None => (self.actors.len() as u32, 1),
        };
        let r = ActorRef { world: self.id, slot, generation };
        let actor = Actor {
            reference: r,
            ready_order: order,
            kind,
            state: Lifecycle::Starting,
            parent,
            children: Vec::new(),
            queue: Vec::new(),
            queue_bytes: 0,
            staged: Vec::new(),
            staged_bytes: 0,
            deadlines: ActorDeadlines::new(),
            in_flight: false,
            control_in_flight: false,
            notification: None,
            pending_failures: 0,
            reported_failure: None,
            native_tasks: 0,
            python_done: kind == EndpointKind::Native,
            drain_root: None,
            drain_deadline: None,
            publication_cutoff: None,
            drain_timed_out: false,
            errors: 0,
            last_error: None,
            component: None,
        };
        proof {
            assert(held::queue_costs(actor.queue@) =~= Seq::<usize>::empty());
            assert(held::staged_costs(actor.staged@) =~= Seq::<usize>::empty());
            assert(held::queue_deadlines(actor.queue@) =~= Seq::<Option<Instant>>::empty());
            assert(held::staged_deadlines(actor.staged@) =~= Seq::<Option<Instant>>::empty());
            assert(actor.deadlines@ =~= actor@.deadlines());
            assert(actor@.first_deadline() is None);
        }
        if (slot as usize) < self.actors.len() {
            self.actors[slot as usize] = actor;
        } else {
            self.actors.push(actor);
        }
        self.next_ready_order = order + 1;
        proof {
            assert(self@.actors =~= n.actors);
            assert(self@.free =~= n.free);
            assert(self@ =~= n);
            assert forall|k: int| 0 <= k < self.actors@.len() implies (
            #[trigger] self.actors@[k]).wf() by {
                if k != slot {
                    assert(self.actors@[k] == old(self).actors@[k]);
                }
            }
            reveal(World::exact_but);
            assert forall|x: ActorRef| x.slot != slot implies #[trigger] n.valid(x) == v.valid(x) by {}
            assert forall|x: ActorRef| x.slot != slot && v.valid(x) implies #[trigger] n.at(x) == v.at(
                x,
            ) by {}
            assert forall|x: ActorRef| x.slot == slot implies !(
            #[trigger] self.event_deadlines@.dom().contains(x)) by {
                if old(self).event_deadlines@.dom().contains(x) {
                    assert(v.valid(x));
                }
            }
        }
        r
    }

    /// Makes room for an actor that its owner takes in.
    pub(super) fn allocate_under(&mut self, kind: EndpointKind, parent: Option<ActorRef>) -> (r: Result<
        ActorRef,
        Error,
    >)
        requires
            old(self).steady(),
        ensures
            final(self).steady(),
            old(self)@.refuses_actor(parent) matches Some(e) ==> r == Err::<ActorRef, Error>(e)
                && final(self)@ == old(self)@,
            old(self)@.refuses_actor(parent) is None ==> {
                &&& r == Ok::<ActorRef, Error>(old(self)@.next_ref())
                &&& final(self)@ == old(self)@.allocated(kind, parent)
                &&& final(self)@.valid(old(self)@.next_ref())
            },
    {
        let ghost v = self@;
        match self.actor_refusal(parent) {
            Some(e) => return Err(e),
            None => {},
        }
        let r = self.house(kind, parent);
        proof {
            lemma_housed(v, kind, parent);
        }
        match parent {
            Some(p) => {
                proof {
                    lemma_free_fresh(v, kind, parent);
                    super::lemma_placed(self@, r.slot as int);
                    super::lemma_placed(v, p.slot as int);
                    assert(self@.younger(r, self@.at(p).ready_order));
                }
                self.adopt(p.slot as usize, r);
            },
            None => {},
        }
        assert(self@ == v.seated(kind, parent));
        proof {
            lemma_kin_seated(v, kind, parent);
            lemma_living_seated(v, kind, parent);
        }
        self.refresh(r);
        self.mark(r);
        Ok(r)
    }

    /// Why an allocation is refused.
    fn actor_refusal(&self, parent: Option<ActorRef>) -> (r: Option<Error>)
        requires
            self.steady(),
        ensures
            r == self@.refuses_actor(parent),
    {
        let ghost v = self@;
        proof {
            super::lemma_sound_parts(v);
            self.lemma_free_fits();
        }
        if self.actors.len() - self.free.len() >= self.cfg.max_actors {
            return Some(Error::LimitExceeded);
        }
        match parent {
            Some(p) => {
                let i = match self.locate(p) {
                    Ok(i) => i,
                    Err(e) => return Some(e),
                };
                if self.actors[i].state != Lifecycle::Active && self.actors[i].state
                    != Lifecycle::Starting {
                    return Some(Error::ActorStopped);
                }
                match self.depth_fault(p) {
                    Some(e) => return Some(e),
                    None => {},
                }
            },
            None => {},
        }
        if self.next_ready_order == u64::MAX {
            return Some(Error::LimitExceeded);
        }
        if self.free.len() > 0 {
            let slot: u32 = self.free[self.free.len() - 1];
            proof {
                lemma_free_slot(v, self.free@.len() - 1);
                assert(v.actors[slot as int] == self.actors@[slot as int]@);
            }
            if self.actors[slot as usize].reference.generation == u64::MAX {
                return Some(Error::LimitExceeded);
            }
        }
        None
    }

    /// Enters a younger actor among an actor's children.
    fn adopt(&mut self, k: usize, r: ActorRef)
        requires
            old(self).loose(),
            k < old(self).actors@.len(),
            old(self)@.younger(r, old(self)@.actors[k as int].ready_order),
        ensures
            final(self).loose(),
            final(self)@ == (WorldView {
                actors: old(self)@.actors.update(
                    k as int,
                    (ActorView {
                        children: old(self)@.actors[k as int].children.push(r),
                        ..old(self)@.actors[k as int]
                    }),
                ),
                ..old(self)@
            }),
    {
        let ghost n = self@;
        proof {
            lemma_adopted(n, k as int, r);
        }
        self.actors[k].children.push(r);
        proof {
            let m = WorldView {
                actors: n.actors.update(
                    k as int,
                    ActorView { children: n.actors[k as int].children.push(r), ..n.actors[k as int] },
                ),
                ..n
            };
            assert(self@.actors =~= m.actors);
            assert(self@ =~= m);
            assert forall|j: int| 0 <= j < self.actors@.len() implies (
            #[trigger] self.actors@[j]).wf() by {
                assert(old(self).actors@[j].wf());
            }
            reveal(World::exact_but);
            assert forall|x: ActorRef| #[trigger] m.valid(x) == n.valid(x) by {}
            assert forall|x: ActorRef| (x.slot as int) < m.actors.len() implies (
            #[trigger] m.at(x)).first_deadline() == n.at(x).first_deadline() && m.at(x).staged
                == n.at(x).staged && m.at(x).reference == n.at(x).reference by {}
            assert forall|j: int| 0 <= j < m.actors.len() implies (#[trigger] m.actors[j]).staged
                == n.actors[j].staged && m.actors[j].reference == n.actors[j].reference by {}
        }
    }

    /// There are no more free slots than slots.
    proof fn lemma_free_fits(self)
        requires
            self.steady(),
        ensures
            self.free@.len() <= self.actors@.len(),
    {
        reveal(WorldView::sound);
        let f = self@.free;
        let n = self@.actors.len() as int;
        assert(f.no_duplicates());
        let within = f.map_values(|s: u32| s as int);
        assert(within.no_duplicates());
        assert forall|i: int| 0 <= i < within.len() implies 0 <= #[trigger] within[i] < n by {
            assert(within[i] == self@.free[i] as int);
        }
        vstd::set_lib::lemma_int_range(0, n);
        within.unique_seq_to_set();
        assert(within.to_set().subset_of(vstd::set_lib::set_int_range(0, n))) by {
            assert forall|x: int| within.to_set().contains(x) implies vstd::set_lib::set_int_range(
                0,
                n,
            ).contains(x) by {
                let i = within.index_of(x);
                assert(within[i] == x);
            }
        }
        vstd::set_lib::lemma_len_subset(within.to_set(), vstd::set_lib::set_int_range(0, n));
    }

    /// Makes an actor, which starts once it is activated.
    pub fn allocate(&mut self, kind: EndpointKind, parent: Option<ActorRef>) -> (r: Result<
        ActorRef,
        Error,
    >)
        requires
            old(self).inv(),
        ensures
            final(self).inv(),
            old(self)@.refuses_allocation(parent) matches Some(e) ==> r == Err::<ActorRef, Error>(
                e,
            ) && final(self)@ == old(self)@,
            old(self)@.refuses_allocation(parent) is None ==> r == Ok::<ActorRef, Error>(
                old(self)@.next_ref(),
            ) && final(self)@ == old(self)@.allocated(kind, parent),
    {
        proof {
            if self@.refuses_allocation(parent) is None {
                self.lemma_sound();
                self.lemma_kin();
                self.lemma_living();
                super::joining::lemma_allocated(self@, kind, parent);
            }
        }
        if self.closed {
            return Err(Error::ActorStopped);
        }
        self.allocate_under(kind, parent)
    }
}

/// Who else is there when an actor comes: it is the youngest of all.
pub proof fn lemma_allocated(
    v: WorldView,
    kind: EndpointKind,
    parent: Option<ActorRef>,
    other: ActorRef,
)
    requires
        v.sound(),
        v.refuses_actor(parent) is None,
        v.valid(other),
        v.at(other).state != Lifecycle::Stopped,
    ensures
        ({
            let n = v.allocated(kind, parent);
            let r = v.next_ref();
            &&& n.valid(r)
            &&& n.valid(other)
            &&& n.order(other) < n.order(r)
            &&& n.at(r).state == Lifecycle::Starting
            &&& n.at(r).parent == parent
            &&& n.at(r).children.len() == 0
            &&& n.at(other).parent == v.at(other).parent
            &&& n.services == v.services
        }),
{
    lemma_housed(v, kind, parent);
    let h = housed(v, kind, parent);
    let r = v.next_ref();
    super::lemma_placed(v, other.slot as int);
    assert(other.slot != r.slot) by {
        if v.free.len() > 0 {
            lemma_free_slot(v, v.free.len() - 1);
        }
    }
    match parent {
        Some(p) => {
            lemma_free_fresh(v, kind, parent);
        },
        None => {},
    }
}

proof fn lemma_free_slot(v: WorldView, i: int)
    requires
        v.sound(),
        0 <= i < v.free.len(),
    ensures
        (v.free[i] as int) < v.actors.len(),
        v.actors[v.free[i] as int].state == Lifecycle::Stopped,
{
    reveal(WorldView::sound);
}

/// The owner of a new actor sits elsewhere.
proof fn lemma_free_fresh(v: WorldView, kind: EndpointKind, parent: Option<ActorRef>)
    requires
        v.sound(),
        v.refuses_actor(parent) is None,
        parent is Some,
    ensures
        parent->0.slot != v.next_slot(),
        housed(v, kind, parent).valid(parent->0),
        housed(v, kind, parent).at(parent->0) == v.at(parent->0),
        (parent->0.slot as int) < v.actors.len(),
{
    reveal(WorldView::sound);
    if v.free.len() > 0 {
        assert((v.free[v.free.len() - 1] as int) < v.actors.len());
    }
}

} // verus!
