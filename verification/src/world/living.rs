//! What belongs to whom: routes, operations, publications, services and leases
//! belong to actors that have not ended, and an actor that ended holds nothing.
use vstd::prelude::*;
use super::{ActorView, WorldView};
use crate::operations::{OperationId, OpsView};
use crate::routing;
use crate::routing::Sub;
use crate::types::{ActorRef, Lifecycle};

verus! {

impl WorldView {
    /// Whether an actor is there and has not ended.
    pub open spec fn lives(self, r: ActorRef) -> bool {
        self.valid(r) && !super::is_ended(self.at(r).state)
    }

    pub open spec fn route_lives(self, route: Sub) -> bool {
        self.lives(route.owner) && self.lives(route.source) && self.lives(route.target)
    }

    /// Whether a service lives and has no owner.
    pub open spec fn serves(self, s: ActorRef) -> bool {
        self.lives(s) && self.at(s).parent is None
    }

    /// Whether the scope of a lease lives and has an owner, and the service that
    /// it is on has none.
    pub open spec fn scopes(self, s: ActorRef, service: ActorRef) -> bool {
        &&& self.lives(s)
        &&& self.at(s).parent is Some
        &&& self.valid(service) ==> self.at(service).parent is None
    }

    /// What has ended holds nothing, owns nothing that has not ended, and takes
    /// part in nothing.
    #[verifier::opaque]
    pub open spec fn living(self) -> bool {
        &&& forall|i: int|
            0 <= i < self.actors.len() && super::is_ended((#[trigger] self.actors[i]).state)
                ==> self.actors[i].queue.len() == 0 && self.actors[i].staged.len() == 0
        &&& forall|i: int|
            0 <= i < self.actors.len() && !super::is_ended((#[trigger] self.actors[i]).state)
                && self.actors[i].parent is Some ==> self.lives(self.actors[i].parent->0)
        &&& forall|id: u64| #[trigger]
            self.subs.dom().contains(id) ==> self.route_lives(self.subs[id])
        &&& self.ops_live(self.ops)
        &&& forall|id: u64| #[trigger]
            self.pubs.entries.dom().contains(id) ==> self.lives(self.pubs.entries[id].source)
        &&& forall|s: ActorRef| #[trigger]
            self.services.records.dom().contains(s) ==> self.serves(s)
        &&& forall|s: ActorRef| #[trigger]
            self.services.leases.dom().contains(s) ==> self.scopes(
                s,
                self.services.leases[s].service,
            )
    }

    /// Whether the pending operations of a table belong to actors that live.
    pub open spec fn ops_live(self, ops: OpsView) -> bool {
        forall|id: OperationId| #[trigger]
            ops.has(id) && ops.entry(id) is Pending ==> self.lives(ops.entry(id).ends().owner)
                && self.lives(ops.entry(id).ends().target)
    }
}

/// Whether every pending operation of a table was pending before.
pub open spec fn ops_within(a: OpsView, b: OpsView) -> bool {
    forall|id: OperationId| #[trigger]
        b.has(id) && b.entry(id) is Pending ==> a.has(id) && a.entry(id) is Pending && a.entry(
            id,
        ).ends() == b.entry(id).ends()
}

/// Whether nothing was added that belongs to an actor.
pub open spec fn no_more(v: WorldView, n: WorldView) -> bool {
    &&& forall|id: u64| #[trigger]
        n.subs.dom().contains(id) ==> v.subs.dom().contains(id) && n.subs[id] == v.subs[id]
    &&& ops_within(v.ops, n.ops)
    &&& forall|id: u64| #[trigger]
        n.pubs.entries.dom().contains(id) ==> v.pubs.entries.dom().contains(id)
            && n.pubs.entries[id].source == v.pubs.entries[id].source
    &&& forall|s: ActorRef| #[trigger]
        n.services.records.dom().contains(s) ==> v.services.records.dom().contains(s)
    &&& forall|s: ActorRef| #[trigger]
        n.services.leases.dom().contains(s) ==> v.services.leases.dom().contains(s)
            && n.services.leases[s] == v.services.leases[s]
}

/// Whether the actors stay where they are, ended or not, and those that ended
/// take nothing in.
pub open spec fn same_lives(v: WorldView, n: WorldView) -> bool {
    &&& n.id == v.id
    &&& n.actors.len() == v.actors.len()
    &&& forall|i: int|
        0 <= i < v.actors.len() ==> {
            &&& (#[trigger] n.actors[i]).reference == v.actors[i].reference
            &&& n.actors[i].parent == v.actors[i].parent
            &&& super::is_ended(n.actors[i].state) == super::is_ended(v.actors[i].state)
            &&& super::is_ended(n.actors[i].state) ==> (n.actors[i].queue.len() == 0
                || n.actors[i].queue == v.actors[i].queue) && (n.actors[i].staged.len() == 0
                || n.actors[i].staged == v.actors[i].staged)
        }
}

proof fn lemma_lives_alike(v: WorldView, n: WorldView, r: ActorRef)
    requires
        same_lives(v, n),
    ensures
        n.lives(r) == v.lives(r),
        n.valid(r) == v.valid(r),
        v.valid(r) ==> n.at(r).parent == v.at(r).parent,
{
    if (r.slot as int) < v.actors.len() {
        assert(n.actors[r.slot as int].reference == v.actors[r.slot as int].reference);
    }
}

/// Where nothing is added and nobody ends, what belongs to whom stays.
pub proof fn lemma_living_frame(v: WorldView, n: WorldView)
    requires
        v.living(),
        same_lives(v, n),
        no_more(v, n),
    ensures
        n.living(),
{
    reveal(WorldView::living);
    assert forall|r: ActorRef| #[trigger] n.lives(r) == v.lives(r) by {
        lemma_lives_alike(v, n, r);
    }
    assert forall|id: u64| #[trigger] n.subs.dom().contains(id) implies n.route_lives(n.subs[id]) by {
        assert(v.subs.dom().contains(id));
    }
    assert forall|id: OperationId| #[trigger]
        n.ops.has(id) && n.ops.entry(id) is Pending implies n.lives(n.ops.entry(id).ends().owner)
        && n.lives(n.ops.entry(id).ends().target) by {
        assert(v.ops.has(id));
    }
    assert forall|id: u64| #[trigger] n.pubs.entries.dom().contains(id) implies n.lives(
        n.pubs.entries[id].source,
    ) by {
        assert(v.pubs.entries.dom().contains(id));
    }
    assert forall|s: ActorRef| #[trigger] n.services.records.dom().contains(s) implies n.serves(
        s,
    ) by {
        assert(v.services.records.dom().contains(s));
        lemma_lives_alike(v, n, s);
    }
    assert forall|s: ActorRef| #[trigger] n.services.leases.dom().contains(s) implies n.scopes(
        s,
        n.services.leases[s].service,
    ) by {
        assert(v.services.leases.dom().contains(s));
        lemma_lives_alike(v, n, s);
        lemma_lives_alike(v, n, n.services.leases[s].service);
    }
    assert forall|i: int|
        0 <= i < n.actors.len() && super::is_ended(
            (#[trigger] n.actors[i]).state,
        ) implies n.actors[i].queue.len() == 0 && n.actors[i].staged.len() == 0 by {
        assert(super::is_ended(v.actors[i].state));
    }
    assert forall|i: int|
        0 <= i < n.actors.len() && !super::is_ended((#[trigger] n.actors[i]).state)
            && n.actors[i].parent is Some implies n.lives(n.actors[i].parent->0) by {
        assert(!super::is_ended(v.actors[i].state));
    }
}

/// An actor that may run has not ended.
pub proof fn lemma_running_lives(v: WorldView, r: ActorRef)
    requires
        v.execution(r) matches Ok(state) && state != Lifecycle::Stopping,
    ensures
        v.lives(r),
{
}

/// A slot whose actor stays, and takes nothing in if it ended.
pub proof fn lemma_living_replaced(v: WorldView, i: int, b: ActorView)
    requires
        v.living(),
        0 <= i < v.actors.len(),
        b.same_place(v.actors[i]),
        super::is_ended(b.state) == super::is_ended(v.actors[i].state),
        b.same_entries(v.actors[i]) || (super::is_ended(b.state) ==> b.queue.len() == 0
            && b.staged.len() == 0),
    ensures
        (WorldView { actors: v.actors.update(i, b), ..v }).living(),
{
    lemma_living_frame(v, WorldView { actors: v.actors.update(i, b), ..v });
}

/// An actor that ended holds nothing.
pub proof fn lemma_bare(v: WorldView, i: int)
    requires
        v.living(),
        0 <= i < v.actors.len(),
        super::is_ended(v.actors[i].state),
    ensures
        v.actors[i].queue.len() == 0,
        v.actors[i].staged.len() == 0,
{
    reveal(WorldView::living);
}

/// A route between actors that live.
pub proof fn lemma_living_route(v: WorldView, id: u64, route: Sub)
    requires
        v.living(),
        v.route_lives(route),
    ensures
        (WorldView { subs: v.subs.insert(id, route), ..v }).living(),
{
    reveal(WorldView::living);
    let n = WorldView { subs: v.subs.insert(id, route), ..v };
    assert forall|r: ActorRef| #[trigger] n.lives(r) == v.lives(r) by {}
    assert forall|k: u64| #[trigger] n.subs.dom().contains(k) implies n.route_lives(n.subs[k]) by {
        if k != id {
            assert(v.subs.dom().contains(k));
        }
    }
}

/// Other parts of a World do not matter.
pub proof fn lemma_living_parts(v: WorldView, n: WorldView)
    requires
        v.living(),
        n.id == v.id,
        n.actors == v.actors,
        n.subs == v.subs,
        n.ops == v.ops,
        n.pubs.entries == v.pubs.entries,
        n.services == v.services,
    ensures
        n.living(),
{
    lemma_living_frame(v, n);
}

/// A publication of an actor that lives.
pub proof fn lemma_living_entry(v: WorldView, n: WorldView, id: u64)
    requires
        v.living(),
        n.id == v.id,
        n.actors == v.actors,
        n.subs == v.subs,
        n.ops == v.ops,
        n.services == v.services,
        n.pubs.entries.dom().contains(id) ==> v.lives(n.pubs.entries[id].source),
        forall|k: u64| #[trigger]
            n.pubs.entries.dom().contains(k) && k != id ==> v.pubs.entries.dom().contains(k)
                && n.pubs.entries[k] == v.pubs.entries[k],
    ensures
        n.living(),
{
    reveal(WorldView::living);
    assert forall|r: ActorRef| #[trigger] n.lives(r) == v.lives(r) by {}
    assert forall|k: u64| #[trigger] n.pubs.entries.dom().contains(k) implies n.lives(
        n.pubs.entries[k].source,
    ) by {
        if k != id {
            assert(v.pubs.entries.dom().contains(k));
        }
    }
    assert forall|id: u64| #[trigger] n.subs.dom().contains(id) implies n.route_lives(n.subs[id]) by {
        assert(v.subs.dom().contains(id));
    }
}

/// Services and leases of actors that live.
pub proof fn lemma_living_services(v: WorldView, n: WorldView, added: ActorRef)
    requires
        v.living(),
        n == (WorldView { services: n.services, ..v }),
        v.lives(added),
        forall|s: ActorRef| #[trigger]
            n.services.records.dom().contains(s) ==> v.services.records.dom().contains(s) || s
                == added && v.at(added).parent is None,
        forall|s: ActorRef| #[trigger]
            n.services.leases.dom().contains(s) ==> v.services.leases.dom().contains(s)
                && n.services.leases[s] == v.services.leases[s] || s == added && v.scopes(
                added,
                n.services.leases[s].service,
            ),
    ensures
        n.living(),
{
    reveal(WorldView::living);
    assert forall|r: ActorRef| #[trigger] n.lives(r) == v.lives(r) by {}
    assert forall|id: u64| #[trigger] n.subs.dom().contains(id) implies n.route_lives(n.subs[id]) by {
        assert(v.subs.dom().contains(id));
    }
}

/// Operations of actors that live.
pub proof fn lemma_living_ops(v: WorldView, n: WorldView)
    requires
        v.living(),
        n == (WorldView { ops: n.ops, ..v }),
        v.ops_live(n.ops),
    ensures
        n.living(),
{
    reveal(WorldView::living);
    assert forall|r: ActorRef| #[trigger] n.lives(r) == v.lives(r) by {}
    assert forall|id: u64| #[trigger] n.subs.dom().contains(id) implies n.route_lives(n.subs[id]) by {
        assert(v.subs.dom().contains(id));
    }
    assert forall|id: OperationId| #[trigger]
        n.ops.has(id) && n.ops.entry(id) is Pending implies n.lives(n.ops.entry(id).ends().owner)
        && n.lives(n.ops.entry(id).ends().target) by {}
}

/// A reservation between actors that live.
pub proof fn lemma_reserved_live(v: WorldView, ops: OpsView, id: OperationId)
    requires
        v.living(),
        ops.has(id) && ops.entry(id) is Pending ==> v.lives(ops.entry(id).ends().owner) && v.lives(
            ops.entry(id).ends().target,
        ),
        forall|k: OperationId| #[trigger]
            ops.has(k) && k != id ==> v.ops.has(k) && v.ops.entry(k) == ops.entry(k),
    ensures
        v.ops_live(ops),
{
    reveal(WorldView::living);
    assert forall|k: OperationId| #[trigger]
        ops.has(k) && ops.entry(k) is Pending implies v.lives(ops.entry(k).ends().owner) && v.lives(
        ops.entry(k).ends().target,
    ) by {
        if k != id {
            assert(v.ops.has(k));
        }
    }
}

pub proof fn lemma_within_live(v: WorldView, ops: OpsView)
    requires
        v.living(),
        ops_within(v.ops, ops),
    ensures
        v.ops_live(ops),
{
    reveal(WorldView::living);
    assert forall|k: OperationId| #[trigger]
        ops.has(k) && ops.entry(k) is Pending implies v.lives(ops.entry(k).ends().owner) && v.lives(
        ops.entry(k).ends().target,
    ) by {
        assert(v.ops.has(k));
    }
}

/// An actor to which nothing belongs may end.
pub proof fn lemma_living_ended(v: WorldView, r: ActorRef, b: ActorView)
    requires
        v.living(),
        v.kin(),
        v.valid(r),
        v.at(r).reference == r,
        b.reference == r,
        b.parent == v.at(r).parent,
        super::is_ended(b.state),
        b.queue.len() == 0,
        b.staged.len() == 0,
        v.unclaimed(r),
    ensures
        v.put(r, b).living(),
{
    reveal(WorldView::living);
    reveal(WorldView::kin);
    let n = v.put(r, b);
    assert forall|x: ActorRef| v.lives(x) && x != r implies #[trigger] n.lives(x) by {
        assert(x.slot != r.slot);
    }
    assert forall|i: int|
        0 <= i < n.actors.len() && !super::is_ended((#[trigger] n.actors[i]).state)
            && n.actors[i].parent is Some implies n.lives(n.actors[i].parent->0) by {
        let p = n.actors[i].parent->0;
        assert(i != r.slot);
        assert(n.actors[i] == v.actors[i]);
        assert(v.lives(p));
        if p == r {
            assert(v.owning(p, v.actors[i].reference));
            let k = v.at(r).children.index_of(v.actors[i].reference);
            assert(v.owned(v.actors[r.slot as int].children[k], v.actors[r.slot as int].reference));
            assert(super::is_ended(v.at(v.at(r).children[k]).state));
            assert(v.seat_of(i));
        }
    }
    assert forall|id: u64| #[trigger] n.subs.dom().contains(id) implies n.route_lives(n.subs[id]) by {
        assert(v.route_lives(v.subs[id]));
        assert(!routing::touching(v.subs, r).contains(id));
    }
    assert forall|id: OperationId| #[trigger]
        n.ops.has(id) && n.ops.entry(id) is Pending implies n.lives(n.ops.entry(id).ends().owner)
        && n.lives(n.ops.entry(id).ends().target) by {
        assert(!v.ops.pending_touching(r).contains(id));
    }
    assert forall|id: u64| #[trigger] n.pubs.entries.dom().contains(id) implies n.lives(
        n.pubs.entries[id].source,
    ) by {
        assert(!v.pubs.of_source(r).contains(id));
    }
}

impl WorldView {
    /// Whether nothing belongs to an actor that has not ended, and nothing that
    /// it owns has not ended.
    pub open spec fn unclaimed(self, r: ActorRef) -> bool {
        &&& routing::touching(self.subs, r) == Set::<u64>::empty()
        &&& self.unburdened(r)
    }

    /// The same, but for its routes.
    pub open spec fn unburdened(self, r: ActorRef) -> bool {
        &&& self.ops.pending_touching(r) == Set::<OperationId>::empty()
        &&& self.pubs.of_source(r) == Set::<u64>::empty()
        &&& !self.services.records.dom().contains(r)
        &&& !self.services.leases.dom().contains(r)
        &&& forall|k: int|
            0 <= k < self.at(r).children.len() ==> super::is_ended(
                self.at(#[trigger] self.at(r).children[k]).state,
            )
        &&& forall|i: int| 0 <= i < self.actors.len() ==> #[trigger] self.seat_of(i)
    }

    pub open spec fn seat_of(self, i: int) -> bool {
        self.actors[i].reference.slot == i
    }
}

} // verus!
