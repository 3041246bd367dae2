//! What a stop leaves behind: nothing that belonged to the actor.
use vstd::prelude::*;
use super::{ActorView, World, WorldView};
use crate::clock::Instant;
use crate::diagnostics::DiagnosticCode;
use crate::operations::{OperationId, OperationOwner, OpsView, OutcomeView};
use crate::ordered;
use crate::publications::PublicationOutcome;
use crate::routing;
use crate::types;
use crate::types::{ActorRef, Lifecycle, Metrics};

verus! {

/// Whether no operation became pending between two states of the operations.
pub open spec fn no_new_operation(a: OpsView, b: OpsView) -> bool {
    &&& b.slots.len() == a.slots.len()
    &&& b.generations.len() == a.generations.len()
    &&& forall|id: OperationId| #[trigger]
        b.has(id) && b.entry(id) is Pending ==> a.has(id) && a.entry(id) == b.entry(id)
}

/// Whether every operation slot has its generation.
pub open spec fn slots_numbered(v: WorldView) -> bool {
    v.ops.slots.len() == v.ops.generations.len()
}

/// Whether a World only lost things between two states: routes, leases,
/// services, publications, pending operations, drains, children and queued
/// entries. Actors keep their slots, those that ended stay ended, and a World
/// that is closed stays closed.
#[verifier::opaque]
pub open spec fn only_lost(v: WorldView, n: WorldView) -> bool {
    &&& n.same_roster(v)
    &&& v.closed ==> n.closed
    &&& n.drain_roots.dom().subset_of(v.drain_roots.dom())
    &&& forall|s: u32| #[trigger]
        n.drain_roots.dom().contains(s) ==> n.drain_roots[s] == v.drain_roots[s]
    &&& forall|id: u64| #[trigger]
        n.subs.dom().contains(id) ==> v.subs.dom().contains(id) && n.subs[id] == v.subs[id]
    &&& forall|s: ActorRef| #[trigger]
        n.services.leases.dom().contains(s) ==> v.services.leases.dom().contains(s)
            && n.services.leases[s] == v.services.leases[s]
    &&& forall|s: ActorRef| #[trigger]
        n.services.records.dom().contains(s) ==> v.services.records.dom().contains(s)
    &&& forall|id: u64| #[trigger]
        n.pubs.entries.dom().contains(id) ==> v.pubs.entries.dom().contains(id)
            && n.pubs.entries[id] == v.pubs.entries[id]
    &&& no_new_operation(v.ops, n.ops)
    &&& forall|i: int|
        0 <= i < v.actors.len() ==> {
            &&& v.actors[i].queue == (#[trigger] n.actors[i]).queue || n.actors[i].queue.len() == 0
            &&& v.actors[i].staged == n.actors[i].staged || n.actors[i].staged.len() == 0
            &&& super::is_ended(v.actors[i].state) ==> super::is_ended(n.actors[i].state)
            &&& n.actors[i].drain_deadline == v.actors[i].drain_deadline
            &&& n.actors[i].notification is Some ==> v.actors[i].notification is Some
        }
    &&& forall|i: int, k: int|
        0 <= i < v.actors.len() && 0 <= k < n.actors[i].children.len()
            ==> v.actors[i].children.contains(#[trigger] n.actors[i].children[k])
}

/// Whether every actor that was not already stopping kept its state.
#[verifier::opaque]
pub open spec fn states_kept(v: WorldView, n: WorldView) -> bool {
    forall|i: int|
        0 <= i < v.actors.len() && v.actors[i].state != Lifecycle::Stopping ==> (
        #[trigger] n.actors[i]).state == v.actors[i].state
}

/// Whether every actor outside a set, unless it was already stopping, kept its
/// state.
#[verifier::opaque]
pub open spec fn spared(v: WorldView, n: WorldView, reach: Set<ActorRef>) -> bool {
    forall|i: int|
        0 <= i < v.actors.len() && !reach.contains(v.actors[i].reference) && v.actors[i].state
            != Lifecycle::Stopping ==> (#[trigger] n.actors[i]).state == v.actors[i].state
}

/// Whether a set holds with an actor what it owns, and with a service the
/// scopes that leased it.
#[verifier::opaque]
pub open spec fn self_contained(v: WorldView, reach: Set<ActorRef>) -> bool {
    &&& forall|i: int, k: int|
        0 <= i < v.actors.len() && 0 <= k < v.actors[i].children.len() && reach.contains(
            v.actors[i].reference,
        ) ==> reach.contains(#[trigger] v.actors[i].children[k])
    &&& forall|s: ActorRef| #[trigger]
        v.services.leases.dom().contains(s) && v.valid(s) && reach.contains(
            v.services.leases[s].service,
        ) ==> reach.contains(s)
}

/// Whether stopping one actor reaches another: what it owns, and what leased a
/// service that it reaches.
pub open spec fn reaches(v: WorldView, r: ActorRef, other: ActorRef) -> bool {
    forall|reach: Set<ActorRef>| #[trigger]
        self_contained(v, reach) && reach.contains(r) ==> reach.contains(other)
}

/// The actors that are younger than one.
pub open spec fn juniors_of(v: WorldView, r: ActorRef) -> Set<ActorRef> {
    Set::new(|x: ActorRef| v.valid(x) && v.order(x) > v.order(r))
}

pub(super) proof fn lemma_lost_twice(a: WorldView, b: WorldView, c: WorldView)
    requires
        only_lost(a, b),
        only_lost(b, c),
    ensures
        only_lost(a, c),
{
    reveal(only_lost);
    super::fence::lemma_roster_chain(a, b, c);
    assert forall|i: int| 0 <= i < a.actors.len() implies {
        &&& a.actors[i].queue == (#[trigger] c.actors[i]).queue || c.actors[i].queue.len() == 0
        &&& a.actors[i].staged == c.actors[i].staged || c.actors[i].staged.len() == 0
        &&& super::is_ended(a.actors[i].state) ==> super::is_ended(c.actors[i].state)
        &&& c.actors[i].drain_deadline == a.actors[i].drain_deadline
        &&& c.actors[i].notification is Some ==> a.actors[i].notification is Some
    } by {
        assert(b.actors[i].reference == a.actors[i].reference);
    }
    assert forall|i: int, k: int|
        0 <= i < a.actors.len() && 0 <= k
            < c.actors[i].children.len() implies a.actors[i].children.contains(
        #[trigger] c.actors[i].children[k],
    ) by {
        let x = c.actors[i].children[k];
        assert(b.actors[i].children.contains(x));
        let j = b.actors[i].children.index_of(x);
        assert(b.actors[i].children[j] == x);
    }
}

proof fn lemma_kept_twice(a: WorldView, b: WorldView, c: WorldView)
    requires
        b.actors.len() == a.actors.len(),
        states_kept(a, b),
        states_kept(b, c),
    ensures
        states_kept(a, c),
{
    reveal(states_kept);
    assert forall|i: int|
        0 <= i < a.actors.len() && a.actors[i].state != Lifecycle::Stopping implies (
    #[trigger] c.actors[i]).state == a.actors[i].state by {
        assert(b.actors[i].state == a.actors[i].state);
    }
}

proof fn lemma_spared_twice(a: WorldView, b: WorldView, c: WorldView, reach: Set<ActorRef>)
    requires
        b.same_roster(a),
        spared(a, b, reach),
        spared(b, c, reach),
    ensures
        spared(a, c, reach),
{
    reveal(spared);
    assert forall|i: int|
        0 <= i < a.actors.len() && !reach.contains(a.actors[i].reference) && a.actors[i].state
            != Lifecycle::Stopping implies (#[trigger] c.actors[i]).state == a.actors[i].state by {
        assert(b.actors[i].state == a.actors[i].state);
        assert(b.actors[i].reference == a.actors[i].reference);
    }
}

pub(super) proof fn lemma_completed_all(a: OpsView, ids: Seq<OperationId>, outcome: OutcomeView)
    requires
        !(outcome is Completed),
    ensures
        no_new_operation(a, a.completed_all(ids, outcome)),
        forall|k: int|
            0 <= k < ids.len() ==> !(a.completed_all(ids, outcome).has(#[trigger] ids[k])
                && a.completed_all(ids, outcome).entry(ids[k]) is Pending),
    decreases ids.len(),
{
    if ids.len() > 0 {
        let rest = ids.drop_last();
        lemma_completed_all(a, rest, outcome);
        let b = a.completed_all(rest, outcome);
        let c = b.completed(ids.last(), outcome);
        assert(no_new_operation(b, c));
        assert forall|k: int| 0 <= k < ids.len() implies !(c.has(#[trigger] ids[k]) && c.entry(
            ids[k],
        ) is Pending) by {
            if k < rest.len() {
                assert(rest[k] == ids[k]);
                if c.has(ids[k]) && c.entry(ids[k]) is Pending {
                    assert(b.has(ids[k]) && b.entry(ids[k]) == c.entry(ids[k]));
                }
            }
        }
    }
}

/// What a table let go of plays no part in what is pending.
proof fn lemma_undropped(a: OpsView, b: OpsView)
    requires
        no_new_operation(a, b),
    ensures
        no_new_operation(a, OpsView { dropped: Seq::empty(), ..b }),
{
    let c = OpsView { dropped: Seq::empty(), ..b };
    assert forall|id: OperationId| #[trigger] c.has(id) && c.entry(id) is Pending implies a.has(id)
        && a.entry(id) == c.entry(id) by {
        assert(b.has(id));
    }
}

pub(super) proof fn lemma_retired_all(a: OpsView, ids: Seq<OperationId>)
    requires
        a.slots.len() == a.generations.len(),
    ensures
        no_new_operation(a, a.retired_all(ids)),
    decreases ids.len(),
{
    if ids.len() > 0 {
        lemma_retired_all(a, ids.drop_last());
        let b = a.retired_all(ids.drop_last());
        let done = b.completed(ids.last(), OutcomeView::OwnerStopped);
        assert(no_new_operation(b, done));
        let c = b.retired(ids.last());
        assert(no_new_operation(done, c));
    }
}

proof fn lemma_cancelled(v: WorldView, ids: Seq<u64>, outcome: PublicationOutcome)
    ensures
        only_lost(v, v.publications_cancelled(ids, outcome)),
        states_kept(v, v.publications_cancelled(ids, outcome)),
        forall|k: int|
            0 <= k < ids.len() ==> !v.publications_cancelled(
                ids,
                outcome,
            ).pubs.entries.dom().contains(#[trigger] ids[k]),
    decreases ids.len(),
{
    reveal(only_lost);
    reveal(states_kept);
    if ids.len() > 0 {
        let rest = ids.drop_last();
        lemma_cancelled(v, rest, outcome);
        let m = v.publications_cancelled(rest, outcome);
        let n = m.publication_cancelled(ids.last(), outcome);
        assert(only_lost(m, n));
        lemma_lost_twice(v, m, n);
        lemma_kept_twice(v, m, n);
        assert forall|k: int| 0 <= k < ids.len() implies !n.pubs.entries.dom().contains(
            #[trigger] ids[k],
        ) by {
            if k < rest.len() {
                assert(rest[k] == ids[k]);
            }
        }
    }
}

pub(super) proof fn lemma_severed(v: WorldView, r: ActorRef)
    requires
        v.pubs.entries.dom().finite(),
    ensures
        only_lost(v, v.severed(r)),
        states_kept(v, v.severed(r)),
        v.severed(r).pubs.of_source(r) == Set::<u64>::empty(),
        !v.severed(r).services.leases.dom().contains(r),
        !v.severed(r).drain_roots.dom().contains(r.slot),
{
    reveal(only_lost);
    reveal(states_kept);
    let own = v.pubs.of_source(r);
    assert(own.subset_of(v.pubs.entries.dom()));
    vstd::set_lib::lemma_len_subset(own, v.pubs.entries.dom());
    ordered::lemma_sorted_exists(own);
    let ids = ordered::sorted(own);
    lemma_cancelled(v, ids, PublicationOutcome::Cancelled);
    let m = v.source_silenced(r);
    let n = v.severed(r);
    assert(only_lost(m, n));
    assert(states_kept(m, n));
    lemma_lost_twice(v, m, n);
    lemma_kept_twice(v, m, n);
    assert forall|id: u64| !n.pubs.of_source(r).contains(id) by {
        if n.pubs.of_source(r).contains(id) {
            assert(n.pubs.entries.dom().contains(id));
            assert(own.contains(id));
            assert(ids.to_set().contains(id));
            let k = ids.index_of(id);
            assert(ids[k] == id);
        }
    }
    assert(n.pubs.of_source(r) =~= Set::<u64>::empty());
}

#[verifier::rlimit(30)]
pub(super) proof fn lemma_finalized(v: WorldView, r: ActorRef)
    requires
        slots_numbered(v),
    ensures
        only_lost(v, v.finalized(r)),
        states_kept(v, v.finalized(r)),
        forall|i: int|
            0 <= i < v.actors.len() ==> (#[trigger] v.finalized(r).actors[i]).queue
                == v.actors[i].queue && v.finalized(r).actors[i].staged == v.actors[i].staged,
    decreases v.order(r),
{
    reveal(WorldView::finalized);
    reveal(only_lost);
    reveal(states_kept);
    let seen = v.refreshed(r).marked(r);
    if !(!v.valid(r) || !seen.can_retire(r)) {
        let gone = seen.retired(r).refreshed(r);
        let ops = gone.ops.owner_retired(r);
        let settled = gone.with_ops(ops);
        super::actors::lemma_with_ops(gone, ops);
        lemma_retired_all(gone.ops, ordered::sorted(gone.ops.owned(r)));
        lemma_undropped(v.ops, ops);
        assert(only_lost(v, settled));
        assert(states_kept(v, settled));
        match v.at(r).parent {
            Some(p) => {
                let told = if settled.valid(p) {
                    settled.bereaved(p, r)
                } else {
                    settled
                };
                super::actors::lemma_without_child(settled.at(p).children, r);
                assert forall|i: int, k: int|
                    0 <= i < v.actors.len() && 0 <= k
                        < told.actors[i].children.len() implies v.actors[i].children.contains(
                    #[trigger] told.actors[i].children[k],
                ) by {
                    let c = told.actors[i].children[k];
                    assert(told.actors[i].children.contains(c));
                    assert(settled.actors[i].children.contains(c));
                }
                assert(only_lost(v, told));
                assert(states_kept(v, told));
                if told.order(p) < v.order(r) {
                    lemma_finalized(told, p);
                    let n = told.finalized(p);
                    lemma_lost_twice(v, told, n);
                    lemma_kept_twice(v, told, n);
                    assert forall|i: int| 0 <= i < v.actors.len() implies (
                    #[trigger] n.actors[i]).queue == v.actors[i].queue && n.actors[i].staged
                        == v.actors[i].staged by {
                        assert(told.actors[i].queue == v.actors[i].queue);
                    }
                }
            },
            None => {},
        }
    }
}

proof fn lemma_notice_dropped(v: WorldView, supervisor: ActorRef, source: ActorRef)
    requires
        slots_numbered(v),
        v.valid(supervisor),
        v.valid(source),
    ensures
        only_lost(v, v.notice_dropped(supervisor, source)),
        states_kept(v, v.notice_dropped(supervisor, source)),
        v.notice_dropped(supervisor, source).at(source).notification is None,
{
    reveal(only_lost);
    reveal(states_kept);
    let a = v.put(source, ActorView { notification: None, ..v.at(source) });
    let b = a.put(
        supervisor,
        ActorView {
            pending_failures: super::fence::less_one(a.at(supervisor).pending_failures),
            ..a.at(supervisor)
        },
    );
    let c = WorldView {
        metrics: (Metrics {
            notifications_discarded: types::bumped(b.metrics.notifications_discarded),
            ..b.metrics
        }),
        ..b
    };
    assert(only_lost(v, c));
    assert(states_kept(v, c));
    lemma_finalized(c, source);
    let n = c.finalized(source);
    assert(c.actors[source.slot as int].notification is None);
    assert(n.actors[source.slot as int].notification is None);
    lemma_lost_twice(v, c, n);
    lemma_kept_twice(v, c, n);
}

pub(super) proof fn lemma_notices_dropped(
    v: WorldView,
    supervisor: ActorRef,
    sources: Seq<ActorRef>,
)
    requires
        slots_numbered(v),
        v.valid(supervisor),
        forall|k: int| 0 <= k < sources.len() ==> v.valid(#[trigger] sources[k]),
    ensures
        only_lost(v, v.notices_dropped(supervisor, sources)),
        states_kept(v, v.notices_dropped(supervisor, sources)),
        forall|k: int|
            0 <= k < sources.len() ==> v.notices_dropped(supervisor, sources).at(
                #[trigger] sources[k],
            ).notification is None,
    decreases sources.len(),
{
    reveal(only_lost);
    reveal(states_kept);
    if sources.len() > 0 {
        let rest = sources.drop_last();
        let source = sources.last();
        assert forall|k: int| 0 <= k < rest.len() implies v.valid(#[trigger] rest[k]) by {
            assert(rest[k] == sources[k]);
        }
        lemma_notices_dropped(v, supervisor, rest);
        let m = v.notices_dropped(supervisor, rest);
        super::actors::lemma_same_roster(v, m, supervisor);
        assert(v.valid(sources[sources.len() - 1]));
        super::actors::lemma_same_roster(v, m, source);
        lemma_notice_dropped(m, supervisor, source);
        let n = m.notice_dropped(supervisor, source);
        lemma_lost_twice(v, m, n);
        lemma_kept_twice(v, m, n);
        assert forall|k: int| 0 <= k < sources.len() implies n.at(
            #[trigger] sources[k],
        ).notification is None by {
            if k < rest.len() {
                assert(rest[k] == sources[k]);
                assert(v.valid(rest[k]));
                assert(m.at(rest[k]).notification is None);
                assert(n.actors[rest[k].slot as int].notification is None);
            }
        }
    }
}

pub(super) proof fn lemma_reporting_valid(v: WorldView, children: Seq<ActorRef>)
    ensures
        forall|k: int| 0 <= k < v.reporting(children).len() ==> v.valid(
            #[trigger] v.reporting(children)[k],
        ),
    decreases children.len(),
{
    if children.len() > 0 {
        lemma_reporting_valid(v, children.drop_last());
        let rest = v.reporting(children.drop_last());
        assert forall|k: int| 0 <= k < v.reporting(children).len() implies v.valid(
            #[trigger] v.reporting(children)[k],
        ) by {
            if k < rest.len() {
                assert(v.reporting(children)[k] == rest[k]);
            }
        }
    }
}

pub(super) proof fn lemma_notices_discarded(v: WorldView, supervisor: ActorRef)
    requires
        slots_numbered(v),
    ensures
        only_lost(v, v.notices_discarded(supervisor)),
        states_kept(v, v.notices_discarded(supervisor)),
{
    reveal(only_lost);
    reveal(states_kept);
    if v.valid(supervisor) {
        let sources = v.reporting(v.at(supervisor).children);
        lemma_reporting_valid(v, v.at(supervisor).children);
        lemma_notices_dropped(v, supervisor, sources);
        let m = v.notices_dropped(supervisor, sources);
        let n = v.notices_discarded(supervisor);
        assert(only_lost(m, n));
        assert(states_kept(m, n));
        lemma_lost_twice(v, m, n);
        lemma_kept_twice(v, m, n);
    }
}

pub(super) proof fn lemma_ends_marked(v: WorldView, ends: Seq<OperationOwner>)
    ensures
        v.marked_ends(ends) == (WorldView { activity: v.marked_ends(ends).activity, ..v }),
    decreases ends.len(),
{
    if ends.len() > 0 {
        lemma_ends_marked(v, ends.drop_last());
    }
}

pub(super) proof fn lemma_times_noted(
    v: WorldView,
    now: Instant,
    code: DiagnosticCode,
    actor: Option<ActorRef>,
    n: nat,
)
    ensures
        v.noted_times(now, code, actor, n) == (WorldView {
            history: v.noted_times(now, code, actor, n).history,
            ..v
        }),
    decreases n,
{
    if n > 0 {
        lemma_times_noted(v, now, code, actor, (n - 1) as nat);
    }
}

/// Ending the operations of an actor leaves none pending that it takes part in.
pub(super) proof fn lemma_ops_fenced(v: WorldView, now: Instant, r: ActorRef)
    ensures
        only_lost(v, v.ops_fenced(now, r)),
        states_kept(v, v.ops_fenced(now, r)),
        v.ops_fenced(now, r).ops.pending_touching(r) == Set::<OperationId>::empty(),
{
    reveal(only_lost);
    reveal(states_kept);
    v.ops.lemma_one_in_a_slot();
    let owned = v.ops.owned(r);
    assert(owned.subset_of(v.ops.live_ids()));
    vstd::set_lib::lemma_len_subset(owned, v.ops.live_ids());
    ordered::lemma_sorted_exists(owned);
    let mine = ordered::sorted(owned);
    lemma_completed_all(v.ops, mine, OutcomeView::OwnerStopped);
    let mid = v.ops.owner_cancelled(r);
    let targeted = mid.targeted(r);
    assert forall|id: OperationId| targeted.contains(id) implies v.ops.live_ids().contains(id) by {
        assert(mid.has(id));
    }
    assert(targeted.subset_of(v.ops.live_ids()));
    vstd::set_lib::lemma_len_subset(targeted, v.ops.live_ids());
    ordered::lemma_sorted_exists(targeted);
    let asked = ordered::sorted(targeted);
    lemma_completed_all(mid, asked, OutcomeView::TargetStopped);
    let last = mid.target_stopped(r);
    assert(no_new_operation(v.ops, last));
    let ends = v.ops.ends_of(ordered::sorted(v.ops.pending_touching(r)));
    let a = v.with_ops(last);
    super::actors::lemma_with_ops(v, last);
    lemma_ends_marked(a, ends);
    let b = a.marked_ends(ends);
    let wins = v.ops.wins(mine, OutcomeView::OwnerStopped);
    let answered = mid.wins(asked, OutcomeView::TargetStopped);
    let counted = WorldView {
        metrics: (Metrics {
            operation_cancelled: types::raised(
                types::raised(b.metrics.operation_cancelled, wins),
                answered,
            ),
            ..b.metrics
        }),
        ..b
    };
    lemma_times_noted(counted, now, DiagnosticCode::Cancelled, Some(r), wins);
    let d = counted.noted_times(now, DiagnosticCode::Cancelled, Some(r), wins);
    lemma_times_noted(d, now, DiagnosticCode::Cancelled, Some(r), answered);
    let n = v.ops_fenced(now, r);
    assert(n.actors == v.actors);
    assert(n.ops == (OpsView { dropped: Seq::empty(), ..last }));
    lemma_undropped(v.ops, last);
    assert forall|id: OperationId| !n.ops.pending_touching(r).contains(id) by {
        if n.ops.pending_touching(r).contains(id) {
            assert(n.ops.has(id));
            assert(last.has(id) && last.entry(id) is Pending);
            assert(mid.has(id) && mid.entry(id) == last.entry(id));
            assert(v.ops.has(id) && v.ops.entry(id) == mid.entry(id));
            if v.ops.entry(id).owner() == r {
                assert(owned.contains(id));
                assert(mine.to_set().contains(id));
                let k = mine.index_of(id);
                assert(mine[k] == id);
            } else {
                assert(targeted.contains(id));
                assert(asked.to_set().contains(id));
                let k = asked.index_of(id);
                assert(asked[k] == id);
            }
        }
    }
    assert(n.ops.pending_touching(r) =~= Set::<OperationId>::empty());
}

pub(super) proof fn lemma_routes(v: WorldView, ids: Seq<u64>)
    ensures
        only_lost(v, v.routes_dropped(ids)),
        v.routes_dropped(ids).actors == v.actors,
        forall|k: int| 0 <= k < ids.len() ==> !v.routes_dropped(ids).subs.dom().contains(
            #[trigger] ids[k],
        ),
    decreases ids.len(),
{
    reveal(only_lost);
    if ids.len() > 0 {
        let rest = ids.drop_last();
        lemma_routes(v, rest);
        let m = v.routes_dropped(rest);
        let n = v.routes_dropped(ids);
        assert(only_lost(m, n));
        lemma_lost_twice(v, m, n);
        assert forall|k: int| 0 <= k < ids.len() implies !n.subs.dom().contains(
            #[trigger] ids[k],
        ) by {
            if k < rest.len() {
                assert(rest[k] == ids[k]);
            }
        }
    }
}

/// An actor that is halted has no route and no entry left, and ends.
pub(super) proof fn lemma_halted(v: WorldView, r: ActorRef, reach: Set<ActorRef>)
    requires
        slots_numbered(v),
        v.valid(r),
        v.at(r).reference == r,
        v.subs.dom().finite(),
        reach.contains(r),
    ensures
        only_lost(v, v.halted(r)),
        spared(v, v.halted(r), reach),
        routing::touching(v.halted(r).subs, r) == Set::<u64>::empty(),
        v.halted(r).at(r).queue.len() == 0,
        v.halted(r).at(r).staged.len() == 0,
        super::is_ended(v.halted(r).at(r).state),
{
    reveal(only_lost);
    reveal(spared);
    let own = routing::touching(v.subs, r);
    assert(own.subset_of(v.subs.dom()));
    vstd::set_lib::lemma_len_subset(own, v.subs.dom());
    ordered::lemma_sorted_exists(own);
    let ids = ordered::sorted(own);
    lemma_routes(v, ids);
    let a = v.routes_dropped(ids);
    super::actors::lemma_same_roster(v, a, r);
    let gone = a.at(r);
    let cut = a.put(
        r,
        ActorView {
            state: Lifecycle::Stopping,
            queue: Seq::empty(),
            staged: Seq::empty(),
            ..gone
        },
    );
    super::actors::lemma_releasing_all(cut, super::expiring::staged_shares(gone.staged));
    let freed = cut.releasing_all(super::expiring::staged_shares(gone.staged));
    super::actors::lemma_releasing_all(freed, super::expiring::queued_shares(gone.queue));
    let b = a.stripped(r);
    assert(b.actors == cut.actors);
    assert(only_lost(a, b));
    lemma_lost_twice(v, a, b);
    super::actors::lemma_same_roster(v, b, r);
    assert(spared(v, b, reach));
    lemma_finalized(b, r);
    let n = b.finalized(r);
    lemma_lost_twice(v, b, n);
    lemma_all_spared(b, n, reach);
    lemma_spared_twice(v, b, n, reach);
    assert(n.actors[r.slot as int].queue == b.actors[r.slot as int].queue);
    assert forall|id: u64| !routing::touching(n.subs, r).contains(id) by {
        if routing::touching(n.subs, r).contains(id) {
            assert(n.subs.dom().contains(id));
            assert(a.subs.dom().contains(id));
            assert(own.contains(id));
            assert(ids.to_set().contains(id));
            let k = ids.index_of(id);
            assert(ids[k] == id);
        }
    }
    assert(routing::touching(n.subs, r) =~= Set::<u64>::empty());
}

/// Whether the tables of a World are finite, and what an actor owns or leases
/// is there and younger than it.
#[verifier::opaque]
pub open spec fn orderly(v: WorldView) -> bool {
    &&& slots_numbered(v)
    &&& v.subs.dom().finite()
    &&& v.services.leases.dom().finite()
    &&& v.pubs.entries.dom().finite()
    &&& forall|i: int|
        0 <= i < v.actors.len() ==> (#[trigger] v.actors[i]).ready_order < v.next_ready_order
            && v.actors[i].reference.world == v.id && v.actors[i].reference.slot == i
    &&& forall|i: int, k: int|
        0 <= i < v.actors.len() && 0 <= k < v.actors[i].children.len() ==> v.valid(
            #[trigger] v.actors[i].children[k],
        ) && v.order(v.actors[i].children[k]) > v.actors[i].ready_order
    &&& forall|s: ActorRef| #[trigger]
        v.services.leases.dom().contains(s) && v.valid(s) && v.valid(v.services.leases[s].service)
            ==> v.order(v.services.leases[s].service) < v.order(s)
}

pub(super) proof fn lemma_tables(v: WorldView)
    requires
        orderly(v),
    ensures
        slots_numbered(v),
        v.subs.dom().finite(),
        v.services.leases.dom().finite(),
        v.pubs.entries.dom().finite(),
{
    reveal(orderly);
}

pub(super) proof fn lemma_seat(v: WorldView, r: ActorRef)
    requires
        orderly(v),
        v.valid(r),
    ensures
        v.at(r).reference == r,
        v.at(r).ready_order < v.next_ready_order,
        forall|k: int|
            0 <= k < v.at(r).children.len() ==> v.valid(#[trigger] v.at(r).children[k])
                && v.order(v.at(r).children[k]) > v.order(r) && v.juniors(v.at(r).children[k])
                < v.juniors(r),
{
    reveal(orderly);
    let i = r.slot as int;
    assert(v.actors[i].reference.slot == i);
    assert forall|k: int| 0 <= k < v.at(r).children.len() implies v.valid(
        #[trigger] v.at(r).children[k],
    ) && v.order(v.at(r).children[k]) > v.order(r) && v.juniors(v.at(r).children[k]) < v.juniors(
        r,
    ) by {
        let c = v.actors[i].children[k];
        assert(v.actors[c.slot as int].ready_order < v.next_ready_order);
    }
}

/// What is younger than an actor owns and serves only what is younger.
proof fn lemma_juniors(v: WorldView, r: ActorRef)
    requires
        orderly(v),
        v.valid(r),
    ensures
        self_contained(v, juniors_of(v, r)),
        !juniors_of(v, r).contains(r),
        fed(v, r, juniors_of(v, r)),
{
    reveal(orderly);
    reveal(self_contained);
    let reach = juniors_of(v, r);
    lemma_seat(v, r);
    assert forall|i: int, k: int|
        0 <= i < v.actors.len() && 0 <= k < v.actors[i].children.len() && reach.contains(
            v.actors[i].reference,
        ) implies reach.contains(#[trigger] v.actors[i].children[k]) by {
        assert(v.order(v.actors[i].reference) == v.actors[i].ready_order);
    }
}

/// Whether a set holds what an actor owns and what leased it.
spec fn fed(v: WorldView, r: ActorRef, reach: Set<ActorRef>) -> bool {
    &&& forall|k: int|
        0 <= k < v.at(r).children.len() ==> reach.contains(#[trigger] v.at(r).children[k])
    &&& forall|s: ActorRef| #[trigger]
        v.services.leases.dom().contains(s) && v.valid(s) && v.services.leases[s].service == r
            ==> reach.contains(s)
}

proof fn lemma_fed(v: WorldView, r: ActorRef, reach: Set<ActorRef>)
    requires
        orderly(v),
        v.valid(r),
        self_contained(v, reach),
        reach.contains(r),
    ensures
        fed(v, r, reach),
{
    reveal(self_contained);
    lemma_seat(v, r);
    assert forall|k: int| 0 <= k < v.at(r).children.len() implies reach.contains(
        #[trigger] v.at(r).children[k],
    ) by {
        assert(reach.contains(v.actors[r.slot as int].children[k]));
    }
}

/// A World that only loses things keeps its order, and what a set holds.
pub(super) proof fn lemma_orderly(v: WorldView, n: WorldView)
    requires
        orderly(v),
        only_lost(v, n),
    ensures
        orderly(n),
{
    reveal(only_lost);
    reveal(orderly);
    assert(n.subs.dom().subset_of(v.subs.dom()));
    vstd::set_lib::lemma_len_subset(n.subs.dom(), v.subs.dom());
    assert(n.services.leases.dom().subset_of(v.services.leases.dom()));
    vstd::set_lib::lemma_len_subset(n.services.leases.dom(), v.services.leases.dom());
    assert(n.pubs.entries.dom().subset_of(v.pubs.entries.dom()));
    vstd::set_lib::lemma_len_subset(n.pubs.entries.dom(), v.pubs.entries.dom());
    assert forall|x: ActorRef| #[trigger] n.valid(x) == v.valid(x) && n.order(x) == v.order(x) by {
        super::actors::lemma_same_roster(v, n, x);
    }
    assert forall|i: int| 0 <= i < n.actors.len() implies (#[trigger] n.actors[i]).ready_order
        < n.next_ready_order && n.actors[i].reference.world == n.id && n.actors[i].reference.slot
        == i by {
        assert(n.actors[i].ready_order == v.actors[i].ready_order);
        assert(v.actors[i].reference.slot == i);
    }
    assert forall|i: int, k: int|
        0 <= i < n.actors.len() && 0 <= k < n.actors[i].children.len() implies n.valid(
        #[trigger] n.actors[i].children[k],
    ) && n.order(n.actors[i].children[k]) > n.actors[i].ready_order by {
        let c = n.actors[i].children[k];
        assert(v.actors[i].children.contains(c));
        let j = v.actors[i].children.index_of(c);
        assert(v.valid(v.actors[i].children[j]));
        assert(n.valid(c) == v.valid(c));
        assert(n.actors[i].ready_order == v.actors[i].ready_order);
    }
    assert forall|s: ActorRef| #[trigger]
        n.services.leases.dom().contains(s) && n.valid(s) && n.valid(
            n.services.leases[s].service,
        ) implies n.order(n.services.leases[s].service) < n.order(s) by {
        assert(v.services.leases.dom().contains(s));
        assert(n.valid(n.services.leases[s].service) == v.valid(v.services.leases[s].service));
    }
}

proof fn lemma_contained(v: WorldView, n: WorldView, reach: Set<ActorRef>)
    requires
        self_contained(v, reach),
        only_lost(v, n),
    ensures
        self_contained(n, reach),
{
    reveal(only_lost);
    reveal(self_contained);
    assert forall|i: int, k: int|
        0 <= i < n.actors.len() && 0 <= k < n.actors[i].children.len() && reach.contains(
            n.actors[i].reference,
        ) implies reach.contains(#[trigger] n.actors[i].children[k]) by {
        let c = n.actors[i].children[k];
        assert(v.actors[i].children.contains(c));
        let j = v.actors[i].children.index_of(c);
        assert(n.actors[i].reference == v.actors[i].reference);
        assert(reach.contains(v.actors[i].children[j]));
    }
    assert forall|s: ActorRef| #[trigger]
        n.services.leases.dom().contains(s) && n.valid(s) && reach.contains(
            n.services.leases[s].service,
        ) implies reach.contains(s) by {
        assert(v.services.leases.dom().contains(s));
        super::actors::lemma_same_roster(v, n, s);
    }
}

proof fn lemma_still_fed(v: WorldView, n: WorldView, r: ActorRef, reach: Set<ActorRef>)
    requires
        v.valid(r),
        fed(v, r, reach),
        only_lost(v, n),
    ensures
        fed(n, r, reach),
{
    reveal(only_lost);
    let i = r.slot as int;
    assert forall|k: int| 0 <= k < n.at(r).children.len() implies reach.contains(
        #[trigger] n.at(r).children[k],
    ) by {
        let c = n.actors[i].children[k];
        assert(v.actors[i].children.contains(c));
        let j = v.actors[i].children.index_of(c);
        assert(reach.contains(v.at(r).children[j]));
    }
    assert forall|s: ActorRef| #[trigger]
        n.services.leases.dom().contains(s) && n.valid(s) && n.services.leases[s].service
            == r implies reach.contains(s) by {
        assert(v.services.leases.dom().contains(s));
        super::actors::lemma_same_roster(v, n, s);
    }
}

/// Whether nothing in a World belongs to an actor any more, and it ends.
pub open spec fn forgotten(n: WorldView, r: ActorRef) -> bool {
    &&& routing::touching(n.subs, r) == Set::<u64>::empty()
    &&& n.pubs.of_source(r) == Set::<u64>::empty()
    &&& n.ops.pending_touching(r) == Set::<OperationId>::empty()
    &&& !n.services.leases.dom().contains(r)
    &&& n.at(r).queue.len() == 0
    &&& n.at(r).staged.len() == 0
    &&& super::is_ended(n.at(r).state)
}

/// A service that left the registry has no lease left.
pub open spec fn revoked(n: WorldView, service: ActorRef) -> bool {
    &&& !n.services.records.dom().contains(service)
    &&& n.services.scopes_of(service) == Set::<ActorRef>::empty()
}

/// What is gone stays gone while a World only loses things.
proof fn lemma_absent(v: WorldView, n: WorldView, r: ActorRef)
    requires
        only_lost(v, n),
    ensures
        v.pubs.of_source(r) == Set::<u64>::empty() ==> n.pubs.of_source(r) == Set::<u64>::empty(),
        v.ops.pending_touching(r) == Set::<OperationId>::empty() ==> n.ops.pending_touching(r)
            == Set::<OperationId>::empty(),
        revoked(v, r) ==> revoked(n, r),
        !v.services.leases.dom().contains(r) ==> !n.services.leases.dom().contains(r),
        !v.drain_roots.dom().contains(r.slot) ==> !n.drain_roots.dom().contains(r.slot),
{
    reveal(only_lost);
    if v.pubs.of_source(r) == Set::<u64>::empty() {
        assert forall|id: u64| !n.pubs.of_source(r).contains(id) by {
            if n.pubs.of_source(r).contains(id) {
                assert(v.pubs.of_source(r).contains(id));
            }
        }
        assert(n.pubs.of_source(r) =~= Set::<u64>::empty());
    }
    if v.ops.pending_touching(r) == Set::<OperationId>::empty() {
        assert forall|id: OperationId| !n.ops.pending_touching(r).contains(id) by {
            if n.ops.pending_touching(r).contains(id) {
                assert(n.ops.has(id));
                assert(v.ops.pending_touching(r).contains(id));
            }
        }
        assert(n.ops.pending_touching(r) =~= Set::<OperationId>::empty());
    }
    if revoked(v, r) {
        assert forall|s: ActorRef| !n.services.scopes_of(r).contains(s) by {
            if n.services.scopes_of(r).contains(s) {
                assert(n.services.leases.dom().contains(s));
                assert(v.services.scopes_of(r).contains(s));
            }
        }
        assert(n.services.scopes_of(r) =~= Set::<ActorRef>::empty());
    }
}

pub(super) proof fn lemma_still_ended(v: WorldView, n: WorldView, r: ActorRef)
    requires
        only_lost(v, n),
        v.valid(r),
    ensures
        super::is_ended(v.at(r).state) ==> super::is_ended(n.at(r).state),
{
    reveal(only_lost);
    assert(super::is_ended(v.actors[r.slot as int].state) ==> super::is_ended(
        n.actors[r.slot as int].state,
    ));
}

/// A child that is still listed was listed before.
proof fn lemma_child_was(v: WorldView, n: WorldView, r: ActorRef, k: int)
    requires
        only_lost(v, n),
        v.valid(r),
        0 <= k < n.at(r).children.len(),
        forall|j: int|
            0 <= j < v.at(r).children.len() ==> super::is_ended(
                n.at(#[trigger] v.at(r).children[j]).state,
            ),
    ensures
        super::is_ended(n.at(n.at(r).children[k]).state),
{
    reveal(only_lost);
    let c = n.actors[r.slot as int].children[k];
    assert(v.actors[r.slot as int].children.contains(c));
    let j = v.at(r).children.index_of(c);
    assert(super::is_ended(n.at(v.at(r).children[j]).state));
}

pub(super) proof fn lemma_lost_roster(v: WorldView, n: WorldView)
    requires
        only_lost(v, n),
    ensures
        n.same_roster(v),
{
    reveal(only_lost);
}

pub(super) proof fn lemma_nothing_lost(v: WorldView)
    ensures
        only_lost(v, v),
{
    reveal(only_lost);
}

proof fn lemma_all_spared(v: WorldView, n: WorldView, reach: Set<ActorRef>)
    requires
        states_kept(v, n),
    ensures
        spared(v, n, reach),
{
    reveal(states_kept);
    reveal(spared);
}

proof fn lemma_one_spared(v: WorldView, n: WorldView, reach: Set<ActorRef>, r: ActorRef)
    requires
        spared(v, n, reach),
        v.valid(r),
        v.at(r).reference == r,
        !reach.contains(r),
        v.at(r).state != Lifecycle::Stopping,
    ensures
        n.at(r).state == v.at(r).state,
{
    reveal(spared);
    assert(n.actors[r.slot as int].state == v.actors[r.slot as int].state);
}

proof fn lemma_self_spared(v: WorldView, reach: Set<ActorRef>)
    ensures
        spared(v, v, reach),
{
    reveal(spared);
}

pub(super) proof fn lemma_lease_revoked(v: WorldView, service: ActorRef, scope: ActorRef)
    ensures
        only_lost(v, v.lease_revoked(service, scope)),
        states_kept(v, v.lease_revoked(service, scope)),
        !v.lease_revoked(service, scope).services.leases.dom().contains(scope),
{
    reveal(only_lost);
    reveal(states_kept);
}

pub(super) proof fn lemma_unregistered(v: WorldView, service: ActorRef)
    ensures
        only_lost(v, WorldView { services: v.services.unregistered(service), ..v }),
        states_kept(v, WorldView { services: v.services.unregistered(service), ..v }),
{
    reveal(only_lost);
    reveal(states_kept);
}

proof fn lemma_record_gone(v: WorldView, n: WorldView, service: ActorRef)
    requires
        only_lost(v, n),
        !v.services.records.dom().contains(service),
    ensures
        !n.services.records.dom().contains(service),
{
    reveal(only_lost);
}

proof fn lemma_lease_was(v: WorldView, n: WorldView, scope: ActorRef)
    requires
        only_lost(v, n),
        n.services.leases.dom().contains(scope),
    ensures
        v.services.leases.dom().contains(scope),
        n.services.leases[scope] == v.services.leases[scope],
{
    reveal(only_lost);
}

proof fn lemma_children_fenced(
    v: WorldView,
    now: Instant,
    children: Seq<ActorRef>,
    limit: nat,
    reach: Set<ActorRef>,
)
    requires
        orderly(v),
        self_contained(v, reach),
        forall|k: int|
            0 <= k < children.len() ==> reach.contains(#[trigger] children[k]) && v.valid(
                children[k],
            ) && v.juniors(children[k]) < limit,
    ensures
        only_lost(v, v.children_fenced(now, children, limit).0),
        spared(v, v.children_fenced(now, children, limit).0, reach),
        v.children_fenced(now, children, limit).1 is Ok,
        forall|k: int|
            0 <= k < children.len() ==> super::is_ended(
                v.children_fenced(now, children, limit).0.at(#[trigger] children[k]).state,
            ),
    decreases limit, 0nat, children.len(),
{
    if children.len() == 0 {
        lemma_nothing_lost(v);
        lemma_self_spared(v, reach);
    } else {
        let rest = children.drop_last();
        assert forall|k: int| 0 <= k < rest.len() implies reach.contains(#[trigger] rest[k])
            && v.valid(rest[k]) && v.juniors(rest[k]) < limit by {
            assert(rest[k] == children[k]);
        }
        lemma_children_fenced(v, now, rest, limit, reach);
        let m = v.children_fenced(now, rest, limit).0;
        let child = children[children.len() - 1];
        lemma_orderly(v, m);
        lemma_contained(v, m, reach);
        lemma_lost_roster(v, m);
        super::actors::lemma_same_roster(v, m, child);
        super::fence::lemma_roster_age(v, m, child);
        lemma_fenced(m, now, child, reach);
        let n = m.fenced(now, child).0;
        lemma_lost_twice(v, m, n);
        lemma_spared_twice(v, m, n, reach);
        assert forall|k: int| 0 <= k < children.len() implies super::is_ended(
            n.at(#[trigger] children[k]).state,
        ) by {
            if k < rest.len() {
                assert(rest[k] == children[k]);
                assert(v.valid(children[k]));
                super::actors::lemma_same_roster(v, m, children[k]);
                lemma_still_ended(m, n, children[k]);
            }
        }
    }
}

proof fn lemma_scopes_fenced(
    v: WorldView,
    now: Instant,
    service: ActorRef,
    scopes: Seq<ActorRef>,
    limit: nat,
    reach: Set<ActorRef>,
)
    requires
        orderly(v),
        self_contained(v, reach),
        forall|k: int|
            0 <= k < scopes.len() && v.valid(#[trigger] scopes[k]) ==> reach.contains(scopes[k]),
    ensures
        only_lost(v, v.scopes_fenced(now, service, scopes, limit)),
        spared(v, v.scopes_fenced(now, service, scopes, limit), reach),
        forall|k: int|
            0 <= k < scopes.len() ==> !v.scopes_fenced(
                now,
                service,
                scopes,
                limit,
            ).services.leases.dom().contains(#[trigger] scopes[k]),
    decreases limit, 0nat, scopes.len(),
{
    if scopes.len() == 0 {
        lemma_nothing_lost(v);
        lemma_self_spared(v, reach);
    } else {
        let rest = scopes.drop_last();
        assert forall|k: int| 0 <= k < rest.len() && v.valid(#[trigger] rest[k]) implies reach.contains(
            rest[k],
        ) by {
            assert(rest[k] == scopes[k]);
        }
        lemma_scopes_fenced(v, now, service, rest, limit, reach);
        let m = v.scopes_fenced(now, service, rest, limit);
        let scope = scopes[scopes.len() - 1];
        let k = m.lease_revoked(service, scope);
        lemma_lease_revoked(m, service, scope);
        lemma_all_spared(m, k, reach);
        lemma_lost_roster(v, m);
        lemma_lost_twice(v, m, k);
        lemma_spared_twice(v, m, k, reach);
        lemma_lost_roster(v, k);
        lemma_orderly(v, k);
        lemma_contained(v, k, reach);
        lemma_revoked_too(m, k, scopes);
        if k.valid(scope) && k.juniors(scope) < limit {
            super::actors::lemma_same_roster(v, k, scope);
            lemma_fenced(k, now, scope, reach);
            lemma_scopes_gone(v, k, k.fenced(now, scope).0, scopes, reach);
        }
    }
}

/// A scope that lost its lease, after those before it.
proof fn lemma_revoked_too(m: WorldView, k: WorldView, scopes: Seq<ActorRef>)
    requires
        scopes.len() > 0,
        only_lost(m, k),
        forall|j: int|
            0 <= j < scopes.drop_last().len() ==> !m.services.leases.dom().contains(
                #[trigger] scopes.drop_last()[j],
            ),
        !k.services.leases.dom().contains(scopes.last()),
    ensures
        forall|j: int|
            0 <= j < scopes.len() ==> !k.services.leases.dom().contains(#[trigger] scopes[j]),
{
    assert forall|j: int| 0 <= j < scopes.len() implies !k.services.leases.dom().contains(
        #[trigger] scopes[j],
    ) by {
        if j < scopes.len() - 1 {
            assert(scopes.drop_last()[j] == scopes[j]);
            lemma_absent(m, k, scopes[j]);
        }
    }
}

/// What scopes lost stays lost while another is cut off.
proof fn lemma_scopes_gone(
    v: WorldView,
    k: WorldView,
    n: WorldView,
    scopes: Seq<ActorRef>,
    reach: Set<ActorRef>,
)
    requires
        only_lost(v, k),
        only_lost(k, n),
        k.same_roster(v),
        spared(v, k, reach),
        spared(k, n, reach),
        forall|j: int|
            0 <= j < scopes.len() ==> !k.services.leases.dom().contains(#[trigger] scopes[j]),
    ensures
        only_lost(v, n),
        spared(v, n, reach),
        forall|j: int|
            0 <= j < scopes.len() ==> !n.services.leases.dom().contains(#[trigger] scopes[j]),
{
    lemma_lost_twice(v, k, n);
    lemma_spared_twice(v, k, n, reach);
    assert forall|j: int| 0 <= j < scopes.len() implies !n.services.leases.dom().contains(
        #[trigger] scopes[j],
    ) by {
        lemma_absent(k, n, scopes[j]);
    }
}

proof fn lemma_service_detached(
    v: WorldView,
    now: Instant,
    r: ActorRef,
    limit: nat,
    reach: Set<ActorRef>,
)
    requires
        orderly(v),
        self_contained(v, reach),
        fed(v, r, reach),
    ensures
        only_lost(v, v.service_detached(now, r, limit)),
        spared(v, v.service_detached(now, r, limit), reach),
        v.services.records.dom().contains(r) ==> revoked(v.service_detached(now, r, limit), r),
    decreases limit, 1nat, 0nat,
{
    lemma_nothing_lost(v);
    lemma_self_spared(v, reach);
    if v.services.records.dom().contains(r) {
        lemma_tables(v);
        let leased = v.services.scopes_of(r);
        assert(leased.subset_of(v.services.leases.dom()));
        vstd::set_lib::lemma_len_subset(leased, v.services.leases.dom());
        ordered::lemma_sorted_exists(leased);
        let scopes = ordered::sorted(leased);
        let m = WorldView { services: v.services.unregistered(r), ..v };
        lemma_unregistered(v, r);
        lemma_lost_roster(v, m);
        lemma_all_spared(v, m, reach);
        lemma_orderly(v, m);
        lemma_contained(v, m, reach);
        assert forall|k: int| 0 <= k < scopes.len() && m.valid(
            #[trigger] scopes[k],
        ) implies reach.contains(scopes[k]) by {
            assert(scopes.to_set().contains(scopes[k]));
            assert(leased.contains(scopes[k]));
            assert(v.services.leases.dom().contains(scopes[k]));
            assert(v.valid(scopes[k]));
        }
        lemma_scopes_fenced(m, now, r, scopes, limit, reach);
        let n = m.scopes_fenced(now, r, scopes, limit);
        lemma_lost_twice(v, m, n);
        lemma_spared_twice(v, m, n, reach);
        lemma_record_gone(m, n, r);
        assert forall|s: ActorRef| !n.services.scopes_of(r).contains(s) by {
            if n.services.scopes_of(r).contains(s) {
                lemma_lease_was(v, n, s);
                assert(leased.contains(s));
                assert(scopes.to_set().contains(s));
                let k = scopes.index_of(s);
                assert(scopes[k] == s);
            }
        }
        assert(n.services.scopes_of(r) =~= Set::<ActorRef>::empty());
    }
}

/// The first part of a fence: publications and leases.
#[verifier::opaque]
spec fn unleased(v: WorldView, now: Instant, r: ActorRef) -> WorldView {
    v.severed(r).service_detached(now, r, v.juniors(r))
}

proof fn lemma_unleased(v: WorldView, now: Instant, r: ActorRef, reach: Set<ActorRef>)
    requires
        orderly(v),
        v.valid(r),
        self_contained(v, reach),
        fed(v, r, reach),
    ensures
        only_lost(v, unleased(v, now, r)),
        spared(v, unleased(v, now, r), reach),
        v.services.records.dom().contains(r) ==> revoked(unleased(v, now, r), r),
        unleased(v, now, r).pubs.of_source(r) == Set::<u64>::empty(),
        !unleased(v, now, r).services.leases.dom().contains(r),
        !unleased(v, now, r).drain_roots.dom().contains(r.slot),
    decreases v.juniors(r), 1nat, 1nat,
{
    reveal(unleased);
    lemma_tables(v);
    let a = v.severed(r);
    lemma_severed(v, r);
    lemma_orderly(v, a);
    lemma_contained(v, a, reach);
    lemma_still_fed(v, a, r, reach);
    lemma_lost_roster(v, a);
    lemma_all_spared(v, a, reach);
    assert(a.services.records == v.services.records) by {
        lemma_silenced_records(v, ordered::sorted(v.pubs.of_source(r)));
    }
    lemma_service_detached(a, now, r, v.juniors(r), reach);
    let b = unleased(v, now, r);
    lemma_spared_twice(v, a, b, reach);
    lemma_lost_twice(v, a, b);
    lemma_absent(a, b, r);
}

proof fn lemma_silenced_records(v: WorldView, ids: Seq<u64>)
    ensures
        v.publications_cancelled(ids, PublicationOutcome::Cancelled).services == v.services,
    decreases ids.len(),
{
    if ids.len() > 0 {
        lemma_silenced_records(v, ids.drop_last());
    }
}

/// The second part: waiting failures and operations.
#[verifier::opaque]
spec fn unasked(v: WorldView, now: Instant, r: ActorRef) -> WorldView {
    v.notices_discarded(r).ops_fenced(now, r)
}

proof fn lemma_unasked(v: WorldView, now: Instant, r: ActorRef)
    requires
        slots_numbered(v),
    ensures
        only_lost(v, unasked(v, now, r)),
        states_kept(v, unasked(v, now, r)),
        unasked(v, now, r).ops.pending_touching(r) == Set::<OperationId>::empty(),
{
    reveal(unasked);
    let c = v.notices_discarded(r);
    lemma_notices_discarded(v, r);
    lemma_ops_fenced(c, now, r);
    let q = unasked(v, now, r);
    lemma_lost_twice(v, c, q);
    lemma_lost_roster(v, c);
    lemma_kept_twice(v, c, q);
}

/// The part of a fence before the actor itself is halted.
spec fn quieted(v: WorldView, now: Instant, r: ActorRef) -> (WorldView, bool) {
    let quiet = unasked(unleased(v, now, r), now, r);
    let (w, below) = quiet.children_fenced(now, quiet.at(r).children, v.juniors(r));
    (w, below is Ok)
}

proof fn lemma_quieted(v: WorldView, now: Instant, r: ActorRef, reach: Set<ActorRef>)
    requires
        orderly(v),
        v.valid(r),
        self_contained(v, reach),
        fed(v, r, reach),
    ensures
        only_lost(v, quieted(v, now, r).0),
        spared(v, quieted(v, now, r).0, reach),
        quieted(v, now, r).1,
        v.services.records.dom().contains(r) ==> revoked(quieted(v, now, r).0, r),
        quieted(v, now, r).0.pubs.of_source(r) == Set::<u64>::empty(),
        quieted(v, now, r).0.ops.pending_touching(r) == Set::<OperationId>::empty(),
        !quieted(v, now, r).0.services.leases.dom().contains(r),
        !quieted(v, now, r).0.services.records.dom().contains(r),
        !quieted(v, now, r).0.drain_roots.dom().contains(r.slot),
        forall|k: int|
            0 <= k < quieted(v, now, r).0.at(r).children.len() ==> super::is_ended(
                quieted(v, now, r).0.at(#[trigger] quieted(v, now, r).0.at(r).children[k]).state,
            ),
    decreases v.juniors(r), 1nat, 2nat,
{
    let b = unleased(v, now, r);
    lemma_unleased(v, now, r, reach);
    lemma_orderly(v, b);
    lemma_tables(b);
    lemma_lost_roster(v, b);
    let q = unasked(b, now, r);
    lemma_unasked(b, now, r);
    lemma_all_spared(b, q, reach);
    lemma_spared_twice(v, b, q, reach);
    lemma_lost_twice(v, b, q);
    lemma_lost_roster(v, q);
    lemma_orderly(v, q);
    lemma_contained(v, q, reach);
    lemma_still_fed(v, q, r, reach);
    super::actors::lemma_same_roster(v, q, r);
    super::fence::lemma_roster_age(v, q, r);
    lemma_seat(q, r);
    let w = quieted(v, now, r).0;
    lemma_children_fenced(q, now, q.at(r).children, v.juniors(r), reach);
    lemma_spared_twice(v, q, w, reach);
    lemma_lost_twice(v, q, w);
    lemma_lost_twice(b, q, w);
    lemma_absent(b, w, r);
    lemma_absent(q, w, r);
    if !v.services.records.dom().contains(r) {
        lemma_record_gone(v, w, r);
    }
    assert forall|k: int| 0 <= k < w.at(r).children.len() implies super::is_ended(
        w.at(#[trigger] w.at(r).children[k]).state,
    ) by {
        lemma_child_was(q, w, r, k);
    }
}

/// What a fence does: it succeeds, the World only loses things, actors out of
/// its reach keep their state, a service is revoked, and an actor that had not
/// ended is forgotten.
pub(super) proof fn lemma_fenced(v: WorldView, now: Instant, r: ActorRef, reach: Set<ActorRef>)
    requires
        orderly(v),
        v.valid(r),
        self_contained(v, reach),
        reach.contains(r),
    ensures
        only_lost(v, v.fenced(now, r).0),
        spared(v, v.fenced(now, r).0, reach),
        v.fenced(now, r).1 is Ok,
        super::is_ended(v.fenced(now, r).0.at(r).state),
        !v.fenced(now, r).0.drain_roots.dom().contains(r.slot),
        v.services.records.dom().contains(r) ==> revoked(v.fenced(now, r).0, r),
        !super::is_ended(v.at(r).state) ==> forgotten(v.fenced(now, r).0, r),
    decreases v.juniors(r), 2nat, 0nat,
{
    reveal(unleased);
    reveal(unasked);
    let w = quieted(v, now, r).0;
    lemma_fed(v, r, reach);
    lemma_quieted(v, now, r, reach);
    lemma_orderly(v, w);
    lemma_tables(w);
    lemma_lost_roster(v, w);
    super::fence::lemma_roster_age(v, w, r);
    super::actors::lemma_same_roster(v, w, r);
    lemma_seat(v, r);
    lemma_seat(w, r);
    let n = v.fenced(now, r).0;
    lemma_still_ended(v, w, r);
    if w.at(r).state != Lifecycle::Stopped {
        assert(n == w.halted(r));
        lemma_halted(w, r, reach);
        lemma_lost_twice(v, w, n);
        lemma_spared_twice(v, w, n, reach);
        lemma_absent(w, n, r);
    } else {
        assert(n == w);
        if !super::is_ended(v.at(r).state) {
            lemma_juniors(v, r);
            lemma_quieted(v, now, r, juniors_of(v, r));
            lemma_one_spared(v, w, juniors_of(v, r), r);
        }
    }
}

/// Dropping the routes of an actor leaves none of its own.
pub(super) proof fn lemma_untouched(v: WorldView, r: ActorRef)
    requires
        v.subs.dom().finite(),
    ensures
        routing::touching(
            v.routes_dropped(ordered::sorted(routing::touching(v.subs, r))).subs,
            r,
        ) == Set::<u64>::empty(),
        v.routes_dropped(ordered::sorted(routing::touching(v.subs, r))).actors == v.actors,
        v.unburdened(r) ==> v.routes_dropped(
            ordered::sorted(routing::touching(v.subs, r)),
        ).unburdened(r),
{
    reveal(only_lost);
    let own = routing::touching(v.subs, r);
    assert(own.subset_of(v.subs.dom()));
    vstd::set_lib::lemma_len_subset(own, v.subs.dom());
    ordered::lemma_sorted_exists(own);
    let ids = ordered::sorted(own);
    lemma_routes(v, ids);
    lemma_routes_alone(v, ids);
    let a = v.routes_dropped(ids);
    if v.unburdened(r) {
        assert forall|i: int| 0 <= i < a.actors.len() implies #[trigger] a.seat_of(i) by {
            assert(v.seat_of(i));
        }
        assert forall|k: int| 0 <= k < a.at(r).children.len() implies super::is_ended(
            a.at(#[trigger] a.at(r).children[k]).state,
        ) by {
            assert(super::is_ended(v.at(v.at(r).children[k]).state));
        }
    }
    assert forall|id: u64| !routing::touching(a.subs, r).contains(id) by {
        if routing::touching(a.subs, r).contains(id) {
            assert(a.subs.dom().contains(id));
            assert(own.contains(id));
            assert(ids.to_set().contains(id));
            let k = ids.index_of(id);
            assert(ids[k] == id);
        }
    }
    assert(routing::touching(a.subs, r) =~= Set::<u64>::empty());
}

pub(super) proof fn lemma_routes_alone(v: WorldView, ids: Seq<u64>)
    ensures
        v.routes_dropped(ids) == (WorldView {
            subs: v.routes_dropped(ids).subs,
            activity: v.routes_dropped(ids).activity,
            ..v
        }),
    decreases ids.len(),
{
    if ids.len() > 0 {
        lemma_routes_alone(v, ids.drop_last());
    }
}

/// Once a fence is about to halt an actor, nothing but its routes belongs to it.
pub(super) proof fn lemma_before_halt(v: WorldView, now: Instant, r: ActorRef)
    requires
        orderly(v),
        v.valid(r),
    ensures
        ({
            let limit = v.juniors(r);
            let quiet = v.severed(r).service_detached(now, r, limit).notices_discarded(
                r,
            ).ops_fenced(now, r);
            let w = quiet.children_fenced(now, quiet.at(r).children, limit).0;
            &&& w.unburdened(r)
            &&& only_lost(v, w)
            &&& !w.drain_roots.dom().contains(r.slot)
            &&& forall|k: int|
                0 <= k < w.at(r).children.len() ==> super::is_ended(
                    w.at(#[trigger] w.at(r).children[k]).state,
                )
        }),
{
    reveal(unleased);
    reveal(unasked);
    reveal(orderly);
    lemma_everyone(v);
    lemma_fed(v, r, Set::full());
    lemma_quieted(v, now, r, Set::full());
    let w = quieted(v, now, r).0;
    lemma_orderly(v, w);
    assert forall|i: int| 0 <= i < w.actors.len() implies #[trigger] w.seat_of(i) by {
        assert(w.actors[i].reference.slot == i);
    }
}

/// A service that leaves the registry takes things away only.
pub(super) proof fn lemma_detached(v: WorldView, now: Instant, r: ActorRef, limit: nat)
    requires
        orderly(v),
    ensures
        only_lost(v, v.service_detached(now, r, limit)),
{
    lemma_everyone(v);
    lemma_service_detached(v, now, r, limit, Set::full());
}

/// Everything is within the reach of everything.
pub(super) proof fn lemma_everyone(v: WorldView)
    ensures
        self_contained(v, Set::full()),
{
    reveal(self_contained);
}

/// Everything below an actor can be listed.
pub(super) proof fn lemma_tree(v: WorldView, r: ActorRef)
    requires
        orderly(v),
        v.valid(r),
    ensures
        v.tree(r) is Ok,
    decreases v.juniors(r), 1nat, 0nat,
{
    lemma_seat(v, r);
    lemma_trees(v, v.at(r).children, v.juniors(r));
}

proof fn lemma_trees(v: WorldView, children: Seq<ActorRef>, limit: nat)
    requires
        orderly(v),
        forall|k: int|
            0 <= k < children.len() ==> v.valid(#[trigger] children[k]) && v.juniors(children[k])
                < limit,
    ensures
        v.trees(children, limit) is Ok,
    decreases limit, 0nat, children.len(),
{
    if children.len() > 0 {
        let rest = children.drop_last();
        assert(v.valid(children[children.len() - 1]));
        lemma_tree(v, children.last());
        assert forall|k: int| 0 <= k < rest.len() implies v.valid(#[trigger] rest[k]) && v.juniors(
            rest[k],
        ) < limit by {
            assert(rest[k] == children[k]);
        }
        lemma_trees(v, rest, limit);
    }
}

/// An actor that is there can be stopped.
pub proof fn a_stop_succeeds(world: World, now: Instant, r: ActorRef)
    requires
        world.inv(),
        world@.valid(r),
    ensures
        world@.stopping(now, r).1 is Ok,
{
    world.lemma_orderly();
    lemma_everyone(world@);
    lemma_fenced(world@, now, r, Set::full());
    let n = world@.fenced(now, r).0;
    lemma_orderly(world@, n);
    lemma_lost_roster(world@, n);
    super::actors::lemma_same_roster(world@, n, r);
    lemma_tree(n, r);
}

/// Stopping an actor leaves nothing of it in the World: no route that it owned,
/// fed or received, no publication, no pending operation that it took part in,
/// no lease and no entry of its own. Nothing is added for anyone else.
pub proof fn a_stopped_actor_is_forgotten(world: World, now: Instant, r: ActorRef)
    requires
        world.inv(),
        world@.valid(r),
        !super::is_ended(world@.at(r).state),
    ensures
        forgotten(world@.stopping(now, r).0, r),
        only_lost(world@, world@.stopping(now, r).0),
{
    reveal(only_lost);
    world.lemma_orderly();
    lemma_everyone(world@);
    lemma_fenced(world@, now, r, Set::full());
}

/// Stopping a service takes it out of the registry and revokes every lease on
/// it.
pub proof fn a_stopped_service_is_revoked(world: World, now: Instant, service: ActorRef)
    requires
        world.inv(),
        world@.valid(service),
        world@.services.records.dom().contains(service),
    ensures
        revoked(world@.stopping(now, service).0, service),
{
    world.lemma_orderly();
    lemma_everyone(world@);
    lemma_fenced(world@, now, service, Set::full());
}

/// Stopping an actor stops only what it reaches: what it owns, and the scopes
/// that leased a service among these, with what they own. Whoever holds a
/// lease on a service goes on when the service stops.
pub proof fn a_stop_stays_within_reach(world: World, now: Instant, r: ActorRef, other: ActorRef)
    requires
        world.inv(),
        world@.valid(r),
        world@.valid(other),
        !reaches(world@, r, other),
        world@.at(other).state != Lifecycle::Stopping,
    ensures
        world@.stopping(now, r).0.at(other).state == world@.at(other).state,
{
    world.lemma_orderly();
    lemma_seat(world@, other);
    let reach = choose|reach: Set<ActorRef>| #[trigger]
        self_contained(world@, reach) && reach.contains(r) && !reach.contains(other);
    lemma_fenced(world@, now, r, reach);
    lemma_one_spared(world@, world@.fenced(now, r).0, reach, other);
}

/// Stopping an actor stops none that is older, its owners and the service that
/// it leased among them.
pub proof fn a_stop_spares_older_actors(world: World, now: Instant, r: ActorRef, elder: ActorRef)
    requires
        world.inv(),
        world@.valid(r),
        world@.valid(elder),
        world@.order(elder) < world@.order(r),
        world@.at(elder).state != Lifecycle::Stopping,
    ensures
        world@.stopping(now, r).0.at(elder).state == world@.at(elder).state,
{
    world.lemma_orderly();
    lemma_juniors(world@, elder);
    lemma_seat(world@, elder);
    let reach = juniors_of(world@, elder);
    lemma_fenced(world@, now, r, reach);
    lemma_one_spared(world@, world@.fenced(now, r).0, reach, elder);
}

/// Whether an actor is another or is owned by it, directly or not.
pub open spec fn at_or_below(v: WorldView, x: ActorRef, r: ActorRef) -> bool {
    v.lineage(x).contains(r)
}

/// Whether an actor belongs to a scope that leased a service at or below
/// another.
pub open spec fn leans_on(v: WorldView, x: ActorRef, r: ActorRef) -> bool {
    exists|s: ActorRef| #[trigger]
        v.services.leases.dom().contains(s) && at_or_below(v, x, s) && at_or_below(
            v,
            v.services.leases[s].service,
            r,
        )
}

/// What is at or below an actor, and what leans on it.
spec fn dependants(v: WorldView, r: ActorRef) -> Set<ActorRef> {
    Set::new(|x: ActorRef| at_or_below(v, x, r) || leans_on(v, x, r))
}

/// What an owner lists is below whatever the owner is below.
proof fn lemma_child_below(v: WorldView, owner: ActorRef, child: ActorRef, r: ActorRef)
    requires
        v.valid(child),
        v.at(child).parent == Some(owner),
        v.order(owner) < v.order(child),
        at_or_below(v, owner, r),
    ensures
        at_or_below(v, child, r),
{
    let k = v.lineage(owner).index_of(r);
    assert(v.lineage(child)[k + 1] == r);
}

/// What depends on an actor holds all that a stop of it reaches.
proof fn lemma_dependants(world: World, r: ActorRef)
    requires
        world.inv(),
        world@.valid(r),
    ensures
        self_contained(world@, dependants(world@, r)),
        dependants(world@, r).contains(r),
{
    let v = world@;
    let reach = dependants(v, r);
    world.lemma_orderly();
    world.lemma_kin();
    world.lemma_living();
    assert(at_or_below(v, r, r)) by {
        assert(v.lineage(r)[0] == r);
    }
    assert(self_contained(v, reach)) by {
        reveal(self_contained);
        reveal(orderly);
        reveal(WorldView::kin);
        reveal(WorldView::living);
        assert forall|i: int, k: int|
            0 <= i < v.actors.len() && 0 <= k < v.actors[i].children.len() && reach.contains(
                v.actors[i].reference,
            ) implies reach.contains(#[trigger] v.actors[i].children[k]) by {
            let owner = v.actors[i].reference;
            let c = v.actors[i].children[k];
            assert(v.owned(c, owner));
            assert(v.valid(c) && v.order(c) > v.actors[i].ready_order);
            assert(owner.slot == i);
            if at_or_below(v, owner, r) {
                lemma_child_below(v, owner, c, r);
            } else {
                let s = choose|s: ActorRef| #[trigger]
                    v.services.leases.dom().contains(s) && at_or_below(v, owner, s) && at_or_below(
                        v,
                        v.services.leases[s].service,
                        r,
                    );
                lemma_child_below(v, owner, c, s);
            }
        }
        assert forall|s: ActorRef| #[trigger]
            v.services.leases.dom().contains(s) && v.valid(s) && reach.contains(
                v.services.leases[s].service,
            ) implies reach.contains(s) by {
            let service = v.services.leases[s].service;
            assert(v.lineage(s)[0] == s);
            assert(at_or_below(v, s, s));
            if !at_or_below(v, service, r) {
                let t = choose|t: ActorRef| #[trigger]
                    v.services.leases.dom().contains(t) && at_or_below(v, service, t)
                        && at_or_below(v, v.services.leases[t].service, r);
                assert(v.scopes(s, service));
                assert(v.scopes(t, v.services.leases[t].service));
                assert(v.valid(service));
                assert(v.lineage(service) =~= seq![service]);
                assert(service == t);
            }
        }
    }
}

/// A stop reaches no further than what the actor owns and what belongs to a
/// scope that leased a service among these.
pub proof fn a_stop_reaches_no_further(world: World, now: Instant, r: ActorRef, other: ActorRef)
    requires
        world.inv(),
        world@.valid(r),
        world@.valid(other),
        !at_or_below(world@, other, r),
        !leans_on(world@, other, r),
    ensures
        !reaches(world@, r, other),
        world@.at(other).state != Lifecycle::Stopping ==> world@.stopping(now, r).0.at(other).state
            == world@.at(other).state,
{
    lemma_dependants(world, r);
    assert(!dependants(world@, r).contains(other));
    if world@.at(other).state != Lifecycle::Stopping {
        a_stop_stays_within_reach(world, now, r, other);
    }
}

/// Stopping a service leaves whoever holds a lease on it as it is, unless that
/// belongs to a scope of the service itself.
pub proof fn a_stopped_service_spares_its_holders(
    world: World,
    now: Instant,
    scope: ActorRef,
)
    requires
        world.inv(),
        world@.services.leases.dom().contains(scope),
        ({
            let v = world@;
            let lease = v.services.leases[scope];
            &&& v.valid(lease.service)
            &&& v.valid(lease.owner)
            &&& v.at(lease.owner).state != Lifecycle::Stopping
            &&& !at_or_below(v, lease.owner, lease.service)
            &&& !leans_on(v, lease.owner, lease.service)
        }),
    ensures
        ({
            let lease = world@.services.leases[scope];
            world@.stopping(now, lease.service).0.at(lease.owner).state == world@.at(
                lease.owner,
            ).state
        }),
{
    let lease = world@.services.leases[scope];
    a_stop_reaches_no_further(world, now, lease.service, lease.owner);
}

/// Whoever is at or below an actor is as young as it.
proof fn lemma_below_is_younger(v: WorldView, x: ActorRef, r: ActorRef)
    requires
        at_or_below(v, x, r),
    ensures
        v.valid(x),
        v.order(r) <= v.order(x),
        x != r ==> v.at(x).parent is Some && at_or_below(v, v.at(x).parent->0, r),
    decreases v.order(x),
{
    let k = v.lineage(x).index_of(r);
    if x != r {
        let p = v.at(x).parent->0;
        assert(k > 0);
        assert(v.lineage(p)[k - 1] == r);
        lemma_below_is_younger(v, p, r);
    }
}

/// Stopping a child leaves its siblings as they are.
pub proof fn a_stopped_child_spares_its_siblings(
    world: World,
    now: Instant,
    r: ActorRef,
    other: ActorRef,
)
    requires
        world.inv(),
        world@.valid(r),
        world@.valid(other),
        r != other,
        world@.at(r).parent is Some,
        world@.at(other).parent == world@.at(r).parent,
        world@.at(other).state != Lifecycle::Stopping,
    ensures
        world@.stopping(now, r).0.at(other).state == world@.at(other).state,
{
    let v = world@;
    let p = v.at(r).parent->0;
    world.lemma_living();
    world.lemma_sound();
    assert(!at_or_below(v, other, r)) by {
        if at_or_below(v, other, r) {
            lemma_below_is_younger(v, other, r);
            lemma_below_is_younger(v, p, r);
            reveal(WorldView::sound);
            super::lemma_placed(v, r.slot as int);
        }
    }
    assert(!leans_on(v, other, r)) by {
        reveal(WorldView::living);
        if leans_on(v, other, r) {
            let s = choose|s: ActorRef| #[trigger]
                v.services.leases.dom().contains(s) && at_or_below(v, other, s) && at_or_below(
                    v,
                    v.services.leases[s].service,
                    r,
                );
            let service = v.services.leases[s].service;
            assert(v.scopes(s, service));
            lemma_below_is_younger(v, service, r);
            assert(v.lineage(service) =~= seq![service]);
            assert(service == r);
        }
    }
    a_stop_reaches_no_further(world, now, r, other);
}

} // verus!
