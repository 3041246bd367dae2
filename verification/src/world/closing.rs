//! What stopping an actor and closing a World leave behind.
use vstd::prelude::*;
use super::endings;
use super::{ActorView, World, WorldView};
use crate::clock::Instant;
use crate::components::InterfaceView;
use crate::diagnostics::DiagnosticCode;
use crate::envelope::MessageOptions;
use crate::operations::{OperationId, OutcomeView};
use crate::ordered;
use crate::payload::Payload;
use crate::publications::PublicationOutcome;
use crate::routing;
use crate::types;
use crate::types::{ActorRef, EndpointKind, Error, Lifecycle, Metrics};

verus! {

/// An actor that has ended holds nothing and takes part in nothing: no route
/// that it owned, fed or received, no publication, no pending operation, no
/// service, no lease and no entry of its own.
pub proof fn what_has_ended_has_nothing(world: World, r: ActorRef)
    requires
        world.inv(),
        world@.valid(r),
        super::is_ended(world@.at(r).state),
    ensures
        endings::forgotten(world@, r),
        !world@.services.records.dom().contains(r),
{
    reveal(WorldView::living);
    world.lemma_living();
    let v = world@;
    assert(!v.lives(r));
    super::living::lemma_bare(v, r.slot as int);
    assert forall|id: u64| !routing::touching(v.subs, r).contains(id) by {
        if routing::touching(v.subs, r).contains(id) {
            assert(v.subs.dom().contains(id));
            assert(v.route_lives(v.subs[id]));
        }
    }
    assert(routing::touching(v.subs, r) =~= Set::<u64>::empty());
    assert forall|id: u64| !v.pubs.of_source(r).contains(id) by {
        if v.pubs.of_source(r).contains(id) {
            assert(v.pubs.entries.dom().contains(id));
        }
    }
    assert(v.pubs.of_source(r) =~= Set::<u64>::empty());
    assert forall|id: OperationId| !v.ops.pending_touching(r).contains(id) by {
        if v.ops.pending_touching(r).contains(id) {
            assert(v.ops.has(id));
        }
    }
    assert(v.ops.pending_touching(r) =~= Set::<OperationId>::empty());
}

/// What is below an actor that has ended has ended.
proof fn lemma_ended_below(v: WorldView, r: ActorRef, owner: ActorRef)
    requires
        v.living(),
        v.lineage(r).contains(owner),
        super::is_ended(v.at(owner).state),
    ensures
        v.valid(r),
        super::is_ended(v.at(r).state),
    decreases v.order(r),
{
    reveal(WorldView::living);
    if !v.valid(r) {
        assert(v.lineage(r) =~= Seq::<ActorRef>::empty());
    } else if r != owner {
        let k = v.lineage(r).index_of(owner);
        let p = v.at(r).parent->0;
        if v.at(r).parent is Some && v.order(p) < v.order(r) {
            let above = v.lineage(p);
            assert(v.lineage(r) == seq![r] + above);
            assert(above[k - 1] == owner);
            lemma_ended_below(v, p, owner);
            assert(!super::is_ended(v.actors[r.slot as int].state) ==> v.lives(p));
        } else {
            assert(v.lineage(r) =~= seq![r]);
        }
    }
}

proof fn lemma_lineage_roster(v: WorldView, n: WorldView, r: ActorRef)
    requires
        n.same_roster(v),
    ensures
        n.lineage(r) == v.lineage(r),
    decreases v.order(r),
{
    super::actors::lemma_same_roster(v, n, r);
    if v.valid(r) {
        match v.at(r).parent {
            Some(p) => {
                super::actors::lemma_same_roster(v, n, p);
                if v.order(p) < v.order(r) {
                    lemma_lineage_roster(v, n, p);
                }
            },
            None => {},
        }
    }
}

/// Stopping an actor ends it and everything below it, and leaves nothing of any
/// of them: what a holder leased is revoked with it.
pub proof fn a_stop_ends_everything_below(
    before: World,
    after: World,
    now: Instant,
    r: ActorRef,
    below: ActorRef,
)
    requires
        before.inv(),
        before@.valid(r),
        before@.lineage(below).contains(r),
        after.inv(),
        after@ == before@.stopping(now, r).0,
    ensures
        after@.valid(below),
        endings::forgotten(after@, below),
        !after@.services.records.dom().contains(below),
{
    before.lemma_orderly();
    endings::lemma_everyone(before@);
    endings::lemma_fenced(before@, now, r, Set::full());
    endings::lemma_lost_roster(before@, after@);
    super::actors::lemma_same_roster(before@, after@, r);
    lemma_lineage_roster(before@, after@, below);
    after.lemma_living();
    lemma_ended_below(after@, below, r);
    what_has_ended_has_nothing(after, below);
}

/// Whether a World only lost things, nobody ended, and nothing was discarded.
spec fn calm(v: WorldView, n: WorldView) -> bool {
    &&& endings::only_lost(v, n)
    &&& n.metrics.discarded == v.metrics.discarded
    &&& forall|i: int|
        0 <= i < v.actors.len() ==> super::is_ended((#[trigger] n.actors[i]).state)
            == super::is_ended(v.actors[i].state)
}

/// Whether what has ended holds nothing, serves nobody, and owns only what has
/// ended.
spec fn hushed(v: WorldView) -> bool {
    forall|i: int|
        0 <= i < v.actors.len() && super::is_ended((#[trigger] v.actors[i]).state) ==> {
            &&& v.actors[i].queue.len() == 0
            &&& v.actors[i].staged.len() == 0
            &&& !v.services.records.dom().contains(v.actors[i].reference)
            &&& forall|k: int|
                0 <= k < v.actors[i].children.len() ==> super::is_ended(
                    v.at(#[trigger] v.actors[i].children[k]).state,
                )
        }
}

proof fn lemma_world_hushed(world: World)
    requires
        world.steady(),
    ensures
        hushed(world@),
{
    reveal(WorldView::living);
    reveal(WorldView::kin);
    let v = world@;
    world.lemma_living();
    world.lemma_kin();
    world.lemma_sound();
    assert forall|i: int| 0 <= i < v.actors.len() && super::is_ended(
        (#[trigger] v.actors[i]).state,
    ) implies {
        &&& v.actors[i].queue.len() == 0
        &&& v.actors[i].staged.len() == 0
        &&& !v.services.records.dom().contains(v.actors[i].reference)
        &&& forall|k: int|
            0 <= k < v.actors[i].children.len() ==> super::is_ended(
                v.at(#[trigger] v.actors[i].children[k]).state,
            )
    } by {
        super::lemma_placed(v, i);
        assert(!v.lives(v.actors[i].reference));
        assert forall|k: int| 0 <= k < v.actors[i].children.len() implies super::is_ended(
            v.at(#[trigger] v.actors[i].children[k]).state,
        ) by {
            let c = v.actors[i].children[k];
            assert(v.owned(c, v.actors[i].reference));
            assert(!super::is_ended(v.actors[c.slot as int].state) ==> v.lives(
                v.actors[i].reference,
            ));
        }
    }
}

proof fn lemma_still_hushed(v: WorldView, n: WorldView)
    requires
        hushed(v),
        endings::orderly(v),
        calm(v, n),
    ensures
        hushed(n),
{
    reveal(endings::only_lost);
    reveal(endings::orderly);
    assert forall|i: int| 0 <= i < n.actors.len() && super::is_ended(
        (#[trigger] n.actors[i]).state,
    ) implies {
        &&& n.actors[i].queue.len() == 0
        &&& n.actors[i].staged.len() == 0
        &&& !n.services.records.dom().contains(n.actors[i].reference)
        &&& forall|k: int|
            0 <= k < n.actors[i].children.len() ==> super::is_ended(
                n.at(#[trigger] n.actors[i].children[k]).state,
            )
    } by {
        assert(super::is_ended(v.actors[i].state));
        assert(n.actors[i].reference == v.actors[i].reference);
        assert forall|k: int| 0 <= k < n.actors[i].children.len() implies super::is_ended(
            n.at(#[trigger] n.actors[i].children[k]).state,
        ) by {
            let c = n.actors[i].children[k];
            assert(v.actors[i].children.contains(c));
            let j = v.actors[i].children.index_of(c);
            assert(super::is_ended(v.at(v.actors[i].children[j]).state));
            assert(v.valid(v.actors[i].children[j]));
            assert(super::is_ended(n.actors[c.slot as int].state));
        }
    }
}

proof fn lemma_calm_of(v: WorldView, n: WorldView)
    requires
        endings::only_lost(v, n),
        endings::states_kept(v, n),
        n.metrics.discarded == v.metrics.discarded,
    ensures
        calm(v, n),
{
    reveal(endings::only_lost);
    reveal(endings::states_kept);
    assert forall|i: int| 0 <= i < v.actors.len() implies super::is_ended(
        (#[trigger] n.actors[i]).state,
    ) == super::is_ended(v.actors[i].state) by {
        if v.actors[i].state != Lifecycle::Stopping {
            assert(n.actors[i].state == v.actors[i].state);
        }
    }
}

proof fn lemma_calm_twice(a: WorldView, b: WorldView, c: WorldView)
    requires
        calm(a, b),
        calm(b, c),
    ensures
        calm(a, c),
{
    endings::lemma_lost_twice(a, b, c);
    endings::lemma_lost_roster(a, b);
    assert forall|i: int| 0 <= i < a.actors.len() implies super::is_ended(
        (#[trigger] c.actors[i]).state,
    ) == super::is_ended(a.actors[i].state) by {
        assert(super::is_ended(b.actors[i].state) == super::is_ended(a.actors[i].state));
    }
}

proof fn lemma_cancelled_discarded(v: WorldView, ids: Seq<u64>, outcome: PublicationOutcome)
    ensures
        v.publications_cancelled(ids, outcome).metrics.discarded == v.metrics.discarded,
        v.publications_cancelled(ids, outcome).services == v.services,
    decreases ids.len(),
{
    if ids.len() > 0 {
        lemma_cancelled_discarded(v, ids.drop_last(), outcome);
    }
}

/// Looking at an actor that may have stopped counts nothing.
proof fn lemma_finalized_metrics(v: WorldView, r: ActorRef)
    ensures
        v.finalized(r).metrics == v.metrics,
        v.finalized(r).services == v.services,
    decreases v.order(r),
{
    reveal(WorldView::finalized);
    let seen = v.refreshed(r).marked(r);
    if !(!v.valid(r) || !seen.can_retire(r)) {
        let gone = seen.retired(r).refreshed(r);
        let ops = gone.ops.owner_retired(r);
        super::actors::lemma_with_ops(gone, ops);
        let settled = gone.with_ops(ops);
        match v.at(r).parent {
            Some(p) => {
                let told = if settled.valid(p) {
                    settled.bereaved(p, r)
                } else {
                    settled
                };
                if told.order(p) < v.order(r) {
                    lemma_finalized_metrics(told, p);
                }
            },
            None => {},
        }
    }
}

proof fn lemma_notices_discarded(v: WorldView, supervisor: ActorRef, sources: Seq<ActorRef>)
    ensures
        v.notices_dropped(supervisor, sources).metrics.discarded == v.metrics.discarded,
        v.notices_dropped(supervisor, sources).services == v.services,
    decreases sources.len(),
{
    if sources.len() > 0 {
        lemma_notices_discarded(v, supervisor, sources.drop_last());
        let m = v.notices_dropped(supervisor, sources.drop_last());
        let source = sources.last();
        let a = m.put(source, ActorView { notification: None, ..m.at(source) });
        let b = a.put(
            supervisor,
            ActorView {
                pending_failures: super::fence::less_one(a.at(supervisor).pending_failures),
                ..a.at(supervisor)
            },
        );
        lemma_finalized_metrics(
            WorldView {
                metrics: Metrics {
                    notifications_discarded: types::bumped(b.metrics.notifications_discarded),
                    ..b.metrics
                },
                ..b
            },
            source,
        );
    }
}

proof fn lemma_ops_discarded(v: WorldView, now: Instant, r: ActorRef)
    ensures
        v.ops_fenced(now, r).metrics.discarded == v.metrics.discarded,
        v.ops_fenced(now, r).services == v.services,
        v.ops_fenced(now, r).actors == v.actors,
{
    let ends = v.ops.ends_of(ordered::sorted(v.ops.pending_touching(r)));
    let asked = v.ops.wins(ordered::sorted(v.ops.owned(r)), OutcomeView::OwnerStopped);
    let mid = v.ops.owner_cancelled(r);
    let answered = mid.wins(ordered::sorted(mid.targeted(r)), OutcomeView::TargetStopped);
    super::actors::lemma_with_ops(v, mid.target_stopped(r));
    let a = v.with_ops(mid.target_stopped(r));
    endings::lemma_ends_marked(a, ends);
    let b = a.marked_ends(ends);
    let counted = WorldView {
        metrics: Metrics {
            operation_cancelled: types::raised(
                types::raised(b.metrics.operation_cancelled, asked),
                answered,
            ),
            ..b.metrics
        },
        ..b
    };
    endings::lemma_times_noted(counted, now, DiagnosticCode::Cancelled, Some(r), asked);
    endings::lemma_times_noted(
        counted.noted_times(now, DiagnosticCode::Cancelled, Some(r), asked),
        now,
        DiagnosticCode::Cancelled,
        Some(r),
        answered,
    );
}

/// The part of a fence that touches the actor alone discards nothing.
proof fn lemma_quiet(v: WorldView, now: Instant, r: ActorRef)
    requires
        endings::orderly(v),
        v.valid(r),
        !v.services.records.dom().contains(r),
    ensures
        ({
            let quiet = v.severed(r).service_detached(now, r, v.juniors(r)).notices_discarded(
                r,
            ).ops_fenced(now, r);
            calm(v, quiet)
        }),
{
    endings::lemma_tables(v);
    let a = v.severed(r);
    endings::lemma_severed(v, r);
    lemma_cancelled_discarded(
        v,
        ordered::sorted(v.pubs.of_source(r)),
        PublicationOutcome::Cancelled,
    );
    lemma_calm_of(v, a);
    endings::lemma_orderly(v, a);
    endings::lemma_tables(a);
    assert(a.service_detached(now, r, v.juniors(r)) == a);
    let b = a.notices_discarded(r);
    endings::lemma_notices_discarded(a, r);
    if a.valid(r) {
        lemma_notices_discarded(a, r, a.reporting(a.at(r).children));
    }
    lemma_calm_of(a, b);
    lemma_calm_twice(v, a, b);
    let c = b.ops_fenced(now, r);
    endings::lemma_ops_fenced(b, now, r);
    lemma_ops_discarded(b, now, r);
    lemma_calm_of(b, c);
    lemma_calm_twice(v, b, c);
}

proof fn lemma_halted_calm(v: WorldView, r: ActorRef)
    requires
        endings::orderly(v),
        v.valid(r),
        v.at(r).state == Lifecycle::Stopping,
        v.at(r).queue.len() == 0,
        v.at(r).staged.len() == 0,
    ensures
        calm(v, v.halted(r)),
{
    reveal(endings::only_lost);
    reveal(endings::states_kept);
    endings::lemma_tables(v);
    let ids = ordered::sorted(routing::touching(v.subs, r));
    endings::lemma_routes(v, ids);
    endings::lemma_routes_alone(v, ids);
    let a = v.routes_dropped(ids);
    lemma_calm_of(v, a);
    let b = a.stripped(r);
    let gone = a.at(r);
    assert(super::expiring::staged_shares(gone.staged) =~= Seq::<u64>::empty());
    assert(super::expiring::queued_shares(gone.queue) =~= Seq::<u64>::empty());
    assert(gone.queue =~= Seq::empty());
    assert(gone.staged =~= Seq::empty());
    assert(b.actors =~= a.actors);
    assert(b =~= a);
    endings::lemma_finalized(a, r);
    lemma_finalized_metrics(a, r);
    lemma_calm_of(a, a.finalized(r));
    lemma_calm_twice(v, a, a.finalized(r));
}

/// Cutting off what has ended discards nothing and ends nobody.
proof fn lemma_fence_calm(v: WorldView, now: Instant, r: ActorRef)
    requires
        endings::orderly(v),
        hushed(v),
        v.valid(r),
        super::is_ended(v.at(r).state),
    ensures
        calm(v, v.fenced(now, r).0),
    decreases v.juniors(r), 2nat, 0nat,
{
    endings::lemma_seat(v, r);
    assert(v.actors[r.slot as int] == v.at(r));
    lemma_quiet(v, now, r);
    let limit = v.juniors(r);
    let quiet = v.severed(r).service_detached(now, r, limit).notices_discarded(r).ops_fenced(
        now,
        r,
    );
    lemma_still_hushed(v, quiet);
    endings::lemma_orderly(v, quiet);
    endings::lemma_lost_roster(v, quiet);
    super::actors::lemma_same_roster(v, quiet, r);
    super::fence::lemma_roster_age(v, quiet, r);
    endings::lemma_seat(quiet, r);
    assert(super::is_ended(quiet.actors[r.slot as int].state));
    lemma_children_calm(quiet, now, quiet.at(r).children, limit);
    let w = quiet.children_fenced(now, quiet.at(r).children, limit).0;
    lemma_still_hushed(quiet, w);
    endings::lemma_orderly(quiet, w);
    endings::lemma_lost_roster(quiet, w);
    super::actors::lemma_same_roster(quiet, w, r);
    lemma_calm_twice(v, quiet, w);
    assert(super::is_ended(w.actors[r.slot as int].state));
    if quiet.children_fenced(now, quiet.at(r).children, limit).1 is Ok && w.at(r).state
        != Lifecycle::Stopped {
        lemma_halted_calm(w, r);
        lemma_calm_twice(v, w, w.halted(r));
    }
}

proof fn lemma_children_calm(v: WorldView, now: Instant, children: Seq<ActorRef>, limit: nat)
    requires
        endings::orderly(v),
        hushed(v),
        forall|k: int|
            0 <= k < children.len() ==> v.valid(#[trigger] children[k]) && super::is_ended(
                v.at(children[k]).state,
            ),
    ensures
        calm(v, v.children_fenced(now, children, limit).0),
    decreases limit, 0nat, children.len(),
{
    if children.len() == 0 {
        endings::lemma_nothing_lost(v);
    } else {
        let rest = children.drop_last();
        assert forall|k: int| 0 <= k < rest.len() implies v.valid(#[trigger] rest[k])
            && super::is_ended(v.at(rest[k]).state) by {
            assert(rest[k] == children[k]);
        }
        lemma_children_calm(v, now, rest, limit);
        let (m, result) = v.children_fenced(now, rest, limit);
        let child = children[children.len() - 1];
        endings::lemma_orderly(v, m);
        lemma_still_hushed(v, m);
        endings::lemma_lost_roster(v, m);
        super::actors::lemma_same_roster(v, m, child);
        assert(super::is_ended(m.actors[child.slot as int].state));
        if result is Ok && m.valid(child) && m.juniors(child) < limit {
            lemma_fence_calm(m, now, child);
            lemma_calm_twice(v, m, m.fenced(now, child).0);
        }
    }
}

/// Stopping an actor that has ended discards nothing, so a second stop reports
/// none.
pub proof fn a_second_stop_discards_nothing(world: World, now: Instant, r: ActorRef)
    requires
        world.inv(),
        world@.valid(r),
        super::is_ended(world@.at(r).state),
    ensures
        world@.stopping(now, r).0.metrics.discarded == world@.metrics.discarded,
        world@.stopping(now, r).1 matches Ok(report) && report.discarded == 0,
{
    world.lemma_orderly();
    lemma_world_hushed(world);
    lemma_fence_calm(world@, now, r);
    endings::a_stop_succeeds(world, now, r);
}

/// Cutting off actors one after the other ends each of them.
proof fn lemma_all_fenced(v: WorldView, now: Instant, refs: Seq<ActorRef>)
    requires
        endings::orderly(v),
        forall|k: int| 0 <= k < refs.len() ==> v.valid(#[trigger] refs[k]),
    ensures
        endings::only_lost(v, v.all_fenced(now, refs)),
        forall|k: int|
            0 <= k < refs.len() ==> super::is_ended(
                v.all_fenced(now, refs).at(#[trigger] refs[k]).state,
            ),
    decreases refs.len(),
{
    if refs.len() == 0 {
        endings::lemma_nothing_lost(v);
    } else {
        let rest = refs.drop_last();
        assert forall|k: int| 0 <= k < rest.len() implies v.valid(#[trigger] rest[k]) by {
            assert(rest[k] == refs[k]);
        }
        lemma_all_fenced(v, now, rest);
        let m = v.all_fenced(now, rest);
        let r = refs[refs.len() - 1];
        endings::lemma_orderly(v, m);
        endings::lemma_lost_roster(v, m);
        super::actors::lemma_same_roster(v, m, r);
        endings::lemma_everyone(m);
        endings::lemma_fenced(m, now, r, Set::full());
        lemma_one_more_ended(v, m, m.fenced(now, r).0, refs);
    }
}

/// One more actor that ended, after those before it.
proof fn lemma_one_more_ended(v: WorldView, m: WorldView, n: WorldView, refs: Seq<ActorRef>)
    requires
        refs.len() > 0,
        forall|k: int| 0 <= k < refs.len() ==> v.valid(#[trigger] refs[k]),
        endings::only_lost(v, m),
        endings::only_lost(m, n),
        forall|k: int|
            0 <= k < refs.drop_last().len() ==> super::is_ended(
                m.at(#[trigger] refs.drop_last()[k]).state,
            ),
        super::is_ended(n.at(refs.last()).state),
    ensures
        endings::only_lost(v, n),
        forall|k: int|
            0 <= k < refs.len() ==> super::is_ended(n.at(#[trigger] refs[k]).state),
{
    endings::lemma_lost_roster(v, m);
    endings::lemma_lost_twice(v, m, n);
    assert forall|k: int| 0 <= k < refs.len() implies super::is_ended(
        n.at(#[trigger] refs[k]).state,
    ) by {
        if k < refs.len() - 1 {
            assert(refs.drop_last()[k] == refs[k]);
            super::actors::lemma_same_roster(v, m, refs[k]);
            endings::lemma_still_ended(m, n, refs[k]);
        }
    }
}

/// Whether one of the first slots holds an actor.
spec fn holds(v: WorldView, n: nat, r: ActorRef) -> bool {
    exists|i: int| 0 <= i < n && (#[trigger] v.actors[i]).reference == r
}

/// The actors without an owner are all among the roots.
proof fn lemma_roots(v: WorldView, n: nat)
    requires
        n <= v.actors.len(),
    ensures
        forall|i: int|
            0 <= i < n && (#[trigger] v.actors[i]).parent is None ==> v.roots(n, true).contains(
                v.actors[i].reference,
            ),
        forall|k: int|
            0 <= k < v.roots(n, true).len() ==> holds(v, n, #[trigger] v.roots(n, true)[k]),
    decreases n,
{
    if n > 0 {
        lemma_roots(v, (n - 1) as nat);
        let rest = v.roots((n - 1) as nat, true);
        let all = v.roots(n, true);
        let last = v.actors[n - 1];
        assert forall|i: int| 0 <= i < n && (#[trigger] v.actors[i]).parent is None implies all.contains(
            v.actors[i].reference,
        ) by {
            if i < n - 1 {
                assert(rest.contains(v.actors[i].reference));
                let k = rest.index_of(v.actors[i].reference);
                assert(all[k] == v.actors[i].reference);
            } else {
                assert(all[all.len() - 1] == last.reference);
            }
        }
        assert forall|k: int| 0 <= k < all.len() implies holds(v, n, #[trigger] all[k]) by {
            if k < rest.len() {
                assert(all[k] == rest[k]);
                assert(holds(v, (n - 1) as nat, rest[k]));
                let i = choose|i: int|
                    0 <= i < n - 1 && (#[trigger] v.actors[i]).reference == rest[k];
                assert(v.actors[i].reference == all[k]);
            } else {
                assert(v.actors[n - 1].reference == all[k]);
            }
        }
    }
}

proof fn lemma_all_ended(v: WorldView, r: ActorRef)
    requires
        v.sound(),
        v.living(),
        forall|i: int|
            0 <= i < v.actors.len() && (#[trigger] v.actors[i]).parent is None ==> super::is_ended(
                v.actors[i].state,
            ),
        v.valid(r),
    ensures
        super::is_ended(v.at(r).state),
    decreases v.order(r),
{
    reveal(WorldView::living);
    super::lemma_placed(v, r.slot as int);
    let a = v.actors[r.slot as int];
    if !super::is_ended(a.state) && a.parent is Some {
        assert(v.lives(a.parent->0));
        lemma_all_ended(v, a.parent->0);
    }
}

proof fn lemma_closed(before: World, after: World, now: Instant)
    requires
        before.steady(),
        after.steady(),
        after@ == before@.closing(now),
    ensures
        after@.closed,
        forall|r: ActorRef| #[trigger] after@.valid(r) ==> super::is_ended(after@.at(r).state),
{
    reveal(endings::only_lost);
    reveal(endings::orderly);
    let v = before@;
    let shut = WorldView { closed: true, routing_closed: true, routing_dirty: true, ..v };
    before.lemma_orderly();
    assert(endings::only_lost(v, shut));
    endings::lemma_orderly(v, shut);
    let refs = v.roots(v.actors.len(), true);
    lemma_roots(v, v.actors.len());
    assert forall|k: int| 0 <= k < refs.len() implies shut.valid(#[trigger] refs[k]) by {
        assert(holds(v, v.actors.len(), refs[k]));
        let i = choose|i: int|
            0 <= i < v.actors.len() && (#[trigger] v.actors[i]).reference == refs[k];
        assert(v.actors[i].reference.slot == i);
    }
    lemma_all_fenced(shut, now, refs);
    let n = after@;
    endings::lemma_lost_roster(shut, n);
    after.lemma_sound();
    after.lemma_living();
    assert forall|i: int|
        0 <= i < n.actors.len() && (#[trigger] n.actors[i]).parent is None implies super::is_ended(
        n.actors[i].state,
    ) by {
        assert(n.actors[i].reference == shut.actors[i].reference);
        assert(v.actors[i].parent is None);
        assert(refs.contains(v.actors[i].reference));
        let k = refs.index_of(v.actors[i].reference);
        assert(v.actors[i].reference.slot == i);
        assert(super::is_ended(n.at(refs[k]).state));
    }
    assert forall|r: ActorRef| #[trigger] n.valid(r) implies super::is_ended(n.at(r).state) by {
        lemma_all_ended(n, r);
    }
}

/// Once a World is closed, every actor has ended, and no route, no pending
/// operation, no publication, no service and no lease is left.
pub proof fn a_closed_world_is_empty(before: World, after: World, now: Instant)
    requires
        before.inv(),
        after.inv(),
        after@ == before@.closing(now),
    ensures
        after@.closed,
        forall|r: ActorRef| #[trigger] after@.valid(r) ==> super::is_ended(after@.at(r).state),
        after@.subs.dom() == Set::<u64>::empty(),
        after@.ops.pending_ids() == Set::<OperationId>::empty(),
        after@.pubs.entries.dom() == Set::<u64>::empty(),
        after@.services.records.dom() == Set::<ActorRef>::empty(),
        after@.services.leases.dom() == Set::<ActorRef>::empty(),
{
    lemma_closed(before, after, now);
    reveal(WorldView::living);
    after.lemma_living();
    let n = after@;
    assert forall|r: ActorRef| !(#[trigger] n.lives(r)) by {}
    assert forall|id: u64| !n.subs.dom().contains(id) by {
        assert(n.subs.dom().contains(id) ==> n.route_lives(n.subs[id]));
    }
    assert(n.subs.dom() =~= Set::<u64>::empty());
    assert forall|id: OperationId| !n.ops.pending_ids().contains(id) by {
        if n.ops.pending_ids().contains(id) {
            assert(n.ops.has(id));
        }
    }
    assert(n.ops.pending_ids() =~= Set::<OperationId>::empty());
    assert(n.pubs.entries.dom() =~= Set::<u64>::empty());
    assert(n.services.records.dom() =~= Set::<ActorRef>::empty());
    assert(n.services.leases.dom() =~= Set::<ActorRef>::empty());
}

/// Where no actor has an entry, none is counted.
proof fn lemma_nothing_queued(v: WorldView, n: nat)
    requires
        n <= v.actors.len(),
        forall|i: int|
            0 <= i < n ==> (#[trigger] v.actors[i]).queue.len() == 0 && v.actors[i].staged.len()
                == 0,
    ensures
        v.counted_slots(n).queued == 0,
    decreases n,
{
    if n > 0 {
        lemma_nothing_queued(v, (n - 1) as nat);
        assert(v.actors[n - 1].queue.len() == 0);
    }
}

/// Once a World is closed, no failure waits to be told.
proof fn lemma_nothing_waits(before: World, after: World, now: Instant)
    requires
        before.inv(),
        after.inv(),
        after@ == before@.closing(now),
    ensures
        forall|i: int|
            0 <= i < after@.actors.len() ==> (#[trigger] after@.actors[i]).notification is None,
{
    let v = before@;
    let shut = WorldView { closed: true, routing_closed: true, routing_dirty: true, ..v };
    before.lemma_orderly();
    assert(endings::only_lost(v, shut)) by {
        reveal(endings::only_lost);
    }
    endings::lemma_orderly(v, shut);
    let refs = v.roots(v.actors.len(), true);
    lemma_roots(v, v.actors.len());
    assert forall|k: int| 0 <= k < refs.len() implies shut.valid(#[trigger] refs[k]) by {
        assert(holds(v, v.actors.len(), refs[k]));
        let i = choose|i: int|
            0 <= i < v.actors.len() && (#[trigger] v.actors[i]).reference == refs[k];
        before.lemma_sound();
        super::lemma_placed(v, i);
    }
    let within = super::telling::lemma_all_rest(shut, now, refs);
    let n = after@;
    endings::lemma_lost_roster(shut, n);
    after.lemma_orderly();
    after.lemma_kin();
    after.lemma_sound();
    after.lemma_neat();
    assert forall|i: int|
        0 <= i < n.actors.len() && (#[trigger] n.actors[i]).parent is None implies within.contains(
        n.actors[i].reference,
    ) by {
        assert(n.actors[i].reference == shut.actors[i].reference);
        assert(v.actors[i].parent is None);
        assert(refs.contains(v.actors[i].reference));
        let k = refs.index_of(v.actors[i].reference);
        assert(within.contains(refs[k]));
    }
    assert forall|i: int| 0 <= i < n.actors.len() implies (#[trigger] n.actors[i]).notification
        is None by {
        reveal(WorldView::expecting);
        super::lemma_placed(n, i);
        if n.actors[i].state != Lifecycle::Stopped {
            super::telling::lemma_no_notice(n, within, n.actors[i].reference);
        }
    }
}

/// Where no failure waits, none is counted.
proof fn lemma_nothing_pending(v: WorldView, n: nat)
    requires
        n <= v.actors.len(),
        forall|i: int| 0 <= i < n ==> (#[trigger] v.actors[i]).notification is None,
    ensures
        v.counted_slots(n).pending_notifications == 0,
    decreases n,
{
    if n > 0 {
        lemma_nothing_pending(v, (n - 1) as nat);
        assert(v.actors[n - 1].notification is None);
    }
}

/// The report of a close has nothing queued and nothing outstanding, and no
/// failure waits to be told: it is done once nothing is in flight.
pub proof fn a_close_waits_for_what_is_in_flight(before: World, after: World, now: Instant)
    requires
        before.inv(),
        after.inv(),
        after@ == before@.closing(now),
    ensures
        ({
            let report = after@.report_since(before@);
            &&& report.queued == 0
            &&& report.outstanding_operations == 0
            &&& report.outstanding_publications == 0
            &&& report.pending_notifications == 0
            &&& report.native_done <==> report.in_flight == 0
        }),
{
    let n = after@;
    a_closed_world_is_empty(before, after, now);
    after.lemma_sound();
    lemma_world_hushed(after);
    assert forall|i: int| 0 <= i < n.actors.len() implies (#[trigger] n.actors[i]).queue.len() == 0
        && n.actors[i].staged.len() == 0 by {
        super::lemma_placed(n, i);
        assert(n.valid(n.actors[i].reference));
    }
    lemma_nothing_queued(n, n.actors.len());
    lemma_nothing_waits(before, after, now);
    lemma_nothing_pending(n, n.actors.len());
    assert(n.ops.pending_ids().len() == 0);
    assert(n.pubs.entries.dom().len() == 0);
}

/// A World that is closed makes no actor and holds no payload any more.
pub proof fn a_closed_world_takes_nothing_in(
    v: WorldView,
    parent: Option<ActorRef>,
    now: Instant,
    p: Payload,
    charge: usize,
    options: MessageOptions,
)
    requires
        v.closed,
    ensures
        v.refuses_allocation(parent) == Some(Error::ActorStopped),
        v.holding(now, p, charge, options).0 == v,
        v.holding(now, p, charge, options).1 is Err,
        v.holding(now, p, charge, options).1->Err_0 == Error::ActorStopped,
{
}

/// Closing a World a second time discards nothing.
pub proof fn a_second_close_discards_nothing(
    before: World,
    after: World,
    now: Instant,
    later: Instant,
)
    requires
        before.inv(),
        after.inv(),
        after@ == before@.closing(now),
    ensures
        after@.closing(later).metrics.discarded == after@.metrics.discarded,
        after@.closing(later).report_since(after@).discarded == 0,
{
    reveal(endings::only_lost);
    reveal(endings::orderly);
    lemma_closed(before, after, now);
    let v = after@;
    let shut = WorldView { closed: true, routing_closed: true, routing_dirty: true, ..v };
    after.lemma_orderly();
    lemma_world_hushed(after);
    assert(endings::only_lost(v, shut));
    endings::lemma_orderly(v, shut);
    assert(hushed(shut)) by {
        assert forall|r: ActorRef| #[trigger] shut.at(r) == v.at(r) by {}
        assert(calm(v, shut));
        lemma_still_hushed(v, shut);
    }
    let refs = v.roots(v.actors.len(), true);
    lemma_roots(v, v.actors.len());
    assert forall|k: int| 0 <= k < refs.len() implies shut.valid(#[trigger] refs[k])
        && super::is_ended(shut.at(refs[k]).state) by {
        assert(holds(v, v.actors.len(), refs[k]));
        let i = choose|i: int|
            0 <= i < v.actors.len() && (#[trigger] v.actors[i]).reference == refs[k];
        assert(v.actors[i].reference.slot == i);
        assert(v.valid(refs[k]));
    }
    lemma_all_calm(shut, later, refs);
}

proof fn lemma_all_calm(v: WorldView, now: Instant, refs: Seq<ActorRef>)
    requires
        endings::orderly(v),
        hushed(v),
        forall|k: int|
            0 <= k < refs.len() ==> v.valid(#[trigger] refs[k]) && super::is_ended(
                v.at(refs[k]).state,
            ),
    ensures
        calm(v, v.all_fenced(now, refs)),
    decreases refs.len(),
{
    if refs.len() == 0 {
        endings::lemma_nothing_lost(v);
    } else {
        let rest = refs.drop_last();
        assert forall|k: int| 0 <= k < rest.len() implies v.valid(#[trigger] rest[k])
            && super::is_ended(v.at(rest[k]).state) by {
            assert(rest[k] == refs[k]);
        }
        lemma_all_calm(v, now, rest);
        let m = v.all_fenced(now, rest);
        let r = refs[refs.len() - 1];
        endings::lemma_orderly(v, m);
        lemma_still_hushed(v, m);
        endings::lemma_lost_roster(v, m);
        super::actors::lemma_same_roster(v, m, r);
        assert(super::is_ended(m.actors[r.slot as int].state));
        lemma_fence_calm(m, now, r);
        lemma_calm_twice(v, m, m.fenced(now, r).0);
    }
}

/// A fence takes the lease of a scope away and nothing else of the services,
/// where the scope owns nothing and serves nobody.
proof fn lemma_lease_alone(v: WorldView, now: Instant, r: ActorRef)
    requires
        endings::orderly(v),
        v.valid(r),
        v.at(r).children.len() == 0,
        !v.services.records.dom().contains(r),
        v.services.leases.dom().contains(r),
    ensures
        v.fenced(now, r).0.services == v.services.unleased(r),
{
    reveal(endings::only_lost);
    lemma_quiet(v, now, r);
    lemma_cancelled_discarded(
        v,
        ordered::sorted(v.pubs.of_source(r)),
        PublicationOutcome::Cancelled,
    );
    let a = v.severed(r);
    assert(a.services == v.services.unleased(r));
    let b = a.notices_discarded(r);
    if a.valid(r) {
        lemma_notices_discarded(a, r, a.reporting(a.at(r).children));
    }
    assert(b.services == a.services);
    let c = b.ops_fenced(now, r);
    lemma_ops_discarded(b, now, r);
    assert(c.at(r).children.len() == 0) by {
        if c.at(r).children.len() > 0 {
            assert(v.actors[r.slot as int].children.contains(c.actors[r.slot as int].children[0]));
        }
    }
    assert(c.children_fenced(now, c.at(r).children, v.juniors(r)).0 == c);
    let ids = ordered::sorted(routing::touching(c.subs, r));
    endings::lemma_routes_alone(c, ids);
    let d = c.routes_dropped(ids);
    let gone = d.at(r);
    let shares = super::expiring::staged_shares(gone.staged);
    let put = d.put(
        r,
        ActorView {
            state: Lifecycle::Stopping,
            queue: Seq::empty(),
            staged: Seq::empty(),
            ..gone
        },
    );
    super::actors::lemma_releasing_all(put, shares);
    super::actors::lemma_releasing_all(
        put.releasing_all(shares),
        super::expiring::queued_shares(gone.queue),
    );
    lemma_finalized_metrics(d.stripped(r), r);
}

/// Giving a lease back undoes the leasing: the services are as they were before
/// it. A second time there is nothing to give back, and the lease is not handed
/// out again.
pub proof fn a_release_undoes_a_lease(
    before: World,
    leased: World,
    after: World,
    now: Instant,
    later: Instant,
    owner: ActorRef,
    name: Seq<char>,
    required: InterfaceView,
    expected: Option<ActorRef>,
)
    requires
        before.inv(),
        before@.refuses_lease(owner, name, required, expected) is None,
        leased.inv(),
        leased@ == before@.with_lease(before@.next_lease(owner, name)),
        after.inv(),
        after@ == leased@.lease_ending(now, before@.next_lease(owner, name)).0,
    ensures
        ({
            let lease = before@.next_lease(owner, name);
            &&& leased@.services.leases.dom().contains(lease.scope)
            &&& leased@.services.leases[lease.scope] == lease
            &&& leased@.lease_ending(now, lease).1 == Ok::<bool, Error>(true)
            &&& after@.services == before@.services
            &&& after@.lease_ending(later, lease) == (after@, Ok::<bool, Error>(false))
            &&& after@.known(lease.scope)
            &&& after@.refuses_actor(Some(owner)) is None ==> after@.next_ref() != lease.scope
        }),
{
    let v = before@;
    let lease = v.next_lease(owner, name);
    before.lemma_sound();
    before.lemma_living();
    super::leasing::lemma_next_unknown(v, Some(owner));
    super::lemma_placed(v, owner.slot as int);
    super::actors::lemma_allocated(v, EndpointKind::Native, Some(owner), owner);
    let made = v.allocated(EndpointKind::Native, Some(owner));
    let mid = leased@;
    assert(mid.valid(lease.scope));
    assert(mid.at(lease.scope).children.len() == 0);
    assert(mid.services == v.services.leased(lease));
    assert(!v.services.records.dom().contains(lease.scope)) by {
        reveal(WorldView::living);
        if v.services.records.dom().contains(lease.scope) {
            assert(v.lives(lease.scope));
            assert(v.known(lease.scope));
        }
    }
    assert(mid.lease_is_local(lease)) by {
        reveal(WorldView::living);
        assert(v.valid(lease.service));
    }
    leased.lemma_orderly();
    lemma_lease_alone(mid, now, lease.scope);
    endings::a_stop_succeeds(leased, now, lease.scope);
    assert(after@.services.leases =~= v.services.leases);
    endings::lemma_everyone(mid);
    endings::lemma_fenced(mid, now, lease.scope, Set::full());
    endings::lemma_lost_roster(mid, after@);
    super::actors::lemma_same_roster(mid, after@, lease.scope);
    after.lemma_sound();
    if after@.refuses_actor(Some(owner)) is None {
        super::leasing::lemma_next_unknown(after@, Some(owner));
    }
}

} // verus!
