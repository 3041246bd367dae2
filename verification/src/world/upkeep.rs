//! What upkeep does: what has come due goes, and nothing else.
use vstd::prelude::*;
use vstd::multiset::Multiset;
use super::endings;
use super::expiring;
use super::laws;
use super::{ActorView, World, WorldView};
use crate::clock;
use crate::clock::Instant;
use crate::diagnostics;
use crate::diagnostics::DiagnosticCode;
use crate::expiry;
use crate::held;
use crate::held::{Delivery, Staged};
use crate::operations::{EntryView, OperationId, OpsView, OutcomeView};
use crate::ordered;
use crate::publications::{DuePublication, PublicationOutcome, PubsView};
use crate::types;
use crate::types::{ActorRef, Lifecycle, Metrics};

verus! {

/// Whether an operation had come due and timed out.
spec fn timed_out(a: Option<EntryView>, b: Option<EntryView>, now: Instant) -> bool {
    &&& a matches Some(e) && e.is_due(now)
    &&& b == Some(EntryView::Terminal { owner: a->0.owner(), outcome: OutcomeView::TimedOut })
}

/// Whether between two states of the operations some that had come due timed
/// out, and nothing else happened to any.
#[verifier::opaque]
spec fn timed(a: OpsView, b: OpsView, now: Instant) -> bool {
    &&& b.world == a.world
    &&& b.generations == a.generations
    &&& b.slots.len() == a.slots.len()
    &&& forall|i: int|
        0 <= i < a.slots.len() ==> (#[trigger] b.slots[i]) == a.slots[i] || timed_out(
            a.slots[i],
            b.slots[i],
            now,
        )
}

/// Whether routes, services, drains and the order of the actors are the same.
spec fn framed(v: WorldView, n: WorldView) -> bool {
    &&& n.id == v.id
    &&& n.subs == v.subs
    &&& n.services == v.services
    &&& n.next_ready_order == v.next_ready_order
    &&& n.drain_roots == v.drain_roots
}

proof fn lemma_timed_twice(a: OpsView, b: OpsView, c: OpsView, now: Instant)
    requires
        timed(a, b, now),
        timed(b, c, now),
    ensures
        timed(a, c, now),
{
    reveal(timed);
    assert forall|i: int| 0 <= i < a.slots.len() implies (#[trigger] c.slots[i]) == a.slots[i]
        || timed_out(a.slots[i], c.slots[i], now) by {
        assert(b.slots[i] == a.slots[i] || timed_out(a.slots[i], b.slots[i], now));
    }
}

proof fn lemma_timed_same(a: OpsView, b: OpsView, now: Instant)
    requires
        b == (OpsView { dropped: b.dropped, ..a }),
    ensures
        timed(a, b, now),
{
    reveal(timed);
}

proof fn lemma_timed_one(a: OpsView, id: OperationId, now: Instant)
    requires
        a.has(id),
        a.entry(id).is_due(now),
    ensures
        timed(a, a.completed(id, OutcomeView::TimedOut), now),
{
    reveal(timed);
    let b = a.completed(id, OutcomeView::TimedOut);
    assert(timed_out(a.slots[id.slot as int], b.slots[id.slot as int], now));
}

/// Timing out operations that have come due settles each of them.
proof fn lemma_all_timed(a: OpsView, ids: Seq<OperationId>, now: Instant)
    requires
        forall|k: int|
            0 <= k < ids.len() ==> a.has(#[trigger] ids[k]) && a.entry(ids[k]).is_due(now),
    ensures
        timed(a, a.completed_all(ids, OutcomeView::TimedOut), now),
        forall|k: int|
            0 <= k < ids.len() ==> a.completed_all(ids, OutcomeView::TimedOut).entry(
                #[trigger] ids[k],
            ) is Terminal,
    decreases ids.len(),
{
    if ids.len() == 0 {
        lemma_timed_same(a, a, now);
    } else {
        let rest = ids.drop_last();
        let last = ids[ids.len() - 1];
        assert forall|k: int| 0 <= k < rest.len() implies a.has(#[trigger] rest[k]) && a.entry(
            rest[k],
        ).is_due(now) by {
            assert(rest[k] == ids[k]);
        }
        lemma_all_timed(a, rest, now);
        let m = a.completed_all(rest, OutcomeView::TimedOut);
        let n = m.completed(last, OutcomeView::TimedOut);
        assert(a.has(last) && a.entry(last).is_due(now));
        assert(m.has(last) && (m.entry(last) == a.entry(last) || m.entry(last) is Terminal)) by {
            reveal(timed);
            assert(m.slots[last.slot as int] == a.slots[last.slot as int] || timed_out(
                a.slots[last.slot as int],
                m.slots[last.slot as int],
                now,
            ));
        }
        if m.entry(last) is Pending {
            lemma_timed_one(m, last, now);
        } else {
            lemma_timed_same(m, n, now);
        }
        lemma_timed_twice(a, m, n, now);
        assert forall|k: int| 0 <= k < ids.len() implies n.entry(
            #[trigger] ids[k],
        ) is Terminal by {
            if k < rest.len() {
                assert(rest[k] == ids[k]);
                assert(m.entry(rest[k]) is Terminal);
                assert(a.has(ids[k]));
                reveal(timed);
            }
        }
    }
}

/// Once operations were looked at, none that has come due is pending.
proof fn lemma_expired(a: OpsView, now: Instant)
    ensures
        timed(a, a.expired(now), now),
        a.expired(now).due(now) == Set::<OperationId>::empty(),
{
    let late = a.due(now);
    a.lemma_one_in_a_slot();
    assert(late.subset_of(a.live_ids()));
    vstd::set_lib::lemma_len_subset(late, a.live_ids());
    ordered::lemma_sorted_exists(late);
    let ids = ordered::sorted(late);
    assert forall|k: int| 0 <= k < ids.len() implies a.has(#[trigger] ids[k]) && a.entry(
        ids[k],
    ).is_due(now) by {
        assert(ids.to_set().contains(ids[k]));
    }
    lemma_all_timed(a, ids, now);
    let n = a.expired(now);
    assert forall|id: OperationId| !n.due(now).contains(id) by {
        if n.due(now).contains(id) {
            reveal(timed);
            assert(n.slots[id.slot as int] == a.slots[id.slot as int]);
            assert(late.contains(id));
            assert(ids.to_set().contains(id));
            let k = ids.index_of(id);
            assert(n.entry(ids[k]) is Terminal);
        }
    }
    assert(n.due(now) =~= Set::<OperationId>::empty());
}

proof fn lemma_timing_out_table(
    v: WorldView,
    now: Instant,
    at: Instant,
    id: OperationId,
    actor: Option<ActorRef>,
)
    ensures
        timed(v.ops, v.timing_out(now, at, id, actor).ops, now),
        v.timing_out(now, at, id, actor).pubs == v.pubs,
        framed(v, v.timing_out(now, at, id, actor)),
{
    lemma_timed_same(v.ops, v.ops, now);
    if v.op_is_due(now, id) {
        let ops = v.ops.completed(id, OutcomeView::TimedOut);
        super::actors::lemma_with_ops(v, ops);
        lemma_timed_one(v.ops, id, now);
        lemma_timed_same(ops, OpsView { dropped: Seq::empty(), ..ops }, now);
        lemma_timed_twice(v.ops, ops, OpsView { dropped: Seq::empty(), ..ops }, now);
    }
}

proof fn lemma_expiring_tables(v: WorldView, now: Instant, at: Instant, d: Delivery)
    ensures
        timed(v.ops, v.expiring(now, at, d).ops, now),
        v.expiring(now, at, d).pubs == v.pubs,
        framed(v, v.expiring(now, at, d)),
{
    lemma_timed_same(v.ops, v.ops, now);
    if d.operation is Some {
        let told = WorldView {
            metrics: (Metrics {
                expired: types::bumped(v.metrics.expired),
                cancelled: types::bumped(v.metrics.cancelled),
                discarded: types::bumped(v.metrics.discarded),
                ..v.metrics
            }),
            history: diagnostics::recorded(
                v.history,
                at,
                DiagnosticCode::DeadlineExpired,
                Some(d.envelope.destination),
                d.operation,
                None,
                Some(d.envelope),
            ),
            ..v
        };
        lemma_timing_out_table(told, now, at, d.operation->0, Some(d.envelope.destination));
    }
}

proof fn lemma_expired_tables(v: WorldView, now: Instant, at: Instant, dead: Seq<Delivery>)
    ensures
        timed(v.ops, v.deliveries_expired(now, at, dead).ops, now),
        v.deliveries_expired(now, at, dead).pubs == v.pubs,
        framed(v, v.deliveries_expired(now, at, dead)),
    decreases dead.len(),
{
    if dead.len() == 0 {
        lemma_timed_same(v.ops, v.ops, now);
    } else {
        lemma_expired_tables(v, now, at, dead.drop_last());
        let m = v.deliveries_expired(now, at, dead.drop_last());
        lemma_expiring_tables(m, now, at, dead.last());
        lemma_timed_twice(v.ops, m.ops, m.expiring(now, at, dead.last()).ops, now);
    }
}

/// Whether publications are those from before, without some.
spec fn without(a: PubsView, b: PubsView, ids: Seq<u64>) -> bool {
    &&& forall|id: u64| #[trigger]
        b.entries.dom().contains(id) <==> a.entries.dom().contains(id) && !ids.contains(id)
    &&& forall|id: u64| #[trigger]
        b.entries.dom().contains(id) ==> b.entries[id] == a.entries[id]
}

proof fn lemma_cancelled_entries(v: WorldView, ids: Seq<u64>, outcome: PublicationOutcome)
    ensures
        without(v.pubs, v.publications_cancelled(ids, outcome).pubs, ids),
        v.publications_cancelled(ids, outcome).ops == v.ops,
        v.publications_cancelled(ids, outcome).actors == v.actors,
        framed(v, v.publications_cancelled(ids, outcome)),
    decreases ids.len(),
{
    if ids.len() > 0 {
        let rest = ids.drop_last();
        lemma_cancelled_entries(v, rest, outcome);
        let m = v.publications_cancelled(rest, outcome);
        let n = v.publications_cancelled(ids, outcome);
        assert forall|id: u64| #[trigger] n.pubs.entries.dom().contains(id)
            <==> v.pubs.entries.dom().contains(id) && !ids.contains(id) by {
            assert(m.pubs.entries.dom().contains(id) <==> v.pubs.entries.dom().contains(id)
                && !rest.contains(id));
            if rest.contains(id) {
                let k = rest.index_of(id);
                assert(ids[k] == id);
            }
            if ids.contains(id) && id != ids.last() {
                let k = ids.index_of(id);
                assert(rest[k] == id);
            }
            assert(ids[ids.len() - 1] == ids.last());
        }
        assert forall|id: u64| #[trigger]
            n.pubs.entries.dom().contains(id) implies n.pubs.entries[id] == v.pubs.entries[id] by {
            assert(m.pubs.entries.dom().contains(id));
        }
    }
}

/// Whether something that was put aside for a publication has come due.
pub open spec fn put_aside_late(v: WorldView, id: u64, now: Instant) -> bool {
    exists|i: int, k: int|
        0 <= i < v.actors.len() && 0 <= k < v.actors[i].staged.len() && (
        #[trigger] v.actors[i].staged[k]).publication == id && clock::due(
            v.actors[i].staged[k].stored.options.deadline,
            now,
        )
}

/// Whether publications are those from before, without some for which something
/// put aside had come due.
#[verifier::opaque]
spec fn aside(v: WorldView, n: WorldView, now: Instant) -> bool {
    &&& forall|id: u64| #[trigger]
        n.pubs.entries.dom().contains(id) ==> v.pubs.entries.dom().contains(id)
            && n.pubs.entries[id] == v.pubs.entries[id]
    &&& forall|id: u64| #[trigger]
        v.pubs.entries.dom().contains(id) && !n.pubs.entries.dom().contains(id)
            ==> put_aside_late(v, id, now)
}

proof fn lemma_dead_staged(staged: Seq<Staged>, now: Instant)
    ensures
        forall|j: int|
            0 <= j < expiring::dead_staged(staged, now).len() ==> staged.contains(
                #[trigger] expiring::dead_staged(staged, now)[j],
            ) && clock::due(expiring::dead_staged(staged, now)[j].stored.options.deadline, now),
    decreases staged.len(),
{
    if staged.len() > 0 {
        let rest = staged.drop_last();
        lemma_dead_staged(rest, now);
        let less = expiring::dead_staged(rest, now);
        let all = expiring::dead_staged(staged, now);
        assert forall|j: int| 0 <= j < all.len() implies staged.contains(#[trigger] all[j])
            && clock::due(all[j].stored.options.deadline, now) by {
            if j < less.len() {
                assert(all[j] == less[j]);
                let k = rest.index_of(less[j]);
                assert(staged[k] == all[j]);
            } else {
                assert(staged[staged.len() - 1] == all[j]);
            }
        }
    }
}

proof fn lemma_purged_tables(v: WorldView, now: Instant, at: Instant, r: ActorRef)
    requires
        v.valid(r),
    ensures
        timed(v.ops, v.purged(now, at, r).ops, now),
        without(
            v.pubs,
            v.purged(now, at, r).pubs,
            expiring::staged_publications(expiring::dead_staged(v.at(r).staged, now)),
        ),
        framed(v, v.purged(now, at, r)),
{
    let a = v.at(r);
    let gone = expiring::dead_staged(a.staged, now);
    let left = v.put(r, laws::alive(a, now));
    lemma_expired_tables(left, now, at, expiring::dead_queue(a.queue, now));
    let w = left.deliveries_expired(now, at, expiring::dead_queue(a.queue, now));
    super::actors::lemma_releasing_all(w, expiring::staged_shares(gone));
    let x = w.releasing_all(expiring::staged_shares(gone));
    lemma_cancelled_entries(
        x,
        expiring::staged_publications(gone),
        PublicationOutcome::Expired,
    );
    let y = x.publications_cancelled(
        expiring::staged_publications(gone),
        PublicationOutcome::Expired,
    ).marked(r).refreshed(r);
    let z = WorldView {
        metrics: (Metrics {
            expired: types::raised(y.metrics.expired, gone.len()),
            cancelled: types::raised(y.metrics.cancelled, gone.len()),
            discarded: types::raised(y.metrics.discarded, gone.len()),
            ..y.metrics
        }),
        ..y
    };
    endings::lemma_times_noted(z, at, DiagnosticCode::DeadlineExpired, Some(r), gone.len());
}

proof fn lemma_purged_all_tables(v: WorldView, now: Instant, at: Instant, owners: Seq<ActorRef>)
    requires
        owners.no_duplicates(),
        forall|k: int| 0 <= k < owners.len() ==> v.valid(#[trigger] owners[k]),
    ensures
        timed(v.ops, v.purged_all(now, at, owners).ops, now),
        aside(v, v.purged_all(now, at, owners), now),
        framed(v, v.purged_all(now, at, owners)),
    decreases owners.len(),
{
    if owners.len() == 0 {
        lemma_timed_same(v.ops, v.ops, now);
        reveal(aside);
    } else {
        let rest = owners.drop_last();
        let last = owners[owners.len() - 1];
        assert forall|k: int| 0 <= k < rest.len() implies v.valid(#[trigger] rest[k]) by {
            assert(rest[k] == owners[k]);
        }
        lemma_purged_all_tables(v, now, at, rest);
        laws::lemma_purged_all(v, now, at, rest);
        let m = v.purged_all(now, at, rest);
        let n = v.purged_all(now, at, owners);
        assert(m.valid(last));
        assert(!rest.contains(last)) by {
            if rest.contains(last) {
                let k = rest.index_of(last);
                assert(owners[k] == owners[owners.len() - 1]);
            }
        }
        assert(m.at(last) == v.at(last));
        lemma_purged_tables(m, now, at, last);
        lemma_timed_twice(v.ops, m.ops, n.ops, now);
        reveal(aside);
        let gone = expiring::dead_staged(v.at(last).staged, now);
        lemma_dead_staged(v.at(last).staged, now);
        assert forall|id: u64| #[trigger]
            v.pubs.entries.dom().contains(id) && !n.pubs.entries.dom().contains(
                id,
            ) implies put_aside_late(v, id, now) by {
            if m.pubs.entries.dom().contains(id) {
                let list = expiring::staged_publications(gone);
                assert(list.contains(id));
                let j = list.index_of(id);
                let s = gone[j];
                assert(s.publication == id);
                assert(v.at(last).staged.contains(s));
                let k = v.at(last).staged.index_of(s);
                assert(v.actors[last.slot as int].staged[k] == s);
            }
        }
    }
}

/// The actors that have something late, in order.
pub(super) proof fn lemma_late_owners(v: WorldView, now: Instant)
    ensures
        ({
            let owners = ordered::sorted(v.overdue(now));
            &&& owners.no_duplicates()
            &&& forall|k: int| 0 <= k < owners.len() ==> v.valid(#[trigger] owners[k])
            &&& v.overdue(now).finite()
        }),
{
    let late = v.overdue(now);
    laws::lemma_finitely_valid(v);
    let all = Set::new(|r: ActorRef| v.valid(r));
    assert(late.subset_of(all));
    vstd::set_lib::lemma_len_subset(late, all);
    ordered::lemma_sorted_exists(late);
    let owners = ordered::sorted(late);
    ordered::lemma_ascending_distinct(owners);
    assert forall|k: int| 0 <= k < owners.len() implies v.valid(#[trigger] owners[k]) by {
        assert(owners.to_set().contains(owners[k]));
    }
}

/// The publications that have come due are listed, each under its number.
proof fn lemma_due_order(pubs: PubsView, now: Instant)
    requires
        pubs.entries.dom().finite(),
    ensures
        forall|id: u64| #[trigger]
            pubs.due_order(now).contains(id) <==> pubs.entries.dom().contains(id) && clock::due(
                pubs.entries[id].stored.options.deadline,
                now,
            ),
{
    let marks = pubs.due_marks(now);
    let name = |id: u64|
        DuePublication { at: pubs.entries[id].stored.options.deadline->0, id };
    pubs.entries.dom().lemma_map_finite(name);
    let named = pubs.entries.dom().map(name);
    assert forall|d: DuePublication| marks.contains(d) implies named.contains(d) by {
        assert(name(d.id) == d);
    }
    assert(marks.subset_of(named));
    vstd::set_lib::lemma_len_subset(marks, named);
    ordered::lemma_sorted_exists(marks);
    let order = ordered::sorted(marks);
    let ids = pubs.due_order(now);
    assert forall|id: u64| #[trigger] ids.contains(id) <==> pubs.entries.dom().contains(id)
        && clock::due(pubs.entries[id].stored.options.deadline, now) by {
        if ids.contains(id) {
            let k = ids.index_of(id);
            assert(order[k].id == id);
            assert(order.to_set().contains(order[k]));
            assert(marks.contains(order[k]));
        }
        if pubs.entries.dom().contains(id) && clock::due(
            pubs.entries[id].stored.options.deadline,
            now,
        ) {
            let d = name(id);
            assert(marks.contains(d));
            assert(order.to_set().contains(d));
            let k = order.index_of(d);
            assert(ids[k] == id);
        }
    }
}

proof fn lemma_timeouts_noted(v: WorldView, at: Instant, ids: Seq<OperationId>)
    ensures
        v.timeouts_noted(at, ids) == (WorldView { history: v.timeouts_noted(at, ids).history, ..v }),
    decreases ids.len(),
{
    if ids.len() > 0 {
        lemma_timeouts_noted(v, at, ids.drop_last());
    }
}

/// Looking at the operations leaves everything else but counts and records.
proof fn lemma_ops_expired(v: WorldView, now: Instant, at: Instant)
    ensures
        timed(v.ops, v.ops_expired(now, at).ops, now),
        v.ops_expired(now, at).ops.due(now) == Set::<OperationId>::empty(),
        v.ops_expired(now, at).pubs == v.pubs,
        v.ops_expired(now, at).actors == v.actors,
        framed(v, v.ops_expired(now, at)),
{
    let ids = ordered::sorted(v.ops.due(now));
    let ops = v.ops.expired(now);
    super::actors::lemma_with_ops(v, ops);
    let a = v.with_ops(ops);
    lemma_expired(v.ops, now);
    lemma_timed_same(ops, a.ops, now);
    lemma_timed_twice(v.ops, ops, a.ops, now);
    assert(a.ops.due(now) =~= Set::<OperationId>::empty()) by {
        assert forall|id: OperationId| !a.ops.due(now).contains(id) by {
            assert(!ops.due(now).contains(id));
        }
    }
    endings::lemma_ends_marked(a, v.ops.ends_of(ids));
    let b = a.marked_ends(v.ops.ends_of(ids));
    lemma_timeouts_noted(
        WorldView {
            metrics: (Metrics {
                operation_timed_out: types::raised(b.metrics.operation_timed_out, ids.len()),
                ..b.metrics
            }),
            ..b
        },
        at,
        ids,
    );
}

/// Everything that lapsing does to the tables and the mailboxes.
proof fn lemma_lapsed(world: World, now: Instant, at: Instant)
    requires
        world.steady(),
    ensures
        timed(world@.ops, world@.lapsed(now, at).ops, now),
        world@.lapsed(now, at).ops.due(now) == Set::<OperationId>::empty(),
        forall|id: u64| #[trigger]
            world@.lapsed(now, at).pubs.entries.dom().contains(id)
                ==> world@.pubs.entries.dom().contains(id) && world@.lapsed(
                now,
                at,
            ).pubs.entries[id] == world@.pubs.entries[id] && !clock::due(
                world@.pubs.entries[id].stored.options.deadline,
                now,
            ),
        forall|id: u64| #[trigger]
            world@.pubs.entries.dom().contains(id) && !world@.lapsed(
                now,
                at,
            ).pubs.entries.dom().contains(id) ==> clock::due(
                world@.pubs.entries[id].stored.options.deadline,
                now,
            ) || put_aside_late(world@, id, now),
        world@.lapsed(now, at).actors == world@.events_expired(now, at).actors,
        framed(world@, world@.lapsed(now, at)),
{
    let v = world@;
    world.lemma_publications();
    let owners = ordered::sorted(v.overdue(now));
    lemma_late_owners(v, now);
    lemma_purged_all_tables(v, now, at, owners);
    let a = v.events_expired(now, at);
    assert(a.pubs.entries.dom().finite()) by {
        reveal(aside);
        assert(a.pubs.entries.dom().subset_of(v.pubs.entries.dom()));
        vstd::set_lib::lemma_len_subset(a.pubs.entries.dom(), v.pubs.entries.dom());
    }
    let due = a.pubs.due_order(now);
    lemma_due_order(a.pubs, now);
    lemma_cancelled_entries(a, due, PublicationOutcome::Expired);
    let b = a.publications_expired(now);
    lemma_ops_expired(b, now, at);
    let n = v.lapsed(now, at);
    lemma_timed_twice(v.ops, a.ops, n.ops, now);
    assert forall|id: u64| #[trigger]
        n.pubs.entries.dom().contains(id) implies v.pubs.entries.dom().contains(id)
        && n.pubs.entries[id] == v.pubs.entries[id] && !clock::due(
        v.pubs.entries[id].stored.options.deadline,
        now,
    ) by {
        reveal(aside);
        assert(b.pubs.entries.dom().contains(id));
        assert(a.pubs.entries.dom().contains(id));
        assert(!due.contains(id));
    }
    assert forall|id: u64| #[trigger]
        v.pubs.entries.dom().contains(id) && !n.pubs.entries.dom().contains(id) implies clock::due(
        v.pubs.entries[id].stored.options.deadline,
        now,
    ) || put_aside_late(v, id, now) by {
        reveal(aside);
        if a.pubs.entries.dom().contains(id) {
            assert(!b.pubs.entries.dom().contains(id));
            assert(due.contains(id));
        }
    }
}

/// An operation that has come due times out, and every other stays as it is.
pub proof fn only_operations_that_are_due_time_out(
    world: World,
    now: Instant,
    at: Instant,
    id: OperationId,
)
    requires
        world.inv(),
    ensures
        ({
            let v = world@;
            let n = v.lapsed(now, at);
            &&& n.ops.has(id) <==> v.ops.has(id)
            &&& v.ops.has(id) ==> n.ops.entry(id) == (if v.ops.entry(id).is_due(now) {
                EntryView::Terminal {
                    owner: v.ops.entry(id).owner(),
                    outcome: OutcomeView::TimedOut,
                }
            } else {
                v.ops.entry(id)
            })
        }),
{
    reveal(timed);
    lemma_lapsed(world, now, at);
    let v = world@;
    let n = v.lapsed(now, at);
    let i = id.slot as int;
    if v.ops.has(id) {
        assert(n.ops.slots[i] == v.ops.slots[i] || timed_out(v.ops.slots[i], n.ops.slots[i], now));
        assert(!n.ops.due(now).contains(id));
    } else if n.ops.has(id) {
        assert(n.ops.slots[i] == v.ops.slots[i] || timed_out(v.ops.slots[i], n.ops.slots[i], now));
    }
}

/// A publication whose deadline has come expires. It goes too where what was
/// put aside for it has come due; every other publication stays as it is.
pub proof fn only_publications_that_are_due_expire(
    world: World,
    now: Instant,
    at: Instant,
    id: u64,
)
    requires
        world.inv(),
        world@.pubs.entries.dom().contains(id),
    ensures
        ({
            let v = world@;
            let n = v.lapsed(now, at);
            let late = clock::due(v.pubs.entries[id].stored.options.deadline, now);
            &&& late ==> !n.pubs.entries.dom().contains(id)
            &&& !late && !put_aside_late(v, id, now) ==> n.pubs.entries.dom().contains(id)
            &&& n.pubs.entries.dom().contains(id) ==> n.pubs.entries[id] == v.pubs.entries[id]
        }),
{
    lemma_lapsed(world, now, at);
}

/// Whether no entry of an actor has come due.
pub open spec fn in_time(a: ActorView, now: Instant) -> bool {
    &&& forall|k: int|
        0 <= k < a.queue.len() ==> !clock::due((#[trigger] a.queue[k]).envelope.deadline, now)
    &&& forall|k: int|
        0 <= k < a.staged.len() ==> !clock::due(
            (#[trigger] a.staged[k]).stored.options.deadline,
            now,
        )
}

proof fn lemma_alive_staged(staged: Seq<Staged>, now: Instant)
    ensures
        forall|k: int|
            0 <= k < expiring::alive_staged(staged, now).len() ==> !clock::due(
                (#[trigger] expiring::alive_staged(staged, now)[k]).stored.options.deadline,
                now,
            ),
    decreases staged.len(),
{
    if staged.len() > 0 {
        lemma_alive_staged(staged.drop_last(), now);
        let rest = expiring::alive_staged(staged.drop_last(), now);
        let all = expiring::alive_staged(staged, now);
        assert forall|k: int| 0 <= k < all.len() implies !clock::due(
            (#[trigger] all[k]).stored.options.deadline,
            now,
        ) by {
            if k < rest.len() {
                assert(all[k] == rest[k]);
            }
        }
    }
}

/// A deadline in a bag is one of the list.
proof fn lemma_bag_index(deadlines: Seq<Option<Instant>>, at: Instant)
    requires
        expiry::deadline_bag(deadlines).contains(at),
    ensures
        deadlines.contains(Some(at)),
    decreases deadlines.len(),
{
    if deadlines.len() > 0 {
        let rest = deadlines.drop_last();
        if deadlines.last() == Some(at) {
            assert(deadlines[deadlines.len() - 1] == Some(at));
        } else {
            assert(expiry::deadline_bag(rest).contains(at));
            lemma_bag_index(rest, at);
            let k = rest.index_of(Some(at));
            assert(deadlines[k] == Some(at));
        }
    } else {
        assert(expiry::deadline_bag(deadlines) =~= Multiset::<Instant>::empty());
    }
}

/// An actor without an entry that has come due is not overdue.
proof fn lemma_in_time(a: ActorView, now: Instant)
    requires
        in_time(a, now),
    ensures
        !clock::due(a.first_deadline(), now),
{
    let bag = a.deadlines();
    let queued = held::queue_deadlines(a.queue);
    let staged = held::staged_deadlines(a.staged);
    if bag.len() > 0 {
        laws::lemma_least_exists(bag);
        let first = choose|at: Instant| expiry::is_least(bag, at);
        expiry::lemma_least(bag, first);
        assert(bag.contains(first));
        if expiry::deadline_bag(queued).contains(first) {
            lemma_bag_index(queued, first);
            let k = queued.index_of(Some(first));
            assert(queued[k] == Some(first));
            assert(!clock::due(a.queue[k].envelope.deadline, now));
        } else {
            assert(expiry::deadline_bag(staged).contains(first));
            lemma_bag_index(staged, first);
            let k = staged.index_of(Some(first));
            assert(staged[k] == Some(first));
            assert(!clock::due(a.staged[k].stored.options.deadline, now));
        }
    }
}

/// Whether nothing has come due: no entry, no publication and no operation.
#[verifier::opaque]
pub open spec fn timely(v: WorldView, now: Instant) -> bool {
    &&& forall|i: int| 0 <= i < v.actors.len() ==> in_time(#[trigger] v.actors[i], now)
    &&& forall|id: u64| #[trigger]
        v.pubs.entries.dom().contains(id) ==> !clock::due(
            v.pubs.entries[id].stored.options.deadline,
            now,
        )
    &&& forall|id: OperationId| #[trigger] v.ops.has(id) ==> !v.ops.entry(id).is_due(now)
}

/// What lapsing leaves is in time, and in order.
pub(super) proof fn lemma_timely(world: World, now: Instant, at: Instant)
    requires
        world.steady(),
    ensures
        timely(world@.lapsed(now, at), now),
        endings::orderly(world@.lapsed(now, at)),
{
    let v = world@;
    let n = v.lapsed(now, at);
    lemma_lapsed(world, now, at);
    world.lemma_sound();
    world.lemma_orderly();
    let owners = ordered::sorted(v.overdue(now));
    lemma_late_owners(v, now);
    laws::lemma_purged_all(v, now, at, owners);
    assert forall|i: int| 0 <= i < n.actors.len() implies in_time(#[trigger] n.actors[i], now)
        && n.actors[i].children == v.actors[i].children && n.actors[i].reference
        == v.actors[i].reference && n.actors[i].ready_order == v.actors[i].ready_order by {
        super::lemma_placed(v, i);
        let r = v.actors[i].reference;
        assert(v.valid(r));
        laws::lemma_only_due_expire(world, now, at, r);
        assert(v.events_expired(now, at).at(r) == n.actors[i]);
        lemma_alive_staged(v.at(r).staged, now);
    }
    assert(timely(n, now)) by {
        reveal(timely);
        assert forall|id: OperationId| #[trigger] n.ops.has(id) implies !n.ops.entry(id).is_due(
            now,
        ) by {
            assert(!n.ops.due(now).contains(id));
        }
    }
    assert(endings::orderly(n)) by {
        reveal(endings::orderly);
        reveal(timed);
        assert(n.pubs.entries.dom().subset_of(v.pubs.entries.dom()));
        vstd::set_lib::lemma_len_subset(n.pubs.entries.dom(), v.pubs.entries.dom());
        assert forall|x: ActorRef| #[trigger] n.valid(x) == v.valid(x) && (v.valid(x) ==> n.order(x)
            == v.order(x)) by {
            if (x.slot as int) < v.actors.len() {
                assert(n.actors[x.slot as int].reference == v.actors[x.slot as int].reference);
            }
        }
        assert forall|i: int| 0 <= i < n.actors.len() implies (#[trigger] n.actors[i]).ready_order
            < n.next_ready_order && n.actors[i].reference.world == n.id
            && n.actors[i].reference.slot == i by {
            assert(v.actors[i].reference.slot == i);
        }
        assert forall|i: int, k: int|
            0 <= i < n.actors.len() && 0 <= k < n.actors[i].children.len() implies n.valid(
            #[trigger] n.actors[i].children[k],
        ) && n.order(n.actors[i].children[k]) > n.actors[i].ready_order by {
            assert(n.actors[i].children == v.actors[i].children);
            assert(v.valid(v.actors[i].children[k]));
            assert(n.valid(v.actors[i].children[k]));
        }
        assert forall|s: ActorRef| #[trigger]
            n.services.leases.dom().contains(s) && n.valid(s) && n.valid(
                n.services.leases[s].service,
            ) implies n.order(n.services.leases[s].service) < n.order(s) by {
            assert(v.services.leases.dom().contains(s));
        }
    }
}

/// What is in time stays so while a World only loses things.
proof fn lemma_still_timely(v: WorldView, n: WorldView, now: Instant)
    requires
        timely(v, now),
        endings::only_lost(v, n),
    ensures
        timely(n, now),
{
    reveal(timely);
    reveal(endings::only_lost);
    assert forall|i: int| 0 <= i < n.actors.len() implies in_time(#[trigger] n.actors[i], now) by {
        assert(in_time(v.actors[i], now));
    }
}

/// Whether a drain is on in a World, and its deadline has come.
pub open spec fn drains_late(v: WorldView, root: ActorRef, now: Instant) -> bool {
    &&& v.drain_roots.dom().contains(root.slot)
    &&& v.drain_roots[root.slot] == root
    &&& v.valid(root)
    &&& clock::due(v.at(root).drain_deadline, now)
}

/// Whether a root is on with a drain that has no work left.
pub open spec fn over_at(v: WorldView, root: ActorRef) -> bool {
    &&& v.valid(root)
    &&& v.drain_roots.dom().contains(root.slot)
    &&& v.drain_roots[root.slot] == root
    &&& v.drained(root)
}

/// A drain that was looked at is over if its deadline has come or its tree has
/// no work left.
pub(super) proof fn lemma_drain_checked(v: WorldView, now: Instant, at: Instant, root: ActorRef)
    requires
        endings::orderly(v),
    ensures
        endings::only_lost(v, v.drain_checked(now, at, root)),
        drains_late(v, root, now) || over_at(v, root) ==> !v.drain_checked(
            now,
            at,
            root,
        ).drain_roots.dom().contains(root.slot),
{
    endings::lemma_nothing_lost(v);
    if v.drain_roots.dom().contains(root.slot) && v.drain_roots[root.slot] == root {
        let late = v.valid(root) && clock::due(v.at(root).drain_deadline, now);
        if late && !v.drained(root) {
            let put = v.put(root, ActorView { drain_timed_out: true, ..v.at(root) });
            let m = WorldView {
                metrics: (Metrics {
                    drain_timeouts: types::bumped(put.metrics.drain_timeouts),
                    ..put.metrics
                }),
                ..put
            }.noted(at, DiagnosticCode::DrainTimeout, Some(root), None);
            assert(endings::only_lost(v, m)) by {
                reveal(endings::only_lost);
                assert forall|i: int, k: int|
                    0 <= i < v.actors.len() && 0 <= k
                        < m.actors[i].children.len() implies v.actors[i].children.contains(
                    #[trigger] m.actors[i].children[k],
                ) by {
                    assert(v.actors[i].children[k] == m.actors[i].children[k]);
                }
            }
            endings::lemma_orderly(v, m);
            endings::lemma_lost_roster(v, m);
            super::actors::lemma_same_roster(v, m, root);
            endings::lemma_everyone(m);
            endings::lemma_fenced(m, at, root, Set::full());
            endings::lemma_lost_twice(v, m, m.fenced(at, root).0);
        } else if v.drained(root) && v.valid(root) {
            endings::lemma_everyone(v);
            endings::lemma_fenced(v, at, root, Set::full());
        }
    }
}

proof fn lemma_less_late(v: WorldView, n: WorldView, root: ActorRef, now: Instant)
    requires
        endings::only_lost(v, n),
        drains_late(n, root, now),
    ensures
        drains_late(v, root, now),
{
    reveal(endings::only_lost);
    super::actors::lemma_same_roster(v, n, root);
    assert(n.actors[root.slot as int].drain_deadline == v.actors[root.slot as int].drain_deadline);
}

proof fn lemma_drains_checked(v: WorldView, now: Instant, at: Instant, roots: Seq<ActorRef>)
    requires
        endings::orderly(v),
    ensures
        endings::only_lost(v, v.drains_checked(now, at, roots)),
        forall|k: int|
            0 <= k < roots.len() ==> !drains_late(
                v.drains_checked(now, at, roots),
                #[trigger] roots[k],
                now,
            ),
    decreases roots.len(),
{
    if roots.len() == 0 {
        endings::lemma_nothing_lost(v);
    } else {
        let rest = roots.drop_last();
        lemma_drains_checked(v, now, at, rest);
        let m = v.drains_checked(now, at, rest);
        endings::lemma_orderly(v, m);
        let last = roots.last();
        lemma_drain_checked(m, now, at, last);
        let n = m.drain_checked(now, at, last);
        endings::lemma_lost_twice(v, m, n);
        lemma_none_late(m, n, roots, now);
    }
}

/// Where no drain but the last was late, and the last is over, none is late.
proof fn lemma_none_late(m: WorldView, n: WorldView, roots: Seq<ActorRef>, now: Instant)
    requires
        endings::only_lost(m, n),
        roots.len() > 0,
        forall|k: int|
            0 <= k < roots.drop_last().len() ==> !drains_late(
                m,
                #[trigger] roots.drop_last()[k],
                now,
            ),
        drains_late(m, roots.last(), now) ==> !n.drain_roots.dom().contains(roots.last().slot),
    ensures
        forall|k: int| 0 <= k < roots.len() ==> !drains_late(n, #[trigger] roots[k], now),
{
    let rest = roots.drop_last();
    assert forall|k: int| 0 <= k < roots.len() implies !drains_late(n, #[trigger] roots[k], now) by {
        if drains_late(n, roots[k], now) {
            lemma_less_late(m, n, roots[k], now);
            if k < rest.len() {
                assert(rest[k] == roots[k]);
            }
        }
    }
}

/// Whether an actor drains on its own account and its deadline has come.
pub open spec fn overdrawn(a: ActorView, now: Instant) -> bool {
    &&& a.state == Lifecycle::Quiescing
    &&& a.drain_root == Some(a.reference)
    &&& clock::due(a.drain_deadline, now)
}

/// After the upkeep nothing that has come due is left: no entry in a mailbox or
/// put aside, no publication, no pending operation and no actor that drains on
/// its own account.
pub proof fn upkeep_leaves_nothing_due(world: World, now: Instant, at: Instant)
    requires
        world.inv(),
    ensures
        ({
            let n = world@.maintained(now, at);
            &&& n.overdue(now) == Set::<ActorRef>::empty()
            &&& n.pubs.due_marks(now) == Set::<DuePublication>::empty()
            &&& n.ops.due(now) == Set::<OperationId>::empty()
            &&& forall|i: int|
                0 <= i < n.actors.len() ==> !overdrawn(#[trigger] n.actors[i], now)
        }),
{
    let m = world@.lapsed(now, at);
    let n = world@.maintained(now, at);
    lemma_lapsed(world, now, at);
    lemma_timely(world, now, at);
    lemma_drains_checked(m, now, at, m.drain_list());
    lemma_still_timely(m, n, now);
    lemma_nothing_due(n, now);
    world.lemma_drains();
    let slots = m.drain_roots.dom();
    ordered::lemma_sorted_exists(slots);
    let list = ordered::sorted(slots);
    assert forall|root: ActorRef| !(#[trigger] drains_late(n, root, now)) by {
        if drains_late(n, root, now) {
            reveal(endings::only_lost);
            assert(slots.contains(root.slot));
            assert(list.to_set().contains(root.slot));
            let k = list.index_of(root.slot);
            assert(m.drain_list()[k] == m.drain_roots[root.slot]);
            assert(!drains_late(n, m.drain_list()[k], now));
        }
    }
    world.lemma_neat();
    super::turning::lemma_maintained(world, now, at);
    lemma_none_overdrawn(n, now);
}

/// Where no drain is late, no actor that drains on its own account is.
proof fn lemma_none_overdrawn(n: WorldView, now: Instant)
    requires
        n.rows(),
        n.drains(Set::empty()),
        forall|root: ActorRef| !(#[trigger] drains_late(n, root, now)),
    ensures
        forall|i: int| 0 <= i < n.actors.len() ==> !overdrawn(#[trigger] n.actors[i], now),
{
    reveal(WorldView::rows);
    reveal(WorldView::drains);
    assert forall|i: int| 0 <= i < n.actors.len() implies !overdrawn(
        #[trigger] n.actors[i],
        now,
    ) by {
        let root = n.actors[i].reference;
        assert(root.slot == i);
        assert(!Set::<int>::empty().contains(root.slot as int));
        assert(n.drain_roots.dom().contains(root.slot) <==> n.drains_here(root.slot as int));
        assert(!drains_late(n, root, now));
    }
}

proof fn lemma_nothing_due(n: WorldView, now: Instant)
    requires
        timely(n, now),
    ensures
        n.overdue(now) == Set::<ActorRef>::empty(),
        n.pubs.due_marks(now) == Set::<DuePublication>::empty(),
        n.ops.due(now) == Set::<OperationId>::empty(),
{
    reveal(timely);
    assert forall|r: ActorRef| !n.overdue(now).contains(r) by {
        if n.valid(r) {
            lemma_in_time(n.actors[r.slot as int], now);
        }
    }
    assert(n.overdue(now) =~= Set::<ActorRef>::empty());
    assert(n.pubs.due_marks(now) =~= Set::<DuePublication>::empty());
    assert forall|id: OperationId| !n.ops.due(now).contains(id) by {
        if n.ops.has(id) {
            assert(!n.ops.entry(id).is_due(now));
        }
    }
    assert(n.ops.due(now) =~= Set::<OperationId>::empty());
}

proof fn lemma_no_drain_over(v: WorldView, now: Instant, at: Instant, roots: Seq<ActorRef>)
    requires
        forall|k: int|
            0 <= k < roots.len() ==> !v.drained(#[trigger] roots[k]) && !drains_late(
                v,
                roots[k],
                now,
            ),
    ensures
        v.drains_checked(now, at, roots) == v,
    decreases roots.len(),
{
    if roots.len() > 0 {
        let rest = roots.drop_last();
        assert forall|k: int| 0 <= k < rest.len() implies !v.drained(#[trigger] rest[k])
            && !drains_late(v, rest[k], now) by {
            assert(rest[k] == roots[k]);
        }
        lemma_no_drain_over(v, now, at, rest);
        assert(!v.drained(roots[roots.len() - 1]));
    }
}

/// Whether a drain is on whose tree has no work left.
pub open spec fn drain_is_over(v: WorldView) -> bool {
    exists|s: u32| #[trigger] v.drain_roots.dom().contains(s) && v.drained(v.drain_roots[s])
}

/// Upkeep is done once: at the same time there is nothing more to do, whenever
/// it is recorded, exactly unless a drain has become idle through the end of
/// another.
pub proof fn upkeep_is_done_once(
    before: World,
    after: World,
    now: Instant,
    at: Instant,
    again: Instant,
)
    requires
        before.inv(),
        after.inv(),
        after@ == before@.maintained(now, at),
    ensures
        after@.maintained(now, again) == after@ <==> !drain_is_over(after@),
{
    let v = after@;
    let m = before@.lapsed(now, at);
    lemma_lapsed(before, now, at);
    lemma_timely(before, now, at);
    lemma_drains_checked(m, now, at, m.drain_list());
    lemma_still_timely(m, v, now);
    lemma_nothing_due(v, now);
    after.lemma_sound();
    super::lemma_sound_parts(v);
    lemma_sorted_empty::<ActorRef>();
    lemma_sorted_empty::<DuePublication>();
    lemma_sorted_empty::<OperationId>();
    assert(v.events_expired(now, again) == v);
    assert(v.pubs.due_order(now) =~= Seq::<u64>::empty());
    assert(v.publications_expired(now) == v);
    assert(OpsView { dropped: Seq::empty(), ..v.ops } =~= v.ops);
    assert(v.with_ops(v.ops.expired(now)) == v);
    assert(v.ops.ends_of(Seq::<OperationId>::empty()).len() == 0);
    assert(v.ops_expired(now, again) == v);
    let list = v.drain_list();
    upkeep_leaves_nothing_due(before, now, at);
    after.lemma_drains();
    let slots = v.drain_roots.dom();
    ordered::lemma_sorted_exists(slots);
    let order = ordered::sorted(slots);
    after.lemma_neat();
    assert forall|k: int| 0 <= k < list.len() implies slots.contains(#[trigger] order[k])
        && list[k] == v.drain_roots[order[k]] && v.valid(list[k]) && list[k].slot == order[k]
        && !drains_late(v, list[k], now) by {
        let s = order[k];
        assert(order.to_set().contains(s));
        assert(slots.contains(s));
        lemma_root_there(v, s);
        assert(!overdrawn(v.actors[s as int], now));
    }
    if drain_is_over(v) {
        let s = choose|s: u32| #[trigger] slots.contains(s) && v.drained(v.drain_roots[s]);
        assert(order.to_set().contains(s));
        let k = order.index_of(s);
        assert(order[k] == s);
        after.lemma_orderly();
        assert(over_at(v, list[k]));
        let f = lemma_first_over(v, list, k);
        assert forall|j: int| 0 <= j < f implies !over_at(v, #[trigger] list[j]) && !drains_late(
            v,
            list[j],
            now,
        ) by {
            assert(slots.contains(order[j]));
        }
        lemma_over_ends(v, now, again, list, f);
        assert(v.maintained(now, again).drain_roots.dom() != v.drain_roots.dom());
    } else {
        assert forall|k: int| 0 <= k < list.len() implies !v.drained(#[trigger] list[k])
            && !drains_late(v, list[k], now) by {
            assert(slots.contains(order[k]));
        }
        lemma_no_drain_over(v, now, again, list);
    }
}

/// The drain that a slot is on with is that of the actor in it.
proof fn lemma_root_there(v: WorldView, s: u32)
    requires
        v.rows(),
        v.drains(Set::empty()),
        v.drain_roots.dom().contains(s),
    ensures
        v.valid(v.drain_roots[s]),
        v.drain_roots[s].slot == s,
        v.drains_here(s as int),
        v.at(v.drain_roots[s]) == v.actors[s as int],
{
    reveal(WorldView::rows);
    reveal(WorldView::drains);
    assert(!Set::<int>::empty().contains(s as int));
    assert(v.drain_roots.dom().contains(s) <==> v.drains_here(s as int));
    assert(v.actors[s as int].reference.slot == s);
}

/// A drain that is over stays so while a World only loses things.
proof fn lemma_off_stays(m: WorldView, n: WorldView, s: u32)
    requires
        endings::only_lost(m, n),
        !m.drain_roots.dom().contains(s),
    ensures
        !n.drain_roots.dom().contains(s),
{
    reveal(endings::only_lost);
}

/// Where the first of the drains that are over stands.
proof fn lemma_first_over(v: WorldView, roots: Seq<ActorRef>, k: int) -> (f: int)
    requires
        0 <= k < roots.len(),
        over_at(v, roots[k]),
    ensures
        0 <= f <= k,
        over_at(v, roots[f]),
        forall|j: int| 0 <= j < f ==> !over_at(v, #[trigger] roots[j]),
    decreases k,
{
    if exists|j: int| 0 <= j < k && over_at(v, #[trigger] roots[j]) {
        let j = choose|j: int| 0 <= j < k && over_at(v, #[trigger] roots[j]);
        lemma_first_over(v, roots, j)
    } else {
        k
    }
}

/// Looking at one more drain takes none up.
proof fn lemma_one_more_checked(v: WorldView, now: Instant, at: Instant, roots: Seq<ActorRef>)
    requires
        endings::orderly(v),
        roots.len() > 0,
    ensures
        endings::only_lost(
            v.drains_checked(now, at, roots.drop_last()),
            v.drains_checked(now, at, roots),
        ),
{
    let m = v.drains_checked(now, at, roots.drop_last());
    lemma_drains_checked(v, now, at, roots.drop_last());
    endings::lemma_orderly(v, m);
    lemma_drain_checked(m, now, at, roots[roots.len() - 1]);
}

/// Looking at a drain that is over ends it.
proof fn lemma_last_over(v: WorldView, now: Instant, at: Instant, roots: Seq<ActorRef>)
    requires
        endings::orderly(v),
        roots.len() > 0,
        over_at(v, roots[roots.len() - 1]),
        v.drains_checked(now, at, roots.drop_last()) == v,
    ensures
        v.drain_roots.dom().contains(roots[roots.len() - 1].slot),
        !v.drains_checked(now, at, roots).drain_roots.dom().contains(
            roots[roots.len() - 1].slot,
        ),
{
    lemma_drain_checked(v, now, at, roots[roots.len() - 1]);
}

/// Looking at drains ends the first that is over.
proof fn lemma_over_ends(v: WorldView, now: Instant, at: Instant, roots: Seq<ActorRef>, k: int)
    requires
        endings::orderly(v),
        0 <= k < roots.len(),
        over_at(v, roots[k]),
        forall|j: int|
            0 <= j < k ==> !over_at(v, #[trigger] roots[j]) && !drains_late(v, roots[j], now),
    ensures
        v.drain_roots.dom().contains(roots[k].slot),
        !v.drains_checked(now, at, roots).drain_roots.dom().contains(roots[k].slot),
    decreases roots.len(),
{
    let rest = roots.drop_last();
    if k == roots.len() - 1 {
        lemma_none_over(v, now, at, rest);
        lemma_last_over(v, now, at, roots);
    } else {
        lemma_over_ends(v, now, at, rest, k);
        lemma_one_more_checked(v, now, at, roots);
        lemma_off_stays(
            v.drains_checked(now, at, rest),
            v.drains_checked(now, at, roots),
            roots[k].slot,
        );
    }
}

/// Looking at drains that all go on changes nothing.
proof fn lemma_none_over(v: WorldView, now: Instant, at: Instant, roots: Seq<ActorRef>)
    requires
        forall|j: int|
            0 <= j < roots.len() ==> !over_at(v, #[trigger] roots[j]) && !drains_late(
                v,
                roots[j],
                now,
            ),
    ensures
        v.drains_checked(now, at, roots) == v,
    decreases roots.len(),
{
    if roots.len() > 0 {
        let rest = roots.drop_last();
        assert forall|j: int| 0 <= j < rest.len() implies !over_at(v, #[trigger] rest[j])
            && !drains_late(v, rest[j], now) by {
            assert(rest[j] == roots[j]);
        }
        lemma_none_over(v, now, at, rest);
        let last = roots[roots.len() - 1];
        assert(!over_at(v, last) && !drains_late(v, last, now));
    }
}

proof fn lemma_sorted_empty<K: ordered::Key>()
    ensures
        ordered::sorted(Set::<K>::empty()) == Seq::<K>::empty(),
{
    ordered::lemma_sorted_exists(Set::<K>::empty());
    let q = ordered::sorted(Set::<K>::empty());
    if q.len() > 0 {
        assert(q.to_set().contains(q[0]));
    }
    assert(q =~= Seq::<K>::empty());
}

} // verus!
