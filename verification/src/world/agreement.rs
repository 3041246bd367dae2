//! What the hints, counts, drains and the budget of a World say of its actors.
use vstd::prelude::*;
use vstd::multiset::Multiset;
use super::tidy;
use super::{World, WorldView};
use crate::operations::OperationId;
use crate::tally;
use crate::types::{ActorRef, EndpointKind, Lifecycle};

verus! {

/// A Python actor has a start hint exactly while it starts, a failure hint
/// exactly while it can run and a failure waits for it, a delivery hint exactly
/// while it can run and has an entry, and a cleanup hint exactly while it has
/// ended and is not done. Each hint names it.
pub proof fn hints_follow_the_actors(world: World, r: ActorRef)
    requires
        world.inv(),
        world@.valid(r),
        world@.at(r).kind == EndpointKind::Python,
    ensures
        ({
            let v = world@;
            let a = v.at(r);
            let o = a.ready_order;
            &&& v.python_ready.start.dom().contains(o) <==> !a.python_done && a.state
                == Lifecycle::Starting
            &&& v.python_ready.failure.dom().contains(o) <==> v.executable(r)
                && a.pending_failures > 0
            &&& v.python_ready.delivery.dom().contains(o) <==> v.executable(r) && a.queue.len() > 0
            &&& v.python_ready.cleanup.dom().contains(o) <==> !a.python_done && super::is_ended(
                a.state,
            )
            &&& v.python_ready.start.dom().contains(o) ==> v.python_ready.start[o] == r
            &&& v.python_ready.failure.dom().contains(o) ==> v.python_ready.failure[o] == r
            &&& v.python_ready.delivery.dom().contains(o) ==> v.python_ready.delivery[o] == r
            &&& v.python_ready.cleanup.dom().contains(o) ==> v.python_ready.cleanup[o] == r
        }),
{
    world.lemma_neat();
    reveal(WorldView::hinted);
    reveal(WorldView::rows);
    let i = r.slot as int;
    assert(world@.actors[i].reference.slot == i);
    assert(world@.row_hinted(world@.actors[i]));
}

/// Whether an order is that of a Python actor, and a phase names it by that.
pub open spec fn names_python(v: WorldView, map: Map<u64, ActorRef>, o: u64) -> bool {
    let r = map[o];
    &&& v.valid(r)
    &&& v.at(r).kind == EndpointKind::Python
    &&& v.at(r).ready_order == o
}

/// Every hint is that of a Python actor that is there.
pub proof fn every_hint_names_its_actor(world: World, o: u64)
    requires
        world.inv(),
    ensures
        ({
            let v = world@;
            let ready = v.python_ready;
            &&& ready.start.dom().contains(o) ==> names_python(v, ready.start, o)
            &&& ready.failure.dom().contains(o) ==> names_python(v, ready.failure, o)
            &&& ready.delivery.dom().contains(o) ==> names_python(v, ready.delivery, o)
            &&& ready.cleanup.dom().contains(o) ==> names_python(v, ready.cleanup, o)
        }),
{
    world.lemma_neat();
    reveal(WorldView::hinted);
    reveal(WorldView::rows);
    let v = world@;
    let ready = v.python_ready;
    if ready.start.dom().contains(o) || ready.failure.dom().contains(o)
        || ready.delivery.dom().contains(o) || ready.cleanup.dom().contains(o) {
        assert(v.ordered_here(o));
        let i = choose|i: int|
            0 <= i < v.actors.len() && (#[trigger] v.actors[i]).ready_order == o;
        assert(v.actors[i].reference.slot == i);
        assert(v.row_hinted(v.actors[i]));
    }
}

/// An actor expects as many failures as its children have waiting. An actor
/// that has one waiting has an owner.
pub proof fn waiting_failures_are_counted(world: World, r: ActorRef)
    requires
        world.inv(),
        world@.valid(r),
    ensures
        world@.waiting(r).finite(),
        world@.at(r).pending_failures == world@.waiting(r).len(),
        world@.at(r).notification is Some ==> world@.at(r).parent is Some && world@.waiting(
            world@.at(r).parent->0,
        ).contains(r.slot as int),
{
    world.lemma_neat();
    reveal(WorldView::expecting);
    reveal(WorldView::rows);
    let v = world@;
    let i = r.slot as int;
    assert(v.actors[i].reference.slot == i);
    assert(v.actors[i].pending_failures == v.waiting(v.actors[i].reference).len());
    tidy::lemma_waiting_finite(v, r);
}

/// The drains that are on are those of the actors that drain on their own
/// account, each under its slot.
pub proof fn drains_are_those_of_the_actors(world: World, s: u32)
    requires
        world.inv(),
    ensures
        world@.drain_roots.dom().contains(s) <==> (s as int) < world@.actors.len()
            && world@.actors[s as int].state == Lifecycle::Quiescing
            && world@.actors[s as int].drain_root == Some(world@.actors[s as int].reference),
        world@.drain_roots.dom().contains(s) ==> world@.drain_roots[s]
            == world@.actors[s as int].reference,
{
    world.lemma_neat();
    reveal(WorldView::drains);
    assert(!Set::<int>::empty().contains(s as int));
    assert(world@.drain_roots.dom().contains(s) <==> world@.drains_here(s as int));
}

/// Whether the budget pays for a payload, and counts at least some holders.
pub open spec fn paid_for(v: WorldView, id: u64, bytes: usize, holders: nat) -> bool {
    &&& v.budget.shares.dom().contains(id)
    &&& v.budget.shares[id].bytes == bytes
    &&& v.budget.shares[id].holders >= holders
}

/// For every payload that is held the budget keeps a share of its size, with
/// one holder for each place that holds it and for each hold that is out.
pub proof fn a_share_counts_the_places_that_hold_it(world: World, id: u64, bytes: usize)
    requires
        world.inv(),
    ensures
        ({
            let v = world@;
            let places = v.places((id, bytes));
            &&& places > 0 ==> paid_for(v, id, bytes, places)
            &&& paid_for(v, id, bytes, 0) ==> v.budget.shares[id].holders == places
                + v.budget.shares[id].lent
        }),
{
    world.lemma_neat();
    reveal(WorldView::owing);
    assert(world@.budget.counts((id, bytes)) == world@.places((id, bytes)) + Multiset::<
        (u64, usize),
    >::empty().count((id, bytes)));
}

/// Bytes stay retained only for payloads that are held somewhere in the World
/// or by a hold that is out.
pub proof fn what_nobody_holds_is_given_back(world: World, id: u64)
    requires
        world.inv(),
        world@.budget.shares.dom().contains(id),
    ensures
        world@.places((id, world@.budget.shares[id].bytes)) > 0 || world@.budget.shares[id].lent
            > 0,
{
    let bytes = world@.budget.shares[id].bytes;
    a_share_counts_the_places_that_hold_it(world, id, bytes);
    world.lemma_budget();
}

/// An entry in a mailbox is paid for.
pub proof fn a_queued_entry_is_paid_for(world: World, r: ActorRef, k: int)
    requires
        world.inv(),
        world@.valid(r),
        0 <= k < world@.at(r).queue.len(),
    ensures
        paid_for(
            world@,
            world@.at(r).queue[k].payload.id,
            world@.at(r).queue[k].payload.bytes,
            1,
        ),
{
    let v = world@;
    let a = v.actors[r.slot as int];
    let key = (a.queue[k].payload.id, a.queue[k].payload.bytes);
    tally::lemma_member(a.queue, tidy::delivery_at(key), k);
    assert(tidy::delivery_at(key)(a.queue[k]) == 1);
    tally::lemma_member(v.actors, tidy::actor_at(key), r.slot as int);
    assert(tidy::actor_at(key)(a) >= 1);
    a_share_counts_the_places_that_hold_it(world, key.0, key.1);
}

/// An entry that was put aside is paid for.
pub proof fn an_entry_put_aside_is_paid_for(world: World, r: ActorRef, k: int)
    requires
        world.inv(),
        world@.valid(r),
        0 <= k < world@.at(r).staged.len(),
    ensures
        paid_for(
            world@,
            world@.at(r).staged[k].stored.id,
            world@.at(r).staged[k].stored.bytes,
            1,
        ),
{
    let v = world@;
    let a = v.actors[r.slot as int];
    let key = (a.staged[k].stored.id, a.staged[k].stored.bytes);
    tally::lemma_member(a.staged, tidy::staged_at(key), k);
    assert(tidy::staged_at(key)(a.staged[k]) == 1);
    tally::lemma_member(v.actors, tidy::actor_at(key), r.slot as int);
    assert(tidy::actor_at(key)(a) >= 1);
    a_share_counts_the_places_that_hold_it(world, key.0, key.1);
}

/// What a publication carries is paid for.
pub proof fn a_publication_is_paid_for(world: World, id: u64)
    requires
        world.inv(),
        world@.pubs.entries.dom().contains(id),
    ensures
        paid_for(
            world@,
            world@.pubs.entries[id].stored.id,
            world@.pubs.entries[id].stored.bytes,
            1,
        ),
{
    let v = world@;
    let p = v.pubs.entries[id];
    let key = (p.stored.id, p.stored.bytes);
    world.lemma_publications();
    crate::sums::lemma_sum_remove(v.pubs.entries, tidy::publication_at(key), id);
    assert(tidy::publication_at(key)(p) == 1);
    a_share_counts_the_places_that_hold_it(world, key.0, key.1);
}

/// What an operation holds is paid for: its request while it is pending, and
/// its result until it is taken.
pub proof fn an_operation_is_paid_for(world: World, id: OperationId)
    requires
        world.inv(),
        world@.ops.has(id),
    ensures
        tidy::entry_key(world@.ops.entry(id)) matches Some(key) ==> paid_for(
            world@,
            key.0,
            key.1,
            1,
        ),
{
    let v = world@;
    match tidy::entry_key(v.ops.entry(id)) {
        Some(key) => {
            let i = id.slot as int;
            tally::lemma_member(v.ops.slots, tidy::slot_at(key), i);
            assert(tidy::slot_at(key)(v.ops.slots[i]) == 1);
            a_share_counts_the_places_that_hold_it(world, key.0, key.1);
        },
        None => {},
    }
}

} // verus!
