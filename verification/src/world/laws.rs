//! What holds of a World across its operations.
use vstd::prelude::*;
use vstd::multiset::Multiset;
use std::sync::Arc;
use super::claims;
use super::expiring;
use super::links;
use super::router;
use super::router::Turn;
use super::{ActorView, Notification, World, WorldView};
use crate::activity;
use crate::activity::ActivityView;
use crate::buffers;
use crate::clock;
use crate::clock::Instant;
use crate::components;
use crate::components::{ComponentDescriptor, InterfaceView, PortView};
use crate::diagnostics;
use crate::diagnostics::DiagnosticCode;
use crate::envelope::MessageOptions;
use crate::expiry;
use crate::failures::FailureRecord;
use crate::held;
use crate::held::{Delivery, HeldPayload, Staged, Stored};
use crate::operations;
use crate::operations::{OperationId, OutcomeView};
use crate::ordered;
use crate::payload::Payload;
use crate::publications;
use crate::publications::{PublicationOutcome, PublicationStatus, PublicationView, PubsView};
use crate::routing;
use crate::routing::Sub;
use crate::types;
use crate::types::{ActorRef, EndpointKind, Error, Lifecycle, Metrics};

verus! {

/// What a World retains never exceeds its budget.
pub proof fn retained_bytes_stay_within_the_budget(world: World)
    requires
        world.inv(),
    ensures
        world@.budget.used() <= world@.cfg.native_payload_budget,
{
    world.lemma_sound();
    super::lemma_sound_parts(world@);
    world.lemma_budget();
}

/// No actor holds more than a mailbox takes, in entries or in bytes.
pub proof fn mailboxes_stay_within_their_limits(world: World, r: ActorRef)
    requires
        world.inv(),
        world@.valid(r),
    ensures
        world@.at(r).queue.len() <= world@.cfg.mailbox_capacity,
        world@.at(r).queue_bytes() <= world@.cfg.mailbox_bytes,
        world@.at(r).staged.len() <= world@.cfg.mailbox_capacity,
        world@.at(r).staged_bytes() <= world@.cfg.mailbox_bytes,
{
    world.lemma_sound();
    super::lemma_placed(world@, r.slot as int);
}

/// Actors, routes, operations, publications, services, leases and diagnostics
/// stay within their limits, with the shares of one source and of one owner.
pub proof fn tables_stay_within_their_limits(world: World)
    requires
        world.inv(),
    ensures
        world@.live() <= world@.cfg.max_actors,
        world@.subs.dom().len() <= world@.cfg.max_subscriptions,
        world@.ops.live_ids().len() <= world@.cfg.max_operations,
        world@.pubs.tickets.dom().len() <= world@.cfg.max_publications,
        world@.pubs.snapshot_entries() <= world@.cfg.max_routing_snapshot_entries,
        forall|source: ActorRef| (#[trigger] world@.pubs.tickets_of(source)).len()
            <= world@.cfg.max_publications_per_source,
        world@.history.entries.len() <= world@.cfg.diagnostic_capacity,
        world@.services.records.dom().len() <= world@.cfg.max_services,
        world@.services.leases.dom().len() <= world@.cfg.max_service_leases,
        forall|owner: ActorRef| (#[trigger] world@.services.held_by(owner)).len()
            <= world@.cfg.max_leases_per_actor,
{
    reveal(PubsView::within_quota);
    world.lemma_sound();
    super::lemma_sound_parts(world@);
    world.lemma_operations();
    world.lemma_publications();
}

/// A message that is admitted joins the end of its mailbox, under the next
/// event number. The mailbox stays within its limits, and no other changes.
pub proof fn an_admitted_message_joins_the_end(
    v: WorldView,
    now: Instant,
    r: ActorRef,
    stored: Arc<Stored>,
    sub: Option<u64>,
    completion: bool,
    operation: Option<OperationId>,
)
    requires
        v.admission(now, r, stored, sub, completion, operation).1 is Ok,
    ensures
        ({
            let (n, result) = v.admission(now, r, stored, sub, completion, operation);
            let queue = n.at(r).queue;
            &&& result == Ok::<u64, Error>(v.next_event)
            &&& queue.len() > 0
            &&& queue.drop_last() == v.at(r).queue
            &&& queue.last().event_id == v.next_event
            &&& queue.last().payload == stored
            &&& queue.len() <= v.cfg.mailbox_capacity
            &&& n.at(r).queue_bytes() <= v.cfg.mailbox_bytes
            &&& forall|other: ActorRef|
                v.valid(other) && other.slot != r.slot ==> #[trigger] n.at(other) == v.at(other)
        }),
{
    let (n, result) = v.admission(now, r, stored, sub, completion, operation);
    let drawn = WorldView { next_event: (v.next_event + 1) as u64, ..v };
    let made = drawn.envelope_for(r, stored, sub, v.next_event, now)->Ok_0;
    let queue = n.at(r).queue;
    let before = v.at(r).queue;
    assert(drawn.valid(r));
    assert(queue.drop_last() =~= before);
    assert(held::queue_costs(queue) =~= held::queue_costs(before).push(stored.bytes));
    held::lemma_bytes_push(held::queue_costs(before), stored.bytes);
}

/// An event number that was drawn is never drawn again.
pub proof fn event_numbers_are_never_reused(
    v: WorldView,
    now: Instant,
    r: ActorRef,
    stored: Arc<Stored>,
    sub: Option<u64>,
    completion: bool,
    operation: Option<OperationId>,
)
    ensures
        ({
            let (n, result) = v.admission(now, r, stored, sub, completion, operation);
            &&& n.next_event >= v.next_event
            &&& result matches Ok(id) ==> v.next_event <= id < n.next_event
        }),
{
}

/// A message that is refused leaves mailboxes, routes, operations, services and
/// retained bytes as they were.
pub proof fn a_refused_message_is_only_counted(
    world: World,
    now: Instant,
    r: ActorRef,
    p: Payload,
    charge: usize,
    options: MessageOptions,
)
    requires
        world.inv(),
        world@.sending(now, r, p, charge, options).1 is Err,
    ensures
        ({
            let v = world@;
            let n = v.sending(now, r, p, charge, options).0;
            &&& n.actors == v.actors
            &&& n.subs == v.subs
            &&& n.ops == v.ops
            &&& n.pubs == v.pubs
            &&& n.services == v.services
            &&& n.activity == v.activity
            &&& n.budget.shares == v.budget.shares
            &&& n.budget.used() == v.budget.used()
        }),
{
    world.lemma_budget();
    let v = world@.submitting();
    if v.refuses_payload(p, charge, options) is None {
        buffers::reserve_then_release(v.budget, WorldView::cost(charge, options) as usize);
    }
}

/// Holding a payload charges it once, however many hold it, and the last
/// holder gives all of it back.
pub proof fn a_held_payload_is_charged_once(
    world: World,
    now: Instant,
    p: Payload,
    charge: usize,
    options: MessageOptions,
)
    requires
        world.inv(),
        world@.holding(now, p, charge, options).1 is Ok,
    ensures
        ({
            let v = world@;
            let (n, result) = v.holding(now, p, charge, options);
            let held = result->Ok_0;
            let share = held.share();
            &&& n.budget.used() == v.budget.used() + WorldView::cost(charge, options)
            &&& n.lends(held)
            &&& n.sharing_out(held).budget.used() == n.budget.used()
            &&& n.sharing_out(held).returning(share).budget.used() == n.budget.used()
            &&& n.sharing_out(held).returning(share).returning(share).budget.used()
                == v.budget.used()
        }),
{
    world.lemma_budget();
    let v = world@;
    let bytes = WorldView::cost(charge, options) as usize;
    let n = v.holding(now, p, charge, options).0;
    buffers::reserve_then_release(v.budget, bytes);
    let stored = v.stored_next(p, charge, options, None);
    HeldPayload::lemma_made(stored, v.id, None);
    buffers::shared_bytes_count_once(n.budget, v.budget.next);
    assert(n.budget.shared_out(v.budget.next).returned(v.budget.next) =~= n.budget);
}

/// One look at a mailbox takes its first delivery, or drops it.
proof fn lemma_claim_step(v: WorldView, now: Instant, r: ActorRef)
    requires
        v.valid(r),
    ensures
        ({
            let (n, end) = v.claim_step(now, r);
            &&& n.valid(r)
            &&& v.at(r).queue.len() == 0 ==> n == v && end == Some(None::<Delivery>)
            &&& v.at(r).queue.len() > 0 ==> n.at(r).queue == v.at(r).queue.drop_first() && (
            end matches Some(taken) ==> taken == Some(v.at(r).queue[0]))
            &&& end matches Some(Some(d)) ==> {
                &&& n.at(r).in_flight
                &&& d.subscription matches Some(id) ==> n.subs.dom().contains(id)
                &&& d.operation matches Some(id) ==> n.op_is_open(id)
            }
            &&& n.subs == v.subs
        }),
{
    reveal(WorldView::claim_step);
    if v.at(r).queue.len() > 0 {
        let d = v.at(r).queue[0];
        let left = v.unqueued(r);
        if clock::due(d.envelope.deadline, now) {
            lemma_expiring_actors(left, now, now, d);
        } else if d.operation is Some {
            claims::lemma_timing_out(left, now, now, d.operation->0, Some(r));
        }
    }
}

/// Dropping a delivery leaves the actors and routes alone.
proof fn lemma_expiring_actors(v: WorldView, now: Instant, at: Instant, d: Delivery)
    ensures
        v.expiring(now, at, d).actors == v.actors,
        v.expiring(now, at, d).id == v.id,
        v.expiring(now, at, d).subs == v.subs,
{
    if d.operation is Some {
        let told = WorldView {
            metrics: (Metrics {
                expired: types::bumped(v.metrics.expired),
                cancelled: types::bumped(v.metrics.cancelled),
                discarded: types::bumped(v.metrics.discarded),
                ..v.metrics
            }),
            history: diagnostics::recorded(
                v.history,
                at,
                DiagnosticCode::DeadlineExpired,
                Some(d.envelope.destination),
                d.operation,
                None,
                Some(d.envelope),
            ),
            ..v
        };
        claims::lemma_timing_out(told, now, at, d.operation->0, Some(d.envelope.destination));
    }
}

/// Deliveries are taken in the order in which they were admitted: a claim
/// passes over a first part of the mailbox, hands out the last of that part,
/// and leaves the rest as it was.
pub proof fn deliveries_are_taken_in_order(v: WorldView, r: ActorRef, times: Seq<Instant>) -> (passed:
    nat)
    requires
        v.valid(r),
    ensures
        ({
            let (n, end) = v.claim_steps(r, times);
            &&& n.valid(r)
            &&& passed <= v.at(r).queue.len()
            &&& n.at(r).queue == v.at(r).queue.skip(passed as int)
            &&& end matches Some(Some(d)) ==> passed > 0 && d == v.at(r).queue[passed - 1]
            &&& end == Some(None::<Delivery>) ==> passed == v.at(r).queue.len()
        }),
    decreases times.len(),
{
    if times.len() == 0 {
        assert(v.at(r).queue.skip(0) =~= v.at(r).queue);
        0
    } else {
        let passed = deliveries_are_taken_in_order(v, r, times.drop_last());
        let (n, end) = v.claim_steps(r, times.drop_last());
        if end is None {
            lemma_claim_step(n, times.last(), r);
            if n.at(r).queue.len() > 0 {
                assert(v.at(r).queue.skip(passed as int).drop_first() =~= v.at(r).queue.skip(
                    passed as int + 1,
                ));
                passed + 1
            } else {
                passed
            }
        } else {
            passed
        }
    }
}

proof fn lemma_execution_above(
    v: WorldView,
    r: ActorRef,
    starting: bool,
    quiescing: bool,
    owner: ActorRef,
)
    requires
        v.lineage(r).contains(owner),
        v.execution_from(r, starting, quiescing) is Ok,
    ensures
        super::is_ended(v.at(owner).state) ==> v.execution_from(r, starting, quiescing) == Ok::<
            Lifecycle,
            Error,
        >(Lifecycle::Stopping),
        v.execution_from(r, starting, quiescing) == Ok::<Lifecycle, Error>(Lifecycle::Active) ==> {
            &&& v.at(owner).state == Lifecycle::Active
            &&& !starting
            &&& !quiescing
        },
    decreases v.order(r),
{
    let state = v.at(r).state;
    let s = starting || state == Lifecycle::Starting;
    let q = quiescing || state == Lifecycle::Quiescing;
    match v.at(r).parent {
        Some(p) => {
            if v.valid(p) && v.order(p) < v.order(r) {
                let above = v.lineage(p);
                assert(v.lineage(r) == seq![r] + above);
                let k = v.lineage(r).index_of(owner);
                if k > 0 {
                    assert(above[k - 1] == owner);
                    if !super::is_ended(state) {
                        lemma_execution_above(v, p, s, q, owner);
                    }
                } else {
                    assert(owner == r);
                    if !super::is_ended(state) {
                        assert(above[0] == p);
                        lemma_execution_above(v, p, s, q, p);
                    }
                }
            } else {
                if v.order(p) < v.order(r) {
                    assert(v.lineage(p) =~= Seq::<ActorRef>::empty());
                }
                assert(v.lineage(r) =~= seq![r]);
            }
        },
        None => {
            assert(v.lineage(r) =~= seq![r]);
        },
    }
}

/// An actor runs only where every owner above it runs.
pub proof fn an_actor_runs_only_under_running_owners(v: WorldView, r: ActorRef, owner: ActorRef)
    requires
        v.lineage(r).contains(owner),
        v.execution(r) == Ok::<Lifecycle, Error>(Lifecycle::Active),
    ensures
        v.at(owner).state == Lifecycle::Active,
{
    lemma_execution_above(v, r, false, false, owner);
}

/// An owner that stops takes everything below it along.
pub proof fn a_stopping_owner_stops_what_it_owns(v: WorldView, r: ActorRef, owner: ActorRef)
    requires
        v.lineage(r).contains(owner),
        v.execution(r) is Ok,
        super::is_ended(v.at(owner).state),
    ensures
        v.execution(r) == Ok::<Lifecycle, Error>(Lifecycle::Stopping),
{
    lemma_execution_above(v, r, false, false, owner);
}

/// A reused slot refuses the reference that it had before; every other
/// reference keeps its meaning.
pub proof fn a_reused_slot_refuses_old_references(
    world: World,
    kind: EndpointKind,
    parent: Option<ActorRef>,
    old: ActorRef,
)
    requires
        world.inv(),
        world@.refuses_actor(parent) is None,
        world@.valid(old),
    ensures
        world@.allocated(kind, parent).valid(world@.next_ref()),
        world@.allocated(kind, parent).valid(old) <==> old.slot != world@.next_slot(),
{
    let v = world@;
    world.lemma_sound();
    reveal(WorldView::sound);
    let n = v.seated(kind, parent);
    if v.free.len() > 0 {
        assert(v.free[v.free.len() - 1] == v.free.last());
    }
    assert(n.actors.len() >= v.actors.len());
    assert(n.valid(v.next_ref()));
}

/// A new route gets a number that no route has had.
pub proof fn a_route_number_is_new(world: World, route: Sub)
    requires
        world.inv(),
        world@.next_sub < u64::MAX,
    ensures
        !world@.subs.dom().contains(world@.next_sub),
        world@.with_route(route).subs == world@.subs.insert(world@.next_sub, route),
        world@.with_route(route).next_sub > world@.next_sub,
{
    world.lemma_sound();
    super::lemma_sound_parts(world@);
}

/// A request has one outcome: whatever completes it a second time changes
/// nothing about it and is told so.
pub proof fn a_request_has_one_outcome(
    v: WorldView,
    id: OperationId,
    first: OutcomeView,
    second: OutcomeView,
)
    requires
        v.ops.completing(id, first) == Ok::<bool, Error>(true),
        v.ops.completing(id, second) is Ok,
    ensures
        ({
            let once = v.op_completed(id, first);
            let twice = once.op_completed(id, second);
            &&& once.ops.has(id)
            &&& once.ops.entry(id) is Terminal
            &&& once.ops.completing(id, second) == Ok::<bool, Error>(false)
            &&& twice.ops.has(id)
            &&& twice.ops.entry(id) == once.ops.entry(id)
        }),
{
    super::actors::lemma_with_ops(v, v.ops.completed(id, first));
    let once = v.op_completed(id, first);
    super::actors::lemma_with_ops(once, once.ops.completed(id, second));
}

/// An operation that its owner took is gone, and its identity is spent.
pub proof fn a_taken_operation_is_gone(world: World, id: OperationId)
    requires
        world.inv(),
        world@.ops.has(id),
        world@.ops.entry(id) is Terminal,
    ensures
        !world@.taking_op(id).ops.has(id),
        world@.taking_op(id).ops.spent(id),
{
    let v = world@;
    world.lemma_operations();
    operations::taken_identity_is_stale(v.ops, id);
    operations::a_vacated_identity_is_spent(v.ops, id);
    super::actors::lemma_with_ops(v, v.ops.taken(id));
}

/// While a failure waits for the owner, later ones are counted and the first
/// record stays.
pub proof fn waiting_failures_coalesce(
    v: WorldView,
    r: ActorRef,
    record: Arc<FailureRecord>,
    waiting: Notification,
)
    requires
        v.valid(r),
        v.at(r).notification == Some(waiting),
    ensures
        ({
            let n = v.failure_kept(r, record, true);
            &&& n.at(r).notification is Some
            &&& n.at(r).notification->0.failure == waiting.failure
            &&& n.at(r).notification->0.coalesced == super::supervision::one_more(
                waiting.coalesced,
            )
            &&& n.at(r).last_error == Some(record)
            &&& forall|other: ActorRef|
                v.valid(other) && other.slot != r.slot ==> #[trigger] n.at(other) == v.at(other)
        }),
{
}

/// A drain that is asked for again ends no later than before.
pub proof fn a_drain_is_only_hastened(v: WorldView, r: ActorRef, deadline: Instant)
    requires
        v.valid(r),
        v.hastened(r, deadline).1 is Ok,
    ensures
        ({
            let root = match v.at(r).drain_root {
                Some(root) => root,
                None => r,
            };
            let n = v.hastened(r, deadline).0;
            &&& n.at(root).drain_deadline is Some
            &&& n.at(root).drain_deadline->0.nanos <= deadline.nanos
            &&& v.at(root).drain_deadline matches Some(before) ==> n.at(
                root,
            ).drain_deadline->0.nanos <= before.nanos
        }),
{
}

/// A bag that is not empty has a least deadline.
pub(super) proof fn lemma_least_exists(bag: Multiset<Instant>)
    requires
        bag.len() > 0,
    ensures
        exists|at: Instant| expiry::is_least(bag, at),
    decreases bag.len(),
{
    let a = bag.choose();
    assert(bag.count(a) > 0);
    let rest = bag.remove(a);
    assert(rest.len() == bag.len() - 1);
    if rest.len() == 0 {
        assert forall|other: Instant| #[trigger] bag.contains(other) implies a.nanos
            <= other.nanos by {
            if other != a {
                assert(rest.count(other) == bag.count(other));
                assert(rest.count(other) <= rest.len());
            }
        }
        assert(expiry::is_least(bag, a));
    } else {
        lemma_least_exists(rest);
        let b = choose|at: Instant| expiry::is_least(rest, at);
        let first = if a.nanos <= b.nanos {
            a
        } else {
            b
        };
        assert(rest.contains(b));
        assert(bag.count(b) >= rest.count(b));
        assert forall|other: Instant| #[trigger] bag.contains(other) implies first.nanos
            <= other.nanos by {
            if other != a {
                assert(rest.count(other) == bag.count(other));
                assert(rest.contains(other));
            }
        }
        assert(expiry::is_least(bag, first));
    }
}

/// Where the first deadline has not come, no other has.
proof fn lemma_not_due(a: ActorView, now: Instant)
    requires
        !clock::due(a.first_deadline(), now),
    ensures
        forall|k: int|
            0 <= k < a.queue.len() ==> !clock::due((#[trigger] a.queue[k]).envelope.deadline, now),
        forall|k: int|
            0 <= k < a.staged.len() ==> !clock::due(
                (#[trigger] a.staged[k]).stored.options.deadline,
                now,
            ),
{
    let bag = a.deadlines();
    let queued = held::queue_deadlines(a.queue);
    let staged = held::staged_deadlines(a.staged);
    assert forall|at: Instant| #[trigger] bag.contains(at) implies at.nanos > now.nanos by {
        if bag.len() == 0 {
            assert(bag.count(at) <= bag.len());
        } else {
            lemma_least_exists(bag);
            let first = choose|at: Instant| expiry::is_least(bag, at);
            expiry::lemma_least(bag, first);
        }
    }
    assert forall|k: int| 0 <= k < a.queue.len() implies !clock::due(
        (#[trigger] a.queue[k]).envelope.deadline,
        now,
    ) by {
        if queued[k] is Some {
            expiry::lemma_bag_contains(queued, k);
            assert(bag.contains(queued[k]->0));
        }
    }
    assert forall|k: int| 0 <= k < a.staged.len() implies !clock::due(
        (#[trigger] a.staged[k]).stored.options.deadline,
        now,
    ) by {
        if staged[k] is Some {
            expiry::lemma_bag_contains(staged, k);
            assert(bag.contains(staged[k]->0));
        }
    }
}

/// Where nothing is due, everything stays.
proof fn lemma_all_alive(a: ActorView, now: Instant)
    requires
        forall|k: int|
            0 <= k < a.queue.len() ==> !clock::due((#[trigger] a.queue[k]).envelope.deadline, now),
        forall|k: int|
            0 <= k < a.staged.len() ==> !clock::due(
                (#[trigger] a.staged[k]).stored.options.deadline,
                now,
            ),
    ensures
        expiring::alive_queue(a.queue, now) == a.queue,
        expiring::alive_staged(a.staged, now) == a.staged,
    decreases a.queue.len() + a.staged.len(),
{
    if a.queue.len() > 0 {
        let less = ActorView { queue: a.queue.drop_last(), ..a };
        assert forall|k: int| 0 <= k < less.queue.len() implies !clock::due(
            (#[trigger] less.queue[k]).envelope.deadline,
            now,
        ) by {
            assert(less.queue[k] == a.queue[k]);
        }
        lemma_all_alive(less, now);
        assert(a.queue.drop_last().push(a.queue.last()) =~= a.queue);
    } else {
        assert(a.queue =~= Seq::<Delivery>::empty());
        if a.staged.len() > 0 {
            let less = ActorView { staged: a.staged.drop_last(), ..a };
            assert forall|k: int| 0 <= k < less.staged.len() implies !clock::due(
                (#[trigger] less.staged[k]).stored.options.deadline,
                now,
            ) by {
                assert(less.staged[k] == a.staged[k]);
            }
            lemma_all_alive(less, now);
            assert(a.staged.drop_last().push(a.staged.last()) =~= a.staged);
        } else {
            assert(a.staged =~= Seq::<Staged>::empty());
        }
    }
}

proof fn lemma_alive_is_not_due(queue: Seq<Delivery>, now: Instant)
    ensures
        forall|k: int|
            0 <= k < expiring::alive_queue(queue, now).len() ==> !clock::due(
                (#[trigger] expiring::alive_queue(queue, now)[k]).envelope.deadline,
                now,
            ),
    decreases queue.len(),
{
    if queue.len() > 0 {
        lemma_alive_is_not_due(queue.drop_last(), now);
        let rest = expiring::alive_queue(queue.drop_last(), now);
        let all = expiring::alive_queue(queue, now);
        assert forall|k: int| 0 <= k < all.len() implies !clock::due(
            (#[trigger] all[k]).envelope.deadline,
            now,
        ) by {
            if k < rest.len() {
                assert(all[k] == rest[k]);
            }
        }
    }
}

proof fn lemma_expired_actors(v: WorldView, now: Instant, at: Instant, dead: Seq<Delivery>)
    ensures
        v.deliveries_expired(now, at, dead).actors == v.actors,
        v.deliveries_expired(now, at, dead).id == v.id,
    decreases dead.len(),
{
    if dead.len() > 0 {
        lemma_expired_actors(v, now, at, dead.drop_last());
        lemma_expiring_actors(v.deliveries_expired(now, at, dead.drop_last()), now, at, dead.last());
    }
}

/// An actor after its dead entries were dropped.
pub open spec fn alive(a: ActorView, now: Instant) -> ActorView {
    ActorView {
        queue: expiring::alive_queue(a.queue, now),
        staged: expiring::alive_staged(a.staged, now),
        ..a
    }
}

proof fn lemma_purged(v: WorldView, now: Instant, at: Instant, r: ActorRef)
    requires
        v.valid(r),
    ensures
        v.purged(now, at, r).id == v.id,
        v.purged(now, at, r).actors == v.actors.update(r.slot as int, alive(v.at(r), now)),
{
    let a = v.at(r);
    let gone = expiring::dead_staged(a.staged, now);
    let left = v.put(r, alive(a, now));
    lemma_expired_actors(left, now, at, expiring::dead_queue(a.queue, now));
    let w = left.deliveries_expired(now, at, expiring::dead_queue(a.queue, now));
    super::actors::lemma_releasing_all(w, expiring::staged_shares(gone));
    let x = w.releasing_all(expiring::staged_shares(gone));
    super::fence::lemma_cancelled_actors(
        x,
        expiring::staged_publications(gone),
        PublicationOutcome::Expired,
    );
    let y = x.publications_cancelled(
        expiring::staged_publications(gone),
        PublicationOutcome::Expired,
    ).marked(r).refreshed(r);
    let z = WorldView {
        metrics: (Metrics {
            expired: types::raised(y.metrics.expired, gone.len()),
            cancelled: types::raised(y.metrics.cancelled, gone.len()),
            discarded: types::raised(y.metrics.discarded, gone.len()),
            ..y.metrics
        }),
        ..y
    };
    super::fence::lemma_noted_times(z, at, DiagnosticCode::DeadlineExpired, Some(r), gone.len());
}

pub(super) proof fn lemma_purged_all(v: WorldView, now: Instant, at: Instant, owners: Seq<ActorRef>)
    requires
        owners.no_duplicates(),
        forall|k: int| 0 <= k < owners.len() ==> v.valid(#[trigger] owners[k]),
    ensures
        v.purged_all(now, at, owners).id == v.id,
        v.purged_all(now, at, owners).actors.len() == v.actors.len(),
        forall|r: ActorRef| v.valid(r) <==> #[trigger] v.purged_all(now, at, owners).valid(r),
        forall|r: ActorRef|
            v.valid(r) ==> #[trigger] v.purged_all(now, at, owners).at(r) == (if owners.contains(r) {
                alive(v.at(r), now)
            } else {
                v.at(r)
            }),
    decreases owners.len(),
{
    if owners.len() > 0 {
        let rest = owners.drop_last();
        let last = owners.last();
        assert forall|k: int| 0 <= k < rest.len() implies v.valid(#[trigger] rest[k]) by {
            assert(rest[k] == owners[k]);
        }
        lemma_purged_all(v, now, at, rest);
        let m = v.purged_all(now, at, rest);
        assert(v.valid(owners[owners.len() - 1]));
        assert(m.valid(last));
        lemma_purged(m, now, at, last);
        let n = v.purged_all(now, at, owners);
        assert(!rest.contains(last)) by {
            if rest.contains(last) {
                let k = rest.index_of(last);
                assert(owners[k] == owners[owners.len() - 1]);
            }
        }
        assert forall|r: ActorRef| v.valid(r) <==> #[trigger] n.valid(r) by {
            assert(m.valid(r) == v.valid(r));
        }
        assert forall|r: ActorRef| v.valid(r) implies #[trigger] n.at(r) == (if owners.contains(
            r,
        ) {
            alive(v.at(r), now)
        } else {
            v.at(r)
        }) by {
            assert(m.valid(r));
            assert(m.at(r) == (if rest.contains(r) {
                alive(v.at(r), now)
            } else {
                v.at(r)
            }));
            if r == last {
                assert(owners[owners.len() - 1] == r);
            } else {
                if rest.contains(r) {
                    let k = rest.index_of(r);
                    assert(owners[k] == r);
                }
                if owners.contains(r) {
                    let k = owners.index_of(r);
                    assert(rest[k] == r);
                }
                if r.slot == last.slot {
                    assert(m.valid(r) && m.valid(last));
                }
            }
        }
    }
}

/// Once entries were looked at, none whose time has come is left, and the
/// others stay in their order.
pub proof fn only_entries_that_are_due_expire(
    world: World,
    now: Instant,
    at: Instant,
    r: ActorRef,
)
    requires
        world.inv(),
        world@.valid(r),
    ensures
        ({
            let v = world@;
            let n = v.events_expired(now, at);
            &&& n.at(r).queue == expiring::alive_queue(v.at(r).queue, now)
            &&& n.at(r).staged == expiring::alive_staged(v.at(r).staged, now)
            &&& forall|k: int|
                0 <= k < n.at(r).queue.len() ==> !clock::due(
                    (#[trigger] n.at(r).queue[k]).envelope.deadline,
                    now,
                )
        }),
{
    lemma_only_due_expire(world, now, at, r);
}

pub(super) proof fn lemma_only_due_expire(
    world: World,
    now: Instant,
    at: Instant,
    r: ActorRef,
)
    requires
        world.steady(),
        world@.valid(r),
    ensures
        ({
            let v = world@;
            let n = v.events_expired(now, at);
            &&& n.at(r).queue == expiring::alive_queue(v.at(r).queue, now)
            &&& n.at(r).staged == expiring::alive_staged(v.at(r).staged, now)
            &&& forall|k: int|
                0 <= k < n.at(r).queue.len() ==> !clock::due(
                    (#[trigger] n.at(r).queue[k]).envelope.deadline,
                    now,
                )
        }),
{
    let v = world@;
    let late = v.overdue(now);
    lemma_finitely_valid(v);
    let all = Set::new(|r: ActorRef| v.valid(r));
    assert(late.subset_of(all));
    vstd::set_lib::lemma_len_subset(late, all);
    ordered::lemma_sorted_exists(late);
    let owners = ordered::sorted(late);
    ordered::lemma_ascending_distinct(owners);
    assert forall|k: int| 0 <= k < owners.len() implies v.valid(#[trigger] owners[k]) by {
        assert(owners.to_set().contains(owners[k]));
    }
    lemma_purged_all(v, now, at, owners);
    let n = v.events_expired(now, at);
    assert(n.valid(r));
    if owners.contains(r) {
        assert(n.at(r) == alive(v.at(r), now));
    } else {
        assert(!late.contains(r)) by {
            if late.contains(r) {
                assert(owners.to_set().contains(r));
            }
        }
        lemma_not_due(v.at(r), now);
        lemma_all_alive(v.at(r), now);
    }
    lemma_alive_is_not_due(v.at(r).queue, now);
}

/// There are no more valid references than slots.
pub(super) proof fn lemma_finitely_valid(v: WorldView)
    ensures
        Set::new(|r: ActorRef| v.valid(r)).finite(),
{
    let slots = vstd::set_lib::set_int_range(0, v.actors.len() as int);
    vstd::set_lib::lemma_int_range(0, v.actors.len() as int);
    let name = |i: int|
        ActorRef {
            world: v.id,
            slot: i as u32,
            generation: v.actors[i].reference.generation,
        };
    slots.lemma_map_finite(name);
    let all = Set::new(|r: ActorRef| v.valid(r));
    assert forall|r: ActorRef| all.contains(r) implies slots.map(name).contains(r) by {
        assert(slots.contains(r.slot as int) && name(r.slot as int) == r);
    }
    assert(all.subset_of(slots.map(name)));
    vstd::set_lib::lemma_len_subset(all, slots.map(name));
}

/// A turn leaves the publications to its end, and keeps the destinations that
/// it began with.
proof fn lemma_turn_steps(
    v: WorldView,
    id: u64,
    p: PublicationView,
    turn: Turn,
    times: Seq<Instant>,
)
    ensures
        v.turn_steps(id, p, turn, times).0.pubs == v.pubs,
        v.turn_steps(id, p, turn, times).1.routes == turn.routes,
        v.turn_steps(id, p, turn, times).0.cfg == v.cfg,
        turn.destinations <= v.cfg.routing_batch_size ==> v.turn_steps(
            id,
            p,
            turn,
            times,
        ).1.destinations <= v.cfg.routing_batch_size,
    decreases times.len(),
{
    if times.len() > 0 {
        lemma_turn_steps(v, id, p, turn, times.drop_last());
    }
}

/// A turn of the router is bounded: it tries no more destinations than the
/// batch size, ends at most one publication, and tells what is left. Without a
/// source that is ready there is nothing to do.
pub proof fn a_routing_turn_is_bounded(world: World, now: Instant, times: Seq<Instant>)
    requires
        world.inv(),
        world@.pubs.ready.len() > 0,
    ensures
        ({
            let (n, progress) = world@.routing_turn(now, times);
            &&& progress.destinations <= world@.cfg.routing_batch_size
            &&& progress.publications <= 1
            &&& progress.ready <==> n.pubs.ready.len() > 0
            &&& n.pubs.entries.dom().len() + progress.publications
                == world@.pubs.entries.dom().len()
            &&& progress.pending == n.pubs.entries.dom().len()
        }),
{
    let v = world@;
    world.lemma_publications();
    world.lemma_sound();
    super::lemma_sound_parts(v);
    let source = v.pubs.ready[0];
    assert(v.pubs.ready.contains(source));
    assert(v.pubs.is_ready(source));
    let own = v.pubs.of_source(source);
    let id = v.pubs.head(source);
    let p = v.pubs.entries[id];
    assert(own.subset_of(v.pubs.entries.dom()));
    vstd::set_lib::lemma_len_subset(own, v.pubs.entries.dom());
    ordered::lemma_sorted_exists(own);
    assert(ordered::sorted(own).len() > 0) by {
        if ordered::sorted(own).len() == 0 {
            assert(own =~= Set::<u64>::empty());
        }
    }
    assert(ordered::sorted(own).to_set().contains(ordered::sorted(own)[0]));
    assert(own.contains(id));
    lemma_turn_steps(v, id, p, v.turn_begun(now, p), times);
    let (w, turn) = v.turn_steps(id, p, v.turn_begun(now, p), times);
    let last = p.advanced_to(turn.routes, turn.cursor, turn.report);
    let n = v.routing_turn(now, times).0;
    match router::turn_outcome(turn) {
        Some(outcome) => {
            assert(n.pubs.entries.dom() =~= v.pubs.entries.dom().remove(id));
        },
        None => {
            assert(n.pubs.entries.dom() =~= v.pubs.entries.dom());
        },
    }
    assert(v.pubs.entries.dom().subset_of(v.pubs.tickets.dom()));
    vstd::set_lib::lemma_len_subset(v.pubs.entries.dom(), v.pubs.tickets.dom());
}

/// A publication goes to the routes that stood when it was first routed:
/// routes that are added later get nothing of it.
pub proof fn destinations_are_those_of_the_first_turn(
    v: WorldView,
    now: Instant,
    id: u64,
    p: PublicationView,
    times: Seq<Instant>,
)
    requires
        p.routes is Some,
    ensures
        v.turn_steps(id, p, v.turn_begun(now, p), times).1.routes == p.routes,
{
    lemma_turn_steps(v, id, p, v.turn_begun(now, p), times);
}

/// The publications of one source are routed in the order in which they were
/// made.
pub proof fn a_source_is_routed_in_order(world: World, other: u64)
    requires
        world.inv(),
        world@.pubs.ready.len() > 0,
        world@.pubs.of_source(world@.pubs.ready[0]).contains(other),
    ensures
        world@.pubs.head(world@.pubs.ready[0]) <= other,
{
    let pubs = world@.pubs;
    let source = pubs.ready[0];
    world.lemma_publications();
    let own = pubs.of_source(source);
    assert(own.subset_of(pubs.entries.dom()));
    vstd::set_lib::lemma_len_subset(own, pubs.entries.dom());
    ordered::lemma_sorted_exists(own);
    let ids = ordered::sorted(own);
    assert(ids.to_set().contains(other));
    let k = ids.index_of(other);
    assert(ids[k] == other);
    if k > 0 {
        assert(ids[0] < ids[k]);
    }
}

/// Sources take turns: one whose publication is not finished goes to the back.
pub proof fn sources_take_turns(world: World, now: Instant, times: Seq<Instant>)
    requires
        world.inv(),
        world@.pubs.ready.len() > 0,
        ({
            let v = world@;
            let id = v.pubs.head(v.pubs.ready[0]);
            let p = v.pubs.entries[id];
            let turn = v.turn_steps(id, p, v.turn_begun(now, p), times).1;
            router::turn_outcome(turn) is None
        }),
    ensures
        world@.routing_turn(now, times).0.pubs.ready == world@.pubs.ready.drop_first().push(
            world@.pubs.ready[0],
        ),
{
    let v = world@;
    world.lemma_publications();
    let source = v.pubs.ready[0];
    assert(v.pubs.ready.contains(source));
    assert(v.pubs.is_ready(source));
    let own = v.pubs.of_source(source);
    let id = v.pubs.head(source);
    let p = v.pubs.entries[id];
    assert(own.subset_of(v.pubs.entries.dom()));
    vstd::set_lib::lemma_len_subset(own, v.pubs.entries.dom());
    ordered::lemma_sorted_exists(own);
    assert(ordered::sorted(own).len() > 0) by {
        if ordered::sorted(own).len() == 0 {
            assert(own =~= Set::<u64>::empty());
        }
    }
    assert(ordered::sorted(own).to_set().contains(ordered::sorted(own)[0]));
    assert(own.contains(id));
    lemma_turn_steps(v, id, p, v.turn_begun(now, p), times);
    let (w, turn) = v.turn_steps(id, p, v.turn_begun(now, p), times);
    let last = p.advanced_to(turn.routes, turn.cursor, turn.report);
    let k = v.pubs.ready.index_of(source);
    assert(k == 0);
    assert(publications::without(v.pubs.ready, source) =~= v.pubs.ready.drop_first());
    let rest = v.pubs.ready.drop_first();
    assert(!rest.contains(source)) by {
        if rest.contains(source) {
            let j = rest.index_of(source);
            assert(v.pubs.ready[j + 1] == source);
        }
    }
    let mid = PubsView {
        entries: v.pubs.entries.insert(id, last),
        ready: rest,
        ..v.pubs
    }.with_status(id, PublicationStatus::Routing(last.report));
    assert(mid.of_source(source) =~= own);
    assert(mid.is_ready(source));
    assert(w.pubs.advanced(id, last) == mid.readied(source));
}

/// An owner is there and has not stopped as long as something that it owns has
/// not stopped, and it lists what it owns.
pub proof fn an_owner_outlasts_what_it_owns(world: World, r: ActorRef)
    requires
        world.inv(),
        world@.valid(r),
        world@.at(r).state != Lifecycle::Stopped,
        world@.at(r).parent is Some,
    ensures
        ({
            let owner = world@.at(r).parent->0;
            &&& world@.valid(owner)
            &&& world@.at(owner).state != Lifecycle::Stopped
            &&& world@.at(owner).children.contains(r)
        }),
{
    reveal(WorldView::kin);
    world.lemma_sound();
    world.lemma_kin();
    super::lemma_placed(world@, r.slot as int);
    assert(world@.actors[r.slot as int].reference == r);
}

proof fn lemma_execution_known(v: WorldView, r: ActorRef, starting: bool, quiescing: bool)
    requires
        v.sound(),
        v.kin(),
        v.valid(r),
    ensures
        v.execution_from(r, starting, quiescing) is Ok,
    decreases v.order(r),
{
    reveal(WorldView::kin);
    super::lemma_placed(v, r.slot as int);
    let a = v.actors[r.slot as int];
    let s = starting || a.state == Lifecycle::Starting;
    let q = quiescing || a.state == Lifecycle::Quiescing;
    if !super::is_ended(a.state) {
        match a.parent {
            Some(p) => {
                assert(v.owning(p, a.reference));
                lemma_execution_known(v, p, s, q);
            },
            None => {},
        }
    }
}

/// A reference that is valid always finds the state in which its actor runs.
pub proof fn a_valid_actor_has_a_state(world: World, r: ActorRef)
    requires
        world.inv(),
        world@.valid(r),
    ensures
        world@.execution(r) is Ok,
{
    world.lemma_sound();
    world.lemma_kin();
    lemma_execution_known(world@, r, false, false);
}

/// A new actor comes after all that are there: its place in the order of
/// readiness is new.
pub proof fn new_actors_come_last(
    world: World,
    kind: EndpointKind,
    parent: Option<ActorRef>,
    other: ActorRef,
)
    requires
        world.inv(),
        world@.refuses_actor(parent) is None,
        world@.valid(other),
    ensures
        ({
            let n = world@.allocated(kind, parent);
            &&& n.valid(world@.next_ref())
            &&& world@.order(other) < n.order(world@.next_ref())
        }),
{
    world.lemma_sound();
    super::lemma_placed(world@, other.slot as int);
    super::actors::lemma_newcomer(world@, kind, parent);
}

/// An actor handles one delivery at a time: once one was claimed, nothing else
/// can be claimed until it is given back.
pub proof fn one_delivery_at_a_time(v: WorldView, r: ActorRef, times: Seq<Instant>)
    requires
        v.valid(r),
        v.claim_steps(r, times).1 matches Some(Some(_)),
    ensures
        !v.claim_steps(r, times).0.claimable(r),
    decreases times.len(),
{
    let (n, end) = v.claim_steps(r, times.drop_last());
    if end is Some {
        one_delivery_at_a_time(v, r, times.drop_last());
    } else {
        let passed = deliveries_are_taken_in_order(v, r, times.drop_last());
        lemma_claim_step(n, times.last(), r);
    }
}

/// An actor that drains takes in nothing new.
pub proof fn a_draining_actor_takes_nothing_new(
    v: WorldView,
    now: Instant,
    r: ActorRef,
    stored: Arc<Stored>,
    sub: Option<u64>,
    operation: Option<OperationId>,
)
    requires
        v.execution(r) == Ok::<Lifecycle, Error>(Lifecycle::Quiescing),
    ensures
        v.admission(now, r, stored, sub, false, operation).1 is Err,
        v.admission(now, r, stored, sub, false, operation).0.actors == v.actors,
{
    let drawn = WorldView { next_event: (v.next_event + 1) as u64, ..v };
    lemma_execution_alike(v, drawn, r, false, false);
}

/// An actor that is there has a state to run in; any other reference is refused
/// as that of another World, or as stale.
pub(super) proof fn lemma_execution_errors(world: World, r: ActorRef)
    requires
        world.inv(),
    ensures
        world@.execution(r) is Err <==> !world@.valid(r),
        world@.execution(r) matches Err(e) ==> e == (if r.world != world@.id {
            Error::CrossWorld
        } else {
            Error::StaleReference
        }),
{
    world.lemma_sound();
    world.lemma_kin();
    if world@.valid(r) {
        lemma_execution_known(world@, r, false, false);
    }
}

/// Whether an actor or one of its owners is in a state.
pub open spec fn some_above(v: WorldView, r: ActorRef, state: Lifecycle) -> bool {
    exists|k: int| 0 <= k < v.lineage(r).len() && v.at(#[trigger] v.lineage(r)[k]).state == state
}

proof fn lemma_above(v: WorldView, r: ActorRef, state: Lifecycle)
    requires
        v.valid(r),
    ensures
        v.at(r).parent matches Some(p) ==> (v.valid(p) && v.order(p) < v.order(r) ==> (some_above(
            v,
            r,
            state,
        ) <==> v.at(r).state == state || some_above(v, p, state))),
        v.at(r).parent is None ==> (some_above(v, r, state) <==> v.at(r).state == state),
{
    let all = v.lineage(r);
    assert(all[0] == r);
    match v.at(r).parent {
        Some(p) => {
            if v.valid(p) && v.order(p) < v.order(r) {
                let above = v.lineage(p);
                assert(all == seq![r] + above);
                assert forall|k: int| 0 < k < all.len() implies #[trigger] all[k] == above[k - 1] by {}
                if some_above(v, r, state) {
                    let k = choose|k: int|
                        0 <= k < all.len() && v.at(#[trigger] all[k]).state == state;
                    if k > 0 {
                        assert(v.at(above[k - 1]).state == state);
                    }
                }
                if some_above(v, p, state) {
                    let k = choose|k: int|
                        0 <= k < above.len() && v.at(#[trigger] above[k]).state == state;
                    assert(v.at(all[k + 1]).state == state);
                }
                if v.at(r).state == state {
                    assert(v.at(all[0]).state == state);
                }
            }
        },
        None => {
            assert(all =~= seq![r]);
        },
    }
}

proof fn lemma_execution_sums(v: WorldView, r: ActorRef, starting: bool, quiescing: bool)
    requires
        v.sound(),
        v.kin(),
        v.valid(r),
    ensures
        ({
            let ended = some_above(v, r, Lifecycle::Stopping) || some_above(
                v,
                r,
                Lifecycle::Stopped,
            );
            let drains = quiescing || some_above(v, r, Lifecycle::Quiescing);
            let starts = starting || some_above(v, r, Lifecycle::Starting);
            v.execution_from(r, starting, quiescing) == Ok::<Lifecycle, Error>(
                if ended {
                    Lifecycle::Stopping
                } else if drains {
                    Lifecycle::Quiescing
                } else if starts {
                    Lifecycle::Starting
                } else {
                    Lifecycle::Active
                },
            )
        }),
    decreases v.order(r),
{
    reveal(WorldView::kin);
    super::lemma_placed(v, r.slot as int);
    let a = v.actors[r.slot as int];
    lemma_above(v, r, Lifecycle::Stopping);
    lemma_above(v, r, Lifecycle::Stopped);
    lemma_above(v, r, Lifecycle::Quiescing);
    lemma_above(v, r, Lifecycle::Starting);
    lemma_execution_known(v, r, starting, quiescing);
    if super::is_ended(a.state) {
        assert(v.at(v.lineage(r)[0]).state == a.state);
    } else {
        match a.parent {
            Some(p) => {
                lemma_execution_sums(
                    v,
                    p,
                    starting || a.state == Lifecycle::Starting,
                    quiescing || a.state == Lifecycle::Quiescing,
                );
            },
            None => {},
        }
    }
}

/// An actor stops where it or an owner above it stops; else it drains where one
/// of them drains; else it waits where one of them starts; else it runs.
pub proof fn an_actor_runs_as_its_owners_do(world: World, r: ActorRef)
    requires
        world.inv(),
        world@.valid(r),
    ensures
        ({
            let v = world@;
            let ended = some_above(v, r, Lifecycle::Stopping) || some_above(
                v,
                r,
                Lifecycle::Stopped,
            );
            let drains = some_above(v, r, Lifecycle::Quiescing);
            let starts = some_above(v, r, Lifecycle::Starting);
            &&& ended <==> v.execution(r) == Ok::<Lifecycle, Error>(Lifecycle::Stopping)
            &&& !ended && drains <==> v.execution(r) == Ok::<Lifecycle, Error>(
                Lifecycle::Quiescing,
            )
            &&& !ended && !drains && starts <==> v.execution(r) == Ok::<Lifecycle, Error>(
                Lifecycle::Starting,
            )
            &&& !ended && !drains && !starts <==> v.execution(r) == Ok::<Lifecycle, Error>(
                Lifecycle::Active,
            )
        }),
{
    world.lemma_sound();
    world.lemma_kin();
    lemma_execution_sums(world@, r, false, false);
}

pub(super) proof fn lemma_execution_alike(
    v: WorldView,
    n: WorldView,
    r: ActorRef,
    starting: bool,
    quiescing: bool,
)
    requires
        n.id == v.id,
        n.actors == v.actors,
    ensures
        n.execution_from(r, starting, quiescing) == v.execution_from(r, starting, quiescing),
    decreases v.order(r),
{
    if v.valid(r) {
        let state = v.at(r).state;
        match v.at(r).parent {
            Some(p) => {
                if v.valid(p) && v.order(p) < v.order(r) {
                    lemma_execution_alike(
                        v,
                        n,
                        p,
                        starting || state == Lifecycle::Starting,
                        quiescing || state == Lifecycle::Quiescing,
                    );
                }
            },
            None => {},
        }
    }
}

/// A change to an actor's work moves the version of those that depend on it and
/// of nobody else: itself, its owners, and draining consumers.
pub proof fn changes_are_seen_by_dependents_alone(v: WorldView, r: ActorRef, other: ActorRef)
    requires
        forall|k: int|
            0 <= k < v.dependents(r).len() ==> (#[trigger] v.dependents(r)[k]).slot != other.slot,
        v.activity.slots.dom().contains(other.slot),
    ensures
        v.marked(r).activity.slots.dom().contains(other.slot),
        v.marked(r).activity.slots[other.slot] == v.activity.slots[other.slot],
{
    lemma_marks_elsewhere(v.activity, v.dependents(r), other);
}

proof fn lemma_marks_elsewhere(view: ActivityView, actors: Seq<ActorRef>, other: ActorRef)
    requires
        forall|k: int| 0 <= k < actors.len() ==> (#[trigger] actors[k]).slot != other.slot,
        view.slots.dom().contains(other.slot),
    ensures
        view.marked_all(actors).slots.dom().contains(other.slot),
        view.marked_all(actors).slots[other.slot] == view.slots[other.slot],
    decreases actors.len(),
{
    if actors.len() > 0 {
        let rest = actors.drop_last();
        assert forall|k: int| 0 <= k < rest.len() implies (#[trigger] rest[k]).slot != other.slot by {
            assert(rest[k] == actors[k]);
        }
        lemma_marks_elsewhere(view, rest, other);
        assert(actors[actors.len() - 1].slot != other.slot);
        activity::marks_are_isolated(view.marked_all(rest), actors.last(), other);
    }
}

/// Destinations are tried in the order in which their routes were made, and
/// stay within the limits on fan-out and on captured routes.
pub proof fn destinations_follow_registration(world: World, now: Instant, p: PublicationView)
    requires
        world.inv(),
        p.routes is None,
        world@.turn_begun(now, p).routes is Some,
    ensures
        ({
            let routes = world@.turn_begun(now, p).routes->0;
            &&& forall|i: int, j: int|
                0 <= i < j < routes.len() ==> (#[trigger] routes[i]).0 < (#[trigger] routes[j]).0
            &&& routes.len() <= world@.cfg.max_publication_fanout
            &&& routes.len() == 0 || routes.len() + world@.pubs.snapshot_entries()
                <= world@.cfg.max_routing_snapshot_entries
        }),
{
    let v = world@;
    world.subs.lemma_finite();
    let ids = routing::from_port(v.subs, p.source, p.source_port);
    assert(ids.subset_of(v.subs.dom()));
    vstd::set_lib::lemma_len_subset(ids, v.subs.dom());
    ordered::lemma_sorted_exists(ids);
    let routes = v.turn_begun(now, p).routes->0;
    let order = ordered::sorted(ids);
    assert forall|i: int, j: int| 0 <= i < j < routes.len() implies (#[trigger] routes[i]).0 < (
    #[trigger] routes[j]).0 by {
        assert(routes[i].0 == order[i] && routes[j].0 == order[j]);
    }
}

/// Giving a ticket back does not cancel what was accepted.
pub proof fn accepted_work_outlives_its_ticket(v: PubsView, id: u64)
    ensures
        v.ticket_released(id).entries == v.entries,
        v.ticket_released(id).ready == v.ready,
        v.entries.dom().contains(id) && v.tickets.dom().contains(id) ==> v.ticket_released(
            id,
        ).tickets.dom().contains(id),
{
}

/// The failure that came first is told first: no child that waits has an
/// earlier one.
pub proof fn the_first_failure_is_told_first(v: WorldView, children: Seq<ActorRef>)
    ensures
        ({
            match v.first_report(children) {
                Some(first) => {
                    &&& children.contains(first)
                    &&& v.valid(first)
                    &&& v.at(first).notification is Some
                    &&& forall|k: int|
                        0 <= k < children.len() && v.valid(#[trigger] children[k]) && v.at(
                            children[k],
                        ).notification is Some ==> v.at(first).notification->0.failure.sequence
                            <= v.at(children[k]).notification->0.failure.sequence
                },
                None => forall|k: int|
                    0 <= k < children.len() && v.valid(#[trigger] children[k]) ==> v.at(
                        children[k],
                    ).notification is None,
            }
        }),
    decreases children.len(),
{
    if children.len() > 0 {
        let rest = children.drop_last();
        the_first_failure_is_told_first(v, rest);
        assert(children.last() == children[children.len() - 1]);
        match v.first_report(rest) {
            Some(first) => {
                let k = rest.index_of(first);
                assert(children[k] == first);
            },
            None => {},
        }
        assert forall|k: int| 0 <= k < rest.len() implies #[trigger] children[k] == rest[k] by {}
    }
}

/// A World keeps every interface that it has come to know, up to its limit, and
/// lets no component change one: what contradicts an interface that is known is
/// refused, now and whatever comes later. An actor has one component for good.
pub proof fn interfaces_are_kept(
    v: WorldView,
    owner: ActorRef,
    d: ComponentDescriptor,
    later: ComponentDescriptor,
)
    requires
        v.refuses_component(owner, d) is None,
    ensures
        ({
            let n = v.with_component(owner, d);
            let list = super::interfaces_view(d.interfaces@);
            &&& n.interfaces.len() <= components::MAX_WORLD_INTERFACES
            &&& v.interfaces.is_prefix_of(n.interfaces)
            &&& forall|i: int|
                0 <= i < list.len() ==> !links::conflicts(v.interfaces, #[trigger] list[i])
            &&& forall|x: InterfaceView| #[trigger]
                links::conflicts(v.interfaces, x) ==> links::conflicts(n.interfaces, x)
            &&& n.refuses_component(owner, later) == Some(Error::ActorNotReady)
        }),
{
    let n = v.with_component(owner, d);
    let list = super::interfaces_view(d.interfaces@);
    let ports = components::port_views(d.ports@);
    lemma_no_interface_fault(v, ports, list, list.len());
    assert forall|i: int| 0 <= i < list.len() implies !links::conflicts(
        v.interfaces,
        #[trigger] list[i],
    ) by {
        assert(v.interface_fault(ports, list, i) is None);
    }
    assert forall|x: InterfaceView| #[trigger] links::conflicts(
        v.interfaces,
        x,
    ) implies links::conflicts(n.interfaces, x) by {
        let k = choose|k: int|
            0 <= k < v.interfaces.len() && links::same_identity(#[trigger] v.interfaces[k], x)
                && !components::interface_satisfies(v.interfaces[k], x);
        assert(n.interfaces[k] == v.interfaces[k]);
    }
}

/// A component with an interface that contradicts one that is known is refused,
/// and for no other reason where nothing else is wrong with it.
pub proof fn a_contradicting_interface_is_refused(
    v: WorldView,
    owner: ActorRef,
    d: ComponentDescriptor,
    i: int,
)
    requires
        0 <= i < d.interfaces@.len(),
        links::conflicts(v.interfaces, super::interfaces_view(d.interfaces@)[i]),
    ensures
        v.refuses_component(owner, d) is Some,
        (WorldView { interfaces: Seq::empty(), ..v }).refuses_component(owner, d) is None
            ==> v.refuses_component(owner, d) == Some(Error::InterfaceMismatch),
{
    if v.refuses_component(owner, d) is None {
        interfaces_are_kept(v, owner, d, d);
        assert(!links::conflicts(v.interfaces, super::interfaces_view(d.interfaces@)[i]));
    }
    let bare = WorldView { interfaces: Seq::empty(), ..v };
    if bare.refuses_component(owner, d) is None {
        let list = super::interfaces_view(d.interfaces@);
        let ports = components::port_views(d.ports@);
        super::tidy::lemma_runs_alike(v, bare, owner, false, false);
        lemma_no_interface_fault(bare, ports, list, list.len());
        lemma_only_mismatch(v, bare, ports, list, list.len());
        if v.first_interface_fault(ports, list, list.len()) is None {
            lemma_no_interface_fault(v, ports, list, list.len());
            assert(v.interface_fault(ports, list, i) is None);
        }
    }
}

/// Where nothing but what is known speaks against interfaces, they are refused
/// as a mismatch if at all.
proof fn lemma_only_mismatch(
    v: WorldView,
    bare: WorldView,
    ports: Seq<PortView>,
    list: Seq<InterfaceView>,
    n: nat,
)
    requires
        bare.schemas == v.schemas,
        n <= list.len(),
        forall|i: int|
            0 <= i < list.len() ==> (#[trigger] bare.interface_fault(ports, list, i)) is None,
    ensures
        v.first_interface_fault(ports, list, n) matches Some(e) ==> e == Error::InterfaceMismatch,
    decreases n,
{
    if n > 0 {
        lemma_only_mismatch(v, bare, ports, list, (n - 1) as nat);
        assert(bare.interface_fault(ports, list, n - 1) is None);
    }
}

proof fn lemma_no_interface_fault(
    v: WorldView,
    ports: Seq<PortView>,
    list: Seq<InterfaceView>,
    n: nat,
)
    requires
        v.first_interface_fault(ports, list, n) is None,
    ensures
        forall|i: int| 0 <= i < n ==> (#[trigger] v.interface_fault(ports, list, i)) is None,
    decreases n,
{
    if n > 0 {
        lemma_no_interface_fault(v, ports, list, (n - 1) as nat);
    }
}

/// A route that was taken away leaves one route less, and no number that was
/// given out names a route again.
pub proof fn a_removed_route_stays_removed(world: World, id: u64, other: u64, route: Sub)
    requires
        world.inv(),
        world@.subs.dom().contains(id),
    ensures
        ({
            let n = world@.without_route(id);
            &&& !n.subs.dom().contains(id)
            &&& n.subs.dom().len() + 1 == world@.subs.dom().len()
            &&& n.subs == world@.subs.remove(id)
            &&& id < n.next_sub
            &&& n.next_sub < u64::MAX ==> !n.with_route(route).subs.dom().contains(id)
            &&& n.next_sub < u64::MAX ==> id < n.with_route(route).next_sub
            &&& !n.without_route(other).subs.dom().contains(id)
            &&& id < n.without_route(other).next_sub
        }),
{
    world.lemma_sound();
    super::lemma_sound_parts(world@);
    world.subs.lemma_finite();
}

/// A delivery is handed out only while its route stands and its operation is
/// open.
pub proof fn a_removed_route_delivers_nothing(v: WorldView, r: ActorRef, times: Seq<Instant>)
    requires
        v.valid(r),
        v.claim_steps(r, times).1 matches Some(Some(_)),
    ensures
        ({
            let (n, end) = v.claim_steps(r, times);
            let d = end->0->0;
            &&& d.subscription matches Some(id) ==> n.subs.dom().contains(id)
                && v.subs.dom().contains(id)
            &&& d.operation matches Some(id) ==> n.op_is_open(id)
        }),
    decreases times.len(),
{
    lemma_claims_keep_routes(v, r, times);
    let (n, end) = v.claim_steps(r, times.drop_last());
    if end is Some {
        a_removed_route_delivers_nothing(v, r, times.drop_last());
    } else {
        let passed = deliveries_are_taken_in_order(v, r, times.drop_last());
        lemma_claim_step(n, times.last(), r);
    }
}

/// Looking at deliveries leaves the routes alone.
proof fn lemma_claims_keep_routes(v: WorldView, r: ActorRef, times: Seq<Instant>)
    requires
        v.valid(r),
    ensures
        v.claim_steps(r, times).0.subs == v.subs,
    decreases times.len(),
{
    if times.len() > 0 {
        lemma_claims_keep_routes(v, r, times.drop_last());
        let passed = deliveries_are_taken_in_order(v, r, times.drop_last());
        lemma_claim_step(v.claim_steps(r, times.drop_last()).0, times.last(), r);
    }
}

} // verus!
