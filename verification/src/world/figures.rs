//! What a World shows: how it begins, what it reports of its actors, what it
//! answers to those who ask.
use vstd::prelude::*;
use super::access::RoutingPoll;
use super::actors;
use super::expiring;
use super::links;
use super::messages;
use super::reports;
use super::reports::{ActorSnapshot, StopReport};
use super::{ActorView, World, WorldView};
use crate::clock::{Clock, Instant};
use crate::components;
use crate::components::{PayloadType, PortDirection, PortView};
use crate::envelope::MessageOptions;
use crate::failures::FailureRecord;
use crate::held::{Delivery, HeldPayload, Staged};
use crate::operations::{EntryView, OperationId, OutcomeView};
use crate::ordered;
use crate::payload::Payload;
use crate::routing;
use crate::schema::RegistryView;
use crate::services::ServiceLease;
use crate::types::{ActorRef, Config, Error, Lifecycle};
use std::sync::Arc;

verus! {

/// A new World is empty: it has its limits, nothing in it, and nothing counted.
pub proof fn a_new_world_is_empty(id: u64, cfg: Config, clock: Clock, epoch: Instant)
    ensures
        ({
            let v = super::fresh_world(id, cfg, clock, epoch);
            &&& v.id == id
            &&& v.cfg == cfg
            &&& v.clock == clock
            &&& v.epoch == epoch
            &&& !v.closed
            &&& v.actors.len() == 0
            &&& v.free.len() == 0
            &&& v.subs.dom() == Set::<u64>::empty()
            &&& v.ops.world == id
            &&& v.ops.max == cfg.max_operations
            &&& v.ops.slots.len() == 0
            &&& v.pubs.limit == cfg.max_publications
            &&& v.pubs.per_source == cfg.max_publications_per_source
            &&& v.pubs.entries.dom() == Set::<u64>::empty()
            &&& v.pubs.tickets.dom() == Set::<u64>::empty()
            &&& v.history.capacity == cfg.diagnostic_capacity
            &&& v.history.entries.len() == 0
            &&& v.history.epoch == epoch
            &&& v.schemas.max == cfg.max_schemas
            &&& v.schemas.items.len() == 0
            &&& v.interfaces.len() == 0
            &&& v.services.records.dom() == Set::<ActorRef>::empty()
            &&& v.services.leases.dom() == Set::<ActorRef>::empty()
            &&& v.budget.limit == cfg.native_payload_budget
            &&& v.budget.shares.dom() == Set::<u64>::empty()
            &&& v.last_error is None
            &&& v.metrics.submitted == 0 && v.metrics.admitted == 0 && v.metrics.rejected == 0
            &&& v.metrics.started == 0 && v.metrics.completed == 0 && v.metrics.failed == 0
            &&& v.metrics.cancelled == 0 && v.metrics.discarded == 0 && v.metrics.expired == 0
            &&& v.metrics.failures == 0 && v.metrics.drain_timeouts == 0
            &&& v.next_event == 1 && v.next_sub == 1 && v.next_failure == 1
            &&& v.pubs.next_id == 1 && v.history.next == 1 && v.next_ready_order == 1
            &&& forall|r: ActorRef| !#[trigger] v.valid(r)
        }),
{
}

/// An actor that takes nothing new drains or has ended; one that runs is active
/// or drains.
pub proof fn states_exclude_each_other(state: Lifecycle)
    ensures
        super::is_open(state) <==> !super::is_draining(state),
        super::is_ended(state) ==> super::is_draining(state) && !super::is_running(state),
        super::is_running(state) <==> !super::is_ended(state) && state != Lifecycle::Starting,
        super::is_open(state) && super::is_running(state) <==> state == Lifecycle::Active,
        super::is_draining(state) && super::is_running(state) <==> state == Lifecycle::Quiescing,
{
}

/// What is left of an actor is added to a report, item by item.
pub proof fn a_report_adds_up(report: StopReport, a: ActorView)
    requires
        report.queued + a.queue.len() + a.staged.len() <= usize::MAX,
        report.delivery_in_flight < usize::MAX,
        report.control_in_flight < usize::MAX,
        report.native_tasks + a.native_tasks <= usize::MAX,
        report.python_pending < usize::MAX,
        report.pending_notifications < usize::MAX,
        report.errors + a.errors <= u64::MAX,
    ensures
        ({
            let n = reports::with_actor(report, a);
            &&& n.queued == report.queued + a.queue.len() + a.staged.len()
            &&& n.delivery_in_flight - report.delivery_in_flight == if a.in_flight {
                1int
            } else {
                0
            }
            &&& n.control_in_flight - report.control_in_flight == if a.control_in_flight {
                1int
            } else {
                0
            }
            &&& n.native_tasks == report.native_tasks + a.native_tasks
            &&& n.python_pending - report.python_pending == if a.python_done {
                0int
            } else {
                1
            }
            &&& n.pending_notifications - report.pending_notifications
                == if a.notification is Some {
                1int
            } else {
                0
            }
            &&& n.errors == report.errors + a.errors
            &&& n.timed_out <==> report.timed_out || a.drain_timed_out
            &&& n.discarded == report.discarded
            &&& n.outstanding_operations == report.outstanding_operations
            &&& n.outstanding_publications == report.outstanding_publications
        }),
{
}

/// A scope is done on the native side when nothing waits in it, nothing runs and
/// nothing is owed to it, and on the Python side when no actor of it is pending.
pub proof fn a_scope_is_done_when_nothing_is_left(report: StopReport)
    requires
        report.delivery_in_flight + report.control_in_flight + report.native_tasks <= usize::MAX,
    ensures
        ({
            let n = reports::totalled(report);
            &&& n.in_flight == report.delivery_in_flight + report.control_in_flight
                + report.native_tasks
            &&& n.native_done <==> {
                &&& report.queued == 0
                &&& report.delivery_in_flight == 0
                &&& report.control_in_flight == 0
                &&& report.native_tasks == 0
                &&& report.pending_notifications == 0
                &&& report.outstanding_operations == 0
                &&& report.outstanding_publications == 0
            }
            &&& n.python_done <==> report.python_pending == 0
            &&& n.queued == report.queued
            &&& n.errors == report.errors
            &&& n.timed_out == report.timed_out
            &&& n.last_error == report.last_error
            &&& n.retained_operations == report.retained_operations
            &&& n.retained_publications == report.retained_publications
        }),
{
}

/// The failure that a report names is the latest of those it counts.
pub proof fn the_latest_failure_is_named(
    a: Option<Arc<FailureRecord>>,
    b: Option<Arc<FailureRecord>>,
)
    ensures
        actors::latest(a, b) == a || actors::latest(a, b) == b,
        actors::latest(a, b) is None <==> a is None && b is None,
        actors::latest(a, b) matches Some(told) ==> (a matches Some(x) ==> x.sequence
            <= told.sequence) && (b matches Some(y) ==> y.sequence <= told.sequence),
{
}

/// What was discarded in between is the difference of the counts.
pub proof fn what_was_discarded_is_the_difference(v: WorldView, before: WorldView)
    requires
        before.metrics.discarded <= v.metrics.discarded,
        v.metrics.discarded - before.metrics.discarded <= usize::MAX,
    ensures
        v.report_since(before).discarded == v.metrics.discarded - before.metrics.discarded,
        v.report_since(before).errors == v.metrics.failures,
        v.report_since(before).last_error == v.last_error,
        v.report_since(before).timed_out <==> v.metrics.drain_timeouts > 0,
{
}

/// A snapshot shows an actor as it is.
pub proof fn an_actor_is_shown_as_it_is(a: ActorView)
    requires
        a.queue.len() <= usize::MAX,
        a.staged.len() <= usize::MAX,
        a.queue_bytes() <= usize::MAX,
        a.staged_bytes() <= usize::MAX,
    ensures
        ({
            let s = reports::actor_shown(a);
            &&& s.reference == a.reference
            &&& s.kind == a.kind
            &&& s.state == a.state
            &&& s.queue_entries == a.queue.len()
            &&& s.queue_bytes == a.queue_bytes()
            &&& s.staged_entries == a.staged.len()
            &&& s.staged_bytes == a.staged_bytes()
            &&& s.component == a.component
            &&& s.in_flight == a.in_flight
            &&& s.control_in_flight == a.control_in_flight
            &&& s.failure_pending <==> a.notification is Some
            &&& s.native_tasks == a.native_tasks
            &&& s.python_done == a.python_done
            &&& s.parent == a.parent
            &&& s.drain_deadline == a.drain_deadline
        }),
{
}

/// What is not due stays where it is, in its order; the rest expires.
pub proof fn what_is_not_due_stays_in_order(queue: Seq<Delivery>, now: Instant)
    ensures
        expiring::alive_queue(queue, now) == queue.filter(
            |d: Delivery| !(d.envelope.deadline matches Some(at) && at.nanos <= now.nanos),
        ),
        expiring::dead_queue(queue, now) == queue.filter(
            |d: Delivery| d.envelope.deadline matches Some(at) && at.nanos <= now.nanos,
        ),
    decreases queue.len(),
{
    reveal(Seq::filter);
    if queue.len() > 0 {
        what_is_not_due_stays_in_order(queue.drop_last(), now);
    }
}

/// The same holds of what was put aside.
pub proof fn what_was_put_aside_stays_in_order(staged: Seq<Staged>, now: Instant)
    ensures
        expiring::alive_staged(staged, now) == staged.filter(
            |s: Staged| !(s.stored.options.deadline matches Some(at) && at.nanos <= now.nanos),
        ),
        expiring::dead_staged(staged, now) == staged.filter(
            |s: Staged| s.stored.options.deadline matches Some(at) && at.nanos <= now.nanos,
        ),
    decreases staged.len(),
{
    reveal(Seq::filter);
    if staged.len() > 0 {
        what_was_put_aside_stays_in_order(staged.drop_last(), now);
    }
}

/// An actor is activated while it starts and its owner starts or runs.
pub proof fn an_actor_is_activated_once(v: WorldView, r: ActorRef)
    ensures
        v.refuses_start(r) is None <==> {
            &&& v.valid(r)
            &&& v.at(r).state == Lifecycle::Starting
            &&& v.at(r).parent matches Some(p) ==> v.valid(p) && (v.at(p).state
                == Lifecycle::Starting || v.at(p).state == Lifecycle::Active)
        },
        v.refuses_start(r) matches Some(e) ==> e == Error::ActorStopped || e == Error::CrossWorld
            || e == Error::StaleReference,
        v.valid(r) && v.at(r).parent is None && v.at(r).state != Lifecycle::Starting
            ==> v.refuses_start(r) == Some(Error::ActorStopped),
{
}

/// Nothing more comes in to an actor once it has nothing left and every one that
/// it is linked from drains with nothing left.
pub proof fn an_intake_ends_with_its_producers(v: WorldView, r: ActorRef, id: u64)
    requires
        v.intake_done(r),
    ensures
        v.at(r).queue.len() == 0,
        !v.at(r).in_flight,
        v.pubs.of_source(r).len() == 0,
        v.subs.dom().contains(id) && v.subs[id].target == r ==> {
            let producer = v.subs[id].source;
            &&& v.valid(producer)
            &&& v.at(producer).state != Lifecycle::Starting
            &&& v.at(producer).state != Lifecycle::Active
            &&& v.at(producer).native_tasks == 0
            &&& v.at(producer).queue.len() == 0
            &&& !v.at(producer).in_flight
            &&& v.pubs.of_source(producer).len() == 0
        },
{
    if v.subs.dom().contains(id) && v.subs[id].target == r {
        assert(routing::to_actor(v.subs, r).contains(id));
    }
}

/// An actor without links into it has its intake done as soon as it has nothing
/// left itself.
pub proof fn an_intake_without_links_is_its_own(v: WorldView, r: ActorRef)
    requires
        forall|id: u64| #[trigger] v.subs.dom().contains(id) ==> v.subs[id].target != r,
    ensures
        v.intake_done(r) <==> v.at(r).queue.len() == 0 && !v.at(r).in_flight && v.pubs.of_source(
            r,
        ).len() == 0,
{
    assert forall|id: u64| !routing::to_actor(v.subs, r).contains(id) by {
        if v.subs.dom().contains(id) {
            assert(v.subs[id].target != r);
        }
    }
}

/// Who asks for routing work is answered at once if there is some or never will
/// be, and kept in place of the one who asked before otherwise.
pub proof fn a_router_waits_for_work(v: WorldView, incoming: u64)
    ensures
        ({
            let (n, answer, former) = v.routing_polled(incoming);
            &&& answer == RoutingPoll::Pending <==> !v.routing_closed && v.pubs.ready.len() == 0
            &&& answer == RoutingPoll::Ready(Ok::<(), Error>(())) <==> !v.routing_closed
                && v.pubs.ready.len() > 0
            &&& v.routing_closed ==> answer == RoutingPoll::Ready(
                Err::<(), Error>(Error::ActorStopped),
            ) && n.routing_observer is None && former == v.routing_observer
            &&& answer == RoutingPoll::Pending ==> n.routing_observer == Some(incoming) && former
                == v.routing_observer
            &&& answer == RoutingPoll::Ready(Ok::<(), Error>(())) ==> n == v && former is None
            &&& n == (WorldView { routing_observer: n.routing_observer, ..v })
        }),
{
}

/// A payload is held as it was given: its content, its metadata and its cost.
pub proof fn what_is_held_is_what_was_given(
    v: WorldView,
    now: Instant,
    p: Payload,
    charge: usize,
    options: MessageOptions,
)
    ensures
        v.holding(now, p, charge, options).1 matches Ok(held) ==> {
            let n = v.holding(now, p, charge, options).0;
            &&& held.carried() == p
            &&& held.metadata() == options
            &&& held.of_world() == v.id
            &&& held.cost() == charge + options.charge()
            &&& held.share() == v.budget.next
            &&& crate::held::held_envelope(held) is None
            &&& !v.closed
            &&& options.deadline matches Some(at) ==> now.nanos < at.nanos
            &&& charge + options.charge() <= v.cfg.max_event_bytes
            &&& p matches Payload::Structured(record) ==> record.world_id() == v.id
            &&& n == (WorldView { budget: n.budget, ..v })
        },
        v.holding(now, p, charge, options).1 is Err ==> v.holding(now, p, charge, options).0 == v,
        v.closed ==> v.holding(now, p, charge, options).1 == Err::<HeldPayload, Error>(
            Error::ActorStopped,
        ),
{
    HeldPayload::lemma_made(v.stored_next(p, charge, options, None), v.id, None);
}

/// The result of an operation is handed out exactly if it completed and still can
/// be shared.
pub proof fn a_result_is_shared_once_it_is_there(v: WorldView, id: OperationId)
    ensures
        v.sharing_result(id).1 matches Some(held) ==> v.ops.has(id) && (v.ops.entry(
            id,
        ) matches EntryView::Terminal { outcome, .. } && outcome == OutcomeView::Completed(held)),
        v.ops.has(id) && (v.ops.entry(id) matches EntryView::Terminal { outcome, .. } && (
        outcome matches OutcomeView::Completed(held) && v.budget.roomy(held.share())))
            ==> v.sharing_result(id).1 is Some,
        v.sharing_result(id).1 is None ==> v.sharing_result(id).0 == v,
        v.sharing_result(id).0.ops == v.ops,
{
}

/// Bytes are a payload of a schema if they fit in an event and the schema reads
/// them.
pub proof fn bytes_are_taken_in_if_they_are_read(v: WorldView, id: u32, bytes: Seq<u8>)
    requires
        bytes.len() + 4 <= usize::MAX,
    ensures
        v.refuses_structured(id, bytes) is None <==> {
            &&& bytes.len() + 4 <= v.cfg.max_event_bytes
            &&& v.schemas.has(id)
            &&& v.schemas.get(id).reading(bytes) is Ok
        },
{
}

/// A lease lets work through while it is the one that is kept, its scope is open
/// and its service runs under its name.
pub proof fn a_lease_lets_work_through(v: WorldView, lease: ServiceLease)
    ensures
        v.lease_fault(lease) is None <==> {
            &&& lease.scope.world == v.id && lease.owner.world == v.id && lease.service.world
                == v.id
            &&& v.services.leases.dom().contains(lease.scope)
            &&& v.services.leases[lease.scope] == lease
            &&& v.services.records.dom().contains(lease.service)
            &&& v.execution(lease.scope) == Ok::<Lifecycle, Error>(Lifecycle::Starting)
                || v.execution(lease.scope) == Ok::<Lifecycle, Error>(Lifecycle::Active)
            &&& v.execution(lease.service) == Ok::<Lifecycle, Error>(Lifecycle::Active)
        },
{
}

/// A request through a lease goes to an input that the service promised under the
/// name, and that takes the payload.
pub proof fn a_lease_leads_to_what_was_promised(
    v: WorldView,
    lease: ServiceLease,
    port: Seq<char>,
    p: Payload,
)
    requires
        v.at(lease.service).component matches Some(component) ==> component.ports@.len() <= 64,
    ensures
        v.service_input(lease, port, p) matches Ok(input) ==> {
            &&& v.lease_fault(lease) is None
            &&& v.execution(lease.scope) == Ok::<Lifecycle, Error>(Lifecycle::Active)
            &&& input.owner == lease.service
            &&& v.at(lease.service).component matches Some(component) && {
                let ports = component.ports@;
                &&& (input.index as int) < ports.len()
                &&& ports[input.index as int].name@ == port
                &&& ports[input.index as int].direction == PortDirection::Input
                &&& messages::fits_port(ports[input.index as int], p)
            }
        },
        v.service_output(lease, port) matches Ok(output) ==> {
            &&& v.lease_fault(lease) is None
            &&& output.owner == lease.service
            &&& v.at(lease.service).component matches Some(component) && {
                let ports = component.ports@;
                &&& (output.index as int) < ports.len()
                &&& ports[output.index as int].name@ == port
                &&& ports[output.index as int].direction == PortDirection::Output
            }
        },
{
    match v.at(lease.service).component {
        Some(component) => {
            let ports = components::port_views(component.ports@);
            components::a_port_is_found_where_it_is_first(ports, port, PortDirection::Input);
            components::a_port_is_found_where_it_is_first(ports, port, PortDirection::Output);
        },
        None => {},
    }
}

/// Ports are declared well if there are at most 64, each with a name of its own,
/// no two inputs take the same, and every schema is known.
pub proof fn ports_are_told_apart(ports: Seq<PortView>, schemas: RegistryView)
    requires
        links::ports_fault(ports, schemas) is None,
    ensures
        ports.len() <= 64,
        forall|i: int|
            0 <= i < ports.len() ==> 1 <= crate::text::utf8((#[trigger] ports[i]).name).len() <= 128
                && (ports[i].schema matches PayloadType::Structured(id) ==> schemas.has(id)),
        forall|i: int, j: int|
            0 <= i < j < ports.len() ==> (#[trigger] ports[i]).name != (#[trigger] ports[j]).name
                && !(ports[i].direction == PortDirection::Input && ports[j].direction
                == PortDirection::Input && ports[i].schema == ports[j].schema),
{
    lemma_no_port_fault(ports, ports.len(), schemas);
    assert forall|i: int, j: int| 0 <= i < j < ports.len() implies (#[trigger] ports[i]).name != (
    #[trigger] ports[j]).name && !(ports[i].direction == PortDirection::Input && ports[j].direction
        == PortDirection::Input && ports[i].schema == ports[j].schema) by {
        assert(links::port_fault(ports, j, schemas) is None);
    }
    assert forall|i: int| 0 <= i < ports.len() implies 1 <= crate::text::utf8(
        (#[trigger] ports[i]).name,
    ).len() <= 128 && (ports[i].schema matches PayloadType::Structured(id) ==> schemas.has(id)) by {
        assert(links::port_fault(ports, i, schemas) is None);
    }
}

proof fn lemma_no_port_fault(ports: Seq<PortView>, n: nat, schemas: RegistryView)
    requires
        links::first_port_fault(ports, n, schemas) is None,
    ensures
        forall|i: int|
            0 <= i < n ==> #[trigger] links::port_fault(ports, i, schemas) is None,
    decreases n,
{
    if n > 0 {
        lemma_no_port_fault(ports, (n - 1) as nat, schemas);
    }
}

/// Bringing the hints of a tree up to date changes nothing else.
proof fn lemma_only_hints(v: WorldView, r: ActorRef)
    ensures
        v.subtree_refreshed(r) == (WorldView {
            python_ready: v.subtree_refreshed(r).python_ready,
            ..v
        }),
    decreases v.juniors(r), 1nat, 0nat,
{
    if v.valid(r) {
        lemma_only_hints_below(v.refreshed(r), v.at(r).children, v.juniors(r));
    }
}

proof fn lemma_only_hints_below(v: WorldView, children: Seq<ActorRef>, limit: nat)
    ensures
        v.subtrees_refreshed(children, limit) == (WorldView {
            python_ready: v.subtrees_refreshed(children, limit).python_ready,
            ..v
        }),
    decreases limit, 0nat, children.len(),
{
    if children.len() > 0 {
        lemma_only_hints_below(v, children.drop_last(), limit);
        let m = v.subtrees_refreshed(children.drop_last(), limit);
        let c = children.last();
        if m.valid(c) && m.juniors(c) < limit {
            lemma_only_hints(m, c);
        }
    }
}

/// Whether the actors of two states are in the same place and state of life.
spec fn same_lives(v: WorldView, n: WorldView) -> bool {
    &&& n.id == v.id
    &&& n.actors.len() == v.actors.len()
    &&& forall|i: int|
        0 <= i < v.actors.len() ==> (#[trigger] n.actors[i]).state == v.actors[i].state
            && n.actors[i].reference == v.actors[i].reference
}

proof fn lemma_let_go(v: WorldView, shares: Seq<u64>, ids: Seq<u64>)
    ensures
        v.releasing_all(shares).actors == v.actors,
        v.releasing_all(shares).id == v.id,
        v.enqueued_all(ids).actors == v.actors,
        v.enqueued_all(ids).id == v.id,
    decreases shares.len() + ids.len(),
{
    if shares.len() > 0 {
        lemma_let_go(v, shares.drop_last(), Seq::empty());
    }
    if ids.len() > 0 {
        lemma_let_go(v, Seq::empty(), ids.drop_last());
    }
}

proof fn lemma_unstaged_lives(v: WorldView, refs: Seq<ActorRef>)
    ensures
        same_lives(v, v.unstaged_all(refs)),
    decreases refs.len(),
{
    if refs.len() > 0 {
        lemma_unstaged_lives(v, refs.drop_last());
        let m = v.unstaged_all(refs.drop_last());
        let r = refs.last();
        if m.valid(r) {
            let staged = m.at(r).staged;
            let shares = expiring::staged_shares(staged);
            let p = m.put(r, ActorView { staged: Seq::empty(), ..m.at(r) });
            lemma_let_go(p, shares, Seq::empty());
            lemma_let_go(p.releasing_all(shares), Seq::empty(), expiring::staged_publications(staged));
        }
    }
}

/// An actor that is activated is active from then on; no other actor changes its
/// state of life by that.
pub proof fn an_activated_actor_is_active(v: WorldView, now: Instant, r: ActorRef, x: ActorRef)
    requires
        v.refuses_start(r) is None,
    ensures
        v.started_up(now, r).valid(r),
        v.started_up(now, r).at(r).state == Lifecycle::Active,
        v.valid(x) && x != r ==> v.started_up(now, r).valid(x) && v.started_up(now, r).at(x).state
            == v.at(x).state,
{
    let p = v.put(r, ActorView { state: Lifecycle::Active, ..v.at(r) });
    lemma_only_hints(p, r);
    let q = p.subtree_refreshed(r);
    super::turning::lemma_subtree_marked(q, r);
    let m = q.subtree_marked(r);
    super::upkeep::lemma_late_owners(m, now);
    super::laws::lemma_purged_all(m, now, now, ordered::sorted(m.overdue(now)));
    let e = m.events_expired(now, now);
    lemma_unstaged_lives(e, e.active_only(e.staging()));
    let n = v.started_up(now, r);
    assert(m.valid(r));
    assert(e.at(r).state == Lifecycle::Active);
    if v.valid(x) && x != r {
        assert(x.slot != r.slot);
        assert(m.valid(x));
        assert(e.at(x).state == v.at(x).state);
    }
}

/// Whether nothing of an actor is left to do on the native side.
pub open spec fn at_rest(a: ActorView) -> bool {
    &&& a.queue.len() == 0
    &&& a.staged.len() == 0
    &&& !a.in_flight
    &&& !a.control_in_flight
    &&& a.native_tasks == 0
    &&& a.notification is None
}

/// Whether a report has found nothing left of the actors that it counted.
spec fn found_nothing(report: StopReport) -> bool {
    &&& report.queued == 0
    &&& report.delivery_in_flight == 0
    &&& report.control_in_flight == 0
    &&& report.native_tasks == 0
    &&& report.pending_notifications == 0
}

proof fn lemma_one_more_counted(report: StopReport, a: ActorView)
    ensures
        found_nothing(reports::with_actor(report, a)) <==> found_nothing(report) && at_rest(a),
        reports::with_actor(report, a).python_pending == 0 <==> report.python_pending == 0
            && a.python_done,
{
}

proof fn lemma_slots_counted(v: WorldView, n: nat)
    requires
        n <= v.actors.len(),
    ensures
        found_nothing(v.counted_slots(n)) <==> forall|i: int|
            0 <= i < n ==> at_rest(#[trigger] v.actors[i]),
        v.counted_slots(n).python_pending == 0 <==> forall|i: int|
            0 <= i < n ==> (#[trigger] v.actors[i]).python_done,
    decreases n,
{
    if n > 0 {
        lemma_slots_counted(v, (n - 1) as nat);
        lemma_one_more_counted(v.counted_slots((n - 1) as nat), v.actors[n - 1]);
    }
}

proof fn lemma_list_counted(v: WorldView, list: Seq<ActorRef>)
    ensures
        found_nothing(v.counted(list)) <==> forall|i: int|
            0 <= i < list.len() ==> at_rest(v.at(#[trigger] list[i])),
        v.counted(list).python_pending == 0 <==> forall|i: int|
            0 <= i < list.len() ==> v.at(#[trigger] list[i]).python_done,
    decreases list.len(),
{
    if list.len() > 0 {
        let rest = list.drop_last();
        lemma_list_counted(v, rest);
        lemma_one_more_counted(v.counted(rest), v.at(list.last()));
        assert forall|i: int| 0 <= i < rest.len() implies #[trigger] list[i] == rest[i] by {}
        if found_nothing(v.counted(list)) {
            assert forall|i: int| 0 <= i < list.len() implies at_rest(v.at(#[trigger] list[i])) by {
                if i < rest.len() {
                    assert(at_rest(v.at(rest[i])));
                }
            }
        }
        if v.counted(list).python_pending == 0 {
            assert forall|i: int| 0 <= i < list.len() implies v.at(#[trigger] list[i]).python_done by {
                if i < rest.len() {
                    assert(v.at(rest[i]).python_done);
                }
            }
        }
        if forall|i: int| 0 <= i < list.len() ==> at_rest(v.at(#[trigger] list[i])) {
            assert forall|i: int| 0 <= i < rest.len() implies at_rest(v.at(#[trigger] rest[i])) by {
                assert(at_rest(v.at(list[i])));
            }
            assert(at_rest(v.at(list[list.len() - 1])));
        }
        if forall|i: int| 0 <= i < list.len() ==> v.at(#[trigger] list[i]).python_done {
            assert forall|i: int| 0 <= i < rest.len() implies v.at(#[trigger] rest[i]).python_done by {
                assert(v.at(list[i]).python_done);
            }
            assert(v.at(list[list.len() - 1]).python_done);
        }
    }
}

/// A World is done on the native side exactly if every actor is at rest and no
/// operation and no publication waits, and on the Python side exactly if every
/// actor is.
pub proof fn a_world_is_done_when_every_actor_is(v: WorldView)
    requires
        v.ops.pending_ids().len() <= usize::MAX,
        v.pubs.entries.dom().len() <= usize::MAX,
    ensures
        v.world_report().native_done <==> {
            &&& forall|i: int| 0 <= i < v.actors.len() ==> at_rest(#[trigger] v.actors[i])
            &&& v.ops.pending_ids().len() == 0
            &&& v.pubs.entries.dom().len() == 0
        },
        v.world_report().python_done <==> forall|i: int|
            0 <= i < v.actors.len() ==> (#[trigger] v.actors[i]).python_done,
        v.world_report().outstanding_operations == v.ops.pending_ids().len(),
        v.world_report().outstanding_publications == v.pubs.entries.dom().len(),
{
    lemma_slots_counted(v, v.actors.len());
}

/// The same holds of a scope, whose actors are those that are listed.
pub proof fn a_scope_is_done_when_its_actors_are(v: WorldView, list: Seq<ActorRef>)
    requires
        v.ops.scope_counts(list.to_set()).0 <= usize::MAX,
        v.pubs.scope_counts(list.to_set()).0 <= usize::MAX,
    ensures
        v.summary(list).native_done <==> {
            &&& forall|i: int| 0 <= i < list.len() ==> at_rest(v.at(#[trigger] list[i]))
            &&& v.ops.scope_counts(list.to_set()).0 == 0
            &&& v.pubs.scope_counts(list.to_set()).0 == 0
        },
        v.summary(list).python_done <==> forall|i: int|
            0 <= i < list.len() ==> v.at(#[trigger] list[i]).python_done,
{
    lemma_list_counted(v, list);
}

/// Whether a list of actors holds the children of each of them.
pub open spec fn with_children(v: WorldView, list: Seq<ActorRef>) -> bool {
    forall|x: ActorRef, k: int|
        #![trigger list.contains(x), v.at(x).children[k]]
        list.contains(x) && 0 <= k < v.at(x).children.len() ==> list.contains(
            v.at(x).children[k],
        )
}

/// The report of an actor covers it and all that it owns, directly or not.
pub proof fn a_report_covers_the_tree(v: WorldView, r: ActorRef)
    ensures
        v.tree(r) matches Ok(list) ==> list.contains(r) && with_children(v, list)
            && v.report(r) == Ok::<StopReport, Error>(v.summary(list)),
    decreases v.juniors(r), 1nat, 0nat,
{
    if v.valid(r) {
        lemma_trees_cover(v, v.at(r).children, v.juniors(r));
        match v.trees(v.at(r).children, v.juniors(r)) {
            Ok(below) => {
                let list = seq![r] + below;
                assert(list[0] == r);
                assert forall|x: ActorRef| #[trigger] below.contains(x) implies list.contains(x) by {
                    let i = below.index_of(x);
                    assert(list[i + 1] == x);
                }
                assert forall|x: ActorRef, k: int|
                    #![trigger list.contains(x), v.at(x).children[k]]
                    list.contains(x) && 0 <= k < v.at(x).children.len() implies list.contains(
                    v.at(x).children[k],
                ) by {
                    if x == r {
                        assert(below.contains(v.at(r).children[k]));
                    } else {
                        let i = list.index_of(x);
                        assert(below[i - 1] == x);
                        assert(below.contains(x));
                        assert(below.contains(v.at(x).children[k]));
                    }
                }
            },
            Err(_) => {},
        }
    }
}

proof fn lemma_trees_cover(v: WorldView, children: Seq<ActorRef>, limit: nat)
    ensures
        v.trees(children, limit) matches Ok(list) ==> with_children(v, list) && forall|k: int|
            0 <= k < children.len() ==> list.contains(#[trigger] children[k]),
    decreases limit, 0nat, children.len(),
{
    if children.len() > 0 {
        let c = children.last();
        if v.valid(c) && v.juniors(c) < limit {
            a_report_covers_the_tree(v, c);
            lemma_trees_cover(v, children.drop_last(), limit);
            if v.tree(c) is Ok && v.trees(children.drop_last(), limit) is Ok {
                let first = v.tree(c)->Ok_0;
                let rest = v.trees(children.drop_last(), limit)->Ok_0;
                lemma_covers_both(v, first, rest);
                assert forall|k: int| 0 <= k < children.len() implies (first + rest).contains(
                    #[trigger] children[k],
                ) by {
                    if k < children.len() - 1 {
                        assert(children.drop_last()[k] == children[k]);
                    }
                }
            }
        }
    }
}

proof fn lemma_covers_both(v: WorldView, a: Seq<ActorRef>, b: Seq<ActorRef>)
    requires
        with_children(v, a),
        with_children(v, b),
    ensures
        with_children(v, a + b),
        forall|x: ActorRef| #[trigger] (a + b).contains(x) <==> a.contains(x) || b.contains(x),
{
    let both = a + b;
    assert forall|x: ActorRef| #[trigger] both.contains(x) <==> a.contains(x) || b.contains(x) by {
        if a.contains(x) {
            let i = a.index_of(x);
            assert(both[i] == x);
        }
        if b.contains(x) {
            let i = b.index_of(x);
            assert(both[a.len() + i] == x);
        }
        if both.contains(x) {
            let i = both.index_of(x);
            if i < a.len() {
                assert(a[i] == x);
            } else {
                assert(b[i - a.len()] == x);
            }
        }
    }
}

/// A tree is drained exactly if nothing is left of its root, nobody waits for it,
/// and those that it owns are drained.
pub proof fn a_tree_is_drained_from_below(v: WorldView, r: ActorRef, k: int)
    requires
        v.valid(r),
        v.drained(r),
    ensures
        at_rest(v.at(r)),
        v.pubs.of_source(r).len() == 0,
        v.ops.pending_by(r).len() == 0,
        v.ops.targeted(r).len() == 0,
        0 <= k < v.at(r).children.len() && v.valid(v.at(r).children[k]) && v.juniors(
            v.at(r).children[k],
        ) < v.juniors(r) ==> v.drained(v.at(r).children[k]),
{
    if 0 <= k < v.at(r).children.len() && v.valid(v.at(r).children[k]) && v.juniors(
        v.at(r).children[k],
    ) < v.juniors(r) {
        lemma_each_drained(v, v.at(r).children, v.juniors(r), k);
    }
}

proof fn lemma_each_drained(v: WorldView, children: Seq<ActorRef>, limit: nat, k: int)
    requires
        v.all_drained(children, limit),
        0 <= k < children.len(),
        v.valid(children[k]),
        v.juniors(children[k]) < limit,
    ensures
        v.drained(children[k]),
    decreases children.len(),
{
    if k < children.len() - 1 {
        lemma_each_drained(v, children.drop_last(), limit, k);
    }
}

/// A drain goes on as long as there is work left and time for it; then its root
/// is stopped.
pub proof fn a_drain_goes_on_until_it_is_over(
    world: World,
    now: Instant,
    at: Instant,
    root: ActorRef,
)
    requires
        world.inv(),
        world@.valid(root),
        world@.drain_roots.dom().contains(root.slot),
        world@.drain_roots[root.slot] == root,
    ensures
        ({
            let v = world@;
            let n = v.drain_checked(now, at, root);
            let late = v.at(root).drain_deadline matches Some(end) && end.nanos <= now.nanos;
            &&& !late && !v.drained(root) ==> n == v
            &&& late || v.drained(root) ==> !n.drain_roots.dom().contains(root.slot)
        }),
{
    world.lemma_orderly();
    super::upkeep::lemma_drain_checked(world@, now, at, root);
}

/// A port is found under its name where it is declared first.
pub proof fn a_name_leads_to_its_first_port(ports: Seq<components::PortSpec>, name: Seq<char>)
    ensures
        links::port_named(ports, name) matches Some(at) ==> {
            &&& 0 <= at < ports.len()
            &&& ports[at].name@ == name
            &&& forall|i: int| 0 <= i < at ==> (#[trigger] ports[i]).name@ != name
        },
        links::port_named(ports, name) is None ==> forall|i: int|
            0 <= i < ports.len() ==> (#[trigger] ports[i]).name@ != name,
    decreases ports.len(),
{
    if ports.len() > 0 && ports[0].name@ != name {
        let rest = ports.drop_first();
        a_name_leads_to_its_first_port(rest, name);
        assert forall|i: int| 0 < i < ports.len() implies #[trigger] ports[i] == rest[i - 1] by {}
    }
}

/// Links are shown as they were made, each between the ports that it joins.
pub proof fn a_link_is_shown_as_it_is(routes: Map<u64, routing::Sub>, ids: Seq<u64>, k: int)
    requires
        0 <= k < links::links_of(routes, ids).len(),
    ensures
        ({
            let shown = links::links_of(routes, ids)[k];
            let route = routes[shown.id];
            &&& ids.contains(shown.id)
            &&& shown.owner == route.owner
            &&& shown.source.owner == route.source
            &&& Some(shown.source.index) == route.source_port
            &&& shown.target.owner == route.target
            &&& Some(shown.target.index) == route.target_port
        }),
    decreases ids.len(),
{
    if ids.len() > 0 {
        let rest = links::links_of(routes, ids.drop_last());
        if k < rest.len() {
            a_link_is_shown_as_it_is(routes, ids.drop_last(), k);
            let i = ids.drop_last().index_of(rest[k].id);
            assert(ids[i] == rest[k].id);
        } else {
            assert(ids[ids.len() - 1] == ids.last());
        }
    }
}

/// Every link is shown.
pub proof fn no_link_is_left_out(routes: Map<u64, routing::Sub>, ids: Seq<u64>, i: int)
    requires
        0 <= i < ids.len(),
        routes[ids[i]].source_port is Some,
        routes[ids[i]].target_port is Some,
    ensures
        exists|k: int|
            0 <= k < links::links_of(routes, ids).len() && (#[trigger] links::links_of(
                routes,
                ids,
            )[k]).id == ids[i],
    decreases ids.len(),
{
    let all = links::links_of(routes, ids);
    let rest = links::links_of(routes, ids.drop_last());
    if i == ids.len() - 1 {
        assert(all[all.len() - 1].id == ids[i]);
    } else {
        no_link_is_left_out(routes, ids.drop_last(), i);
        let k = choose|k: int| 0 <= k < rest.len() && (#[trigger] rest[k]).id == ids[i];
        assert(all[k] == rest[k]);
    }
}

/// A reference that leads nowhere is of another World, or stale.
pub proof fn a_reference_leads_nowhere_for_a_reason(v: WorldView, r: ActorRef)
    requires
        !v.valid(r),
    ensures
        r.world != v.id ==> v.stale(r) == Error::CrossWorld,
        r.world == v.id ==> v.stale(r) == Error::StaleReference && ((r.slot as int)
            >= v.actors.len() || v.actors[r.slot as int].reference.generation != r.generation),
{
}

/// An actor is below another exactly if that one is it or among those that own
/// it, directly or not.
pub proof fn an_actor_is_below_its_owners(
    v: WorldView,
    r: ActorRef,
    owner: ActorRef,
    unowned: Error,
)
    requires
        v.valid(owner),
    ensures
        v.below(r, owner, unowned) is None <==> r == owner || v.lineage(r).contains(owner),
    decreases v.order(r),
{
    if r != owner && v.valid(r) {
        let line = v.lineage(r);
        assert(line[0] == r);
        match v.at(r).parent {
            Some(p) => {
                if v.order(p) < v.order(r) {
                    an_actor_is_below_its_owners(v, p, owner, unowned);
                    let rest = v.lineage(p);
                    assert(line =~= seq![r] + rest);
                    if v.valid(p) {
                        assert(rest[0] == p);
                    }
                    if rest.contains(owner) {
                        let i = rest.index_of(owner);
                        assert(line[i + 1] == owner);
                    }
                    if line.contains(owner) {
                        let i = line.index_of(owner);
                        assert(rest[i - 1] == owner);
                    }
                } else {
                    assert(line =~= seq![r]);
                }
            },
            None => {
                assert(line =~= seq![r]);
            },
        }
    }
}

/// A World that begins with other numbers is new in everything else.
pub proof fn only_the_numbers_begin_elsewhere(
    id: u64,
    cfg: Config,
    clock: Clock,
    epoch: Instant,
    numbering: super::Numbering,
)
    ensures
        ({
            let v = super::numbered_world(id, cfg, clock, epoch, numbering);
            let fresh = super::fresh_world(id, cfg, clock, epoch);
            &&& v.next_ready_order == numbering.ready_order
            &&& v.pubs.next_id == numbering.publication
            &&& v == (WorldView { next_ready_order: v.next_ready_order, pubs: v.pubs, ..fresh })
            &&& v.pubs.entries == fresh.pubs.entries
            &&& v.pubs.tickets == fresh.pubs.tickets
            &&& v.pubs.limit == fresh.pubs.limit
            &&& v.pubs.per_source == fresh.pubs.per_source
        }),
{
}

} // verus!
