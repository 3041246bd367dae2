//! What becomes of actors: how they begin and run, how they fail and who is
//! told, how they drain.
use vstd::prelude::*;
use super::endings;
use super::messages;
use super::{ActorView, World, WorldView};
use crate::clock::Instant;
use crate::diagnostics::DiagnosticCode;
use crate::failures::{FailureAction, FailureDetails, FailurePhase, FailureRecord};
use crate::operations::OperationId;
use crate::types::{ActorRef, EndpointKind, Error, Lifecycle, Metrics};
use std::sync::Arc;

verus! {

/// Whether a World has room for one more actor below an owner.
pub open spec fn may_allocate(v: WorldView, parent: Option<ActorRef>) -> bool {
    &&& !v.closed
    &&& v.actors.len() - v.free.len() < v.cfg.max_actors
    &&& v.next_ready_order < u64::MAX
    &&& v.free.len() > 0 ==> v.actors[v.free.last() as int].reference.generation < u64::MAX
    &&& parent matches Some(p) ==> {
        &&& v.valid(p)
        &&& v.at(p).state == Lifecycle::Starting || v.at(p).state == Lifecycle::Active
        &&& v.lineage(p).len() <= 128
    }
}

proof fn lemma_depth(v: WorldView, r: ActorRef, depth: nat)
    requires
        v.sound(),
        v.kin(),
        v.valid(r),
        v.at(r).state != Lifecycle::Stopped,
        depth <= 128,
    ensures
        v.depth_fault(r, depth) is None <==> depth + v.lineage(r).len() <= 129,
        v.depth_fault(r, depth) matches Some(e) ==> e == Error::LimitExceeded,
        v.lineage(r).len() >= 1,
    decreases v.order(r),
{
    reveal(WorldView::kin);
    super::lemma_placed(v, r.slot as int);
    let a = v.actors[r.slot as int];
    match a.parent {
        Some(p) => {
            assert(v.owning(p, a.reference));
            if depth + 1 <= 128 {
                lemma_depth(v, p, depth + 1);
            } else {
                lemma_depth(v, p, 0);
            }
        },
        None => {},
    }
}

/// An actor is made exactly if there is room for it; a refusal says what is in
/// the way.
pub proof fn an_actor_is_made_exactly_if_there_is_room(world: World, parent: Option<ActorRef>)
    requires
        world.inv(),
    ensures
        ({
            let v = world@;
            &&& v.refuses_allocation(parent) is None <==> may_allocate(v, parent)
            &&& v.refuses_allocation(parent) matches Some(e) ==> {
                ||| e == Error::ActorStopped && (v.closed || (parent matches Some(p) && v.valid(p)
                    && v.at(p).state != Lifecycle::Starting && v.at(p).state != Lifecycle::Active))
                ||| e == Error::CrossWorld && (parent matches Some(p) && p.world != v.id)
                ||| e == Error::StaleReference && (parent matches Some(p) && p.world == v.id
                    && !v.valid(p))
                ||| e == Error::LimitExceeded && !v.closed
            }
        }),
{
    world.lemma_sound();
    world.lemma_kin();
    let v = world@;
    match parent {
        Some(p) => {
            if v.valid(p) && super::is_open(v.at(p).state) {
                lemma_depth(v, p, 1);
            }
        },
        None => {},
    }
}

/// A new actor starts with nothing: no entries, no children, no work. It is the
/// youngest child of its owner; the others stay as they are.
pub proof fn a_new_actor_starts_with_nothing(
    world: World,
    kind: EndpointKind,
    parent: Option<ActorRef>,
)
    requires
        world.inv(),
        world@.refuses_allocation(parent) is None,
    ensures
        ({
            let v = world@;
            let r = v.next_ref();
            let n = v.allocated(kind, parent);
            let a = n.at(r);
            &&& n.valid(r)
            &&& !v.valid(r)
            &&& a.reference == r
            &&& a.kind == kind
            &&& a.parent == parent
            &&& a.state == Lifecycle::Starting
            &&& a.children.len() == 0
            &&& a.queue.len() == 0
            &&& a.staged.len() == 0
            &&& !a.in_flight
            &&& !a.control_in_flight
            &&& a.notification is None
            &&& a.pending_failures == 0
            &&& a.native_tasks == 0
            &&& a.python_done <==> kind == EndpointKind::Native
            &&& a.drain_root is None
            &&& a.drain_deadline is None
            &&& !a.drain_timed_out
            &&& a.errors == 0
            &&& a.last_error is None
            &&& a.component is None
            &&& parent matches Some(p) ==> p.slot != r.slot && n.at(p).children == v.at(
                p,
            ).children.push(r) && n.at(p)
                == (ActorView { children: n.at(p).children, ..v.at(p) })
            &&& forall|x: ActorRef|
                #![trigger n.at(x)]
                v.valid(x) && x.slot != r.slot && Some(x) != parent ==> n.at(x) == v.at(x)
            &&& n.metrics == v.metrics
            &&& n.subs == v.subs
            &&& n.ops == v.ops
            &&& n.pubs == v.pubs
        }),
{
    world.lemma_sound();
    let v = world@;
    let r = v.next_ref();
    super::actors::lemma_seat(v, kind, parent);
    match parent {
        Some(p) => {
            let n = v.allocated(kind, parent);
            assert forall|x: ActorRef|
                #![trigger n.at(x)]
                v.valid(x) && x.slot != r.slot && Some(x) != parent implies n.at(x) == v.at(x) by {
                assert(x.slot != p.slot);
            }
        },
        None => {},
    }
}

/// A task that an actor is charged with counts for it until it is over.
pub proof fn a_task_counts_until_it_is_over(v: WorldView, r: ActorRef)
    requires
        v.refuses_task(r) is None,
        v.ops.slots.len() == v.ops.generations.len(),
    ensures
        v.valid(r),
        v.at(r).state == Lifecycle::Starting || v.at(r).state == Lifecycle::Active,
        v.with_task(r).valid(r),
        v.with_task(r).at(r).native_tasks == v.at(r).native_tasks + 1,
        v.with_task(r).at(r).state == v.at(r).state,
        v.with_task(r).task_ended(r).valid(r),
        v.with_task(r).task_ended(r).at(r).native_tasks == v.at(r).native_tasks,
        v.with_task(r).task_ended(r).metrics == v.metrics,
{
    reveal(messages::settled_only);
    let n = v.with_task(r);
    let m = n.put(
        r,
        ActorView { native_tasks: (n.at(r).native_tasks - 1) as usize, ..n.at(r) },
    );
    messages::lemma_finalized_settles(m, r);
}

/// An actor takes tasks exactly while it starts or runs.
pub proof fn tasks_are_for_actors_that_start_or_run(v: WorldView, r: ActorRef)
    ensures
        v.refuses_task(r) is None <==> v.valid(r) && (v.at(r).state == Lifecycle::Starting || v.at(
            r,
        ).state == Lifecycle::Active) && v.at(r).native_tasks < usize::MAX,
        v.valid(r) && v.at(r).state != Lifecycle::Starting && v.at(r).state != Lifecycle::Active
            ==> v.refuses_task(r) == Some(Error::ActorStopped),
{
}

/// A callback of a native actor keeps everything else of it waiting until it is
/// over.
pub proof fn a_callback_keeps_its_actor(v: WorldView, r: ActorRef, expected: Lifecycle)
    requires
        v.valid(r),
        v.ops.slots.len() == v.ops.generations.len(),
    ensures
        v.hook_ready(r, expected) <==> {
            &&& v.at(r).kind == EndpointKind::Native
            &&& v.execution(r) == Ok::<Lifecycle, Error>(expected)
            &&& expected == Lifecycle::Starting ==> v.at(r).state == Lifecycle::Starting
            &&& !v.at(r).in_flight
            &&& !v.at(r).control_in_flight
            &&& v.at(r).notification is None
        },
        v.hooked(r).valid(r),
        v.hooked(r).at(r).control_in_flight,
        !v.hooked(r).claimable(r),
        v.hooked(r).metrics == v.metrics,
        !v.hooked(r).control_freed(r).finalized(r).at(r).control_in_flight,
{
    reveal(messages::settled_only);
    messages::lemma_finalized_settles(v.hooked(r).control_freed(r), r);
}

/// A Python actor that is done stays so and is settled if nothing holds it.
pub proof fn a_python_actor_that_is_done_stays_so(v: WorldView, r: ActorRef)
    requires
        v.valid(r),
        v.ops.slots.len() == v.ops.generations.len(),
    ensures
        v.python_finished(r).valid(r),
        v.python_finished(r).at(r).python_done,
        v.at(r).state != Lifecycle::Stopping ==> v.python_finished(r).at(r).state == v.at(r).state,
        v.python_finished(r).metrics == v.metrics,
{
    reveal(messages::settled_only);
    let m = v.put(r, ActorView { python_done: true, ..v.at(r) });
    messages::lemma_finalized_settles(m, r);
}

/// Whether the owner of an actor learns of its failures: it has one that has
/// not ended, and the failure is not one of supervision.
pub open spec fn owner_learns(v: WorldView, r: ActorRef, phase: FailurePhase) -> bool {
    &&& phase != FailurePhase::Supervisor
    &&& v.at(r).parent matches Some(p) && v.valid(p) && v.at(p).state != Lifecycle::Stopping
        && v.at(p).state != Lifecycle::Stopped
}

/// Which code stands for a failure of a phase.
pub open spec fn code_for(code: DiagnosticCode, phase: FailurePhase) -> bool {
    match phase {
        FailurePhase::Construction => code == DiagnosticCode::StartupFailed,
        FailurePhase::Configure => code == DiagnosticCode::StartupFailed,
        FailurePhase::Start => code == DiagnosticCode::StartupFailed,
        FailurePhase::Handler => code == DiagnosticCode::HandlerFailed,
        FailurePhase::Stop => code == DiagnosticCode::CleanupFailed,
        FailurePhase::Supervisor => code == DiagnosticCode::SupervisorFailed,
    }
}

/// What a failure leads to, once it is recorded and kept.
proof fn lemma_failing(
    v: WorldView,
    now: Instant,
    r: ActorRef,
    event_id: Option<u64>,
    schema: Option<u32>,
    details: FailureDetails,
    action: FailureAction,
)
    requires
        v.refuses_failure(r, None) is None,
    ensures
        ({
            let record = v.failure_record(now, r, event_id, schema, None, details, action);
            let told = v.tells_owner(r, details.failed_in());
            let k = v.failure_counted(now, record).failure_kept(r, record, told);
            let (m, end) = k.marked(r).acted(now, r, action);
            let (n, result) = v.failing(now, r, event_id, schema, None, details, action);
            &&& result is Ok <==> end is Ok
            &&& result is Ok ==> result == Ok::<Arc<FailureRecord>, Error>(record)
            &&& n == (WorldView { python_ready: n.python_ready, ..m })
        }),
{
}

/// Recording a failure appends it to the history under the code of its phase.
proof fn lemma_failure_counted(v: WorldView, now: Instant, record: Arc<FailureRecord>)
    requires
        v.next_failure < u64::MAX,
    ensures
        ({
            let n = v.failure_counted(now, record);
            &&& n == (WorldView {
                next_failure: n.next_failure,
                metrics: n.metrics,
                history: n.history,
                last_error: n.last_error,
                ..v
            })
            &&& n.next_failure == v.next_failure + 1
            &&& n.last_error == Some(record)
            &&& n.metrics == (Metrics { failures: n.metrics.failures, ..v.metrics })
            &&& v.metrics.failures < u64::MAX ==> n.metrics.failures == v.metrics.failures + 1
            &&& v.history.capacity > 0 && !v.history.exhausted ==> {
                let entry = n.history.entries.last();
                &&& code_for(entry.code, record.details.failed_in())
                &&& entry.actor == Some(record.actor)
                &&& entry.failure == Some(record)
                &&& entry.event_id == record.event_id
                &&& entry.sequence == v.history.next
            }
        }),
{
}

/// An actor keeps its last failure, and for its owner the first that waits.
proof fn lemma_failure_kept(v: WorldView, r: ActorRef, record: Arc<FailureRecord>, told: bool)
    requires
        v.valid(r),
        told ==> v.at(r).parent is Some && v.valid(v.at(r).parent->0) && v.at(r).parent->0.slot
            != r.slot,
    ensures
        ({
            let n = v.failure_kept(r, record, told);
            &&& n == (WorldView { actors: n.actors, metrics: n.metrics, ..v })
            &&& n.metrics == (Metrics {
                notifications_coalesced: n.metrics.notifications_coalesced,
                ..v.metrics
            })
            &&& n.actors.len() == v.actors.len()
            &&& forall|i: int|
                0 <= i < v.actors.len() ==> {
                    &&& (#[trigger] n.actors[i]).reference == v.actors[i].reference
                    &&& n.actors[i].ready_order == v.actors[i].ready_order
                    &&& n.actors[i].children == v.actors[i].children
                    &&& n.actors[i].state == v.actors[i].state
                    &&& n.actors[i].queue == v.actors[i].queue
                    &&& n.actors[i].parent == v.actors[i].parent
                }
            &&& n.at(r).last_error == Some(record)
            &&& n.at(r).reported_failure == record.event_id
            &&& v.at(r).errors < u64::MAX ==> n.at(r).errors == v.at(r).errors + 1
            &&& !told ==> n.at(r).notification == v.at(r).notification
            &&& told ==> match v.at(r).notification {
                None => {
                    let p = v.at(r).parent->0;
                    &&& n.at(r).notification matches Some(kept) && kept.failure == record
                        && kept.coalesced == 0
                    &&& v.at(p).pending_failures < usize::MAX ==> n.at(p).pending_failures == v.at(
                        p,
                    ).pending_failures + 1
                    &&& n.metrics == v.metrics
                },
                Some(waiting) => {
                    &&& n.at(r).notification matches Some(kept) && kept.failure == waiting.failure
                        && (waiting.coalesced < u64::MAX ==> kept.coalesced == waiting.coalesced
                        + 1)
                    &&& v.metrics.notifications_coalesced < u64::MAX
                        ==> n.metrics.notifications_coalesced == v.metrics.notifications_coalesced
                        + 1
                },
            }
        }),
{
}

/// A failure that stops nothing is recorded with its actor, counted, and kept
/// for the owner if that learns of it: the first one waits, later ones are
/// counted with it.
pub proof fn a_failure_is_recorded_and_told(
    world: World,
    now: Instant,
    r: ActorRef,
    event_id: Option<u64>,
    schema: Option<u32>,
    details: FailureDetails,
)
    requires
        world.inv(),
        world@.valid(r),
        world@.at(r).state != Lifecycle::Stopped,
        world@.next_failure < u64::MAX,
    ensures
        ({
            let v = world@;
            let (n, result) = v.failing(
                now,
                r,
                event_id,
                schema,
                None,
                details,
                FailureAction::Continue,
            );
            let phase = details.failed_in();
            let record = result->Ok_0;
            &&& result is Ok
            &&& record.sequence == v.next_failure
            &&& record.actor == r
            &&& record.event_id == event_id
            &&& record.schema == schema
            &&& record.operation is None
            &&& record.details == details
            &&& record.action == FailureAction::Continue
            &&& n.next_failure == v.next_failure + 1
            &&& n.last_error == Some(record)
            &&& v.metrics.failures < u64::MAX ==> n.metrics.failures == v.metrics.failures + 1
            &&& n.metrics == (Metrics {
                failures: n.metrics.failures,
                notifications_coalesced: n.metrics.notifications_coalesced,
                ..v.metrics
            })
            &&& n.at(r).state == v.at(r).state
            &&& n.at(r).queue == v.at(r).queue
            &&& n.at(r).last_error == Some(record)
            &&& n.at(r).reported_failure == event_id
            &&& v.at(r).errors < u64::MAX ==> n.at(r).errors == v.at(r).errors + 1
            &&& v.history.capacity > 0 && !v.history.exhausted ==> {
                let entry = n.history.entries.last();
                &&& code_for(entry.code, phase)
                &&& entry.actor == Some(r)
                &&& entry.failure == Some(record)
                &&& entry.event_id == event_id
                &&& entry.sequence == v.history.next
            }
            &&& !owner_learns(v, r, phase) ==> n.at(r).notification == v.at(r).notification
            &&& owner_learns(v, r, phase) ==> match v.at(r).notification {
                None => {
                    let p = v.at(r).parent->0;
                    &&& n.at(r).notification matches Some(told) && told.failure == record
                        && told.coalesced == 0
                    &&& v.at(p).pending_failures < usize::MAX ==> n.at(p).pending_failures == v.at(
                        p,
                    ).pending_failures + 1
                    &&& n.metrics.notifications_coalesced == v.metrics.notifications_coalesced
                },
                Some(waiting) => {
                    &&& n.at(r).notification matches Some(told) && told.failure == waiting.failure
                        && (waiting.coalesced < u64::MAX ==> told.coalesced == waiting.coalesced
                        + 1)
                    &&& v.metrics.notifications_coalesced < u64::MAX
                        ==> n.metrics.notifications_coalesced == v.metrics.notifications_coalesced
                        + 1
                },
            }
        }),
{
    world.lemma_sound();
    let v = world@;
    super::lemma_placed(v, r.slot as int);
    let action = FailureAction::Continue;
    let record = v.failure_record(now, r, event_id, schema, None, details, action);
    let told = v.tells_owner(r, details.failed_in());
    lemma_failing(v, now, r, event_id, schema, details, action);
    lemma_failure_counted(v, now, record);
    lemma_failure_kept(v.failure_counted(now, record), r, record, told);
}

/// A failure that stops its actor leaves it stopping or stopped, and one that
/// stops the World closes it.
pub proof fn a_failure_stops_what_it_is_to_stop(
    world: World,
    now: Instant,
    r: ActorRef,
    event_id: Option<u64>,
    schema: Option<u32>,
    details: FailureDetails,
    action: FailureAction,
)
    requires
        world.inv(),
        world@.failing(now, r, event_id, schema, None, details, action).1 is Ok,
    ensures
        ({
            let n = world@.failing(now, r, event_id, schema, None, details, action).0;
            &&& action == FailureAction::StopActor ==> n.at(r).state == Lifecycle::Stopping || n.at(
                r,
            ).state == Lifecycle::Stopped
            &&& action == FailureAction::StopWorld ==> n.routing_closed
            &&& action == FailureAction::Continue ==> n.routing_closed == world@.routing_closed
                && n.at(r).state == world@.at(r).state
        }),
{
    world.lemma_sound();
    world.lemma_orderly();
    let v = world@;
    super::lemma_placed(v, r.slot as int);
    let record = v.failure_record(now, r, event_id, schema, None, details, action);
    let told = v.tells_owner(r, details.failed_in());
    lemma_failing(v, now, r, event_id, schema, details, action);
    lemma_failure_counted(v, now, record);
    let counted = v.failure_counted(now, record);
    lemma_failure_kept(counted, r, record, told);
    let m = counted.failure_kept(r, record, told).marked(r);
    lemma_still_orderly(v, m);
    endings::lemma_everyone(m);
    if action == FailureAction::StopActor {
        endings::lemma_fenced(m, now, r, Set::full());
    }
    if action == FailureAction::StopWorld {
        super::bystanders::only_a_close_ends_routing(m, now, now, r, now);
    }
}

/// Who owns whom goes by the slots, the order and the children of the actors.
proof fn lemma_still_orderly(v: WorldView, m: WorldView)
    requires
        endings::orderly(v),
        m.id == v.id,
        m.next_ready_order == v.next_ready_order,
        m.subs == v.subs,
        m.services == v.services,
        m.pubs == v.pubs,
        m.ops == v.ops,
        m.actors.len() == v.actors.len(),
        forall|i: int|
            0 <= i < v.actors.len() ==> (#[trigger] m.actors[i]).reference
                == v.actors[i].reference && m.actors[i].ready_order == v.actors[i].ready_order
                && m.actors[i].children == v.actors[i].children,
    ensures
        endings::orderly(m),
{
    reveal(endings::orderly);
    assert forall|x: ActorRef| #[trigger] m.valid(x) == v.valid(x) && m.order(x) == v.order(x) by {
        if (x.slot as int) < v.actors.len() {
            assert(m.actors[x.slot as int].reference == v.actors[x.slot as int].reference);
        }
    }
    assert forall|i: int, k: int|
        0 <= i < m.actors.len() && 0 <= k < m.actors[i].children.len() implies m.valid(
        #[trigger] m.actors[i].children[k],
    ) && m.order(m.actors[i].children[k]) > m.actors[i].ready_order by {
        assert(m.actors[i].children == v.actors[i].children);
        assert(v.valid(v.actors[i].children[k]));
    }
}

/// A failure is refused where its actor is gone or has stopped, and where the
/// operation is of another World.
pub proof fn a_failure_is_refused_where_its_actor_is_gone(
    v: WorldView,
    r: ActorRef,
    operation: Option<OperationId>,
)
    ensures
        operation is None ==> (v.refuses_failure(r, operation) is None <==> v.valid(r) && v.at(
            r,
        ).state != Lifecycle::Stopped && v.next_failure < u64::MAX),
        !v.valid(r) ==> v.refuses_failure(r, operation) == Some(
            if r.world != v.id {
                Error::CrossWorld
            } else {
                Error::StaleReference
            },
        ),
        v.valid(r) && v.at(r).state == Lifecycle::Stopped ==> v.refuses_failure(r, operation)
            == Some(Error::ActorStopped),
        v.valid(r) && v.at(r).state != Lifecycle::Stopped && (operation matches Some(id) && id.world
            != v.id) ==> v.refuses_failure(r, operation) == Some(Error::CrossWorld),
{
}

/// A supervisor that takes the failure of a child has it in hand: it waits no
/// longer, and nothing else runs meanwhile. Once the supervisor is done it is
/// free again.
pub proof fn a_supervisor_has_one_failure_in_hand(
    v: WorldView,
    supervisor: ActorRef,
    source: ActorRef,
)
    requires
        v.valid(supervisor),
        v.valid(source),
        supervisor.slot != source.slot,
        v.ops.slots.len() == v.ops.generations.len(),
    ensures
        ({
            let n = v.failure_claimed(supervisor, source);
            &&& n.valid(supervisor)
            &&& n.valid(source)
            &&& n.at(source).notification is None
            &&& n.at(supervisor).control_in_flight
            &&& v.at(supervisor).pending_failures > 0 ==> n.at(supervisor).pending_failures == v.at(
                supervisor,
            ).pending_failures - 1
            &&& n.metrics == (Metrics {
                notifications_delivered: n.metrics.notifications_delivered,
                ..v.metrics
            })
            &&& v.metrics.notifications_delivered < u64::MAX ==> n.metrics.notifications_delivered
                == v.metrics.notifications_delivered + 1
        }),
        ({
            let n = v.failure_abandoned(supervisor);
            &&& !n.at(supervisor).control_in_flight
            &&& n.metrics == (Metrics {
                notifications_discarded: n.metrics.notifications_discarded,
                ..v.metrics
            })
            &&& v.metrics.notifications_discarded < u64::MAX ==> n.metrics.notifications_discarded
                == v.metrics.notifications_discarded + 1
        }),
{
    reveal(messages::settled_only);
    let w = v.put(source, ActorView { notification: None, ..v.at(source) });
    let m = w.put(
        supervisor,
        ActorView {
            pending_failures: super::fence::less_one(w.at(supervisor).pending_failures),
            control_in_flight: true,
            ..w.at(supervisor)
        },
    ).marked(supervisor).refreshed(supervisor);
    let k = WorldView {
        metrics: (Metrics {
            notifications_delivered: crate::types::bumped(m.metrics.notifications_delivered),
            ..m.metrics
        }),
        ..m
    };
    messages::lemma_finalized_settles(k, source);
    let f = v.control_freed(supervisor);
    let g = WorldView {
        metrics: (Metrics {
            notifications_discarded: crate::types::bumped(f.metrics.notifications_discarded),
            ..f.metrics
        }),
        ..f
    };
    messages::lemma_finalized_settles(g, supervisor);
}

/// A supervisor that leaves a failure be is free again, and nothing is stopped.
pub proof fn a_supervisor_that_does_nothing_stops_nothing(
    v: WorldView,
    now: Instant,
    supervisor: ActorRef,
    actor: ActorRef,
    action: Option<FailureAction>,
)
    requires
        v.valid(supervisor),
        v.ops.slots.len() == v.ops.generations.len(),
        action is None || action == Some(FailureAction::Continue),
    ensures
        ({
            let (n, result) = v.failure_handled(now, supervisor, actor, action);
            &&& result is Ok
            &&& n.valid(supervisor)
            &&& !n.at(supervisor).control_in_flight
            &&& n.metrics == v.metrics
            &&& n.history == v.history
            &&& forall|i: int|
                0 <= i < v.actors.len() ==> (#[trigger] n.actors[i]).state == v.actors[i].state || (
                v.actors[i].state == Lifecycle::Stopping && n.actors[i].state
                    == Lifecycle::Stopped)
        }),
{
    reveal(messages::settled_only);
    messages::lemma_finalized_settles(v.control_freed(supervisor), supervisor);
}

/// Whether a drain changed only what is younger than an actor, or that actor.
#[verifier::opaque]
spec fn elders_kept(v: WorldView, n: WorldView, order: nat) -> bool {
    &&& n.same_roster(v)
    &&& n.pubs == v.pubs
    &&& n.metrics == v.metrics
    &&& n.closed == v.closed
    &&& forall|i: int|
        0 <= i < v.actors.len() && v.actors[i].ready_order < order ==> #[trigger] n.actors[i]
            == v.actors[i]
    &&& forall|i: int|
        0 <= i < v.actors.len() ==> {
            &&& (#[trigger] n.actors[i]).children == v.actors[i].children
            &&& n.actors[i].queue == v.actors[i].queue
            &&& n.actors[i].state == v.actors[i].state || (!super::is_ended(v.actors[i].state)
                && n.actors[i].state == Lifecycle::Quiescing)
        }
}

/// Whether actors sit in their slots and are older than their children.
#[verifier::opaque]
spec fn numbered_orderly(v: WorldView) -> bool {
    &&& forall|i: int|
        0 <= i < v.actors.len() ==> (#[trigger] v.actors[i]).ready_order < v.next_ready_order
            && v.actors[i].reference.world == v.id && v.actors[i].reference.slot == i
    &&& forall|i: int, k: int|
        0 <= i < v.actors.len() && 0 <= k < v.actors[i].children.len() ==> v.valid(
            #[trigger] v.actors[i].children[k],
        ) && v.order(v.actors[i].children[k]) > v.actors[i].ready_order
}

proof fn lemma_orderly_kept(v: WorldView, n: WorldView, order: nat)
    requires
        numbered_orderly(v),
        elders_kept(v, n, order),
    ensures
        numbered_orderly(n),
{
    reveal(elders_kept);
    reveal(numbered_orderly);
    assert forall|r: ActorRef| #[trigger] n.valid(r) == v.valid(r) && n.order(r) == v.order(r) by {
        super::actors::lemma_same_roster(v, n, r);
        if (r.slot as int) < v.actors.len() {
            assert(n.actors[r.slot as int].reference == v.actors[r.slot as int].reference);
        }
    }
    assert forall|i: int| 0 <= i < n.actors.len() implies (#[trigger] n.actors[i]).ready_order
        < n.next_ready_order && n.actors[i].reference.world == n.id && n.actors[i].reference.slot
        == i by {
        assert(n.actors[i].reference == v.actors[i].reference);
    }
    assert forall|i: int, k: int|
        0 <= i < n.actors.len() && 0 <= k < n.actors[i].children.len() implies n.valid(
        #[trigger] n.actors[i].children[k],
    ) && n.order(n.actors[i].children[k]) > n.actors[i].ready_order by {
        assert(n.actors[i].children == v.actors[i].children);
        assert(v.valid(v.actors[i].children[k]));
    }
}

proof fn lemma_elders_twice(a: WorldView, b: WorldView, c: WorldView, order: nat)
    requires
        elders_kept(a, b, order),
        elders_kept(b, c, order),
    ensures
        elders_kept(a, c, order),
{
    reveal(elders_kept);
    super::fence::lemma_roster_chain(a, b, c);
    assert forall|i: int| 0 <= i < a.actors.len() && a.actors[i].ready_order
        < order implies #[trigger] c.actors[i] == a.actors[i] by {
        assert(b.actors[i] == a.actors[i]);
    }
    assert forall|i: int| 0 <= i < a.actors.len() implies {
        &&& (#[trigger] c.actors[i]).children == a.actors[i].children
        &&& c.actors[i].queue == a.actors[i].queue
        &&& c.actors[i].state == a.actors[i].state || (!super::is_ended(a.actors[i].state)
            && c.actors[i].state == Lifecycle::Quiescing)
    } by {
        assert(b.actors[i].children == a.actors[i].children);
    }
}

proof fn lemma_elders_fewer(a: WorldView, b: WorldView, less: nat, order: nat)
    requires
        elders_kept(a, b, order),
        less <= order,
    ensures
        elders_kept(a, b, less),
{
    reveal(elders_kept);
}

/// Beginning to drain an actor changes that actor alone.
proof fn lemma_hushing_one(v: WorldView, r: ActorRef, root: ActorRef)
    requires
        v.valid(r),
        !super::is_ended(v.at(r).state),
    ensures
        elders_kept(v, super::turning::hushing(v, r, root), v.order(r)),
        super::turning::hushing(v, r, root).at(r).state == Lifecycle::Quiescing,
        super::turning::hushing(v, r, root).at(r).drain_root == Some(root),
        v.at(r).publication_cutoff is Some ==> super::turning::hushing(v, r, root).at(
            r,
        ).publication_cutoff == v.at(r).publication_cutoff,
        v.at(r).publication_cutoff is None ==> super::turning::hushing(v, r, root).at(
            r,
        ).publication_cutoff == Some((v.pubs.next_id - 1) as u64),
{
    reveal(elders_kept);
}

/// Bringing the hints of an actor up to date changes no actor.
proof fn lemma_told_elders(w: WorldView, r: ActorRef, order: nat)
    ensures
        elders_kept(w, w.refreshed(r).marked(r), order),
        w.refreshed(r).marked(r).actors == w.actors,
{
    reveal(elders_kept);
}

proof fn lemma_kept_at(v: WorldView, n: WorldView, order: nat, i: int)
    requires
        elders_kept(v, n, order),
        0 <= i < v.actors.len(),
    ensures
        n.same_roster(v),
        n.pubs == v.pubs,
        n.metrics == v.metrics,
        n.actors.len() == v.actors.len(),
        v.actors[i].ready_order < order ==> n.actors[i] == v.actors[i],
        n.actors[i].queue == v.actors[i].queue,
        n.actors[i].state == v.actors[i].state || (!super::is_ended(v.actors[i].state)
            && n.actors[i].state == Lifecycle::Quiescing),
{
    reveal(elders_kept);
}

proof fn lemma_younger(v: WorldView, r: ActorRef, k: int)
    requires
        numbered_orderly(v),
        v.valid(r),
        0 <= k < v.at(r).children.len(),
    ensures
        v.valid(v.at(r).children[k]),
        v.order(v.at(r).children[k]) > v.order(r),
        v.juniors(v.at(r).children[k]) < v.juniors(r),
        v.at(r).children[k].slot != r.slot,
{
    reveal(numbered_orderly);
    let c = v.actors[r.slot as int].children[k];
    assert(v.valid(c));
    assert(v.actors[c.slot as int].ready_order < v.next_ready_order);
}

proof fn lemma_drain_reaches(v: WorldView, r: ActorRef, root: ActorRef, deadline: Instant)
    requires
        numbered_orderly(v),
        v.valid(r),
    ensures
        ({
            let (n, result) = v.quiesced(r, root, deadline);
            &&& result matches Ok(at) && at.nanos <= deadline.nanos && (v.at(
                r,
            ).drain_deadline matches Some(before) ==> (!super::is_ended(v.at(r).state) ==> at.nanos
                <= before.nanos))
            &&& elders_kept(v, n, v.order(r))
            &&& !super::is_ended(v.at(r).state) ==> {
                &&& n.at(r).state == Lifecycle::Quiescing
                &&& n.at(r).drain_root == Some(root)
                &&& v.at(r).publication_cutoff is Some ==> n.at(r).publication_cutoff == v.at(
                    r,
                ).publication_cutoff
                &&& v.at(r).publication_cutoff is None ==> n.at(r).publication_cutoff == Some(
                    (v.pubs.next_id - 1) as u64,
                )
                &&& forall|k: int|
                    0 <= k < v.at(r).children.len() ==> super::is_ended(
                        n.at(#[trigger] v.at(r).children[k]).state,
                    ) || n.at(v.at(r).children[k]).state == Lifecycle::Quiescing
            }
        }),
    decreases v.juniors(r), 1nat, 0nat,
{
    if super::is_ended(v.at(r).state) {
        reveal(elders_kept);
    } else {
        let a = v.at(r);
        let i = r.slot as int;
        let shared = match a.drain_deadline {
            Some(previous) => crate::clock::earlier(deadline, previous),
            None => deadline,
        };
        let m = super::turning::hushing(v, r, root);
        lemma_hushing_one(v, r, root);
        lemma_kept_at(v, m, v.order(r), i);
        lemma_orderly_kept(v, m, v.order(r));
        assert forall|k: int| 0 <= k < a.children.len() implies m.valid(#[trigger] a.children[k])
            && m.juniors(a.children[k]) < v.juniors(r) && m.order(a.children[k]) >= v.order(r)
            + 1 by {
            lemma_younger(v, r, k);
            super::actors::lemma_same_roster(v, m, a.children[k]);
            super::fence::lemma_roster_age(v, m, a.children[k]);
        }
        lemma_drain_reaches_all(m, a.children, root, shared, v.juniors(r), v.order(r) + 1);
        let w = m.all_quiesced(a.children, root, shared, v.juniors(r)).0;
        super::actors::lemma_same_roster(v, m, r);
        lemma_kept_at(m, w, v.order(r) + 1, i);
        lemma_elders_fewer(m, w, v.order(r), v.order(r) + 1);
        lemma_elders_twice(v, m, w, v.order(r));
        lemma_told_elders(w, r, v.order(r));
        lemma_elders_twice(v, w, w.refreshed(r).marked(r), v.order(r));
    }
}

proof fn lemma_drain_reaches_all(
    v: WorldView,
    children: Seq<ActorRef>,
    root: ActorRef,
    deadline: Instant,
    limit: nat,
    order: nat,
)
    requires
        numbered_orderly(v),
        forall|k: int|
            0 <= k < children.len() ==> v.valid(#[trigger] children[k]) && v.juniors(children[k])
                < limit && v.order(children[k]) >= order,
    ensures
        ({
            let (n, result) = v.all_quiesced(children, root, deadline, limit);
            &&& result matches Ok(at) && at.nanos <= deadline.nanos
            &&& elders_kept(v, n, order)
            &&& forall|k: int|
                0 <= k < children.len() ==> super::is_ended(n.at(#[trigger] children[k]).state)
                    || n.at(children[k]).state == Lifecycle::Quiescing
        }),
    decreases limit, 0nat, children.len(),
{
    if children.len() == 0 {
        reveal(elders_kept);
    } else {
        let rest = children.drop_last();
        assert forall|k: int| 0 <= k < rest.len() implies v.valid(#[trigger] rest[k])
            && v.juniors(rest[k]) < limit && v.order(rest[k]) >= order by {
            assert(rest[k] == children[k]);
        }
        lemma_drain_reaches_all(v, rest, root, deadline, limit, order);
        let (m, told) = v.all_quiesced(rest, root, deadline, limit);
        let c = children[children.len() - 1];
        lemma_orderly_kept(v, m, order);
        lemma_kept_at(v, m, order, c.slot as int);
        super::actors::lemma_same_roster(v, m, c);
        super::fence::lemma_roster_age(v, m, c);
        lemma_drain_reaches(m, c, root, told->Ok_0);
        let n = m.quiesced(c, root, told->Ok_0).0;
        lemma_elders_fewer(m, n, order, m.order(c));
        lemma_elders_twice(v, m, n, order);
        assert forall|k: int| 0 <= k < children.len() implies super::is_ended(
            n.at(#[trigger] children[k]).state,
        ) || n.at(children[k]).state == Lifecycle::Quiescing by {
            if k < rest.len() {
                assert(rest[k] == children[k]);
                lemma_kept_at(m, n, order, children[k].slot as int);
            }
        }
    }
}

/// An actor that runs and is asked to drain drains with all its children, by the
/// deadline at the latest, and takes no publication that is made later.
pub proof fn a_drain_takes_the_whole_tree(world: World, r: ActorRef, deadline: Instant)
    requires
        world.inv(),
        world@.valid(r),
        world@.at(r).state == Lifecycle::Active,
    ensures
        ({
            let v = world@;
            let (n, result) = v.drain_begun(r, deadline);
            &&& result is Ok
            &&& n.valid(r)
            &&& n.at(r).state == Lifecycle::Quiescing
            &&& n.at(r).drain_root == Some(r)
            &&& n.at(r).drain_deadline matches Some(at) && at.nanos <= deadline.nanos
            &&& n.drain_roots.dom().contains(r.slot)
            &&& n.drain_roots[r.slot] == r
            &&& v.at(r).publication_cutoff is None ==> n.at(r).publication_cutoff == Some(
                (v.pubs.next_id - 1) as u64,
            )
            &&& n.at(r).queue == v.at(r).queue
            &&& n.metrics == v.metrics
            &&& forall|k: int|
                0 <= k < v.at(r).children.len() ==> super::is_ended(
                    n.at(#[trigger] v.at(r).children[k]).state,
                ) || n.at(v.at(r).children[k]).state == Lifecycle::Quiescing
            &&& forall|x: ActorRef|
                v.valid(x) && v.order(x) < v.order(r) ==> #[trigger] n.at(x) == v.at(x)
        }),
{
    world.lemma_orderly();
    let v = world@;
    assert(numbered_orderly(v)) by {
        reveal(endings::orderly);
        reveal(numbered_orderly);
    }
    lemma_drain_reaches(v, r, r, deadline);
    let m = v.quiesced(r, r, deadline).0;
    let n = v.drain_begun(r, deadline).0;
    lemma_kept_at(v, m, v.order(r), r.slot as int);
    super::actors::lemma_same_roster(v, m, r);
    assert forall|k: int| 0 <= k < v.at(r).children.len() implies super::is_ended(
        n.at(#[trigger] v.at(r).children[k]).state,
    ) || n.at(v.at(r).children[k]).state == Lifecycle::Quiescing by {
        lemma_younger(v, r, k);
    }
    assert forall|x: ActorRef| v.valid(x) && v.order(x) < v.order(r) implies #[trigger] n.at(x)
        == v.at(x) by {
        lemma_kept_at(v, m, v.order(r), x.slot as int);
    }
}

/// An actor that is asked to drain before it runs stops at once; one that has
/// ended stays as it is.
pub proof fn what_does_not_run_does_not_drain(
    world: World,
    now: Instant,
    r: ActorRef,
    deadline: Instant,
)
    requires
        world.inv(),
        world@.valid(r),
    ensures
        ({
            let v = world@;
            let (n, result) = v.draining(now, r, deadline);
            &&& v.at(r).state != Lifecycle::Quiescing ==> result is Ok
            &&& v.at(r).state == Lifecycle::Starting ==> super::is_ended(n.at(r).state)
            &&& super::is_ended(v.at(r).state) ==> n == v
            &&& v.at(r).state == Lifecycle::Active ==> n.at(r).state == Lifecycle::Quiescing
        }),
{
    let v = world@;
    world.lemma_orderly();
    endings::lemma_everyone(v);
    if v.at(r).state == Lifecycle::Starting {
        endings::a_stop_succeeds(world, now, r);
        endings::lemma_fenced(v, now, r, Set::full());
    }
    if v.at(r).state == Lifecycle::Active {
        a_drain_takes_the_whole_tree(world, r, deadline);
    }
}

} // verus!
