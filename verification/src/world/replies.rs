//! Requests and what becomes of them: what an answer inherits from its request,
//! which answer counts, and what a published completion inherits.
use vstd::prelude::*;
use super::requests;
use super::{World, WorldView};
use crate::clock::Instant;
use crate::diagnostics::DiagnosticCode;
use crate::envelope;
use crate::envelope::{Envelope, MessageOptions};
use crate::held;
use crate::held::{Delivery, HeldPayload};
use crate::operations::{
    EntryView, OperationFailure, OperationId, OpsView, OutcomeView, PendingOperation,
};
use crate::components::PortRef;
use crate::payload::Payload;
use crate::types::{ActorRef, Error, Lifecycle, Metrics};

verus! {

/// Whether one deadline is there and no later than another that is there.
pub open spec fn ends_by(a: Option<Instant>, b: Option<Instant>) -> bool {
    b matches Some(d) ==> (a matches Some(e) && e.nanos <= d.nanos)
}

/// Whether metadata descends from an envelope: nothing of it ends later, and
/// where nothing else was asked for it goes on with the conversation, the cause
/// and the trace.
pub open spec fn descends(o: MessageOptions, cause: Envelope, asked: Option<MessageOptions>) -> bool {
    let wish = match asked {
        Some(wish) => wish,
        None => MessageOptions {
            source: None,
            deadline: None,
            correlation_id: None,
            causation_id: None,
            trace: None,
        },
    };
    &&& ends_by(o.deadline, cause.deadline)
    &&& ends_by(o.deadline, wish.deadline)
    &&& o.deadline == cause.deadline || o.deadline == wish.deadline
    &&& wish.deadline is None ==> o.deadline == cause.deadline
    &&& wish.causation_id is None ==> o.causation_id == Some(cause.event_id)
    &&& wish.causation_id is Some ==> o.causation_id == wish.causation_id
    &&& wish.correlation_id is Some ==> o.correlation_id == wish.correlation_id
    &&& wish.correlation_id is None && cause.correlation_id is Some ==> o.correlation_id
        == cause.correlation_id
    &&& wish.correlation_id is None && cause.correlation_id is None ==> o.correlation_id == Some(
        cause.event_id,
    )
    &&& wish.trace is None ==> o.trace == cause.trace
    &&& wish.trace is Some ==> o.trace == wish.trace
}

/// What is asked for beside what is inherited never makes it outlive its cause.
pub proof fn what_is_asked_for_stays_within_the_cause(
    cause: Envelope,
    source: ActorRef,
    asked: MessageOptions,
)
    ensures
        descends(envelope::child_of(cause, source), cause, None),
        descends(
            requests::merged_options(envelope::child_of(cause, source), asked),
            cause,
            Some(asked),
        ),
        requests::merged_options(envelope::child_of(cause, source), asked).source == Some(source),
{
}

/// A request ends no later than it was asked to, and comes from its owner.
pub proof fn a_request_keeps_to_its_deadlines(
    owner: ActorRef,
    deadline: Instant,
    options: MessageOptions,
)
    ensures
        ({
            let o = requests::request_options(owner, deadline, options);
            &&& o.source == Some(owner)
            &&& ends_by(o.deadline, Some(deadline))
            &&& ends_by(o.deadline, options.deadline)
            &&& o.deadline == Some(deadline) || o.deadline == options.deadline
            &&& o.correlation_id == options.correlation_id
            &&& o.causation_id == options.causation_id
            &&& o.trace == options.trace
        }),
{
}

/// What completing an operation leaves alone.
pub(super) proof fn lemma_op_completed(v: WorldView, id: OperationId, outcome: OutcomeView)
    ensures
        ({
            let n = v.op_completed(id, outcome);
            n == (WorldView {
                ops: (OpsView { dropped: Seq::empty(), ..v.ops.completed(id, outcome) }),
                budget: n.budget,
                activity: n.activity,
                ..v
            })
        }),
{
    super::actors::lemma_with_ops(v, v.ops.completed(id, outcome));
}

/// Whether an operation waits for the answer to a request that came with an
/// envelope.
pub open spec fn waits_on(v: WorldView, id: OperationId, request: PendingOperation, cause: Envelope) -> bool {
    &&& v.ops.has(id)
    &&& v.ops.entry(id) == EntryView::Pending(request)
    &&& request.context matches Some(kept) && held::held_envelope(kept) == Some(cause)
}

/// An answer that counts is kept for the owner of the request with what was
/// answered, and descends from the request: it does not outlive it. A result
/// that does not fit is kept as a failure that says so.
pub proof fn a_reply_descends_from_its_request(
    v: WorldView,
    now: Instant,
    later: Instant,
    id: OperationId,
    target: ActorRef,
    p: Payload,
    charge: usize,
    asked: Option<MessageOptions>,
    request: PendingOperation,
    cause: Envelope,
)
    requires
        waits_on(v, id, request, cause),
        v.ops.world == v.id,
        v.answering(now, later, id, target, p, charge, asked).1 == Ok::<bool, Error>(true),
    ensures
        ({
            let n = v.answering(now, later, id, target, p, charge, asked).0;
            &&& target == request.target
            &&& now.nanos < request.deadline.nanos
            &&& n.ops.has(id)
            &&& n.ops.entry(id) is Terminal
            &&& n.ops.entry(id).owner() == request.owner
            &&& n.actors == v.actors
            &&& n.subs == v.subs
            &&& n.pubs == v.pubs
            &&& n.history == v.history
            &&& n.metrics == (Metrics {
                operation_completed: n.metrics.operation_completed,
                ..v.metrics
            })
            &&& v.metrics.operation_completed < u64::MAX ==> n.metrics.operation_completed
                == v.metrics.operation_completed + 1
            &&& match n.ops.entry(id)->outcome {
                OutcomeView::Completed(reply) => {
                    &&& reply.of_world() == v.id
                    &&& reply.carried() == p
                    &&& reply.metadata().source == Some(target)
                    &&& descends(reply.metadata(), cause, asked)
                    &&& held::held_envelope(reply) matches Some(e)
                    &&& e.event_id == v.next_event
                    &&& e.source == Some(target)
                    &&& e.destination == request.owner
                    &&& e.deadline == reply.metadata().deadline
                    &&& e.correlation_id == reply.metadata().correlation_id
                    &&& e.causation_id == reply.metadata().causation_id
                    &&& e.trace == reply.metadata().trace
                    &&& ends_by(e.deadline, cause.deadline)
                    &&& e.enqueued_at == later
                    &&& e.deadline matches Some(d) ==> now.nanos < d.nanos && later.nanos < d.nanos
                },
                OutcomeView::Failed { code, message } => code == OperationFailure::ResultTooLarge,
                _ => false,
            }
        }),
{
    let out = v.answering(now, later, id, target, p, charge, asked);
    let n = out.0;
    if v.op_is_due(now, id) {
        lemma_op_completed(v, id, OutcomeView::TimedOut);
        assert(false);
    }
    let options = requests::answer_options(request, target, asked);
    assert(descends(options, cause, asked));
    if v.refuses_payload(p, charge, options) is Some {
        lemma_op_completed(v, id, requests::result_too_large());
    } else {
        let stored = v.stored_next(p, charge, options, None);
        let kept = v.storing(charge, options);
        let drawn = WorldView { next_event: (v.next_event + 1) as u64, ..kept };
        let made = drawn.envelope_for(request.owner, stored, None, v.next_event, later)->Ok_0;
        let reply = HeldPayload::made(stored, v.id, Some(std::sync::Arc::new(made)));
        HeldPayload::lemma_made(stored, v.id, Some(std::sync::Arc::new(made)));
        lemma_op_completed(drawn, id, OutcomeView::Completed(reply));
    }
}

/// An answer that is not from the target of a request is refused, and the
/// request goes on.
pub proof fn only_the_target_answers(
    v: WorldView,
    now: Instant,
    later: Instant,
    id: OperationId,
    other: ActorRef,
    p: Payload,
    charge: usize,
    asked: Option<MessageOptions>,
    request: PendingOperation,
)
    requires
        v.ops.has(id),
        v.ops.entry(id) == EntryView::Pending(request),
        now.nanos < request.deadline.nanos,
        other != request.target,
    ensures
        v.answering(now, later, id, other, p, charge, asked) == (
            v,
            Err::<bool, Error>(Error::StaleReference),
        ),
{
}

/// An answer that comes after the deadline of a request does not count: the
/// request has timed out.
pub proof fn an_answer_after_the_deadline_times_out(
    v: WorldView,
    now: Instant,
    later: Instant,
    id: OperationId,
    target: ActorRef,
    p: Payload,
    charge: usize,
    asked: Option<MessageOptions>,
    request: PendingOperation,
)
    requires
        v.ops.has(id),
        v.ops.entry(id) == EntryView::Pending(request),
        request.deadline.nanos <= now.nanos,
    ensures
        ({
            let (n, result) = v.answering(now, later, id, target, p, charge, asked);
            &&& result == Ok::<bool, Error>(false)
            &&& n.ops.has(id)
            &&& n.ops.entry(id) == (EntryView::Terminal {
                owner: request.owner,
                outcome: OutcomeView::TimedOut,
            })
            &&& n.actors == v.actors
            &&& v.metrics.operation_timed_out < u64::MAX ==> n.metrics.operation_timed_out
                == v.metrics.operation_timed_out + 1
            &&& n.metrics.operation_completed == v.metrics.operation_completed
        }),
{
    lemma_op_completed(v, id, OutcomeView::TimedOut);
}

/// An answer to a request that has ended, or whose outcome was taken, changes
/// nothing but that it is counted and recorded as late.
pub proof fn a_late_answer_is_only_counted(
    v: WorldView,
    now: Instant,
    later: Instant,
    id: OperationId,
    target: ActorRef,
    p: Payload,
    charge: usize,
    asked: Option<MessageOptions>,
)
    requires
        id.world == v.id,
        v.ops.world == v.id,
        !v.ops.has(id) || v.ops.entry(id) is Terminal,
    ensures
        ({
            let (n, result) = v.answering(now, later, id, target, p, charge, asked);
            &&& result == Ok::<bool, Error>(false)
            &&& n == (WorldView { metrics: n.metrics, history: n.history, ..v })
            &&& n.metrics == (Metrics {
                operation_late_results: n.metrics.operation_late_results,
                ..v.metrics
            })
            &&& v.metrics.operation_late_results < u64::MAX ==> n.metrics.operation_late_results
                == v.metrics.operation_late_results + 1
            &&& v.history.capacity > 0 && !v.history.exhausted ==> {
                &&& n.history.entries.last().code == DiagnosticCode::OperationLateResult
                &&& n.history.entries.last().actor == Some(target)
                &&& n.history.entries.last().operation == Some(id)
            }
        }),
{
}

/// An operation of another World is refused as such.
pub proof fn a_foreign_operation_is_refused(
    v: WorldView,
    now: Instant,
    later: Instant,
    id: OperationId,
    target: ActorRef,
    p: Payload,
    charge: usize,
    asked: Option<MessageOptions>,
)
    requires
        id.world != v.ops.world,
    ensures
        v.answering(now, later, id, target, p, charge, asked) == (
            v,
            Err::<bool, Error>(Error::CrossWorld),
        ),
        v.cancelling_op(id).1 == Err::<bool, Error>(Error::CrossWorld),
        v.taking_op(id) == v,
{
}

/// A pending operation that is cancelled ends so for its owner, and is counted.
/// One that has ended keeps its outcome.
pub proof fn a_cancellation_ends_what_is_pending(v: WorldView, id: OperationId)
    requires
        v.ops.has(id),
    ensures
        ({
            let (n, result) = v.cancelling_op(id);
            &&& result == Ok::<bool, Error>(v.ops.entry(id) is Pending)
            &&& n.ops.has(id)
            &&& n.actors == v.actors
            &&& v.ops.entry(id) is Pending ==> {
                &&& n.ops.entry(id) == (EntryView::Terminal {
                    owner: v.ops.entry(id).owner(),
                    outcome: OutcomeView::Cancelled,
                })
                &&& n.metrics == (Metrics {
                    operation_cancelled: n.metrics.operation_cancelled,
                    ..v.metrics
                })
                &&& v.metrics.operation_cancelled < u64::MAX ==> n.metrics.operation_cancelled
                    == v.metrics.operation_cancelled + 1
            }
            &&& v.ops.entry(id) is Terminal ==> {
                &&& n.ops.entry(id) == v.ops.entry(id)
                &&& n.metrics == v.metrics
            }
        }),
{
    lemma_op_completed(v, id, OutcomeView::Cancelled);
}

/// A request that is made waits in the mailbox of its target and under its own
/// number: it comes from the owner, ends at the earlier deadline, and carries
/// what was asked.
pub proof fn a_request_waits_for_its_answer(
    world: World,
    now: Instant,
    owner: ActorRef,
    target: ActorRef,
    p: Payload,
    charge: usize,
    deadline: Instant,
    options: MessageOptions,
    port: Option<PortRef>,
)
    requires
        world.inv(),
        world@.requesting(now, owner, target, p, charge, deadline, options, port).1 is Ok,
    ensures
        ({
            let v = world@;
            let (n, result) = v.requesting(
                now,
                owner,
                target,
                p,
                charge,
                deadline,
                options,
                port,
            );
            let id = result->Ok_0;
            let d = n.at(target).queue.last();
            let request = n.ops.entry(id)->Pending_0;
            &&& options.source is None || options.source == Some(owner)
            &&& n.at(target).queue.len() == v.at(target).queue.len() + 1
            &&& n.at(target).queue.drop_last() == v.at(target).queue
            &&& !v.ops.has(id)
            &&& n.ops.has(id)
            &&& n.ops.entry(id) is Pending
            &&& request.owner == owner
            &&& request.target == target
            &&& request.deadline.nanos <= deadline.nanos
            &&& ends_by(Some(request.deadline), options.deadline)
            &&& request.deadline == deadline || Some(request.deadline) == options.deadline
            &&& now.nanos < request.deadline.nanos
            &&& d.operation == Some(id)
            &&& d.subscription is None
            &&& d.payload.payload == p
            &&& d.event_id == v.next_event
            &&& d.envelope.event_id == v.next_event
            &&& d.envelope.source == Some(owner)
            &&& d.envelope.destination == target
            &&& d.envelope.deadline == Some(request.deadline)
            &&& d.envelope.enqueued_at == now
            &&& d.envelope.causation_id == options.causation_id
            &&& d.envelope.trace == options.trace
            &&& options.correlation_id is Some ==> d.envelope.correlation_id
                == options.correlation_id
            &&& options.correlation_id is None ==> d.envelope.correlation_id == Some(v.next_event)
            &&& port is Some ==> d.envelope.destination_port == port
            &&& waits_on(n, id, request, d.envelope)
        }),
{
    let v = world@;
    world.lemma_operations();
    let o = requests::request_options(owner, deadline, options);
    let u = v.submitting();
    let id = u.ops.next_id();
    u.ops.lemma_reserved(owner, target, o.deadline->0);
    let reserved = u.ops.reserved(owner, target, o.deadline->0);
    super::actors::lemma_with_ops(u, reserved);
    let w = u.with_ops(reserved).storing(charge, o);
    let stored = u.with_ops(reserved).stored_next(p, charge, o, None);
    super::messages::what_is_admitted_arrives(w, now, target, stored, None, false, Some(id));
    let m = w.admission(now, target, stored, None, false, Some(id)).0;
    assert(v.requesting(now, owner, target, p, charge, deadline, options, port).0 == m.asked(
        owner,
        target,
        id,
        stored,
        port,
    ));
    lemma_asked(m, owner, target, id, stored, port);
    let before = v.at(target).queue;
    assert(m.at(target).queue.drop_last() =~= before);
    lemma_not_late(w, now, target, stored, None, false, Some(id));
}

/// What is admitted is not late.
proof fn lemma_not_late(
    v: WorldView,
    now: Instant,
    r: ActorRef,
    stored: std::sync::Arc<crate::held::Stored>,
    sub: Option<u64>,
    completion: bool,
    operation: Option<OperationId>,
)
    requires
        v.admission(now, r, stored, sub, completion, operation).1 is Ok,
    ensures
        stored.options.deadline matches Some(d) ==> now.nanos < d.nanos,
{
}

/// An operation keeps the request with the envelope that it came with.
proof fn lemma_asked(
    m: WorldView,
    owner: ActorRef,
    target: ActorRef,
    id: OperationId,
    stored: std::sync::Arc<crate::held::Stored>,
    port: Option<PortRef>,
)
    requires
        m.valid(target),
        m.at(target).queue.len() > 0,
        m.ops.has(id),
        m.ops.entry(id) is Pending,
    ensures
        ({
            let n = m.asked(owner, target, id, stored, port);
            let last = m.at(target).queue.last();
            let d = n.at(target).queue.last();
            let request = n.ops.entry(id)->Pending_0;
            &&& n.at(target).queue.len() == m.at(target).queue.len()
            &&& n.at(target).queue.drop_last() == m.at(target).queue.drop_last()
            &&& d == (Delivery { envelope: d.envelope, ..last })
            &&& d.envelope == (Envelope {
                destination_port: d.envelope.destination_port,
                ..last.envelope
            })
            &&& port is Some ==> d.envelope.destination_port == port
            &&& n.ops.has(id)
            &&& n.ops.entry(id) is Pending
            &&& request.owner == m.ops.entry(id)->Pending_0.owner
            &&& request.target == m.ops.entry(id)->Pending_0.target
            &&& request.deadline == m.ops.entry(id)->Pending_0.deadline
            &&& request.context matches Some(kept) && held::held_envelope(kept) == Some(d.envelope)
        }),
{
    let sent = match port {
        Some(port) => m.redirected(target, port),
        None => m,
    };
    let made = sent.at(target).queue.last().envelope;
    HeldPayload::lemma_made(stored, m.id, Some(std::sync::Arc::new(made)));
    let context = HeldPayload::made(stored, m.id, Some(std::sync::Arc::new(made)));
    let kept = sent.sharing(stored.id);
    super::actors::lemma_with_ops(kept, kept.ops.with_context(id, context));
    let n = m.asked(owner, target, id, stored, port);
    assert(n.at(target).queue.drop_last() =~= m.at(target).queue.drop_last());
}

/// What a handler publishes on behalf of a delivery descends from it: it does
/// not outlive it, whatever else was asked for.
pub proof fn a_completion_descends_from_its_delivery(
    v: WorldView,
    now: Instant,
    holder: ActorRef,
    d: Delivery,
    source: PortRef,
    p: Payload,
    charge: usize,
    asked: MessageOptions,
)
    requires
        v.completing_delivery(now, holder, d, source, p, charge, asked).1 is Ok,
    ensures
        ({
            let (n, result) = v.completing_delivery(now, holder, d, source, p, charge, asked);
            let id = result->Ok_0.0;
            let made = n.pubs.entries[id];
            &&& asked.source is None || asked.source == Some(source.owner)
            &&& result->Ok_0.1 == source.owner
            &&& id == v.pubs.next_id
            &&& n.pubs.entries.dom().contains(id)
            &&& made.source == source.owner
            &&& made.source_port == Some(source.index)
            &&& made.stored.payload == p
            &&& made.stored.options.source == Some(source.owner)
            &&& descends(made.stored.options, d.envelope, Some(asked))
            &&& ends_by(made.stored.options.deadline, d.envelope.deadline)
            &&& asked.deadline is None ==> made.stored.options.deadline == d.envelope.deadline
            &&& made.stored.options.deadline matches Some(e) ==> now.nanos < e.nanos
        }),
{
    let o = requests::merged_options(envelope::child_of(d.envelope, source.owner), asked);
    what_is_asked_for_stays_within_the_cause(d.envelope, source.owner, asked);
}

/// A request through a lease is made for the scope of the lease, and goes to the
/// port of the service that it names.
pub proof fn a_lease_asks_for_its_scope(
    world: World,
    now: Instant,
    lease: crate::services::ServiceLease,
    port: Seq<char>,
    p: Payload,
    charge: usize,
    deadline: Instant,
    options: MessageOptions,
)
    requires
        world.inv(),
        world@.service_requesting(now, lease, port, p, charge, deadline, options).1 is Ok,
    ensures
        ({
            let v = world@;
            let (n, result) = v.service_requesting(
                now,
                lease,
                port,
                p,
                charge,
                deadline,
                options,
            );
            let id = result->Ok_0;
            let request = n.ops.entry(id)->Pending_0;
            let d = n.at(lease.service).queue.last();
            &&& v.lease_fault(lease) is None
            &&& n.ops.has(id)
            &&& n.ops.entry(id) is Pending
            &&& request.owner == lease.scope
            &&& request.target == lease.service
            &&& request.deadline.nanos <= deadline.nanos
            &&& d.operation == Some(id)
            &&& d.payload.payload == p
            &&& d.envelope.source == Some(lease.scope)
            &&& d.envelope.destination_port matches Some(input) && input.owner == lease.service
                && v.service_input(lease, port, p) == Ok::<PortRef, Error>(input)
        }),
{
    match world@.service_input(lease, port, p) {
        Ok(input) => {
            a_request_waits_for_its_answer(
                world,
                now,
                lease.scope,
                lease.service,
                p,
                charge,
                deadline,
                options,
                Some(input),
            );
        },
        Err(_) => {},
    }
}

} // verus!
