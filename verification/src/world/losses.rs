//! What is lost when actors and their work end: what counts as discarded, who
//! takes over, and how operations end with those who are at their ends.
use vstd::prelude::*;
use super::actors;
use super::expiring;
use super::replies;
use super::requests;
use super::{ActorView, World, WorldView};
use crate::clock::Instant;
use crate::diagnostics::DiagnosticCode;
use crate::failures::{FailureAction, FailureDetails};
use crate::held::HeldPayload;
use crate::operations;
use crate::operations::{
    EntryView, OperationFailure, OperationId, OperationOwner, OpsView, OutcomeView,
    PendingOperation,
};
use crate::types::{ActorRef, Error, Lifecycle, Metrics};

verus! {

/// An actor that is halted loses its entries, and each of them counts as
/// cancelled and as discarded.
pub proof fn what_an_actor_loses_is_counted(v: WorldView, r: ActorRef, x: ActorRef)
    requires
        v.valid(r),
        v.metrics.cancelled + v.at(r).queue.len() + v.at(r).staged.len() <= u64::MAX,
        v.metrics.discarded + v.at(r).queue.len() + v.at(r).staged.len() <= u64::MAX,
    ensures
        ({
            let n = v.stripped(r);
            let lost = v.at(r).queue.len() + v.at(r).staged.len();
            &&& n.at(r).state == Lifecycle::Stopping
            &&& n.at(r).queue.len() == 0
            &&& n.at(r).staged.len() == 0
            &&& n.metrics.cancelled == v.metrics.cancelled + lost
            &&& n.metrics.discarded == v.metrics.discarded + lost
            &&& n.metrics == (Metrics {
                cancelled: n.metrics.cancelled,
                discarded: n.metrics.discarded,
                ..v.metrics
            })
            &&& v.valid(x) && x != r ==> n.at(x) == v.at(x)
            &&& n.subs == v.subs
            &&& n.ops == v.ops
            &&& n.pubs == v.pubs
        }),
{
    let a = v.at(r);
    let m = v.put(
        r,
        ActorView {
            state: Lifecycle::Stopping,
            queue: Seq::empty(),
            staged: Seq::empty(),
            ..a
        },
    );
    actors::lemma_releasing_all(m, expiring::staged_shares(a.staged));
    actors::lemma_releasing_all(
        m.releasing_all(expiring::staged_shares(a.staged)),
        expiring::queued_shares(a.queue),
    );
}

/// The owner of an actor that is gone takes over its failures and whether it ran
/// out of time, and keeps its other children.
pub proof fn an_owner_takes_over(v: WorldView, p: ActorRef, r: ActorRef, c: ActorRef)
    requires
        v.valid(p),
        v.at(p).errors + v.at(r).errors <= u64::MAX,
    ensures
        ({
            let n = v.bereaved(p, r);
            &&& n.at(p).errors == v.at(p).errors + v.at(r).errors
            &&& n.at(p).drain_timed_out <==> v.at(p).drain_timed_out || v.at(r).drain_timed_out
            &&& n.at(p).last_error == v.at(p).last_error || n.at(p).last_error == v.at(r).last_error
            &&& v.at(r).last_error matches Some(late) ==> (n.at(p).last_error matches Some(kept)
                && late.sequence <= kept.sequence)
            &&& n.at(p).children.contains(c) <==> v.at(p).children.contains(c) && c != r
            &&& n.at(p) == (ActorView {
                errors: n.at(p).errors,
                drain_timed_out: n.at(p).drain_timed_out,
                last_error: n.at(p).last_error,
                children: n.at(p).children,
                ..v.at(p)
            })
        }),
{
    actors::lemma_without_child(v.at(p).children, r);
}

/// Whether nothing holds an actor that stops: no work in hand, nothing to tell,
/// nothing running for it, and no child that has not stopped.
pub open spec fn nothing_holds(v: WorldView, r: ActorRef) -> bool {
    &&& v.at(r).state == Lifecycle::Stopping
    &&& !v.at(r).in_flight
    &&& !v.at(r).control_in_flight
    &&& v.at(r).notification is None
    &&& v.at(r).native_tasks == 0
    &&& v.at(r).python_done
    &&& forall|k: int|
        0 <= k < v.at(r).children.len() && v.valid(#[trigger] v.at(r).children[k]) ==> v.at(
            v.at(r).children[k],
        ).state == Lifecycle::Stopped
}

/// An actor that stops has stopped once nothing holds it, and not before.
pub proof fn an_actor_stops_once_nothing_holds_it(v: WorldView, r: ActorRef)
    requires
        v.valid(r),
        v.at(r).parent is None,
    ensures
        nothing_holds(v, r) ==> {
            &&& v.finalized(r).at(r).state == Lifecycle::Stopped
            &&& v.finalized(r).free == v.free.push(r.slot)
        },
        !nothing_holds(v, r) ==> {
            &&& v.finalized(r).actors == v.actors
            &&& v.finalized(r).free == v.free
        },
{
    reveal(WorldView::finalized);
    let seen = v.refreshed(r).marked(r);
    assert(seen.can_retire(r) <==> nothing_holds(v, r)) by {
        if seen.can_retire(r) {
            assert forall|k: int|
                0 <= k < v.at(r).children.len() && v.valid(#[trigger] v.at(r).children[k]) implies v.at(
                v.at(r).children[k],
            ).state == Lifecycle::Stopped by {
                assert(seen.child_done(seen.at(r).children[k]));
            }
        }
        if nothing_holds(v, r) {
            assert forall|k: int| 0 <= k < seen.at(r).children.len() implies seen.child_done(
                #[trigger] seen.at(r).children[k],
            ) by {
                assert(v.at(r).children[k] == seen.at(r).children[k]);
            }
        }
    }
    if seen.can_retire(r) {
        let gone = seen.retired(r).refreshed(r);
        actors::lemma_with_ops(gone, gone.ops.owner_retired(r));
    }
}

/// A payload is forwarded only by an owner that is active, and under owners that
/// run.
pub proof fn only_an_active_owner_forwards(
    v: WorldView,
    now: Instant,
    owner: ActorRef,
    target: ActorRef,
    held: HeldPayload,
)
    ensures
        v.sending_held_from(now, owner, target, held).1 is Ok ==> {
            &&& held.of_world() == v.id
            &&& v.valid(owner)
            &&& v.at(owner).state == Lifecycle::Active
            &&& v.submitting().execution(owner) == Ok::<Lifecycle, Error>(Lifecycle::Active)
            &&& v.submitting().lends(held)
            &&& v.sending_held_from(now, owner, target, held) == v.sending_held(now, target, held)
        },
        held.of_world() != v.id ==> v.sending_held_from(now, owner, target, held).1 == Err::<
            u64,
            Error,
        >(Error::CrossWorld),
        held.of_world() == v.id && v.valid(owner) && v.at(owner).state != Lifecycle::Active
            ==> v.sending_held_from(now, owner, target, held).1 == Err::<u64, Error>(
            Error::ActorStopped,
        ),
{
}

proof fn lemma_ends_marked(v: WorldView, ends: Seq<OperationOwner>)
    ensures
        v.marked_ends(ends) == (WorldView { activity: v.marked_ends(ends).activity, ..v }),
    decreases ends.len(),
{
    if ends.len() > 0 {
        lemma_ends_marked(v, ends.drop_last());
    }
}

proof fn lemma_noted_often(
    v: WorldView,
    now: Instant,
    code: DiagnosticCode,
    actor: Option<ActorRef>,
    n: nat,
)
    ensures
        v.noted_times(now, code, actor, n) == (WorldView {
            history: v.noted_times(now, code, actor, n).history,
            ..v
        }),
    decreases n,
{
    if n > 0 {
        lemma_noted_often(v, now, code, actor, (n - 1) as nat);
    }
}

/// The operations of an actor that is cut off end with it: those that it asked
/// for because their owner stopped, those that it was asked for because their
/// target stopped. Others go on.
pub proof fn operations_end_with_their_actor(
    v: WorldView,
    now: Instant,
    r: ActorRef,
    id: OperationId,
    p: PendingOperation,
)
    requires
        v.ops.has(id),
        v.ops.entry(id) == EntryView::Pending(p),
    ensures
        ({
            let n = v.ops_fenced(now, r);
            &&& n.ops.has(id)
            &&& p.owner == r ==> n.ops.entry(id) == (EntryView::Terminal {
                owner: r,
                outcome: OutcomeView::OwnerStopped,
            })
            &&& p.owner != r && p.target == r ==> n.ops.entry(id) == (EntryView::Terminal {
                owner: p.owner,
                outcome: OutcomeView::TargetStopped,
            })
            &&& p.owner != r && p.target != r ==> n.ops.entry(id) == v.ops.entry(id)
            &&& n.actors == v.actors
            &&& n.metrics == (Metrics {
                operation_cancelled: n.metrics.operation_cancelled,
                ..v.metrics
            })
        }),
{
    let ends = v.ops.ends_of(crate::ordered::sorted(v.ops.pending_touching(r)));
    let asked = v.ops.wins(crate::ordered::sorted(v.ops.owned(r)), OutcomeView::OwnerStopped);
    let mid = v.ops.owner_cancelled(r);
    let answered = mid.wins(crate::ordered::sorted(mid.targeted(r)), OutcomeView::TargetStopped);
    operations::each_end_ends_its_operations(v.ops, id, p, r, now);
    operations::lemma_still_there(v.ops, id, r);
    if p.owner != r {
        operations::each_end_ends_its_operations(mid, id, p, r, now);
    } else {
        operations::lemma_settled_stays(mid, id, r);
    }
    operations::lemma_still_there(mid, id, r);
    let done = mid.target_stopped(r);
    actors::lemma_with_ops(v, done);
    let w = v.with_ops(done);
    lemma_ends_marked(w, ends);
    let m = w.marked_ends(ends);
    let k = WorldView {
        metrics: (Metrics {
            operation_cancelled: crate::types::raised(
                crate::types::raised(m.metrics.operation_cancelled, asked),
                answered,
            ),
            ..m.metrics
        }),
        ..m
    };
    lemma_noted_often(k, now, DiagnosticCode::Cancelled, Some(r), asked);
    lemma_noted_often(
        k.noted_times(now, DiagnosticCode::Cancelled, Some(r), asked),
        now,
        DiagnosticCode::Cancelled,
        Some(r),
        answered,
    );
}

/// A failure that names an operation fails it, unless its time is up; then it has
/// timed out.
pub proof fn a_failure_fails_its_operation(
    v: WorldView,
    now: Instant,
    id: OperationId,
    p: PendingOperation,
)
    requires
        v.ops.has(id),
        v.ops.entry(id) == EntryView::Pending(p),
    ensures
        ({
            let n = v.failure_settled(now, Some(id));
            &&& n.ops.has(id)
            &&& p.deadline.nanos <= now.nanos ==> n.ops.entry(id) == (EntryView::Terminal {
                owner: p.owner,
                outcome: OutcomeView::TimedOut,
            })
            &&& p.deadline.nanos > now.nanos ==> (n.ops.entry(id) matches EntryView::Terminal {
                owner,
                outcome: OutcomeView::Failed { code, .. },
            } && owner == p.owner && code == OperationFailure::HandlerFailed)
            &&& p.deadline.nanos > now.nanos && v.metrics.operation_completed < u64::MAX
                ==> n.metrics.operation_completed == v.metrics.operation_completed + 1
            &&& p.deadline.nanos <= now.nanos && v.metrics.operation_timed_out < u64::MAX
                ==> n.metrics.operation_timed_out == v.metrics.operation_timed_out + 1
            &&& n.actors == v.actors
        }),
        v.failure_settled(now, None) == v,
{
    replies::lemma_op_completed(v, id, OutcomeView::TimedOut);
    let m = v.timing_out(now, now, id, None);
    replies::lemma_op_completed(m, id, requests::handler_failed());
}

/// What is recorded of a failure is what was reported, when and under which
/// number.
pub proof fn a_failure_is_recorded_as_reported(
    v: WorldView,
    now: Instant,
    r: ActorRef,
    event_id: Option<u64>,
    schema: Option<u32>,
    operation: Option<OperationId>,
    details: FailureDetails,
    action: FailureAction,
)
    requires
        v.epoch.nanos <= now.nanos <= v.epoch.nanos + u64::MAX,
    ensures
        ({
            let record = v.failure_record(now, r, event_id, schema, operation, details, action);
            &&& record.sequence == v.next_failure
            &&& v.epoch.nanos + record.elapsed_ns == now.nanos
            &&& record.actor == r
            &&& record.event_id == event_id
            &&& record.schema == schema
            &&& record.operation == operation
            &&& record.details == details
            &&& record.action == action
        }),
{
}

/// A failure that is reported with an operation ends it.
pub proof fn a_failure_ends_the_operation_it_names(
    v: WorldView,
    now: Instant,
    r: ActorRef,
    event_id: Option<u64>,
    schema: Option<u32>,
    id: OperationId,
    p: PendingOperation,
    details: FailureDetails,
)
    requires
        v.refuses_failure(r, Some(id)) is None,
        v.ops.has(id),
        v.ops.entry(id) == EntryView::Pending(p),
    ensures
        ({
            let (n, result) = v.failing(
                now,
                r,
                event_id,
                schema,
                Some(id),
                details,
                FailureAction::Continue,
            );
            &&& result matches Ok(record) && record.operation == Some(id) && record.actor == r
            &&& n.ops.has(id)
            &&& p.deadline.nanos <= now.nanos ==> n.ops.entry(id) == (EntryView::Terminal {
                owner: p.owner,
                outcome: OutcomeView::TimedOut,
            })
            &&& p.deadline.nanos > now.nanos ==> (n.ops.entry(id) matches EntryView::Terminal {
                owner,
                outcome: OutcomeView::Failed { code, .. },
            } && owner == p.owner && code == OperationFailure::HandlerFailed)
        }),
{
    let record = v.failure_record(
        now,
        r,
        event_id,
        schema,
        Some(id),
        details,
        FailureAction::Continue,
    );
    let told = v.tells_owner(r, details.failed_in());
    let counted = v.failure_counted(now, record);
    a_failure_fails_its_operation(counted, now, id, p);
    lemma_kept_aside(counted.failure_settled(now, Some(id)), r, record, told);
}

/// Keeping a failure with its actor leaves the operations alone.
proof fn lemma_kept_aside(
    v: WorldView,
    r: ActorRef,
    record: std::sync::Arc<crate::failures::FailureRecord>,
    told: bool,
)
    ensures
        v.failure_kept(r, record, told).ops == v.ops,
{
}

} // verus!
