//! Requests: operations that one actor asks of another.
use vstd::prelude::*;
use vstd::string::*;
use std::sync::Arc;
use super::{ActorView, World, WorldView};
use crate::clock;
use crate::clock::{earliest_of, is_due, Instant};
use crate::components::PortRef;
use crate::diagnostics::DiagnosticCode;
use crate::envelope;
use crate::envelope::{Envelope, MessageOptions};
use crate::held;
use crate::held::{Delivery, HeldPayload, Stored};
use crate::operations;
use crate::operations::{
    EntryView, OperationFailure, OperationId, OperationStatus, OutcomeView, PendingOperation,
    TerminalOutcome,
};
use crate::payload;
use crate::payload::Payload;
use crate::types;
use crate::types::{ActorRef, Error, Lifecycle, Metrics};

verus! {

/// The outcome of an operation whose handler failed.
pub open spec fn handler_failed() -> OutcomeView {
    OutcomeView::Failed {
        code: OperationFailure::HandlerFailed,
        message: "operation handler failed"@,
    }
}

/// The outcome of an operation whose result does not fit.
pub open spec fn result_too_large() -> OutcomeView {
    OutcomeView::Failed {
        code: OperationFailure::ResultTooLarge,
        message: "operation result exceeds configured budget"@,
    }
}

pub(super) fn handler_failure() -> (r: TerminalOutcome)
    ensures
        r@ == handler_failed(),
{
    TerminalOutcome::Failed {
        code: OperationFailure::HandlerFailed,
        message: "operation handler failed".to_string(),
    }
}

fn oversized_result() -> (r: TerminalOutcome)
    ensures
        r@ == result_too_large(),
{
    TerminalOutcome::Failed {
        code: OperationFailure::ResultTooLarge,
        message: "operation result exceeds configured budget".to_string(),
    }
}

/// The metadata of a request: it comes from its owner and ends at the earlier
/// deadline.
pub open spec fn request_options(owner: ActorRef, deadline: Instant, options: MessageOptions) -> MessageOptions {
    MessageOptions {
        source: Some(owner),
        deadline: clock::earliest(options.deadline, Some(deadline)),
        ..options
    }
}

/// Metadata that was asked for, over metadata that was inherited.
pub open spec fn merged_options(inherited: MessageOptions, asked: MessageOptions) -> MessageOptions {
    MessageOptions {
        source: inherited.source,
        deadline: clock::earliest(inherited.deadline, asked.deadline),
        correlation_id: if asked.correlation_id is Some {
            asked.correlation_id
        } else {
            inherited.correlation_id
        },
        causation_id: if asked.causation_id is Some {
            asked.causation_id
        } else {
            inherited.causation_id
        },
        trace: if asked.trace is Some {
            asked.trace
        } else {
            inherited.trace
        },
    }
}

pub(super) fn merge_options(inherited: MessageOptions, asked: MessageOptions) -> (r: MessageOptions)
    ensures
        r == merged_options(inherited, asked),
{
    MessageOptions {
        source: inherited.source,
        deadline: earliest_of(inherited.deadline, asked.deadline),
        correlation_id: match asked.correlation_id {
            Some(id) => Some(id),
            None => inherited.correlation_id,
        },
        causation_id: match asked.causation_id {
            Some(id) => Some(id),
            None => inherited.causation_id,
        },
        trace: match asked.trace {
            Some(trace) => Some(trace),
            None => inherited.trace,
        },
    }
}

/// The metadata of an answer: it descends from the request.
pub open spec fn answer_options(
    request: PendingOperation,
    target: ActorRef,
    options: Option<MessageOptions>,
) -> MessageOptions {
    let inherited = match request.context {
        Some(held) => match held::held_envelope(held) {
            Some(envelope) => envelope::child_of(envelope, target),
            None => envelope::no_options(),
        },
        None => envelope::no_options(),
    };
    let merged = match options {
        Some(asked) => merged_options(inherited, asked),
        None => inherited,
    };
    MessageOptions { source: Some(target), ..merged }
}

impl WorldView {
    /// After an operation was completed, unless another outcome came first.
    pub open spec fn op_completed(self, id: OperationId, outcome: OutcomeView) -> WorldView {
        let done = self.with_ops(self.ops.completed(id, outcome));
        if self.ops.completing(id, outcome) == Ok::<bool, Error>(true) {
            let ends = self.ops.entry(id).ends();
            done.marked_operation(ends.owner, Some(ends.target))
        } else {
            done
        }
    }

    pub open spec fn op_is_due(self, now: Instant, id: OperationId) -> bool {
        self.ops.has(id) && self.ops.entry(id).is_due(now)
    }

    /// After an operation was looked at whose deadline may have passed. What is
    /// due goes by one time, the record by another.
    pub open spec fn timing_out(
        self,
        now: Instant,
        at: Instant,
        id: OperationId,
        actor: Option<ActorRef>,
    ) -> WorldView {
        if self.op_is_due(now, id) {
            self.op_completed(id, OutcomeView::TimedOut).op_timed_out(at, id, actor)
        } else {
            self
        }
    }

    /// After a timeout was counted and recorded.
    pub open spec fn op_timed_out(self, now: Instant, id: OperationId, actor: Option<ActorRef>) -> WorldView {
        WorldView {
            metrics: Metrics {
                operation_timed_out: types::bumped(self.metrics.operation_timed_out),
                ..self.metrics
            },
            ..self
        }.noted(now, DiagnosticCode::OperationTimedOut, actor, Some(id))
    }

    /// After a result that came too late was counted and recorded.
    pub open spec fn late_result(self, now: Instant, id: OperationId, target: ActorRef) -> WorldView {
        WorldView {
            metrics: Metrics {
                operation_late_results: types::bumped(self.metrics.operation_late_results),
                ..self.metrics
            },
            ..self
        }.noted(now, DiagnosticCode::OperationLateResult, Some(target), Some(id))
    }

    pub open spec fn op_counted(self) -> WorldView {
        WorldView {
            metrics: Metrics {
                operation_completed: types::bumped(self.metrics.operation_completed),
                ..self.metrics
            },
            ..self
        }
    }

    /// The last delivery of a mailbox, sent to a given port.
    pub open spec fn redirected(self, r: ActorRef, port: PortRef) -> WorldView {
        let a = self.at(r);
        let last = a.queue.last();
        self.put(
            r,
            ActorView {
                queue: a.queue.update(
                    a.queue.len() - 1,
                    Delivery {
                        envelope: Envelope { destination_port: Some(port), ..last.envelope },
                        ..last
                    },
                ),
                ..a
            },
        )
    }

    pub open spec fn requesting(
        self,
        now: Instant,
        owner: ActorRef,
        target: ActorRef,
        p: Payload,
        charge: usize,
        deadline: Instant,
        options: MessageOptions,
        port: Option<PortRef>,
    ) -> (WorldView, Result<OperationId, Error>) {
        if options.source is Some && options.source->0 != owner {
            (self, Err(Error::InvalidMetadata))
        } else {
            let v = self.submitting();
            match (v.execution(owner), v.execution(target)) {
                (Err(e), _) => (v.rejected(now, e, owner), Err(e)),
                (_, Err(e)) => (v.rejected(now, e, target), Err(e)),
                (Ok(Lifecycle::Active), Ok(Lifecycle::Active)) => v.asking(
                    now,
                    owner,
                    target,
                    p,
                    charge,
                    request_options(owner, deadline, options),
                    port,
                ),
                _ => (v.rejected(now, Error::ActorNotReady, target), Err(Error::ActorNotReady)),
            }
        }
    }

    /// A request between actors that run.
    pub open spec fn asking(
        self,
        now: Instant,
        owner: ActorRef,
        target: ActorRef,
        p: Payload,
        charge: usize,
        options: MessageOptions,
        port: Option<PortRef>,
    ) -> (WorldView, Result<OperationId, Error>) {
        match self.ops.refuses(owner, target) {
            Some(e) => (self.rejected(now, e, owner), Err(e)),
            None => {
                let id = self.ops.next_id();
                let v = self.with_ops(self.ops.reserved(owner, target, options.deadline->0));
                match v.refuses_payload(p, charge, options) {
                    Some(e) => (
                        v.with_ops(v.ops.released(id)).rejected(now, e, target),
                        Err(e),
                    ),
                    None => {
                        let stored = v.stored_next(p, charge, options, None);
                        let (n, result) = v.storing(charge, options).admission(
                            now,
                            target,
                            stored,
                            None,
                            false,
                            Some(id),
                        );
                        match result {
                            Err(e) => {
                                let back = n.releasing(stored.id);
                                (
                                    back.with_ops(back.ops.released(id)).rejected(now, e, target),
                                    Err(e),
                                )
                            },
                            Ok(_) => (n.asked(owner, target, id, stored, port), Ok(id)),
                        }
                    },
                }
            },
        }
    }

    /// A request that was admitted: the operation keeps it until it ends.
    pub open spec fn asked(
        self,
        owner: ActorRef,
        target: ActorRef,
        id: OperationId,
        stored: Arc<Stored>,
        port: Option<PortRef>,
    ) -> WorldView {
        let v = match port {
            Some(port) => self.redirected(target, port),
            None => self,
        };
        let context = HeldPayload::made(
            stored,
            self.id,
            Some(Arc::new(v.at(target).queue.last().envelope)),
        );
        let kept = v.sharing(stored.id);
        kept.with_ops(kept.ops.with_context(id, context)).marked(owner)
    }

    /// An answer to a request. The time is read again once the result is stored.
    pub open spec fn answering(
        self,
        now: Instant,
        later: Instant,
        id: OperationId,
        target: ActorRef,
        p: Payload,
        charge: usize,
        options: Option<MessageOptions>,
    ) -> (WorldView, Result<bool, Error>) {
        let v = self.timing_out(now, now, id, Some(target));
        if !v.ops.has(id) {
            if v.ops.missing(id) == Error::StaleReference {
                (v.late_result(now, id, target), Ok(false))
            } else {
                (v, Err(v.ops.missing(id)))
            }
        } else {
            match v.ops.entry(id) {
                EntryView::Terminal { .. } => (v.late_result(now, id, target), Ok(false)),
                EntryView::Pending(request) => {
                    match v.refuses_answer(request, target, options) {
                        Some(e) => (v, Err(e)),
                        None => v.settling(
                            now,
                            later,
                            id,
                            target,
                            p,
                            charge,
                            request.owner,
                            answer_options(request, target, options),
                        ),
                    }
                },
            }
        }
    }

    /// Why an answer to a pending request is refused.
    pub open spec fn refuses_answer(
        self,
        request: PendingOperation,
        target: ActorRef,
        options: Option<MessageOptions>,
    ) -> Option<Error> {
        if request.target != target {
            Some(Error::StaleReference)
        } else {
            match self.execution(request.owner) {
                Err(e) => Some(e),
                Ok(owner) => if !super::is_running(owner) {
                    Some(Error::ActorStopped)
                } else {
                    match self.execution(target) {
                        Err(e) => Some(e),
                        Ok(state) => if !super::is_running(state) {
                            Some(Error::ActorStopped)
                        } else if options is Some && (!options->0.valid() || (
                        options->0.source is Some && options->0.source->0 != target)) {
                            Some(Error::InvalidMetadata)
                        } else {
                            None
                        },
                    }
                },
            }
        }
    }

    pub open spec fn settling(
        self,
        now: Instant,
        later: Instant,
        id: OperationId,
        target: ActorRef,
        p: Payload,
        charge: usize,
        owner: ActorRef,
        options: MessageOptions,
    ) -> (WorldView, Result<bool, Error>) {
        if clock::due(options.deadline, now) {
            (
                self.op_completed(id, OutcomeView::TimedOut).op_timed_out(now, id, Some(target)),
                Ok(false),
            )
        } else if self.refuses_payload(p, charge, options) is Some {
            (self.op_completed(id, result_too_large()).op_counted(), Ok(true))
        } else {
            let stored = self.stored_next(p, charge, options, None);
            let v = self.storing(charge, options);
            if v.next_event == u64::MAX {
                (v.releasing(stored.id), Err(Error::LimitExceeded))
            } else {
                let event = v.next_event;
                let n = WorldView { next_event: (event + 1) as u64, ..v };
                match n.envelope_for(owner, stored, None, event, later) {
                    Err(e) => (n.releasing(stored.id), Err(e)),
                    Ok(envelope) => {
                        if clock::due(options.deadline, later) {
                            (
                                n.releasing(stored.id).op_completed(
                                    id,
                                    OutcomeView::TimedOut,
                                ).op_timed_out(later, id, Some(target)),
                                Ok(false),
                            )
                        } else {
                            let held = HeldPayload::made(
                                stored,
                                self.id,
                                Some(Arc::new(envelope)),
                            );
                            (n.op_completed(id, OutcomeView::Completed(held)).op_counted(), Ok(true))
                        }
                    },
                }
            }
        }
    }

    pub open spec fn cancelling_op(self, id: OperationId) -> (WorldView, Result<bool, Error>) {
        let v = self.op_completed(id, OutcomeView::Cancelled);
        (
            if self.ops.completing(id, OutcomeView::Cancelled) == Ok::<bool, Error>(true) {
                v.op_cancellation_counted()
            } else {
                v
            },
            self.ops.completing(id, OutcomeView::Cancelled),
        )
    }

    pub open spec fn op_cancellation_counted(self) -> WorldView {
        WorldView {
            metrics: Metrics {
                operation_cancelled: types::bumped(self.metrics.operation_cancelled),
                ..self.metrics
            },
            ..self
        }
    }

    /// After the owner looked for an outcome: it is handed out once.
    pub open spec fn taking_op(self, id: OperationId) -> WorldView {
        if self.ops.has(id) && self.ops.entry(id) is Terminal {
            let v = self.with_ops(self.ops.taken(id)).marked(self.ops.entry(id).owner());
            match operations::share_of(self.ops.entry(id)->outcome) {
                Some(share) => v.lending(share),
                None => v,
            }
        } else {
            self
        }
    }
}

impl World {
    /// Completes an operation, unless another outcome came first.
    pub(super) fn complete_op(&mut self, id: OperationId, outcome: TerminalOutcome) -> (r: Result<
        bool,
        Error,
    >)
        requires
            old(self).steady(),
        ensures
            final(self).steady(),
            final(self)@ == old(self)@.op_completed(id, outcome@),
            r == old(self)@.ops.completing(id, outcome@),
    {
        let ghost v = self@;
        let ghost prior = *self;
        let ends = self.operations.participants(id);
        let r = self.operations.complete(id, outcome);
        proof {
            self.lemma_ops_changed(prior);
        }
        self.settle();
        match r {
            Ok(true) => match ends {
                Ok((owner, target)) => self.mark_operation(owner, target),
                Err(_) => {},
            },
            _ => {},
        }
        r
    }

    /// Ends an operation whose deadline has passed; whether it had.
    pub(super) fn time_out(
        &mut self,
        now: Instant,
        at: Instant,
        id: OperationId,
        actor: Option<ActorRef>,
    ) -> (r: bool)
        requires
            old(self).steady(),
        ensures
            final(self).steady(),
            final(self)@ == old(self)@.timing_out(now, at, id, actor),
            r == old(self)@.op_is_due(now, id),
    {
        let ghost v = self@;
        let ghost prior = *self;
        let ends = self.operations.participants(id);
        let changed = match self.operations.expire_one(id, now) {
            Ok(changed) => changed,
            Err(_) => false,
        };
        if !changed {
            proof {
                self.lemma_kept(prior);
            }
            return false;
        }
        proof {
            self.lemma_ops_changed(prior);
        }
        self.settle();
        match ends {
            Ok((owner, target)) => self.mark_operation(owner, target),
            Err(_) => {},
        }
        assert(self@ == v.op_completed(id, OutcomeView::TimedOut));
        self.count_timeout(at, id, actor);
        true
    }

    pub(super) fn count_timeout(&mut self, now: Instant, id: OperationId, actor: Option<ActorRef>)
        requires
            old(self).steady(),
        ensures
            final(self).steady(),
            final(self)@ == old(self)@.op_timed_out(now, id, actor),
    {
        self.metrics.operation_timed_out = self.metrics.operation_timed_out.wrapping_add(1);
        proof {
            self.lemma_kept(*old(self));
        }
        self.note(now, DiagnosticCode::OperationTimedOut, actor, Some(id));
    }

    fn count_late_result(&mut self, now: Instant, id: OperationId, target: ActorRef)
        requires
            old(self).steady(),
        ensures
            final(self).steady(),
            final(self)@ == old(self)@.late_result(now, id, target),
    {
        self.metrics.operation_late_results = self.metrics.operation_late_results.wrapping_add(1);
        proof {
            self.lemma_kept(*old(self));
        }
        self.note(now, DiagnosticCode::OperationLateResult, Some(target), Some(id));
    }

    pub(super) fn count_op(&mut self)
        requires
            old(self).steady(),
        ensures
            final(self).steady(),
            final(self)@ == old(self)@.op_counted(),
    {
        self.metrics.operation_completed = self.metrics.operation_completed.wrapping_add(1);
        proof {
            self.lemma_kept(*old(self));
        }
    }

    pub(super) fn count_op_cancellation(&mut self)
        requires
            old(self).steady(),
        ensures
            final(self).steady(),
            final(self)@ == old(self)@.op_cancellation_counted(),
    {
        self.metrics.operation_cancelled = self.metrics.operation_cancelled.wrapping_add(1);
        proof {
            self.lemma_kept(*old(self));
        }
    }

    /// Forgets an operation that was not submitted.
    fn withdraw_op(&mut self, id: OperationId)
        requires
            old(self).steady(),
        ensures
            final(self).steady(),
            final(self)@ == old(self)@.with_ops(old(self)@.ops.released(id)),
    {
        let ghost prior = *self;
        let _found = self.operations.release_unsubmitted(id);
        proof {
            prior.lemma_operations();
            prior@.ops.lemma_vacated(id);
            self.lemma_ops_changed(prior);
        }
        self.settle();
    }

    /// Sends the last delivery of a mailbox to a given port.
    pub(super) fn redirect(&mut self, r: ActorRef, port: PortRef)
        requires
            old(self).steady(),
            old(self)@.valid(r),
            old(self)@.at(r).queue.len() > 0,
        ensures
            final(self).steady(),
            final(self)@ == old(self)@.redirected(r, port),
    {
        let ghost v = self@;
        let i: usize = r.slot as usize;
        let ghost queue = v.at(r).queue;
        proof {
            super::lemma_placed(v, i as int);
            if super::is_ended(v.at(r).state) {
                super::living::lemma_bare(v, i as int);
            }
        }
        let a = self.actor_mut(i);
        let last: usize = a.queue.len() - 1;
        a.queue[last].envelope.destination_port = Some(port);
        proof {
            let n = v.redirected(r, port);
            let moved = n.at(r).queue;
            assert(a.queue@ =~= moved);
            assert(held::queue_costs(moved) =~= held::queue_costs(queue));
            assert(held::queue_deadlines(moved) =~= held::queue_deadlines(queue));
        }
        self.reindex(i);
        assert(self@.actors =~= v.redirected(r, port).actors);
    }

    pub fn request(
        &mut self,
        owner: ActorRef,
        target: ActorRef,
        p: Payload,
        deadline: Instant,
    ) -> (result: Result<OperationId, Error>)
        requires
            old(self).inv(),
        ensures
            final(self).inv(),
            exists|now: Instant, charge: usize| #[trigger]
                old(self)@.clock.reads(now) && #[trigger] payload::may_charge(p, charge) && (
                final(self)@,
                result,
            ) == old(self)@.requesting(
                now,
                owner,
                target,
                p,
                charge,
                deadline,
                envelope::no_options(),
                None,
            ),
    {
        self.request_with(owner, target, p, deadline, MessageOptions::default())
    }

    /// Asks an actor for a result before a deadline.
    pub fn request_with(
        &mut self,
        owner: ActorRef,
        target: ActorRef,
        p: Payload,
        deadline: Instant,
        options: MessageOptions,
    ) -> (result: Result<OperationId, Error>)
        requires
            old(self).inv(),
        ensures
            final(self).inv(),
            exists|now: Instant, charge: usize| #[trigger]
                old(self)@.clock.reads(now) && #[trigger] payload::may_charge(p, charge) && (
                final(self)@,
                result,
            ) == old(self)@.requesting(now, owner, target, p, charge, deadline, options, None),
    {
        let now = self.now();
        let charge = p.bytes();
        self.request_at(now, owner, target, p, charge, deadline, options, None)
    }

    /// Asks at a given time and charge, and at a given port if there is one.
    pub fn request_at(
        &mut self,
        now: Instant,
        owner: ActorRef,
        target: ActorRef,
        p: Payload,
        charge: usize,
        deadline: Instant,
        options: MessageOptions,
        port: Option<PortRef>,
    ) -> (result: Result<OperationId, Error>)
        requires
            old(self).inv(),
        ensures
            final(self).inv(),
            (final(self)@, result) == old(self)@.requesting(
                now,
                owner,
                target,
                p,
                charge,
                deadline,
                options,
                port,
            ),
    {
        proof {
            self.lemma_operations();
            super::keeping::lemma_requesting(self@, now, owner, target, p, charge, deadline, options, port);
        }
        match options.source {
            Some(source) => {
                if source != owner {
                    return Err(Error::InvalidMetadata);
                }
            },
            None => {},
        }
        let full = MessageOptions {
            source: Some(owner),
            deadline: earliest_of(options.deadline, Some(deadline)),
            correlation_id: options.correlation_id,
            causation_id: options.causation_id,
            trace: options.trace,
        };
        assert(full == request_options(owner, deadline, options));
        self.count_submission();
        let owner_state = match self.execution(owner) {
            Ok(state) => state,
            Err(e) => {
                self.reject(now, e, owner);
                return Err(e);
            },
        };
        let target_state = match self.execution(target) {
            Ok(state) => state,
            Err(e) => {
                self.reject(now, e, target);
                return Err(e);
            },
        };
        if owner_state != Lifecycle::Active || target_state != Lifecycle::Active {
            self.reject(now, Error::ActorNotReady, target);
            return Err(Error::ActorNotReady);
        }
        proof {
            super::living::lemma_running_lives(self@, owner);
            super::living::lemma_running_lives(self@, target);
        }
        self.ask(now, owner, target, p, charge, full, port)
    }

    fn ask(
        &mut self,
        now: Instant,
        owner: ActorRef,
        target: ActorRef,
        p: Payload,
        charge: usize,
        options: MessageOptions,
        port: Option<PortRef>,
    ) -> (result: Result<OperationId, Error>)
        requires
            old(self).steady(),
            options.deadline is Some,
            old(self)@.lives(owner),
            old(self)@.lives(target),
        ensures
            final(self).steady(),
            (final(self)@, result) == old(self)@.asking(
                now,
                owner,
                target,
                p,
                charge,
                options,
                port,
            ),
    {
        let ghost v = self@;
        let ghost prior = *self;
        let deadline: Instant = match options.deadline {
            Some(deadline) => deadline,
            None => now,
        };
        let id = match self.operations.reserve(owner, target, deadline) {
            Ok(id) => id,
            Err(e) => {
                proof {
                    self.lemma_kept(prior);
                }
                self.reject(now, e, owner);
                return Err(e);
            },
        };
        proof {
            prior.lemma_operations();
            v.ops.lemma_reserved(owner, target, deadline);
            super::living::lemma_reserved_live(v, self@.ops, id);
            self.lemma_ops_changed(prior);
        }
        self.settle();
        let ghost reserved = self@;
        proof {
            super::actors::lemma_with_ops(v, v.ops.reserved(owner, target, deadline));
        }
        assert(reserved.ops.has(id) && reserved.ops.entry(id) == EntryView::Pending(
            PendingOperation { owner, target, deadline, context: None },
        ));
        let stored = match self.store(p, charge, options, None) {
            Ok(stored) => stored,
            Err(e) => {
                self.withdraw_op(id);
                self.reject(now, e, target);
                return Err(e);
            },
        };
        let share: u64 = stored.id;
        match self.take_in(now, target, stored.clone(), None, false, Some(id)) {
            Ok(_) => {},
            Err(e) => {
                self.release(share);
                self.withdraw_op(id);
                self.reject(now, e, target);
                return Err(e);
            },
        }
        self.keep_request(owner, target, id, stored, port);
        Ok(id)
    }

    fn keep_request(
        &mut self,
        owner: ActorRef,
        target: ActorRef,
        id: OperationId,
        stored: Arc<Stored>,
        port: Option<PortRef>,
    )
        requires
            old(self).steady(),
            old(self)@.valid(target),
            old(self)@.at(target).queue.len() > 0,
            old(self)@.ops.has(id),
            old(self)@.ops.entry(id) is Pending,
            old(self)@.ops.entry(id)->Pending_0.context is None,
        ensures
            final(self).steady(),
            final(self)@ == old(self)@.asked(owner, target, id, stored, port),
    {
        proof {
            super::lemma_sound_parts(self@);
        }
        match port {
            Some(port) => self.redirect(target, port),
            None => {},
        }
        let i: usize = target.slot as usize;
        proof {
            assert(self@.actors.len() == old(self)@.actors.len());
            assert(self@.actors.len() == self.actors@.len());
            assert(self.actors@[i as int]@ == self@.at(target));
        }
        let last: usize = self.actors[i].queue.len() - 1;
        let envelope = self.actors[i].queue[last].envelope.clone();
        self.share(stored.id);
        let context = HeldPayload::new(stored, self.id, Some(Arc::new(envelope)));
        let ghost prior = *self;
        let _kept = self.operations.set_context(id, context);
        proof {
            self.lemma_ops_changed(prior);
        }
        self.settle();
        self.mark(owner);
    }

    pub fn complete_operation(&mut self, id: OperationId, target: ActorRef, p: Payload) -> (result: Result<
        bool,
        Error,
    >)
        requires
            old(self).inv(),
        ensures
            final(self).inv(),
            exists|now: Instant, later: Instant, charge: usize| #[trigger]
                old(self)@.clock.reads(now) && #[trigger] old(self)@.clock.reads(later)
                    && #[trigger] payload::may_charge(p, charge) && (final(self)@, result) == old(
                    self,
                )@.answering(now, later, id, target, p, charge, None),
    {
        self.complete_operation_with(id, target, p, None)
    }

    /// Answers a request; whether this answer is the one that counts.
    pub fn complete_operation_with(
        &mut self,
        id: OperationId,
        target: ActorRef,
        p: Payload,
        options: Option<MessageOptions>,
    ) -> (result: Result<bool, Error>)
        requires
            old(self).inv(),
        ensures
            final(self).inv(),
            exists|now: Instant, later: Instant, charge: usize| #[trigger]
                old(self)@.clock.reads(now) && #[trigger] old(self)@.clock.reads(later)
                    && #[trigger] payload::may_charge(p, charge) && (final(self)@, result) == old(
                    self,
                )@.answering(now, later, id, target, p, charge, options),
    {
        let now = self.now();
        let charge = p.bytes();
        let later = self.now();
        self.complete_at(now, later, id, target, p, charge, options)
    }

    /// Answers at a given time and charge. The second time is that of the
    /// result, once it is stored.
    pub fn complete_at(
        &mut self,
        now: Instant,
        later: Instant,
        id: OperationId,
        target: ActorRef,
        p: Payload,
        charge: usize,
        options: Option<MessageOptions>,
    ) -> (result: Result<bool, Error>)
        requires
            old(self).inv(),
        ensures
            final(self).inv(),
            (final(self)@, result) == old(self)@.answering(
                now,
                later,
                id,
                target,
                p,
                charge,
                options,
            ),
    {
        proof {
            self.lemma_sound();
            super::lemma_sound_parts(self@);
            super::keeping::lemma_answering(self@, now, later, id, target, p, charge, options);
        }
        let _timed_out = self.time_out(now, now, id, Some(target));
        let (owner, metadata): (ActorRef, MessageOptions) = match self.operations.status(id) {
            Ok(OperationStatus::Pending(request)) => {
                match self.answer_refusal(request, target, &options) {
                    Some(e) => return Err(e),
                    None => {},
                }
                (request.owner, answer_metadata(request, target, options))
            },
            Ok(OperationStatus::Terminal(_)) => {
                self.count_late_result(now, id, target);
                return Ok(false);
            },
            Err(Error::StaleReference) => {
                self.count_late_result(now, id, target);
                return Ok(false);
            },
            Err(e) => return Err(e),
        };
        self.settle_op(now, later, id, target, p, charge, owner, metadata)
    }

    fn answer_refusal(
        &self,
        request: &PendingOperation,
        target: ActorRef,
        options: &Option<MessageOptions>,
    ) -> (r: Option<Error>)
        requires
            self.steady(),
        ensures
            r == self@.refuses_answer(*request, target, *options),
    {
        if request.target != target {
            return Some(Error::StaleReference);
        }
        match self.execution(request.owner) {
            Err(e) => return Some(e),
            Ok(Lifecycle::Active) => {},
            Ok(Lifecycle::Quiescing) => {},
            Ok(_) => return Some(Error::ActorStopped),
        }
        match self.execution(target) {
            Err(e) => return Some(e),
            Ok(Lifecycle::Active) => {},
            Ok(Lifecycle::Quiescing) => {},
            Ok(_) => return Some(Error::ActorStopped),
        }
        match options {
            Some(options) => {
                match options.validate() {
                    Ok(_) => {},
                    Err(e) => return Some(e),
                }
                match options.source {
                    Some(source) => {
                        if source != target {
                            return Some(Error::InvalidMetadata);
                        }
                    },
                    None => {},
                }
            },
            None => {},
        }
        None
    }

    fn settle_op(
        &mut self,
        now: Instant,
        later: Instant,
        id: OperationId,
        target: ActorRef,
        p: Payload,
        charge: usize,
        owner: ActorRef,
        options: MessageOptions,
    ) -> (result: Result<bool, Error>)
        requires
            old(self).steady(),
            old(self)@.ops.has(id),
            old(self)@.ops.entry(id) is Pending,
        ensures
            final(self).steady(),
            (final(self)@, result) == old(self)@.settling(
                now,
                later,
                id,
                target,
                p,
                charge,
                owner,
                options,
            ),
    {
        proof {
            super::lemma_sound_parts(self@);
        }
        let deadline = options.deadline;
        if is_due(deadline, now) {
            let _won = self.complete_op(id, TerminalOutcome::TimedOut);
            self.count_timeout(now, id, Some(target));
            return Ok(false);
        }
        let stored = match self.store(p, charge, options, None) {
            Ok(stored) => stored,
            Err(_) => {
                let _won = self.complete_op(id, oversized_result());
                self.count_op();
                return Ok(true);
            },
        };
        let share: u64 = stored.id;
        let event = match self.draw_event() {
            Ok(event) => event,
            Err(e) => {
                self.release(share);
                return Err(e);
            },
        };
        let envelope = match self.envelope_for(owner, &stored, None, event, later) {
            Ok(envelope) => envelope,
            Err(e) => {
                self.release(share);
                return Err(e);
            },
        };
        if is_due(deadline, later) {
            self.release(share);
            let _won = self.complete_op(id, TerminalOutcome::TimedOut);
            self.count_timeout(later, id, Some(target));
            return Ok(false);
        }
        let held = HeldPayload::new(stored, self.id, Some(Arc::new(envelope)));
        let _won = self.complete_op(id, TerminalOutcome::Completed(held));
        self.count_op();
        Ok(true)
    }

    /// Withdraws a request; whether it was still open.
    pub fn cancel_operation(&mut self, id: OperationId) -> (result: Result<bool, Error>)
        requires
            old(self).inv(),
        ensures
            final(self).inv(),
            (final(self)@, result) == old(self)@.cancelling_op(id),
    {
        proof {
            super::keeping::lemma_cancelling_op(self@, id);
        }
        let result = self.complete_op(id, TerminalOutcome::Cancelled);
        match result {
            Ok(true) => self.count_op_cancellation(),
            _ => {},
        }
        result
    }

    pub fn operation_status(&self, id: OperationId) -> (r: Result<OperationStatus<'_>, Error>)
        requires
            self.inv(),
        ensures
            match r {
                Ok(OperationStatus::Pending(p)) => self@.ops.has(id) && self@.ops.entry(id)
                    == EntryView::Pending(*p),
                Ok(OperationStatus::Terminal(outcome)) => self@.ops.has(id) && self@.ops.entry(
                    id,
                ) is Terminal && self@.ops.entry(id)->outcome == outcome@,
                Err(e) => !self@.ops.has(id) && e == self@.ops.missing(id),
            },
    {
        self.operations.status(id)
    }

    /// Hands out the outcome of an operation that has ended.
    pub fn take_operation(&mut self, id: OperationId) -> (r: Result<Option<TerminalOutcome>, Error>)
        requires
            old(self).inv(),
        ensures
            final(self).inv(),
            final(self)@ == old(self)@.taking_op(id),
            match r {
                Ok(Some(outcome)) => old(self)@.ops.has(id) && old(self)@.ops.entry(id) is Terminal
                    && outcome@ == old(self)@.ops.entry(id)->outcome,
                Ok(None) => old(self)@.ops.has(id) && old(self)@.ops.entry(id) is Pending,
                Err(e) => !old(self)@.ops.has(id) && e == old(self)@.ops.missing(id),
            },
    {
        proof {
            super::keeping::lemma_taking_op(self@, id);
        }
        let ghost prior = *self;
        let owner = match self.operations.participants(id) {
            Ok((owner, _)) => owner,
            Err(e) => return Err(e),
        };
        let r = self.operations.take(id);
        match r {
            Ok(Some(outcome)) => {
                proof {
                    prior.lemma_operations();
                    prior@.ops.lemma_vacated(id);
                    self.lemma_ops_changed(prior);
                }
                self.settle();
                self.mark(owner);
                match &outcome {
                    TerminalOutcome::Completed(held) => self.lend(held.stored().id),
                    _ => {},
                }
                Ok(Some(outcome))
            },
            other => {
                proof {
                    self.lemma_kept(prior);
                }
                other
            },
        }
    }
}

fn answer_metadata(request: &PendingOperation, target: ActorRef, options: Option<MessageOptions>) -> (r:
    MessageOptions)
    ensures
        r == answer_options(*request, target, options),
{
    let inherited = match &request.context {
        Some(held) => match held.envelope() {
            Some(envelope) => envelope.child_options(target),
            None => MessageOptions::default(),
        },
        None => MessageOptions::default(),
    };
    let merged = match options {
        Some(asked) => merge_options(inherited, asked),
        None => inherited,
    };
    MessageOptions {
        source: Some(target),
        deadline: merged.deadline,
        correlation_id: merged.correlation_id,
        causation_id: merged.causation_id,
        trace: merged.trace,
    }
}

} // verus!
