//! Failures and who is told of them. One failure of a child waits at a time;
//! repeats are counted.
use vstd::prelude::*;
use std::sync::Arc;
use super::{ActorView, Notification, World, WorldView};
use super::fence;
use crate::clock;
use crate::clock::Instant;
use crate::diagnostics;
use crate::failures::{FailureAction, FailureDetails, FailurePhase, FailureRecord};
use crate::operations::{EntryView, OperationId, OperationStatus};
use crate::types;
use crate::types::{ActorRef, Error, Lifecycle, Metrics};

verus! {

/// A failure in the hands of a supervisor.
#[derive(Debug)]
pub struct FailureLease {
    supervisor: ActorRef,
    notification: Notification,
}

impl FailureLease {
    pub closed spec fn holder(self) -> ActorRef {
        self.supervisor
    }

    pub closed spec fn notice(self) -> Notification {
        self.notification
    }

    pub fn failure(&self) -> (r: &Arc<FailureRecord>)
        ensures
            *r == self.notice().failure,
    {
        &self.notification.failure
    }

    pub fn coalesced(&self) -> (r: u64)
        ensures
            r == self.notice().coalesced,
    {
        self.notification.coalesced
    }
}

pub open spec fn one_more(n: u64) -> u64 {
    if n == u64::MAX {
        n
    } else {
        (n + 1) as u64
    }
}

impl WorldView {
    /// Why a failure is not recorded.
    pub open spec fn refuses_failure(self, r: ActorRef, operation: Option<OperationId>) -> Option<Error> {
        if !self.valid(r) {
            Some(self.stale(r))
        } else if self.at(r).state == Lifecycle::Stopped {
            Some(Error::ActorStopped)
        } else if operation is Some && operation->0.world != self.id {
            Some(Error::CrossWorld)
        } else if self.failure_misplaced(r, operation) is Some {
            self.failure_misplaced(r, operation)
        } else if self.next_failure == u64::MAX {
            Some(Error::LimitExceeded)
        } else {
            None
        }
    }

    /// Why an actor does not answer for an operation that is open.
    pub open spec fn failure_misplaced(self, r: ActorRef, operation: Option<OperationId>) -> Option<Error> {
        match operation {
            Some(id) => if self.ops.has(id) {
                match self.ops.entry(id) {
                    EntryView::Pending(request) => self.below(
                        request.target,
                        r,
                        Error::InvalidConfig,
                    ),
                    EntryView::Terminal { .. } => None,
                }
            } else {
                None
            },
            None => None,
        }
    }

    pub open spec fn failure_record(
        self,
        now: Instant,
        r: ActorRef,
        event_id: Option<u64>,
        schema: Option<u32>,
        operation: Option<OperationId>,
        details: FailureDetails,
        action: FailureAction,
    ) -> Arc<FailureRecord> {
        Arc::new(
            FailureRecord {
                sequence: self.next_failure,
                elapsed_ns: clock::span_ns(self.epoch, now),
                actor: r,
                event_id,
                schema,
                operation,
                details,
                action,
            },
        )
    }

    /// Whether the owner of an actor is told of its failures.
    pub open spec fn tells_owner(self, r: ActorRef, phase: FailurePhase) -> bool {
        &&& phase != FailurePhase::Supervisor
        &&& self.at(r).parent matches Some(p) && self.valid(p) && !super::is_ended(self.at(p).state)
    }

    /// After a failure was counted and recorded.
    pub open spec fn failure_counted(self, now: Instant, record: Arc<FailureRecord>) -> WorldView {
        WorldView {
            next_failure: (self.next_failure + 1) as u64,
            metrics: Metrics { failures: types::bumped(self.metrics.failures), ..self.metrics },
            history: diagnostics::recorded(
                self.history,
                now,
                diagnostics::phase_code(record.details.failed_in()),
                Some(record.actor),
                record.operation,
                Some(record),
                None,
            ),
            last_error: Some(record),
            ..self
        }
    }

    /// After the operation that failed ended.
    pub open spec fn failure_settled(self, now: Instant, operation: Option<OperationId>) -> WorldView {
        match operation {
            Some(id) => self.timing_out(now, now, id, None).failing_op(id),
            None => self,
        }
    }

    /// After the actor kept its failure, for its owner if that is told.
    pub open spec fn failure_kept(self, r: ActorRef, record: Arc<FailureRecord>, told: bool) -> WorldView {
        let a = self.at(r);
        let kept = ActorView {
            reported_failure: record.event_id,
            errors: one_more(a.errors),
            last_error: Some(record),
            ..a
        };
        if !told {
            self.put(r, kept)
        } else {
            match a.notification {
                Some(waiting) => WorldView {
                    metrics: Metrics {
                        notifications_coalesced: types::bumped(
                            self.metrics.notifications_coalesced,
                        ),
                        ..self.metrics
                    },
                    ..self
                }.put(
                    r,
                    ActorView {
                        notification: Some(
                            Notification { coalesced: one_more(waiting.coalesced), ..waiting },
                        ),
                        ..kept
                    },
                ),
                None => {
                    let v = self.put(
                        r,
                        ActorView {
                            notification: Some(Notification { failure: record, coalesced: 0 }),
                            ..kept
                        },
                    );
                    let p = a.parent->0;
                    v.put(
                        p,
                        ActorView {
                            pending_failures: super::reports::capped(v.at(p).pending_failures, 1),
                            ..v.at(p)
                        },
                    )
                },
            }
        }
    }

    /// What a failure leads to.
    pub open spec fn acted(self, now: Instant, r: ActorRef, action: FailureAction) -> (
        WorldView,
        Result<(), Error>,
    ) {
        match action {
            FailureAction::Continue => (self, Ok(())),
            FailureAction::StopWorld => (self.closing(now), Ok(())),
            FailureAction::StopActor => {
                let (v, result) = self.stopping(now, r);
                (
                    v,
                    match result {
                        Ok(_) => Ok(()),
                        Err(Error::StaleReference) => Ok(()),
                        Err(e) => Err(e),
                    },
                )
            },
        }
    }

    pub open spec fn failing(
        self,
        now: Instant,
        r: ActorRef,
        event_id: Option<u64>,
        schema: Option<u32>,
        operation: Option<OperationId>,
        details: FailureDetails,
        action: FailureAction,
    ) -> (WorldView, Result<Arc<FailureRecord>, Error>) {
        match self.refuses_failure(r, operation) {
            Some(e) => (self, Err(e)),
            None => {
                let record = self.failure_record(
                    now,
                    r,
                    event_id,
                    schema,
                    operation,
                    details,
                    action,
                );
                let told = self.tells_owner(r, details.failed_in());
                let v = self.failure_counted(now, record).failure_settled(
                    now,
                    operation,
                ).failure_kept(r, record, told).marked(r);
                let (n, result) = v.acted(now, r, action);
                match result {
                    Err(e) => (n, Err(e)),
                    Ok(_) => (
                        match self.at(r).parent {
                            Some(p) => n.refreshed(p),
                            None => n,
                        },
                        Ok(record),
                    ),
                }
            },
        }
    }

    /// The child whose waiting failure came first.
    pub open spec fn first_report(self, children: Seq<ActorRef>) -> Option<ActorRef>
        decreases children.len(),
    {
        if children.len() == 0 {
            None
        } else {
            let c = children.last();
            let best = self.first_report(children.drop_last());
            if !self.valid(c) || self.at(c).notification is None {
                best
            } else {
                match best {
                    Some(b) => if self.at(c).notification->0.failure.sequence < self.at(
                        b,
                    ).notification->0.failure.sequence {
                        Some(c)
                    } else {
                        best
                    },
                    None => Some(c),
                }
            }
        }
    }

    /// After a supervisor took the failure of a child.
    pub open spec fn failure_claimed(self, supervisor: ActorRef, source: ActorRef) -> WorldView {
        let v = self.put(source, ActorView { notification: None, ..self.at(source) });
        let n = v.put(
            supervisor,
            ActorView {
                pending_failures: fence::less_one(v.at(supervisor).pending_failures),
                control_in_flight: true,
                ..v.at(supervisor)
            },
        ).marked(supervisor).refreshed(supervisor);
        WorldView {
            metrics: Metrics {
                notifications_delivered: types::bumped(n.metrics.notifications_delivered),
                ..n.metrics
            },
            ..n
        }.finalized(source)
    }

    /// After the control slot of an actor is free again.
    pub open spec fn control_freed(self, r: ActorRef) -> WorldView {
        if self.valid(r) {
            self.put(r, ActorView { control_in_flight: false, ..self.at(r) })
        } else {
            self
        }
    }

    pub open spec fn failure_handled(
        self,
        now: Instant,
        supervisor: ActorRef,
        actor: ActorRef,
        action: Option<FailureAction>,
    ) -> (WorldView, Result<(), Error>) {
        let (v, result) = match action {
            Some(action) => if supervisor.world == self.id {
                self.acted(now, actor, action)
            } else {
                (self, Ok(()))
            },
            None => (self, Ok(())),
        };
        if v.valid(supervisor) {
            (v.control_freed(supervisor).finalized(supervisor), result)
        } else {
            (v, Err(v.stale(supervisor)))
        }
    }

    /// After a supervisor gave a failure up.
    pub open spec fn failure_abandoned(self, supervisor: ActorRef) -> WorldView {
        let v = self.control_freed(supervisor);
        WorldView {
            metrics: Metrics {
                notifications_discarded: types::bumped(v.metrics.notifications_discarded),
                ..v.metrics
            },
            ..v
        }.finalized(supervisor)
    }
}

impl World {
    fn failure_refusal(&self, r: ActorRef, operation: Option<OperationId>) -> (e: Option<Error>)
        requires
            self.steady(),
        ensures
            e == self@.refuses_failure(r, operation),
    {
        let i = match self.locate(r) {
            Ok(i) => i,
            Err(e) => return Some(e),
        };
        if self.actors[i].state == Lifecycle::Stopped {
            return Some(Error::ActorStopped);
        }
        match operation {
            Some(id) => {
                if id.world != self.id {
                    return Some(Error::CrossWorld);
                }
                match self.operations.status(id) {
                    Ok(OperationStatus::Pending(request)) => {
                        match self.check_below(request.target, r, Error::InvalidConfig) {
                            Some(e) => return Some(e),
                            None => {},
                        }
                    },
                    _ => {},
                }
            },
            None => {},
        }
        if self.next_failure == u64::MAX {
            return Some(Error::LimitExceeded);
        }
        None
    }

    fn owner_told(&self, r: ActorRef, phase: FailurePhase) -> (told: bool)
        requires
            self.steady(),
            self@.valid(r),
        ensures
            told == self@.tells_owner(r, phase),
    {
        if phase == FailurePhase::Supervisor {
            return false;
        }
        let i: usize = r.slot as usize;
        proof {
            assert(self.actors@.len() == self@.actors.len());
            assert(self.actors@[i as int]@ == self@.at(r));
        }
        match self.actors[i].parent {
            Some(p) => match self.locate(p) {
                Ok(k) => match self.actors[k].state {
                    Lifecycle::Stopping | Lifecycle::Stopped => false,
                    _ => true,
                },
                Err(_) => false,
            },
            None => false,
        }
    }

    fn count_failure(&mut self, now: Instant, record: &Arc<FailureRecord>)
        requires
            old(self).steady(),
            old(self)@.next_failure < u64::MAX,
        ensures
            final(self).steady(),
            final(self)@ == old(self)@.failure_counted(now, *record),
    {
        proof {
            super::lemma_sound_parts(self@);
        }
        self.next_failure = self.next_failure + 1;
        self.metrics.failures = self.metrics.failures.wrapping_add(1);
        self.diagnostics.record_failure(now, record.clone());
        self.last_error = Some(record.clone());
        proof {
            self.lemma_kept(*old(self));
        }
    }

    fn settle_failure(&mut self, now: Instant, operation: Option<OperationId>)
        requires
            old(self).steady(),
        ensures
            final(self).steady(),
            final(self)@ == old(self)@.failure_settled(now, operation),
            fence::same_actors(old(self)@, final(self)@),
    {
        let ghost v = self@;
        match operation {
            Some(id) => {
                let _ended = self.time_out(now, now, id, None);
                let ghost mid = self@;
                self.fail_op(id);
                proof {
                    super::actors::lemma_with_ops(
                        v,
                        v.ops.completed(id, crate::operations::OutcomeView::TimedOut),
                    );
                    super::actors::lemma_with_ops(
                        mid,
                        mid.ops.completed(id, super::requests::handler_failed()),
                    );
                }
            },
            None => {},
        }
    }

    /// Keeps a failure with its actor; whether its owner has one more to look at.
    fn keep_with_actor(&mut self, r: ActorRef, record: &Arc<FailureRecord>, told: bool) -> (fresh: bool)
        requires
            old(self).steady(),
            old(self)@.valid(r),
        ensures
            final(self).steady(),
            fresh == (told && old(self)@.at(r).notification is None),
            final(self)@.same_roster(old(self)@),
            ({
                let a = old(self)@.at(r);
                let kept = ActorView {
                    reported_failure: record.event_id,
                    errors: one_more(a.errors),
                    last_error: Some(*record),
                    ..a
                };
                final(self)@ == (if !told {
                    old(self)@.put(r, kept)
                } else {
                    match a.notification {
                        Some(waiting) => WorldView {
                            metrics: Metrics {
                                notifications_coalesced: types::bumped(
                                    old(self)@.metrics.notifications_coalesced,
                                ),
                                ..old(self)@.metrics
                            },
                            ..old(self)@
                        }.put(
                            r,
                            (ActorView {
                                notification: Some(
                                    (Notification {
                                        coalesced: one_more(waiting.coalesced),
                                        ..waiting
                                    }),
                                ),
                                ..kept
                            }),
                        ),
                        None => old(self)@.put(
                            r,
                            (ActorView {
                                notification: Some(
                                    (Notification { failure: *record, coalesced: 0 }),
                                ),
                                ..kept
                            }),
                        ),
                    }
                })
            }),
    {
        let ghost v = self@;
        let i: usize = r.slot as usize;
        assert(self.actors@.len() == v.actors.len());
        let a = self.actor_mut(i);
        a.reported_failure = record.event_id;
        a.errors = a.errors.saturating_add(1);
        a.last_error = Some(record.clone());
        if !told {
            assert(self@.actors =~= v.actors.update(i as int, self@.actors[i as int]));
            return false;
        }
        match a.notification.take() {
            Some(waiting) => {
                a.notification = Some(
                    Notification {
                        failure: waiting.failure,
                        coalesced: waiting.coalesced.saturating_add(1),
                    },
                );
                let ghost prior = *self;
                self.metrics.notifications_coalesced =
                self.metrics.notifications_coalesced.wrapping_add(1);
                proof {
                    self.lemma_kept(prior);
                    assert(self@.actors =~= v.actors.update(i as int, self@.actors[i as int]));
                }
                false
            },
            None => {
                a.notification = Some(Notification { failure: record.clone(), coalesced: 0 });
                assert(self@.actors =~= v.actors.update(i as int, self@.actors[i as int]));
                true
            },
        }
    }

    fn expect_one_more(&mut self, p: ActorRef)
        requires
            old(self).steady(),
            old(self)@.valid(p),
        ensures
            final(self).steady(),
            final(self)@ == old(self)@.put(
                p,
                (ActorView {
                    pending_failures: super::reports::capped(old(self)@.at(p).pending_failures, 1),
                    ..old(self)@.at(p)
                }),
            ),
    {
        let ghost v = self@;
        let i: usize = p.slot as usize;
        assert(self.actors@.len() == v.actors.len());
        let a = self.actor_mut(i);
        a.pending_failures = a.pending_failures.saturating_add(1);
        assert(self@.actors =~= v.put(
            p,
            ActorView {
                pending_failures: super::reports::capped(v.at(p).pending_failures, 1),
                ..v.at(p)
            },
        ).actors);
    }

    fn keep_failure(&mut self, r: ActorRef, record: &Arc<FailureRecord>, told: bool)
        requires
            old(self).steady(),
            old(self)@.valid(r),
            told ==> (old(self)@.at(r).parent matches Some(p) && old(self)@.valid(p)),
        ensures
            final(self).steady(),
            final(self)@ == old(self)@.failure_kept(r, *record, told),
    {
        let ghost v = self@;
        let i: usize = r.slot as usize;
        proof {
            assert(self.actors@.len() == self@.actors.len());
            assert(self.actors@[i as int]@ == self@.at(r));
        }
        let parent = self.actors[i].parent;
        let fresh = self.keep_with_actor(r, record, told);
        if fresh {
            match parent {
                Some(p) => {
                    proof {
                        super::actors::lemma_same_roster(v, self@, p);
                    }
                    self.expect_one_more(p);
                },
                None => {},
            }
        }
    }

    fn act(&mut self, now: Instant, r: ActorRef, action: FailureAction) -> (result: Result<(), Error>)
        requires
            old(self).steady(),
        ensures
            final(self).steady(),
            (final(self)@, result) == old(self)@.acted(now, r, action),
    {
        match action {
            FailureAction::Continue => Ok(()),
            FailureAction::StopWorld => {
                let _report = self.close_now(now);
                Ok(())
            },
            FailureAction::StopActor => match self.stop_now(now, r) {
                Ok(_) => Ok(()),
                Err(Error::StaleReference) => Ok(()),
                Err(e) => Err(e),
            },
        }
    }

    /// Records a failure of an actor, tells its owner, and does what was asked.
    pub fn report_failure(
        &mut self,
        r: ActorRef,
        event_id: Option<u64>,
        schema: Option<u32>,
        operation: Option<OperationId>,
        details: FailureDetails,
        action: FailureAction,
    ) -> (result: Result<Arc<FailureRecord>, Error>)
        requires
            old(self).inv(),
        ensures
            final(self).inv(),
            exists|now: Instant| #[trigger]
                old(self)@.clock.reads(now) && (final(self)@, result) == old(self)@.failing(
                    now,
                    r,
                    event_id,
                    schema,
                    operation,
                    details,
                    action,
                ),
    {
        let now = self.now();
        self.report_failure_at(now, r, event_id, schema, operation, details, action)
    }

    pub fn report_failure_at(
        &mut self,
        now: Instant,
        r: ActorRef,
        event_id: Option<u64>,
        schema: Option<u32>,
        operation: Option<OperationId>,
        details: FailureDetails,
        action: FailureAction,
    ) -> (result: Result<Arc<FailureRecord>, Error>)
        requires
            old(self).inv(),
        ensures
            final(self).inv(),
            (final(self)@, result) == old(self)@.failing(
                now,
                r,
                event_id,
                schema,
                operation,
                details,
                action,
            ),
    {
        proof {
            self.lemma_orderly();
            self.lemma_sound();
            super::lemma_sound_parts(self@);
            super::turning::lemma_failing(
                self@,
                now,
                r,
                event_id,
                schema,
                operation,
                details,
                action,
            );
        }
        let ghost v = self@;
        match self.failure_refusal(r, operation) {
            Some(e) => return Err(e),
            None => {},
        }
        let phase = details.phase();
        let told = self.owner_told(r, phase);
        let i: usize = r.slot as usize;
        proof {
            assert(self.actors@.len() == self@.actors.len());
            assert(self.actors@[i as int]@ == self@.at(r));
        }
        let parent = self.actors[i].parent;
        let record = Arc::new(
            FailureRecord {
                sequence: self.next_failure,
                elapsed_ns: now.since_ns(self.epoch),
                actor: r,
                event_id,
                schema,
                operation,
                details,
                action,
            },
        );
        assert(record == v.failure_record(now, r, event_id, schema, operation, details, action));
        self.count_failure(now, &record);
        self.settle_failure(now, operation);
        self.keep_failure(r, &record, told);
        self.mark(r);
        match self.act(now, r, action) {
            Ok(_) => {},
            Err(e) => return Err(e),
        }
        match parent {
            Some(p) => self.refresh(p),
            None => {},
        }
        Ok(record)
    }

    fn find_report(&self, i: usize) -> (r: Option<ActorRef>)
        requires
            self.steady(),
            i < self@.actors.len(),
        ensures
            r == self@.first_report(self@.actors[i as int].children),
            r matches Some(c) ==> self@.valid(c) && self@.at(c).notification is Some,
    {
        let ghost children = self@.actors[i as int].children;
        let mut best: Option<ActorRef> = None;
        let mut sequence: u64 = 0;
        let mut k: usize = 0;
        proof {
            assert(self.actors@.len() == self@.actors.len());
            assert(children == self.actors@[i as int].children@);
            assert(children.take(0) =~= Seq::<ActorRef>::empty());
        }
        while k < self.actors[i].children.len()
            invariant
                self.steady(),
                i < self.actors@.len(),
                children == self.actors@[i as int].children@,
                k <= children.len(),
                best == self@.first_report(children.take(k as int)),
                best matches Some(c) ==> self@.valid(c) && self@.at(c).notification is Some
                    && sequence == self@.at(c).notification->0.failure.sequence,
            decreases children.len() - k,
        {
            let c: ActorRef = self.actors[i].children[k];
            proof {
                assert(children.take(k + 1).drop_last() =~= children.take(k as int));
                assert(children.take(k + 1).last() == c);
            }
            match self.locate(c) {
                Ok(j) => match &self.actors[j].notification {
                    Some(waiting) => {
                        let earlier: bool = match best {
                            Some(_) => waiting.failure.sequence < sequence,
                            None => true,
                        };
                        if earlier {
                            best = Some(c);
                            sequence = waiting.failure.sequence;
                        }
                    },
                    None => {},
                },
                Err(_) => {},
            }
            k += 1;
        }
        assert(children.take(k as int) =~= children);
        best
    }

    fn take_notice(&mut self, source: ActorRef) -> (r: Option<Notification>)
        requires
            old(self).steady(),
            old(self)@.valid(source),
        ensures
            final(self).steady(),
            r == old(self)@.at(source).notification,
            final(self)@ == old(self)@.put(
                source,
                (ActorView { notification: None, ..old(self)@.at(source) }),
            ),
    {
        let ghost v = self@;
        let i: usize = source.slot as usize;
        assert(self.actors@.len() == v.actors.len());
        let a = self.actor_mut(i);
        let r = a.notification.take();
        assert(self@.actors =~= v.put(
            source,
            ActorView { notification: None, ..v.at(source) },
        ).actors);
        r
    }

    fn take_control(&mut self, supervisor: ActorRef)
        requires
            old(self).steady(),
            old(self)@.valid(supervisor),
        ensures
            final(self).steady(),
            final(self)@ == old(self)@.put(
                supervisor,
                (ActorView {
                    pending_failures: fence::less_one(old(self)@.at(supervisor).pending_failures),
                    control_in_flight: true,
                    ..old(self)@.at(supervisor)
                }),
            ),
    {
        let ghost v = self@;
        let i: usize = supervisor.slot as usize;
        assert(self.actors@.len() == v.actors.len());
        let a = self.actor_mut(i);
        a.pending_failures = a.pending_failures.saturating_sub(1);
        a.control_in_flight = true;
        assert(self@.actors =~= v.put(
            supervisor,
            ActorView {
                pending_failures: fence::less_one(v.at(supervisor).pending_failures),
                control_in_flight: true,
                ..v.at(supervisor)
            },
        ).actors);
    }

    /// Takes the first waiting failure of an actor's children.
    pub fn claim_failure(&mut self, supervisor: ActorRef) -> (result: Result<
        Option<FailureLease>,
        Error,
    >)
        requires
            old(self).inv(),
        ensures
            final(self).inv(),
            if !old(self)@.valid(supervisor) {
                result == Err::<Option<FailureLease>, Error>(old(self)@.stale(supervisor))
                    && final(self)@ == old(self)@
            } else if old(self)@.at(supervisor).in_flight || old(self)@.at(
                supervisor,
            ).control_in_flight {
                result == Ok::<Option<FailureLease>, Error>(None) && final(self)@ == old(self)@
            } else {
                match old(self)@.execution(supervisor) {
                    Err(e) => result == Err::<Option<FailureLease>, Error>(e) && final(self)@ == old(
                        self,
                    )@,
                    Ok(state) => {
                        let source = old(self)@.first_report(old(self)@.at(supervisor).children);
                        if !super::is_running(state) || source is None {
                            result == Ok::<Option<FailureLease>, Error>(None) && final(self)@ == old(
                                self,
                            )@
                        } else {
                            &&& result matches Ok(Some(lease))
                            &&& lease.holder() == supervisor
                            &&& Some(lease.notice()) == old(self)@.at(source->0).notification
                            &&& final(self)@ == old(self)@.failure_claimed(supervisor, source->0)
                        }
                    },
                }
            },
    {
        proof {
            if self@.valid(supervisor) {
                match self@.first_report(self@.at(supervisor).children) {
                    Some(source) => {
                        super::turning::lemma_failure_claimed(self@, supervisor, source);
                    },
                    None => {},
                }
            }
        }
        let ghost v = self@;
        let i = match self.locate(supervisor) {
            Ok(i) => i,
            Err(e) => return Err(e),
        };
        if self.actors[i].in_flight || self.actors[i].control_in_flight {
            return Ok(None);
        }
        match self.execution(supervisor) {
            Err(e) => return Err(e),
            Ok(Lifecycle::Active) => {},
            Ok(Lifecycle::Quiescing) => {},
            Ok(_) => return Ok(None),
        }
        let source = match self.find_report(i) {
            Some(source) => source,
            None => return Ok(None),
        };
        let notification = match self.take_notice(source) {
            Some(notification) => notification,
            None => {
                assert(false);
                return Ok(None);
            },
        };
        self.take_control(supervisor);
        self.mark(supervisor);
        self.refresh(supervisor);
        let ghost prior = *self;
        self.metrics.notifications_delivered = self.metrics.notifications_delivered.wrapping_add(1);
        proof {
            self.lemma_kept(prior);
        }
        self.finalize(source);
        Ok(Some(FailureLease { supervisor, notification }))
    }

    pub(super) fn free_control(&mut self, r: ActorRef)
        requires
            old(self).steady(),
        ensures
            final(self).steady(),
            final(self)@ == old(self)@.control_freed(r),
    {
        let ghost v = self@;
        match self.locate(r) {
            Ok(i) => {
                let a = self.actor_mut(i);
                a.control_in_flight = false;
                assert(self@.actors =~= v.control_freed(r).actors);
            },
            Err(_) => {},
        }
    }
}

impl FailureLease {
    /// The supervisor decided.
    pub fn finish(self, world: &mut World, action: Option<FailureAction>) -> (result: Result<
        (),
        Error,
    >)
        requires
            old(world).inv(),
        ensures
            final(world).inv(),
            exists|now: Instant| #[trigger]
                old(world)@.clock.reads(now) && (final(world)@, result) == old(
                    world,
                )@.failure_handled(now, self.holder(), self.notice().failure.actor, action),
            self.holder().world != old(world)@.id ==> final(world)@ == old(world)@ && result
                == Err::<(), Error>(Error::CrossWorld),
    {
        let now = world.now();
        self.finish_at(world, now, action)
    }

    pub fn finish_at(self, world: &mut World, now: Instant, action: Option<FailureAction>) -> (result:
        Result<(), Error>)
        requires
            old(world).inv(),
        ensures
            final(world).inv(),
            (final(world)@, result) == old(world)@.failure_handled(
                now,
                self.holder(),
                self.notice().failure.actor,
                action,
            ),
            self.holder().world != old(world)@.id ==> final(world)@ == old(world)@ && result
                == Err::<(), Error>(Error::CrossWorld),
    {
        proof {
            world.lemma_orderly();
            super::turning::lemma_failure_handled(
                world@,
                now,
                self.holder(),
                self.notice().failure.actor,
                action,
            );
        }
        if self.supervisor.world != world.id {
            return Err(Error::CrossWorld);
        }
        let result = match action {
            Some(action) => world.act(now, self.notification.failure.actor, action),
            None => Ok(()),
        };
        match world.locate(self.supervisor) {
            Ok(_) => {},
            Err(e) => return Err(e),
        }
        world.free_control(self.supervisor);
        world.finalize(self.supervisor);
        result
    }

    /// The supervisor never decided: the failure counts as discarded.
    pub fn cancel(self, world: &mut World)
        requires
            old(world).inv(),
        ensures
            final(world).inv(),
            final(world)@ == (if self.holder().world == old(world)@.id {
                old(world)@.failure_abandoned(self.holder())
            } else {
                old(world)@
            }),
    {
        proof {
            super::turning::lemma_failure_abandoned(world@, self.holder());
        }
        if self.supervisor.world != world.id {
            return;
        }
        world.free_control(self.supervisor);
        let ghost prior = *world;
        world.metrics.notifications_discarded = world.metrics.notifications_discarded.wrapping_add(
            1,
        );
        proof {
            world.lemma_kept(prior);
        }
        world.finalize(self.supervisor);
    }
}

} // verus!
