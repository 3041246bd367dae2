//! Claims: an actor takes the next delivery of its mailbox.
use vstd::prelude::*;
use super::{ActorView, World, WorldView};
use crate::clock;
use crate::clock::{is_due, Instant};
use crate::diagnostics;
use crate::diagnostics::DiagnosticCode;
use crate::envelope::Envelope;
use crate::expiry;
use crate::held;
use crate::held::Delivery;
use crate::operations::{OperationId, OperationStatus, OutcomeView, TerminalOutcome};
use crate::payload::Payload;
use crate::types;
use crate::types::{ActorRef, Error, Lifecycle, Metrics};

verus! {

/// A delivery in the hands of its handler.
pub struct DeliveryLease {
    target: ActorRef,
    delivery: Delivery,
}

impl DeliveryLease {
    pub closed spec fn holder(self) -> ActorRef {
        self.target
    }

    pub closed spec fn held(self) -> Delivery {
        self.delivery
    }

    pub fn target(&self) -> (r: ActorRef)
        ensures
            r == self.holder(),
    {
        self.target
    }

    pub fn envelope(&self) -> (r: &Envelope)
        ensures
            *r == self.held().envelope,
    {
        &self.delivery.envelope
    }

    pub fn payload(&self) -> (r: &Payload)
        ensures
            *r == self.held().payload.payload,
    {
        &self.delivery.payload.payload
    }

    pub fn event_id(&self) -> (r: u64)
        ensures
            r == self.held().event_id,
    {
        self.delivery.event_id
    }

    pub fn operation(&self) -> (r: Option<OperationId>)
        ensures
            r == self.held().operation,
    {
        self.delivery.operation
    }
}

impl WorldView {
    /// Whether each of some times is a reading of the clock.
    pub open spec fn read_all(self, times: Seq<Instant>) -> bool {
        forall|i: int| 0 <= i < times.len() ==> self.clock.reads(#[trigger] times[i])
    }

    /// After a delivery was dropped because its time had come.
    pub open spec fn expiring(self, now: Instant, at: Instant, d: Delivery) -> WorldView {
        let v = WorldView {
            metrics: Metrics {
                expired: types::bumped(self.metrics.expired),
                cancelled: types::bumped(self.metrics.cancelled),
                discarded: types::bumped(self.metrics.discarded),
                ..self.metrics
            },
            history: diagnostics::recorded(
                self.history,
                at,
                DiagnosticCode::DeadlineExpired,
                Some(d.envelope.destination),
                d.operation,
                None,
                Some(d.envelope),
            ),
            ..self
        };
        match d.operation {
            Some(id) => v.timing_out(now, at, id, Some(d.envelope.destination)),
            None => v,
        }
    }

    pub open spec fn cancellation_counted(self) -> WorldView {
        WorldView {
            metrics: Metrics { cancelled: types::bumped(self.metrics.cancelled), ..self.metrics },
            ..self
        }
    }

    /// After the first delivery left a mailbox.
    pub open spec fn unqueued(self, r: ActorRef) -> WorldView {
        self.put(
            r,
            ActorView { queue: self.at(r).queue.drop_first(), ..self.at(r) },
        ).refreshed(r).marked(r)
    }

    pub open spec fn op_is_open(self, id: OperationId) -> bool {
        self.ops.has(id) && self.ops.entry(id) is Pending
    }

    /// One look at the first delivery: it is taken, or dropped because nobody
    /// waits for it any more.
    #[verifier::opaque]
    pub open spec fn claim_step(self, now: Instant, r: ActorRef) -> (
        WorldView,
        Option<Option<Delivery>>,
    ) {
        if self.at(r).queue.len() == 0 {
            (self, Some(None))
        } else {
            let d = self.at(r).queue[0];
            let v = self.unqueued(r);
            if clock::due(d.envelope.deadline, now) {
                (v.expiring(now, now, d).releasing(d.payload.id), None)
            } else {
                let n = match d.operation {
                    Some(id) => v.timing_out(now, now, id, Some(r)),
                    None => v,
                };
                if d.operation is Some && !n.op_is_open(d.operation->0) {
                    (n.cancellation_counted().releasing(d.payload.id), None)
                } else if d.subscription is Some && !n.subs.dom().contains(d.subscription->0) {
                    (n.cancellation_counted().releasing(d.payload.id), None)
                } else {
                    (n.started(r).lending(d.payload.id), Some(Some(d)))
                }
            }
        }
    }

    pub open spec fn started(self, r: ActorRef) -> WorldView {
        let v = self.put(r, ActorView { in_flight: true, ..self.at(r) }).refreshed(r);
        WorldView {
            metrics: Metrics { started: types::bumped(v.metrics.started), ..v.metrics },
            ..v
        }
    }

    /// Looks at one delivery after the other, each at its own time, until one
    /// is taken or none is left.
    pub open spec fn claim_steps(self, r: ActorRef, times: Seq<Instant>) -> (
        WorldView,
        Option<Option<Delivery>>,
    )
        decreases times.len(),
    {
        if times.len() == 0 {
            (self, None)
        } else {
            let (v, end) = self.claim_steps(r, times.drop_last());
            if end is Some {
                (v, end)
            } else {
                v.claim_step(times.last(), r)
            }
        }
    }

    /// Whether an actor may take work.
    pub open spec fn claimable(self, r: ActorRef) -> bool {
        &&& self.execution(r) matches Ok(state) && super::is_running(state)
        &&& !self.at(r).in_flight
        &&& !self.at(r).control_in_flight
    }

    /// The slot of an actor has no delivery in hand any more.
    pub open spec fn landed(self, r: ActorRef) -> WorldView {
        if self.valid(r) {
            self.put(r, ActorView { in_flight: false, ..self.at(r) })
        } else {
            self
        }
    }

    /// After a handler came back.
    pub open spec fn finishing(self, now: Instant, r: ActorRef, d: Delivery, success: bool) -> WorldView {
        let v = self.returning(d.payload.id).landed(r);
        if success {
            WorldView {
                metrics: Metrics {
                    completed: types::bumped(v.metrics.completed),
                    ..v.metrics
                },
                ..v
            }.finalized(r)
        } else {
            let n = WorldView {
                metrics: Metrics { failed: types::bumped(v.metrics.failed), ..v.metrics },
                ..v
            };
            let told = if !n.valid(r) || n.at(r).reported_failure != Some(
                d.event_id,
            ) {
                n.noted(now, DiagnosticCode::HandlerFailed, Some(r), d.operation)
            } else {
                n
            };
            (match d.operation {
                Some(id) => told.failing_op(id),
                None => told,
            }).finalized(r)
        }
    }

    /// After the handler of a request failed.
    pub open spec fn failing_op(self, id: OperationId) -> WorldView {
        let v = self.op_completed(id, super::requests::handler_failed());
        if self.ops.completing(id, super::requests::handler_failed()) == Ok::<bool, Error>(true) {
            v.op_counted()
        } else {
            v
        }
    }

    /// After a delivery was given up.
    pub open spec fn abandoning(self, now: Instant, r: ActorRef, d: Delivery) -> WorldView {
        let v = self.returning(d.payload.id).landed(r).cancellation_counted();
        (match d.operation {
            Some(id) => {
                let n = v.op_completed(id, OutcomeView::Cancelled);
                if v.ops.completing(id, OutcomeView::Cancelled) == Ok::<bool, Error>(true) {
                    n.op_cancellation_counted().noted(
                        now,
                        DiagnosticCode::Cancelled,
                        Some(r),
                        Some(id),
                    )
                } else {
                    n
                }
            },
            None => v,
        }).finalized(r)
    }
}

/// Ending an operation leaves the actors and routes alone.
pub proof fn lemma_timing_out(
    v: WorldView,
    now: Instant,
    at: Instant,
    id: OperationId,
    actor: Option<ActorRef>,
)
    ensures
        v.timing_out(now, at, id, actor).actors == v.actors,
        v.timing_out(now, at, id, actor).id == v.id,
        v.timing_out(now, at, id, actor).clock == v.clock,
        v.timing_out(now, at, id, actor).subs == v.subs,
{
    super::actors::lemma_with_ops(v, v.ops.completed(id, OutcomeView::TimedOut));
}

impl World {
    /// Drops a delivery whose time has come.
    pub(super) fn expire_delivery(&mut self, now: Instant, at: Instant, d: &Delivery)
        requires
            old(self).steady(),
        ensures
            final(self).steady(),
            final(self)@ == old(self)@.expiring(now, at, *d),
    {
        proof {
            super::lemma_sound_parts(self@);
        }
        self.metrics.expired = self.metrics.expired.wrapping_add(1);
        self.metrics.cancelled = self.metrics.cancelled.wrapping_add(1);
        self.metrics.discarded = self.metrics.discarded.wrapping_add(1);
        self.diagnostics.record_event(
            at,
            DiagnosticCode::DeadlineExpired,
            &d.envelope,
            d.operation,
        );
        proof {
            self.lemma_kept(*old(self));
        }
        match d.operation {
            Some(id) => {
                let _ended = self.time_out(now, at, id, Some(d.envelope.destination));
            },
            None => {},
        }
    }

    fn count_cancellation(&mut self)
        requires
            old(self).steady(),
        ensures
            final(self).steady(),
            final(self)@ == old(self)@.cancellation_counted(),
    {
        self.metrics.cancelled = self.metrics.cancelled.wrapping_add(1);
        proof {
            self.lemma_kept(*old(self));
        }
    }

    /// Takes the first delivery out of a mailbox.
    fn unqueue(&mut self, r: ActorRef) -> (d: Delivery)
        requires
            old(self).steady(),
            old(self)@.valid(r),
            old(self)@.at(r).queue.len() > 0,
        ensures
            final(self).steady(),
            final(self)@ == old(self)@.unqueued(r),
            d == old(self)@.at(r).queue[0],
    {
        let ghost v = self@;
        let i: usize = r.slot as usize;
        let ghost queue = v.at(r).queue;
        proof {
            assert(self.actors@[i as int]@ == v.at(r));
            super::lemma_placed(v, i as int);
            if super::is_ended(v.at(r).state) {
                super::living::lemma_bare(v, i as int);
            }
            lemma_first_out(v.at(r));
        }
        let a = self.actor_mut(i);
        let d = a.queue.remove(0);
        a.queue_bytes = a.queue_bytes - d.payload.bytes;
        a.deadlines.remove(d.envelope.deadline);
        proof {
            assert(a.queue@ =~= queue.drop_first());
        }
        self.reindex(i);
        proof {
            let n = v.put(r, ActorView { queue: queue.drop_first(), ..v.at(r) });
            assert(self@.actors =~= n.actors);
            assert(self@ == n);
        }
        self.refresh(r);
        self.mark(r);
        d
    }

    fn start(&mut self, r: ActorRef)
        requires
            old(self).steady(),
            old(self)@.valid(r),
        ensures
            final(self).steady(),
            final(self)@ == old(self)@.started(r),
    {
        let ghost v = self@;
        let i: usize = r.slot as usize;
        let a = self.actor_mut(i);
        a.in_flight = true;
        assert(self@.actors =~= v.put(r, ActorView { in_flight: true, ..v.at(r) }).actors);
        self.refresh(r);
        let ghost prior = *self;
        self.metrics.started = self.metrics.started.wrapping_add(1);
        proof {
            self.lemma_kept(prior);
        }
    }

    /// Whether an operation still waits for its outcome.
    fn op_open(&self, id: OperationId) -> (r: bool)
        requires
            self.steady(),
        ensures
            r == self@.op_is_open(id),
    {
        match self.operations.status(id) {
            Ok(OperationStatus::Pending(_)) => true,
            _ => false,
        }
    }

    /// Looks at the first delivery of a mailbox.
    fn claim_once(&mut self, now: Instant, r: ActorRef) -> (end: Option<Option<Delivery>>)
        requires
            old(self).steady(),
            old(self)@.valid(r),
        ensures
            final(self).steady(),
            (final(self)@, end) == old(self)@.claim_step(now, r),
            final(self)@.valid(r),
            final(self)@.clock == old(self)@.clock,
            end is None ==> final(self)@.at(r).queue.len() < old(self)@.at(r).queue.len(),
    {
        let i: usize = r.slot as usize;
        assert(self.actors@[i as int]@ == self@.at(r));
        proof {
            reveal(WorldView::claim_step);
        }
        if self.actors[i].queue.len() == 0 {
            return Some(None);
        }
        let d = self.unqueue(r);
        let ghost v = self@;
        let share: u64 = d.payload.id;
        if is_due(d.envelope.deadline, now) {
            self.expire_delivery(now, now, &d);
            proof {
                match d.operation {
                    Some(id) => {
                        let n = WorldView {
                            metrics: Metrics {
                                expired: types::bumped(v.metrics.expired),
                                cancelled: types::bumped(v.metrics.cancelled),
                                discarded: types::bumped(v.metrics.discarded),
                                ..v.metrics
                            },
                            history: diagnostics::recorded(
                                v.history,
                                now,
                                DiagnosticCode::DeadlineExpired,
                                Some(d.envelope.destination),
                                d.operation,
                                None,
                                Some(d.envelope),
                            ),
                            ..v
                        };
                        lemma_timing_out(n, now, now, id, Some(d.envelope.destination));
                    },
                    None => {},
                }
            }
            self.release(share);
            return None;
        }
        match d.operation {
            Some(id) => {
                let _ended = self.time_out(now, now, id, Some(r));
                proof {
                    lemma_timing_out(v, now, now, id, Some(r));
                }
                if !self.op_open(id) {
                    self.count_cancellation();
                    self.release(share);
                    return None;
                }
            },
            None => {},
        }
        match d.subscription {
            Some(id) => {
                if !self.subs.contains_active(id) {
                    self.count_cancellation();
                    self.release(share);
                    return None;
                }
            },
            None => {},
        }
        self.start(r);
        self.lend(share);
        Some(Some(d))
    }

    /// Takes the next delivery of an actor that may take work.
    pub fn claim(&mut self, r: ActorRef) -> (result: Result<Option<DeliveryLease>, Error>)
        requires
            old(self).inv(),
        ensures
            final(self).inv(),
            result is Err <==> old(self)@.execution(r) is Err,
            result matches Err(e) ==> old(self)@.execution(r) == Err::<Lifecycle, Error>(e),
            !old(self)@.claimable(r) ==> final(self)@ == old(self)@ && (result matches Ok(lease)
                ==> lease is None),
            old(self)@.claimable(r) ==> exists|times: Seq<Instant>|
                {
                    let (v, end) = #[trigger] old(self)@.claim_steps(r, times);
                    &&& old(self)@.read_all(times)
                    &&& final(self)@ == v
                    &&& end is Some
                    &&& match result {
                        Ok(Some(lease)) => end->0 == Some(lease.held()) && lease.holder() == r,
                        Ok(None) => end->0 is None,
                        Err(_) => false,
                    }
                },
    {
        let ghost v = self@;
        let running: bool = match self.execution(r) {
            Err(e) => return Err(e),
            Ok(Lifecycle::Active) => true,
            Ok(Lifecycle::Quiescing) => true,
            Ok(_) => false,
        };
        let i = match self.locate(r) {
            Ok(i) => i,
            Err(e) => return Err(e),
        };
        if !running || self.actors[i].in_flight || self.actors[i].control_in_flight {
            return Ok(None);
        }
        let ghost mut times = Seq::<Instant>::empty();
        loop
            invariant
                self.steady(),
                self@.valid(r),
                v == old(self)@,
                v.claimable(r),
                v.execution(r) is Ok,
                v.valid(r),
                v.neat(super::tidy::nothing_open()),
                self@.clock == v.clock,
                v.read_all(times),
                v.claim_steps(r, times) == (self@, None::<Option<Delivery>>),
            decreases self@.at(r).queue.len(),
        {
            let now = self.now();
            let end = self.claim_once(now, r);
            proof {
                assert(times.push(now).drop_last() =~= times);
                times = times.push(now);
                super::keeping::lemma_claim_steps(v, r, times);
            }
            match end {
                Some(Some(delivery)) => {
                    let lease = DeliveryLease { target: r, delivery };
                    assert(v.claim_steps(r, times) == (self@, Some(Some(lease.held()))));
                    return Ok(Some(lease));
                },
                Some(None) => return Ok(None),
                None => {},
            }
        }
    }

    /// The slot of an actor has no delivery in hand any more.
    fn land(&mut self, r: ActorRef)
        requires
            old(self).steady(),
        ensures
            final(self).steady(),
            final(self)@ == old(self)@.landed(r),
    {
        let ghost v = self@;
        match self.locate(r) {
            Ok(i) => {
                let a = self.actor_mut(i);
                a.in_flight = false;
                assert(self@.actors =~= v.landed(r).actors);
            },
            Err(_) => {},
        }
    }

    pub(super) fn fail_op(&mut self, id: OperationId)
        requires
            old(self).steady(),
        ensures
            final(self).steady(),
            final(self)@ == old(self)@.failing_op(id),
    {
        match self.complete_op(id, super::requests::handler_failure()) {
            Ok(true) => self.count_op(),
            _ => {},
        }
    }
}

impl DeliveryLease {
    /// The handler came back.
    pub fn finish(self, world: &mut World, success: bool)
        requires
            old(world).inv(),
        ensures
            final(world).inv(),
            self.holder().world != old(world)@.id ==> final(world)@ == old(world)@,
            self.holder().world == old(world)@.id ==> exists|now: Instant| #[trigger]
                old(world)@.clock.reads(now) && final(world)@ == old(world)@.finishing(
                    now,
                    self.holder(),
                    self.held(),
                    success,
                ),
    {
        let now = world.now();
        self.finish_at(world, now, success);
    }

    pub fn finish_at(self, world: &mut World, now: Instant, success: bool)
        requires
            old(world).inv(),
        ensures
            final(world).inv(),
            final(world)@ == (if self.holder().world == old(world)@.id {
                old(world)@.finishing(now, self.holder(), self.held(), success)
            } else {
                old(world)@
            }),
    {
        proof {
            super::keeping::lemma_finishing(world@, now, self.holder(), self.held(), success);
        }
        let r = self.target;
        if r.world != world.id {
            return;
        }
        let event_id: u64 = self.delivery.event_id;
        let operation = self.delivery.operation;
        world.take_back(self.delivery.payload.id);
        world.land(r);
        let ghost prior = *world;
        if success {
            world.metrics.completed = world.metrics.completed.wrapping_add(1);
            proof {
                world.lemma_kept(prior);
            }
        } else {
            world.metrics.failed = world.metrics.failed.wrapping_add(1);
            proof {
                world.lemma_kept(prior);
            }
            let known: bool = match world.locate(r) {
                Ok(i) => match world.actors[i].reported_failure {
                    Some(reported) => reported == event_id,
                    None => false,
                },
                Err(_) => false,
            };
            if !known {
                world.note(now, DiagnosticCode::HandlerFailed, Some(r), operation);
            }
            match operation {
                Some(id) => world.fail_op(id),
                None => {},
            }
        }
        world.finalize(r);
    }

    /// The handler never came back: the delivery counts as cancelled.
    pub fn cancel(self, world: &mut World)
        requires
            old(world).inv(),
        ensures
            final(world).inv(),
            self.holder().world != old(world)@.id ==> final(world)@ == old(world)@,
            self.holder().world == old(world)@.id ==> exists|now: Instant| #[trigger]
                old(world)@.clock.reads(now) && final(world)@ == old(world)@.abandoning(
                    now,
                    self.holder(),
                    self.held(),
                ),
    {
        let now = world.now();
        self.cancel_at(world, now);
    }

    pub fn cancel_at(self, world: &mut World, now: Instant)
        requires
            old(world).inv(),
        ensures
            final(world).inv(),
            final(world)@ == (if self.holder().world == old(world)@.id {
                old(world)@.abandoning(now, self.holder(), self.held())
            } else {
                old(world)@
            }),
    {
        proof {
            super::keeping::lemma_abandoning(world@, now, self.holder(), self.held());
        }
        let r = self.target;
        if r.world != world.id {
            return;
        }
        world.take_back(self.delivery.payload.id);
        world.land(r);
        world.count_cancellation();
        match self.delivery.operation {
            Some(id) => match world.complete_op(id, TerminalOutcome::Cancelled) {
                Ok(true) => {
                    world.count_op_cancellation();
                    world.note(now, DiagnosticCode::Cancelled, Some(r), Some(id));
                },
                _ => {},
            },
            None => {},
        }
        world.finalize(r);
    }
}

/// What leaves a mailbox with its first entry.
proof fn lemma_first_out(a: ActorView)
    requires
        a.queue.len() > 0,
    ensures
        held::bytes_of(held::queue_costs(a.queue.drop_first())) == a.queue_bytes()
            - a.queue[0].payload.bytes,
        a.queue_bytes() >= a.queue[0].payload.bytes,
        (ActorView { queue: a.queue.drop_first(), ..a }).deadlines() == expiry::without_deadline(
            a.deadlines(),
            a.queue[0].envelope.deadline,
        ),
{
    let q = a.queue.drop_first();
    let d = a.queue[0];
    assert(held::queue_costs(q) =~= held::queue_costs(a.queue).drop_first());
    held::lemma_bytes_first(held::queue_costs(a.queue));
    assert(held::queue_deadlines(q) =~= held::queue_deadlines(a.queue).drop_first());
    expiry::lemma_bag_first(held::queue_deadlines(a.queue));
    let n = ActorView { queue: q, ..a };
    assert(n.deadlines() =~= expiry::without_deadline(a.deadlines(), d.envelope.deadline));
}

} // verus!
