//! Payloads on their way: storing, admission to mailboxes, and claims.
use vstd::prelude::*;
use std::sync::Arc;
use super::{ActorView, World, WorldView};
use crate::clock;
use crate::clock::{is_due, Instant};
use crate::components;
use crate::components::{ComponentDescriptor, PortDirection, PortRef, PortSpec};
use crate::envelope;
use crate::envelope::{Envelope, MessageOptions, SchemaIdentity, SchemaKind};
use crate::expiry;
use crate::held;
use crate::held::{Delivery, HeldPayload, Stored};
use crate::operations::{EntryView, OperationId, OperationStatus, OutcomeView, TerminalOutcome};
use crate::payload;
use crate::payload::Payload;
use crate::types;
use crate::types::{ActorRef, Error, Lifecycle, Metrics};

verus! {

/// Whether a port takes a payload in.
pub open spec fn takes(port: PortSpec, payload: Payload) -> bool {
    port.direction == PortDirection::Input && components::type_matches(port.schema, payload)
}

/// The first port of a component that takes a payload in.
pub open spec fn input_for(component: ComponentDescriptor, payload: Payload) -> Option<int> {
    components::first_position(component.ports@, |p: PortSpec| takes(p, payload))
}

fn find_input(component: &ComponentDescriptor, payload: &Payload) -> (r: Option<usize>)
    ensures
        match r {
            Some(i) => input_for(*component, *payload) == Some(i as int) && i < component.ports@.len(),
            None => input_for(*component, *payload) is None,
        },
{
    let ghost p = |p: PortSpec| takes(p, *payload);
    let mut i: usize = 0;
    while i < component.ports.len()
        invariant
            i <= component.ports@.len(),
            p == (|p: PortSpec| takes(p, *payload)),
            forall|j: int| 0 <= j < i ==> !p(#[trigger] component.ports@[j]),
        decreases component.ports@.len() - i,
    {
        let port = &component.ports[i];
        if port.direction == PortDirection::Input && port.schema.matches(payload) {
            proof {
                components::lemma_first_position(component.ports@, p, i as int);
            }
            return Some(i);
        }
        i += 1;
    }
    proof {
        components::lemma_first_position(component.ports@, p, i as int);
    }
    None
}

impl WorldView {
    /// What a payload costs with its metadata.
    pub open spec fn cost(charge: usize, options: MessageOptions) -> int {
        charge + options.charge()
    }

    /// Why a payload is not stored.
    pub open spec fn refuses_payload(self, p: Payload, charge: usize, options: MessageOptions) -> Option<
        Error,
    > {
        if !options.valid() {
            Some(Error::InvalidMetadata)
        } else if options.source is Some && options.source->0.world != self.id {
            Some(Error::CrossWorld)
        } else if p is Structured && p->Structured_0.world_id() != self.id {
            Some(Error::CrossWorld)
        } else if Self::cost(charge, options) > self.cfg.max_event_bytes {
            Some(Error::LimitExceeded)
        } else if !self.budget.admits(Self::cost(charge, options) as usize) {
            Some(self.budget.refusal(Self::cost(charge, options) as usize))
        } else {
            None
        }
    }

    /// A payload as it is stored next.
    pub open spec fn stored_next(
        self,
        p: Payload,
        charge: usize,
        options: MessageOptions,
        dispatcher: Option<PortRef>,
    ) -> Arc<Stored> {
        Arc::new(
            Stored {
                id: self.budget.next,
                payload: p,
                options,
                dispatcher,
                bytes: Self::cost(charge, options) as usize,
            },
        )
    }

    pub open spec fn storing(self, charge: usize, options: MessageOptions) -> WorldView {
        WorldView { budget: self.budget.reserved(Self::cost(charge, options) as usize), ..self }
    }

    /// After one more place holds a payload.
    pub open spec fn sharing(self, share: u64) -> WorldView {
        WorldView { budget: self.budget.shared(share), ..self }
    }

    /// After one more hold on a payload was given out.
    pub open spec fn sharing_out(self, held: HeldPayload) -> WorldView {
        if self.lends(held) {
            WorldView { budget: self.budget.shared_out(held.share()), ..self }
        } else {
            self
        }
    }

    /// A hold on the result that an operation keeps.
    pub open spec fn sharing_result(self, id: OperationId) -> (WorldView, Option<HeldPayload>) {
        if !self.ops.has(id) {
            (self, None)
        } else {
            match self.ops.entry(id) {
                EntryView::Terminal { outcome: OutcomeView::Completed(held), .. } => {
                    if self.budget.roomy(held.share()) {
                        (
                            WorldView { budget: self.budget.shared_out(held.share()), ..self },
                            Some(held),
                        )
                    } else {
                        (self, None)
                    }
                },
                _ => (self, None),
            }
        }
    }

    /// Why the source of a message is refused. A source that starts or drains
    /// passes only where its work was accepted before.
    pub open spec fn source_fault(self, options: MessageOptions, allow_pending: bool) -> Option<Error> {
        if !options.valid() {
            Some(Error::InvalidMetadata)
        } else {
            match options.source {
                None => None,
                Some(source) => match self.execution(source) {
                    Err(e) => Some(e),
                    Ok(Lifecycle::Active) => None,
                    Ok(Lifecycle::Starting) => if allow_pending {
                        None
                    } else {
                        Some(Error::ActorNotReady)
                    },
                    Ok(Lifecycle::Quiescing) => if allow_pending {
                        None
                    } else {
                        Some(Error::ActorStopped)
                    },
                    Ok(_) => Some(Error::ActorStopped),
                },
            }
        }
    }

    pub open spec fn schema_identity(self, p: Payload) -> Result<SchemaIdentity, Error> {
        match p {
            Payload::Pulse(_) => Ok(SchemaIdentity { kind: SchemaKind::Pulse, id: 0, version: 1 }),
            Payload::CountSnapshot { .. } => Ok(
                SchemaIdentity { kind: SchemaKind::CountSnapshot, id: 0, version: 1 },
            ),
            Payload::Record { schema, .. } => Ok(
                SchemaIdentity { kind: SchemaKind::Record, id: schema, version: 0 },
            ),
            Payload::Structured(record) => if self.schemas.has(record.schema_id()) {
                Ok(
                    SchemaIdentity {
                        kind: SchemaKind::Structured,
                        id: record.schema_id(),
                        version: self.schemas.get(record.schema_id()).version,
                    },
                )
            } else {
                Err(Error::SchemaMismatch)
            },
        }
    }

    /// The port by which a payload comes in: the route's, or else the first
    /// that takes it.
    pub open spec fn entry_port(self, target: ActorRef, p: Payload, sub: Option<u64>) -> Option<PortRef> {
        let routed = if sub is Some && self.subs.dom().contains(sub->0) {
            self.subs[sub->0].target_port
        } else {
            None
        };
        match routed {
            Some(index) => Some(PortRef { owner: target, index }),
            None => match self.at(target).component {
                Some(component) => match input_for(*component, p) {
                    Some(i) => Some(PortRef { owner: target, index: i as u16 }),
                    None => None,
                },
                None => None,
            },
        }
    }

    pub open spec fn envelope_for(
        self,
        target: ActorRef,
        stored: Arc<Stored>,
        sub: Option<u64>,
        event_id: u64,
        now: Instant,
    ) -> Result<Envelope, Error> {
        if !self.valid(target) {
            Err(self.stale(target))
        } else {
            match self.schema_identity(stored.payload) {
                Err(e) => Err(e),
                Ok(schema) => Ok(
                    Envelope {
                        event_id,
                        schema,
                        source: stored.options.source,
                        destination: target,
                        dispatcher: stored.dispatcher,
                        destination_port: self.entry_port(target, stored.payload, sub),
                        owner: target,
                        enqueued_at: now,
                        deadline: stored.options.deadline,
                        correlation_id: stored.options.correlation_id,
                        causation_id: stored.options.causation_id,
                        trace: stored.options.trace,
                    },
                ),
            }
        }
    }

    /// Why a mailbox does not take a payload in.
    pub open spec fn refuses_delivery(self, r: ActorRef, stored: Arc<Stored>, completion: bool) -> Option<
        Error,
    > {
        let a = self.at(r);
        match self.execution(r) {
            Err(e) => Some(e),
            Ok(state) => if state != Lifecycle::Active && !(completion && state
                == Lifecycle::Quiescing) {
                Some(
                    if state == Lifecycle::Starting || a.state == Lifecycle::Starting {
                        Error::ActorNotReady
                    } else {
                        Error::ActorStopped
                    },
                )
            } else if a.component is Some && input_for(*a.component->0, stored.payload) is None {
                Some(Error::SchemaMismatch)
            } else if a.queue.len() >= self.cfg.mailbox_capacity || a.queue_bytes() + stored.bytes
                > self.cfg.mailbox_bytes {
                Some(Error::QueueFull)
            } else {
                None
            },
        }
    }

    /// After a delivery joined the end of a mailbox.
    pub open spec fn delivered(self, r: ActorRef, d: Delivery) -> WorldView {
        let queued = self.put(r, ActorView { queue: self.at(r).queue.push(d), ..self.at(r) });
        let ready = queued.refreshed(r);
        WorldView {
            metrics: Metrics { admitted: types::bumped(ready.metrics.admitted), ..ready.metrics },
            ..ready
        }.marked(r)
    }

    /// Admits a payload to a mailbox, or says why not. An event number that was
    /// drawn is never drawn again.
    pub open spec fn admission(
        self,
        now: Instant,
        r: ActorRef,
        stored: Arc<Stored>,
        sub: Option<u64>,
        completion: bool,
        operation: Option<OperationId>,
    ) -> (WorldView, Result<u64, Error>) {
        if clock::due(stored.options.deadline, now) {
            (self, Err(Error::DeadlineExpired))
        } else if self.source_fault(stored.options, completion) is Some {
            (self, Err(self.source_fault(stored.options, completion)->0))
        } else if self.next_event == u64::MAX {
            (self, Err(Error::LimitExceeded))
        } else {
            let id = self.next_event;
            let v = WorldView { next_event: (id + 1) as u64, ..self };
            match v.envelope_for(r, stored, sub, id, now) {
                Err(e) => (v, Err(e)),
                Ok(made) => {
                    let envelope = if operation is Some && made.correlation_id is None {
                        Envelope { correlation_id: Some(id), ..made }
                    } else {
                        made
                    };
                    match v.refuses_delivery(r, stored, completion) {
                        Some(e) => (v, Err(e)),
                        None => (
                            v.delivered(
                                r,
                                Delivery {
                                    event_id: id,
                                    envelope,
                                    payload: stored,
                                    subscription: sub,
                                    operation,
                                },
                            ),
                            Ok(id),
                        ),
                    }
                },
            }
        }
    }

    pub open spec fn submitting(self) -> WorldView {
        WorldView {
            metrics: Metrics { submitted: types::bumped(self.metrics.submitted), ..self.metrics },
            ..self
        }
    }

    /// A direct message.
    pub open spec fn sending(
        self,
        now: Instant,
        r: ActorRef,
        p: Payload,
        charge: usize,
        options: MessageOptions,
    ) -> (WorldView, Result<u64, Error>) {
        let v = self.submitting();
        match v.refuses_payload(p, charge, options) {
            Some(e) => (v.rejected(now, e, r), Err(e)),
            None => {
                let stored = v.stored_next(p, charge, options, None);
                let (n, result) = v.storing(charge, options).admission(
                    now,
                    r,
                    stored,
                    None,
                    false,
                    None,
                );
                match result {
                    Ok(id) => (n, Ok(id)),
                    Err(e) => (n.releasing(stored.id).rejected(now, e, r), Err(e)),
                }
            },
        }
    }

    /// A message whose payload was stored before: the hold stays.
    pub open spec fn sending_held(self, now: Instant, r: ActorRef, held: HeldPayload) -> (
        WorldView,
        Result<u64, Error>,
    ) {
        let v = self.submitting();
        if held.of_world() != self.id {
            (v.rejected(now, Error::CrossWorld, r), Err(Error::CrossWorld))
        } else {
            v.forwarding(now, r, held)
        }
    }

    pub open spec fn forwarding(self, now: Instant, r: ActorRef, held: HeldPayload) -> (
        WorldView,
        Result<u64, Error>,
    ) {
        if !self.lends(held) {
            (self.rejected(now, Error::StaleReference, r), Err(Error::StaleReference))
        } else if !self.budget.roomy(held.share()) {
            (self.rejected(now, Error::LimitExceeded, r), Err(Error::LimitExceeded))
        } else {
            let (n, result) = self.sharing(held.share()).admission(
                now,
                r,
                held.kept(),
                None,
                false,
                None,
            );
            match result {
                Ok(id) => (n, Ok(id)),
                Err(e) => (n.releasing(held.share()).rejected(now, e, r), Err(e)),
            }
        }
    }

    pub open spec fn sending_held_from(
        self,
        now: Instant,
        owner: ActorRef,
        target: ActorRef,
        held: HeldPayload,
    ) -> (WorldView, Result<u64, Error>) {
        let v = self.submitting();
        if held.of_world() != self.id {
            (v.rejected(now, Error::CrossWorld, target), Err(Error::CrossWorld))
        } else if !v.valid(owner) {
            (v.rejected(now, v.stale(owner), owner), Err(v.stale(owner)))
        } else if v.at(owner).state != Lifecycle::Active {
            (v.rejected(now, Error::ActorStopped, owner), Err(Error::ActorStopped))
        } else {
            match v.execution(owner) {
                Err(e) => (v, Err(e)),
                Ok(Lifecycle::Active) => v.forwarding(now, target, held),
                Ok(_) => (v.rejected(now, Error::ActorStopped, owner), Err(Error::ActorStopped)),
            }
        }
    }

    /// A payload stored for later.
    pub open spec fn holding(
        self,
        now: Instant,
        p: Payload,
        charge: usize,
        options: MessageOptions,
    ) -> (WorldView, Result<HeldPayload, Error>) {
        if self.closed {
            (self, Err(Error::ActorStopped))
        } else if self.source_fault(options, true) is Some {
            (self, Err(self.source_fault(options, true)->0))
        } else if clock::due(options.deadline, now) {
            (self, Err(Error::DeadlineExpired))
        } else {
            match self.refuses_payload(p, charge, options) {
                Some(e) => (self, Err(e)),
                None => (
                    self.storing(charge, options).lending(self.budget.next),
                    Ok(
                        HeldPayload::made(
                            self.stored_next(p, charge, options, None),
                            self.id,
                            None,
                        ),
                    ),
                ),
            }
        }
    }
}

impl World {
    /// Stores a payload and charges it to the budget.
    pub(super) fn store(
        &mut self,
        p: Payload,
        charge: usize,
        options: MessageOptions,
        dispatcher: Option<PortRef>,
    ) -> (r: Result<Arc<Stored>, Error>)
        requires
            old(self).steady(),
        ensures
            final(self).steady(),
            old(self)@.refuses_payload(p, charge, options) matches Some(e) ==> r == Err::<
                Arc<Stored>,
                Error,
            >(e) && final(self)@ == old(self)@,
            old(self)@.refuses_payload(p, charge, options) is None ==> {
                &&& r == Ok::<Arc<Stored>, Error>(
                    old(self)@.stored_next(p, charge, options, dispatcher),
                )
                &&& final(self)@ == old(self)@.storing(charge, options)
            },
    {
        match options.validate() {
            Ok(_) => {},
            Err(e) => return Err(e),
        }
        match options.source {
            Some(source) => {
                if source.world != self.id {
                    return Err(Error::CrossWorld);
                }
            },
            None => {},
        }
        match &p {
            Payload::Structured(record) => {
                if record.world() != self.id {
                    return Err(Error::CrossWorld);
                }
            },
            _ => {},
        }
        let bytes: usize = match charge.checked_add(options.charged_bytes()) {
            Some(bytes) => bytes,
            None => return Err(Error::LimitExceeded),
        };
        if bytes > self.cfg.max_event_bytes {
            return Err(Error::LimitExceeded);
        }
        let id = match self.budget.hold(bytes) {
            Ok(id) => id,
            Err(e) => {
                proof {
                    self.lemma_kept(*old(self));
                }
                return Err(e);
            },
        };
        proof {
            self.lemma_kept(*old(self));
        }
        Ok(Arc::new(Stored { id, payload: p, options, dispatcher, bytes }))
    }

    /// One more place holds a payload.
    pub(super) fn share(&mut self, share: u64)
        requires
            old(self).steady(),
        ensures
            final(self).steady(),
            final(self)@ == old(self)@.sharing(share),
    {
        self.budget.share(share);
        proof {
            self.lemma_kept(*old(self));
        }
    }

    pub(super) fn source_fault(&self, options: &MessageOptions, allow_pending: bool) -> (r: Option<Error>)
        requires
            self.steady(),
        ensures
            r == self@.source_fault(*options, allow_pending),
    {
        match options.validate() {
            Ok(_) => {},
            Err(e) => return Some(e),
        }
        match options.source {
            None => None,
            Some(source) => match self.execution(source) {
                Err(e) => Some(e),
                Ok(Lifecycle::Active) => None,
                Ok(Lifecycle::Starting) => if allow_pending {
                    None
                } else {
                    Some(Error::ActorNotReady)
                },
                Ok(Lifecycle::Quiescing) => if allow_pending {
                    None
                } else {
                    Some(Error::ActorStopped)
                },
                Ok(_) => Some(Error::ActorStopped),
            },
        }
    }

    fn schema_identity(&self, p: &Payload) -> (r: Result<SchemaIdentity, Error>)
        requires
            self.steady(),
        ensures
            r == self@.schema_identity(*p),
    {
        match p {
            Payload::Pulse(_) => Ok(SchemaIdentity { kind: SchemaKind::Pulse, id: 0, version: 1 }),
            Payload::CountSnapshot { .. } => Ok(
                SchemaIdentity { kind: SchemaKind::CountSnapshot, id: 0, version: 1 },
            ),
            Payload::Record { schema, integers: _ } => Ok(
                SchemaIdentity { kind: SchemaKind::Record, id: *schema, version: 0 },
            ),
            Payload::Structured(record) => match self.schemas.schema(record.schema()) {
                Ok(schema) => Ok(
                    SchemaIdentity {
                        kind: SchemaKind::Structured,
                        id: record.schema(),
                        version: schema.version,
                    },
                ),
                Err(_) => Err(Error::SchemaMismatch),
            },
        }
    }

    pub(super) fn envelope_for(
        &self,
        target: ActorRef,
        stored: &Arc<Stored>,
        sub: Option<u64>,
        event_id: u64,
        now: Instant,
    ) -> (r: Result<Envelope, Error>)
        requires
            self.steady(),
        ensures
            r == self@.envelope_for(target, *stored, sub, event_id, now),
    {
        let i = match self.locate(target) {
            Ok(i) => i,
            Err(e) => return Err(e),
        };
        let routed: Option<u16> = match sub {
            Some(id) => match self.subs.get(&id) {
                Some(route) => route.target_port,
                None => None,
            },
            None => None,
        };
        let destination_port: Option<PortRef> = match routed {
            Some(index) => Some(PortRef { owner: target, index }),
            None => match &self.actors[i].component {
                Some(component) => match find_input(component, &stored.payload) {
                    Some(k) => Some(PortRef { owner: target, index: k as u16 }),
                    None => None,
                },
                None => None,
            },
        };
        let schema = match self.schema_identity(&stored.payload) {
            Ok(schema) => schema,
            Err(e) => return Err(e),
        };
        Ok(
            Envelope {
                event_id,
                schema,
                source: stored.options.source,
                destination: target,
                dispatcher: stored.dispatcher,
                destination_port,
                owner: target,
                enqueued_at: now,
                deadline: stored.options.deadline,
                correlation_id: stored.options.correlation_id,
                causation_id: stored.options.causation_id,
                trace: stored.options.trace.clone(),
            },
        )
    }

    fn delivery_refusal(&self, r: ActorRef, stored: &Arc<Stored>, completion: bool) -> (e: Option<Error>)
        requires
            self.steady(),
            self@.valid(r),
        ensures
            e == self@.refuses_delivery(r, *stored, completion),
    {
        let i: usize = r.slot as usize;
        let state = match self.execution(r) {
            Ok(state) => state,
            Err(e) => return Some(e),
        };
        let a = &self.actors[i];
        proof {
            assert(a@ == self@.at(r));
            assert(a.wf());
        }
        if state != Lifecycle::Active && !(completion && state == Lifecycle::Quiescing) {
            return Some(
                if state == Lifecycle::Starting || a.state == Lifecycle::Starting {
                    Error::ActorNotReady
                } else {
                    Error::ActorStopped
                },
            );
        }
        match &a.component {
            Some(component) => {
                if find_input(component, &stored.payload).is_none() {
                    return Some(Error::SchemaMismatch);
                }
            },
            None => {},
        }
        let over: bool = match a.queue_bytes.checked_add(stored.bytes) {
            Some(total) => total > self.cfg.mailbox_bytes,
            None => true,
        };
        if a.queue.len() >= self.cfg.mailbox_capacity || over {
            return Some(Error::QueueFull);
        }
        None
    }

    /// Puts a delivery at the end of a mailbox that has room for it.
    fn deliver(&mut self, r: ActorRef, d: Delivery)
        requires
            old(self).steady(),
            old(self)@.valid(r),
            old(self)@.at(r).queue.len() < old(self)@.cfg.mailbox_capacity,
            old(self)@.at(r).queue_bytes() + d.payload.bytes <= old(self)@.cfg.mailbox_bytes,
            old(self)@.lives(r),
        ensures
            final(self).steady(),
            final(self)@ == old(self)@.delivered(r, d),
    {
        let ghost v = self@;
        let i: usize = r.slot as usize;
        let cost: usize = d.payload.bytes;
        let deadline = d.envelope.deadline;
        let ghost old_actor = self.actors@[i as int];
        proof {
            assert(old_actor@ == v.at(r));
            assert(old_actor.wf());
            super::lemma_placed(v, i as int);
            lemma_pushed(old_actor@, d);
            assert(old_actor.queue.len() == v.at(r).queue.len());
            assert(old_actor.staged.len() == v.at(r).staged.len());
        }
        let a = self.actor_mut(i);
        a.queue_bytes = a.queue_bytes + cost;
        a.deadlines.add(deadline);
        a.queue.push(d);
        self.reindex(i);
        proof {
            let queued = v.put(r, ActorView { queue: v.at(r).queue.push(d), ..v.at(r) });
            assert(self@.actors =~= queued.actors);
            assert(self@ == queued);
        }
        self.refresh(r);
        let ghost ready = *self;
        self.metrics.admitted = self.metrics.admitted.wrapping_add(1);
        proof {
            self.lemma_kept(ready);
        }
        self.mark(r);
    }

    /// Draws the next event number.
    pub(super) fn draw_event(&mut self) -> (r: Result<u64, Error>)
        requires
            old(self).steady(),
        ensures
            final(self).steady(),
            old(self)@.next_event == u64::MAX ==> r == Err::<u64, Error>(Error::LimitExceeded)
                && final(self)@ == old(self)@,
            old(self)@.next_event < u64::MAX ==> r == Ok::<u64, Error>(old(self)@.next_event)
                && final(self)@ == (WorldView {
                next_event: (old(self)@.next_event + 1) as u64,
                ..old(self)@
            }),
    {
        if self.next_event == u64::MAX {
            return Err(Error::LimitExceeded);
        }
        let id = self.next_event;
        self.next_event = id + 1;
        proof {
            self.lemma_kept(*old(self));
        }
        Ok(id)
    }

    /// Admits a stored payload to a mailbox. The caller keeps the hold if it
    /// fails.
    pub(super) fn take_in(
        &mut self,
        now: Instant,
        r: ActorRef,
        stored: Arc<Stored>,
        sub: Option<u64>,
        completion: bool,
        operation: Option<OperationId>,
    ) -> (result: Result<u64, Error>)
        requires
            old(self).steady(),
        ensures
            final(self).steady(),
            (final(self)@, result) == old(self)@.admission(now, r, stored, sub, completion, operation),
    {
        if is_due(stored.options.deadline, now) {
            return Err(Error::DeadlineExpired);
        }
        match self.source_fault(&stored.options, completion) {
            Some(e) => return Err(e),
            None => {},
        }
        let id = match self.draw_event() {
            Ok(id) => id,
            Err(e) => return Err(e),
        };
        let made = match self.envelope_for(r, &stored, sub, id, now) {
            Ok(made) => made,
            Err(e) => return Err(e),
        };
        let mut envelope = made;
        if operation.is_some() && envelope.correlation_id.is_none() {
            envelope.correlation_id = Some(id);
        }
        match self.delivery_refusal(r, &stored, completion) {
            Some(e) => return Err(e),
            None => {},
        }
        proof {
            super::living::lemma_running_lives(self@, r);
        }
        self.deliver(
            r,
            Delivery { event_id: id, envelope, payload: stored, subscription: sub, operation },
        );
        Ok(id)
    }

    pub(super) fn count_submission(&mut self)
        requires
            old(self).steady(),
        ensures
            final(self).steady(),
            final(self)@ == old(self)@.submitting(),
    {
        self.metrics.submitted = self.metrics.submitted.wrapping_add(1);
        proof {
            self.lemma_kept(*old(self));
        }
    }

    pub fn send(&mut self, r: ActorRef, p: Payload) -> (result: Result<u64, Error>)
        requires
            old(self).inv(),
        ensures
            final(self).inv(),
            exists|now: Instant, charge: usize| #[trigger]
                old(self)@.clock.reads(now) && #[trigger] payload::may_charge(p, charge) && (
                final(self)@,
                result,
            ) == old(self)@.sending(now, r, p, charge, envelope::no_options()),
    {
        self.send_with(r, p, MessageOptions::default())
    }

    /// Sends a payload to an actor; the number of the event.
    pub fn send_with(&mut self, r: ActorRef, p: Payload, options: MessageOptions) -> (result: Result<
        u64,
        Error,
    >)
        requires
            old(self).inv(),
        ensures
            final(self).inv(),
            exists|now: Instant, charge: usize| #[trigger]
                old(self)@.clock.reads(now) && #[trigger] payload::may_charge(p, charge) && (
                final(self)@,
                result,
            ) == old(self)@.sending(now, r, p, charge, options),
    {
        let now = self.now();
        let charge = p.bytes();
        self.send_at(now, r, p, charge, options)
    }

    /// Sends a payload at a given time and charge.
    pub fn send_at(
        &mut self,
        now: Instant,
        r: ActorRef,
        p: Payload,
        charge: usize,
        options: MessageOptions,
    ) -> (result: Result<u64, Error>)
        requires
            old(self).inv(),
        ensures
            final(self).inv(),
            (final(self)@, result) == old(self)@.sending(now, r, p, charge, options),
    {
        proof {
            super::keeping::lemma_sending(self@, now, r, p, charge, options);
        }
        self.count_submission();
        let stored = match self.store(p, charge, options, None) {
            Ok(stored) => stored,
            Err(e) => {
                self.reject(now, e, r);
                return Err(e);
            },
        };
        let share: u64 = stored.id;
        match self.take_in(now, r, stored, None, false, None) {
            Ok(id) => Ok(id),
            Err(e) => {
                self.release(share);
                self.reject(now, e, r);
                Err(e)
            },
        }
    }

    fn forward(&mut self, now: Instant, r: ActorRef, held: &HeldPayload) -> (result: Result<
        u64,
        Error,
    >)
        requires
            old(self).steady(),
        ensures
            final(self).steady(),
            (final(self)@, result) == old(self)@.forwarding(now, r, *held),
    {
        let share: u64 = held.stored().id;
        if held.world() != self.id || !self.budget.lends(share, held.stored().bytes) {
            self.reject(now, Error::StaleReference, r);
            return Err(Error::StaleReference);
        }
        if !self.budget.roomy(share) {
            self.reject(now, Error::LimitExceeded, r);
            return Err(Error::LimitExceeded);
        }
        self.share(share);
        match self.take_in(now, r, held.stored().clone(), None, false, None) {
            Ok(id) => Ok(id),
            Err(e) => {
                self.release(share);
                self.reject(now, e, r);
                Err(e)
            },
        }
    }

    /// Sends a payload that is held; the hold stays.
    pub fn send_held(&mut self, r: ActorRef, held: &HeldPayload) -> (result: Result<u64, Error>)
        requires
            old(self).inv(),
        ensures
            final(self).inv(),
            exists|now: Instant| #[trigger]
                old(self)@.clock.reads(now) && (final(self)@, result) == old(self)@.sending_held(
                    now,
                    r,
                    *held,
                ),
    {
        let now = self.now();
        self.send_held_at(now, r, held)
    }

    pub fn send_held_at(&mut self, now: Instant, r: ActorRef, held: &HeldPayload) -> (result: Result<
        u64,
        Error,
    >)
        requires
            old(self).inv(),
        ensures
            final(self).inv(),
            (final(self)@, result) == old(self)@.sending_held(now, r, *held),
    {
        proof {
            super::keeping::lemma_sending_held(self@, now, r, *held);
        }
        self.count_submission();
        if held.world() != self.id {
            self.reject(now, Error::CrossWorld, r);
            return Err(Error::CrossWorld);
        }
        self.forward(now, r, held)
    }

    /// Sends a held payload on behalf of an owner that must run.
    pub fn send_held_from(&mut self, owner: ActorRef, target: ActorRef, held: &HeldPayload) -> (result:
        Result<u64, Error>)
        requires
            old(self).inv(),
        ensures
            final(self).inv(),
            exists|now: Instant| #[trigger]
                old(self)@.clock.reads(now) && (final(self)@, result) == old(
                    self,
                )@.sending_held_from(now, owner, target, *held),
    {
        let now = self.now();
        self.send_held_from_at(now, owner, target, held)
    }

    pub fn send_held_from_at(
        &mut self,
        now: Instant,
        owner: ActorRef,
        target: ActorRef,
        held: &HeldPayload,
    ) -> (result: Result<u64, Error>)
        requires
            old(self).inv(),
        ensures
            final(self).inv(),
            (final(self)@, result) == old(self)@.sending_held_from(now, owner, target, *held),
    {
        proof {
            super::keeping::lemma_sending_held_from(self@, now, owner, target, *held);
        }
        self.count_submission();
        if held.world() != self.id {
            self.reject(now, Error::CrossWorld, target);
            return Err(Error::CrossWorld);
        }
        let active: bool = match self.locate(owner) {
            Ok(i) => self.actors[i].state == Lifecycle::Active,
            Err(e) => {
                self.reject(now, e, owner);
                return Err(e);
            },
        };
        if !active {
            self.reject(now, Error::ActorStopped, owner);
            return Err(Error::ActorStopped);
        }
        match self.execution(owner) {
            Err(e) => Err(e),
            Ok(Lifecycle::Active) => self.forward(now, target, held),
            Ok(_) => {
                self.reject(now, Error::ActorStopped, owner);
                Err(Error::ActorStopped)
            },
        }
    }

    pub fn hold(&mut self, p: Payload) -> (result: Result<HeldPayload, Error>)
        requires
            old(self).inv(),
        ensures
            final(self).inv(),
            exists|now: Instant, charge: usize| #[trigger]
                old(self)@.clock.reads(now) && #[trigger] payload::may_charge(p, charge) && (
                final(self)@,
                result,
            ) == old(self)@.holding(now, p, charge, envelope::no_options()),
    {
        self.hold_with(p, MessageOptions::default())
    }

    /// Stores a payload until it is given back.
    pub fn hold_with(&mut self, p: Payload, options: MessageOptions) -> (result: Result<
        HeldPayload,
        Error,
    >)
        requires
            old(self).inv(),
        ensures
            final(self).inv(),
            exists|now: Instant, charge: usize| #[trigger]
                old(self)@.clock.reads(now) && #[trigger] payload::may_charge(p, charge) && (
                final(self)@,
                result,
            ) == old(self)@.holding(now, p, charge, options),
    {
        let now = self.now();
        let charge = p.bytes();
        self.hold_at(now, p, charge, options)
    }

    pub fn hold_at(&mut self, now: Instant, p: Payload, charge: usize, options: MessageOptions) -> (result:
        Result<HeldPayload, Error>)
        requires
            old(self).inv(),
        ensures
            final(self).inv(),
            (final(self)@, result) == old(self)@.holding(now, p, charge, options),
    {
        proof {
            super::keeping::lemma_holding(self@, now, p, charge, options);
        }
        if self.closed {
            return Err(Error::ActorStopped);
        }
        match self.source_fault(&options, true) {
            Some(e) => return Err(e),
            None => {},
        }
        if is_due(options.deadline, now) {
            return Err(Error::DeadlineExpired);
        }
        match self.store(p, charge, options, None) {
            Ok(stored) => {
                self.lend(stored.id);
                Ok(HeldPayload::new(stored, self.id, None))
            },
            Err(e) => Err(e),
        }
    }

    /// Another hold on the same payload. A hold that the World has not given out
    /// counts for nothing, and neither does its copy.
    pub fn share_held(&mut self, held: &HeldPayload) -> (r: HeldPayload)
        requires
            old(self).inv(),
        ensures
            final(self).inv(),
            r == *held,
            final(self)@ == old(self)@.sharing_out(*held),
    {
        proof {
            if self@.lends(*held) {
                super::keeping::lemma_out(self@, self@.sharing_out(*held), held.share(), super::tidy::nothing_open());
            }
        }
        if held.world() == self.id && self.budget.lends(held.stored().id, held.stored().bytes) {
            self.budget.share_out(held.stored().id);
            proof {
                self.lemma_kept(*old(self));
            }
        }
        held.again()
    }

    /// A hold on the result of an operation that completed. The operation keeps
    /// its own.
    pub fn share_result(&mut self, id: OperationId) -> (r: Option<HeldPayload>)
        requires
            old(self).inv(),
        ensures
            final(self).inv(),
            (final(self)@, r) == old(self)@.sharing_result(id),
    {
        proof {
            super::keeping::lemma_sharing_result(self@, id);
        }
        let held = match self.operations.status(id) {
            Ok(OperationStatus::Terminal(TerminalOutcome::Completed(held))) => held.again(),
            _ => return None,
        };
        let share: u64 = held.stored().id;
        if !self.budget.roomy(share) {
            return None;
        }
        self.budget.share_out(share);
        proof {
            self.lemma_kept(*old(self));
        }
        Some(held)
    }

    /// Gives a hold back.
    pub fn release_held(&mut self, held: HeldPayload)
        requires
            old(self).inv(),
        ensures
            final(self).inv(),
            final(self)@ == (if held.of_world() == old(self)@.id {
                old(self)@.returning(held.share())
            } else {
                old(self)@
            }),
    {
        proof {
            super::keeping::lemma_out(self@, self@.returning(held.share()), held.share(), super::tidy::nothing_open());
        }
        if held.world() == self.id {
            self.take_back(held.stored().id);
        }
    }
}

/// One more entry at the end of a mailbox.
proof fn lemma_pushed(a: ActorView, d: Delivery)
    ensures
        held::bytes_of(held::queue_costs(a.queue.push(d))) == a.queue_bytes() + d.payload.bytes,
        (ActorView { queue: a.queue.push(d), ..a }).deadlines() == expiry::with_deadline(
            a.deadlines(),
            d.envelope.deadline,
        ),
        a.deadlines().len() <= a.queue.len() + a.staged.len(),
{
    let q = a.queue.push(d);
    assert(held::queue_costs(q) =~= held::queue_costs(a.queue).push(d.payload.bytes));
    held::lemma_bytes_push(held::queue_costs(a.queue), d.payload.bytes);
    assert(held::queue_deadlines(q) =~= held::queue_deadlines(a.queue).push(d.envelope.deadline));
    expiry::lemma_bag_push(held::queue_deadlines(a.queue), d.envelope.deadline);
    let n = ActorView { queue: q, ..a };
    assert(n.deadlines() =~= expiry::with_deadline(a.deadlines(), d.envelope.deadline));
    expiry::lemma_bag_len(held::queue_deadlines(a.queue));
    expiry::lemma_bag_len(held::staged_deadlines(a.staged));
}

} // verus!
