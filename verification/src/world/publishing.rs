//! Publications: what an actor sends to everyone who is routed to it.
use vstd::prelude::*;
use std::sync::Arc;
use super::{ActorView, World, WorldView};
use crate::clock;
use crate::clock::{is_due, Instant};
use crate::components;
use crate::components::{PortDirection, PortRef};
use crate::envelope;
use crate::envelope::MessageOptions;
use crate::expiry;
use crate::held;
use crate::held::{Staged, Stored};
use crate::ordered;
use crate::payload;
use crate::payload::Payload;
use crate::publications;
use crate::publications::{
    DeliveryReport, Publication, PublicationOutcome, PublicationTicket, PublicationView,
};
use crate::types;
use crate::types::{ActorRef, Error, Lifecycle, Metrics};

verus! {

/// The counters after one more publication ended.
pub open spec fn outcome_counted(m: Metrics, outcome: PublicationOutcome) -> Metrics {
    match outcome {
        PublicationOutcome::Routed => Metrics {
            publication_completed: types::bumped(m.publication_completed),
            ..m
        },
        PublicationOutcome::Expired => Metrics {
            publication_expired: types::bumped(m.publication_expired),
            ..m
        },
        PublicationOutcome::FanoutLimit | PublicationOutcome::SnapshotFull => Metrics {
            publication_failed: types::bumped(m.publication_failed),
            ..m
        },
        _ => Metrics { publication_cancelled: types::bumped(m.publication_cancelled), ..m },
    }
}

/// What a ticket says, or why there is none.
pub open spec fn told(r: Result<PublicationTicket, Error>) -> Result<(u64, ActorRef), Error> {
    match r {
        Ok(ticket) => Ok((ticket.number(), ticket.publisher())),
        Err(e) => Err(e),
    }
}

pub open spec fn from_source(source: ActorRef, options: MessageOptions) -> MessageOptions {
    MessageOptions { source: Some(source), ..options }
}

impl WorldView {
    /// Why an actor is not below another: a reference is stale, or the owners
    /// end without it.
    pub open spec fn below(self, current: ActorRef, owner: ActorRef, unowned: Error) -> Option<Error>
        decreases self.order(current),
    {
        if current == owner {
            None
        } else if !self.valid(current) {
            Some(self.stale(current))
        } else {
            match self.at(current).parent {
                None => Some(unowned),
                Some(p) => if self.order(p) < self.order(current) {
                    self.below(p, owner, unowned)
                } else {
                    Some(Error::StaleReference)
                },
            }
        }
    }

    /// Why a source may not publish now. A source that starts may, at a port;
    /// one that drains may only complete what was asked for before.
    pub open spec fn refuses_source(
        self,
        source: ActorRef,
        completion: Option<ActorRef>,
        port: Option<u16>,
    ) -> Option<Error> {
        match self.execution(source) {
            Err(e) => Some(e),
            Ok(state) => {
                let staged = state == Lifecycle::Starting && completion is None && port is Some;
                if !staged && state != Lifecycle::Active && !(completion is Some && state
                    == Lifecycle::Quiescing) {
                    Some(Error::ActorNotReady)
                } else {
                    match completion {
                        None => None,
                        Some(owner) => match self.execution(owner) {
                            Err(e) => Some(e),
                            Ok(state) => if super::is_running(state) {
                                self.below(source, owner, Error::CrossWorld)
                            } else {
                                Some(Error::ActorStopped)
                            },
                        },
                    }
                }
            },
        }
    }

    /// Why a publication is refused before anything is kept of it.
    pub open spec fn refuses_publication(
        self,
        now: Instant,
        source: ActorRef,
        p: Payload,
        completion: Option<ActorRef>,
        port: Option<u16>,
        options: MessageOptions,
    ) -> Option<Error> {
        let full = from_source(source, options);
        if options.source is Some && options.source->0 != source {
            Some(Error::InvalidMetadata)
        } else if self.source_fault(full, true) is Some {
            self.source_fault(full, true)
        } else if clock::due(options.deadline, now) {
            Some(Error::DeadlineExpired)
        } else if p is Structured && p->Structured_0.world_id() != self.id {
            Some(Error::CrossWorld)
        } else {
            match port {
                None => self.refuses_source(source, completion, port),
                Some(index) => match self.port_spec(PortRef { owner: source, index }) {
                    Err(e) => Some(e),
                    Ok(declared) => if declared.direction != PortDirection::Output
                        || !components::type_matches(declared.schema, p) {
                        Some(Error::SchemaMismatch)
                    } else {
                        self.refuses_source(source, completion, port)
                    },
                },
            }
        }
    }

    /// After a refused publication was counted and recorded.
    pub open spec fn publication_refused(self, now: Instant, error: Error, source: ActorRef) -> WorldView {
        WorldView {
            metrics: Metrics {
                publication_rejected: types::bumped(self.metrics.publication_rejected),
                ..self.metrics
            },
            ..self
        }.rejected(now, error, source)
    }

    pub open spec fn publication_submitted(self) -> WorldView {
        WorldView {
            metrics: Metrics {
                publication_submitted: types::bumped(self.metrics.publication_submitted),
                submitted: types::bumped(self.metrics.submitted),
                ..self.metrics
            },
            ..self
        }
    }

    pub open spec fn publishing(
        self,
        now: Instant,
        source: ActorRef,
        p: Payload,
        charge: usize,
        completion: Option<ActorRef>,
        port: Option<u16>,
        options: MessageOptions,
    ) -> (WorldView, Result<(u64, ActorRef), Error>) {
        let v = self.publication_submitted();
        match v.refuses_publication(now, source, p, completion, port, options) {
            Some(e) => (v.publication_refused(now, e, source), Err(e)),
            None => {
                let (n, result) = v.submission(
                    source,
                    port,
                    p,
                    charge,
                    from_source(source, options),
                    completion is Some,
                );
                match result {
                    Ok(id) => (n, Ok((id, source))),
                    Err(e) => (n.publication_refused(now, e, source), Err(e)),
                }
            },
        }
    }

    /// Whether a source that starts has room for one more publication.
    pub open spec fn stages(self, source: ActorRef, bytes: int) -> bool {
        &&& self.at(source).staged.len() < self.cfg.mailbox_capacity
        &&& self.at(source).staged_bytes() + bytes <= self.cfg.mailbox_bytes
    }

    /// Room for the report is kept before the payload is.
    pub open spec fn submission(
        self,
        source: ActorRef,
        port: Option<u16>,
        p: Payload,
        charge: usize,
        options: MessageOptions,
        completion: bool,
    ) -> (WorldView, Result<u64, Error>) {
        let dispatcher = match port {
            Some(index) => Some(PortRef { owner: source, index }),
            None => None,
        };
        let staged = self.execution(source) == Ok::<Lifecycle, Error>(Lifecycle::Starting);
        match self.pubs.refuses(source) {
            Some(e) => (self, Err(e)),
            None => {
                let id = self.pubs.next_id;
                let v = WorldView { pubs: self.pubs.reserved(source, staged), ..self };
                let back = WorldView { pubs: v.pubs.ticket_released(id), ..v };
                match v.refuses_payload(p, charge, options) {
                    Some(e) => (back, Err(e)),
                    None => {
                        let stored = v.stored_next(p, charge, options, dispatcher);
                        if staged && !v.stages(source, stored.bytes as int) {
                            (
                                back.storing(charge, options).releasing(stored.id),
                                Err(Error::QueueFull),
                            )
                        } else {
                            let kept = v.storing(charge, options);
                            let placed = if staged {
                                kept.staged(source, port->0, stored, id)
                            } else {
                                kept
                            };
                            (placed.entered(id, source, port, stored, staged, completion), Ok(id))
                        }
                    },
                }
            },
        }
    }

    /// After a publication was put aside until its source runs.
    pub open spec fn staged(self, source: ActorRef, port: u16, stored: Arc<Stored>, id: u64) -> WorldView {
        self.put(
            source,
            ActorView {
                staged: self.at(source).staged.push(Staged { port, stored, publication: id }),
                ..self.at(source)
            },
        ).sharing(stored.id)
    }

    /// After a publication joined those of its source.
    pub open spec fn entered(
        self,
        id: u64,
        source: ActorRef,
        port: Option<u16>,
        stored: Arc<Stored>,
        staged: bool,
        completion: bool,
    ) -> WorldView {
        let publication = PublicationView {
            source,
            source_port: port,
            stored: *stored,
            staged,
            completion,
            routes: None,
            cursor: 0,
            report: DeliveryReport {
                staged: if staged {
                    1
                } else {
                    0
                },
                ..publications::empty_report()
            },
        };
        WorldView {
            pubs: self.pubs.inserted(id, publication),
            metrics: Metrics {
                publication_admitted: types::bumped(self.metrics.publication_admitted),
                ..self.metrics
            },
            routing_dirty: self.routing_dirty || !staged,
            ..self
        }.marked(source)
    }

    /// After a publication that was put aside may be routed.
    pub open spec fn enqueued(self, id: u64) -> WorldView {
        if self.pubs.entries.dom().contains(id) {
            WorldView { pubs: self.pubs.unstaged(id), routing_dirty: true, ..self }.marked(
                self.pubs.entries[id].source,
            )
        } else {
            self
        }
    }

    /// After a publication ended, in the state in which it was last.
    pub open spec fn publication_ended(
        self,
        id: u64,
        publication: PublicationView,
        outcome: PublicationOutcome,
    ) -> WorldView {
        let pubs = self.pubs.finished(id, publication, outcome);
        WorldView {
            pubs,
            metrics: outcome_counted(
                Metrics {
                    rejected: types::raised(self.metrics.rejected, publication.untried() as nat),
                    ..self.metrics
                },
                outcome,
            ),
            routing_dirty: self.routing_dirty || pubs.ready.len() > 0,
            ..self
        }.releasing(publication.stored.id).marked(publication.source)
    }

    pub open spec fn publication_cancelled(self, id: u64, outcome: PublicationOutcome) -> WorldView {
        if self.pubs.entries.dom().contains(id) {
            self.publication_ended(id, self.pubs.entries[id], outcome)
        } else {
            self
        }
    }

    pub open spec fn publications_cancelled(self, ids: Seq<u64>, outcome: PublicationOutcome) -> WorldView
        decreases ids.len(),
    {
        if ids.len() == 0 {
            self
        } else {
            self.publications_cancelled(ids.drop_last(), outcome).publication_cancelled(
                ids.last(),
                outcome,
            )
        }
    }

    /// After the publications of a source were withdrawn.
    pub open spec fn source_silenced(self, source: ActorRef) -> WorldView {
        self.publications_cancelled(
            ordered::sorted(self.pubs.of_source(source)),
            PublicationOutcome::Cancelled,
        )
    }

    /// After the publications that came due were dropped, the earliest first.
    pub open spec fn publications_expired(self, now: Instant) -> WorldView {
        self.publications_cancelled(self.pubs.due_order(now), PublicationOutcome::Expired)
    }
}

impl World {
    pub(super) fn check_below(&self, source: ActorRef, owner: ActorRef, unowned: Error) -> (r: Option<
        Error,
    >)
        requires
            self.steady(),
        ensures
            r == self@.below(source, owner, unowned),
    {
        let mut current: ActorRef = source;
        loop
            invariant
                self.steady(),
                self@.below(source, owner, unowned) == self@.below(current, owner, unowned),
            decreases self@.order(current),
        {
            if current == owner {
                return None;
            }
            let i = match self.locate(current) {
                Ok(i) => i,
                Err(e) => return Some(e),
            };
            proof {
                super::lemma_placed(self@, i as int);
            }
            match self.actors[i].parent {
                None => return Some(unowned),
                Some(p) => {
                    current = p;
                },
            }
        }
    }

    fn source_refusal(&self, source: ActorRef, completion: Option<ActorRef>, port: Option<u16>) -> (r:
        Option<Error>)
        requires
            self.steady(),
        ensures
            r == self@.refuses_source(source, completion, port),
    {
        let state = match self.execution(source) {
            Ok(state) => state,
            Err(e) => return Some(e),
        };
        let staged = state == Lifecycle::Starting && completion.is_none() && port.is_some();
        if !staged && state != Lifecycle::Active && !(completion.is_some() && state
            == Lifecycle::Quiescing) {
            return Some(Error::ActorNotReady);
        }
        match completion {
            None => None,
            Some(owner) => match self.execution(owner) {
                Err(e) => Some(e),
                Ok(Lifecycle::Active) => self.check_below(source, owner, Error::CrossWorld),
                Ok(Lifecycle::Quiescing) => self.check_below(source, owner, Error::CrossWorld),
                Ok(_) => Some(Error::ActorStopped),
            },
        }
    }

    fn publication_refusal(
        &self,
        now: Instant,
        source: ActorRef,
        p: &Payload,
        completion: Option<ActorRef>,
        port: Option<u16>,
        claimed: Option<ActorRef>,
        options: &MessageOptions,
    ) -> (r: Option<Error>)
        requires
            self.steady(),
            options.source == Some(source),
        ensures
            r == self@.refuses_publication(
                now,
                source,
                *p,
                completion,
                port,
                (MessageOptions { source: claimed, ..*options }),
            ),
    {
        match claimed {
            Some(claimed) => {
                if claimed != source {
                    return Some(Error::InvalidMetadata);
                }
            },
            None => {},
        }
        assert(*options == from_source(source, MessageOptions { source: claimed, ..*options }));
        match self.source_fault(options, true) {
            Some(e) => return Some(e),
            None => {},
        }
        if is_due(options.deadline, now) {
            return Some(Error::DeadlineExpired);
        }
        match p {
            Payload::Structured(record) => {
                if record.world() != self.id {
                    return Some(Error::CrossWorld);
                }
            },
            _ => {},
        }
        match port {
            None => {},
            Some(index) => match self.port_spec(PortRef { owner: source, index }) {
                Err(e) => return Some(e),
                Ok(declared) => {
                    if declared.direction != PortDirection::Output || !declared.schema.matches(p) {
                        return Some(Error::SchemaMismatch);
                    }
                },
            },
        }
        self.source_refusal(source, completion, port)
    }

    fn refuse_publication(&mut self, now: Instant, error: Error, source: ActorRef)
        requires
            old(self).steady(),
        ensures
            final(self).steady(),
            final(self)@ == old(self)@.publication_refused(now, error, source),
    {
        self.metrics.publication_rejected = self.metrics.publication_rejected.wrapping_add(1);
        proof {
            self.lemma_kept(*old(self));
        }
        self.reject(now, error, source);
    }

    /// Publishes at a given time and charge: from a port if there is one, and
    /// to complete what an owner asked for if there is one.
    pub fn publish_at(
        &mut self,
        now: Instant,
        source: ActorRef,
        p: Payload,
        charge: usize,
        completion: Option<ActorRef>,
        port: Option<u16>,
        options: MessageOptions,
    ) -> (result: Result<PublicationTicket, Error>)
        requires
            old(self).inv(),
        ensures
            final(self).inv(),
            (final(self)@, told(result)) == old(self)@.publishing(
                now,
                source,
                p,
                charge,
                completion,
                port,
                options,
            ),
    {
        proof {
            self.lemma_publications();
            super::joining::lemma_publishing(self@, now, source, p, charge, completion, port, options);
        }
        self.metrics.publication_submitted = self.metrics.publication_submitted.wrapping_add(1);
        self.metrics.submitted = self.metrics.submitted.wrapping_add(1);
        proof {
            self.lemma_kept(*old(self));
        }
        let claimed = options.source;
        let full = MessageOptions {
            source: Some(source),
            deadline: options.deadline,
            correlation_id: options.correlation_id,
            causation_id: options.causation_id,
            trace: options.trace,
        };
        proof {
            assert(full == from_source(source, options));
            assert((MessageOptions { source: claimed, ..full }) == options);
        }
        match self.publication_refusal(now, source, &p, completion, port, claimed, &full) {
            Some(e) => {
                self.refuse_publication(now, e, source);
                return Err(e);
            },
            None => {},
        }
        proof {
            super::living::lemma_running_lives(self@, source);
        }
        match self.submit(source, port, p, charge, full, completion.is_some()) {
            Ok(id) => Ok(PublicationTicket::make(id, source)),
            Err(e) => {
                self.refuse_publication(now, e, source);
                Err(e)
            },
        }
    }

    /// Gives back a ticket that nobody got.
    fn withdraw_ticket(&mut self, id: u64)
        requires
            old(self).steady(),
        ensures
            final(self).steady(),
            final(self)@ == (WorldView {
                pubs: old(self)@.pubs.ticket_released(id),
                ..old(self)@
            }),
    {
        self.publications.release_ticket(id);
        proof {
            self.lemma_kept(*old(self));
        }
    }

    fn submit(
        &mut self,
        source: ActorRef,
        port: Option<u16>,
        p: Payload,
        charge: usize,
        options: MessageOptions,
        completion: bool,
    ) -> (result: Result<u64, Error>)
        requires
            old(self).steady(),
            old(self)@.execution(source) is Ok,
            old(self)@.lives(source),
            old(self)@.execution(source) == Ok::<Lifecycle, Error>(Lifecycle::Starting)
                ==> port is Some,
        ensures
            final(self).steady(),
            (final(self)@, result) == old(self)@.submission(
                source,
                port,
                p,
                charge,
                options,
                completion,
            ),
    {
        let ghost v0 = self@;
        let staged: bool = match self.execution(source) {
            Ok(Lifecycle::Starting) => true,
            _ => false,
        };
        let dispatcher: Option<PortRef> = match port {
            Some(index) => Some(PortRef { owner: source, index }),
            None => None,
        };
        proof {
            self.publications.lemma_consistent();
        }
        let reserved = self.publications.reserve(source, staged);
        proof {
            self.lemma_kept(*old(self));
        }
        let id = match reserved {
            Ok(id) => id,
            Err(e) => return Err(e),
        };
        let ghost v = self@;
        let stored = match self.store(p, charge, options, dispatcher) {
            Ok(stored) => stored,
            Err(e) => {
                self.withdraw_ticket(id);
                return Err(e);
            },
        };
        let share: u64 = stored.id;
        assert(self@.actors == v0.actors && self@.id == v0.id);
        if !self.place(id, source, port, stored, staged, completion) {
            self.withdraw_ticket(id);
            self.release(share);
            return Err(Error::QueueFull);
        }
        Ok(id)
    }

    /// Enters a publication whose ticket is kept, put aside first if its source
    /// starts; whether there was room for that.
    fn place(
        &mut self,
        id: u64,
        source: ActorRef,
        port: Option<u16>,
        stored: Arc<Stored>,
        staged: bool,
        completion: bool,
    ) -> (done: bool)
        requires
            old(self).steady(),
            id + 1 == old(self)@.pubs.next_id,
            !old(self)@.pubs.entries.dom().contains(id),
            old(self)@.pubs.tickets.dom().contains(id),
            old(self)@.pubs.tickets[id].source == source,
            !(old(self)@.pubs.tickets[id].status is Terminal),
            old(self)@.lives(source),
            staged ==> port is Some,
        ensures
            final(self).steady(),
            done == (!staged || old(self)@.stages(source, stored.bytes as int)),
            !done ==> final(self)@ == old(self)@,
            done ==> final(self)@ == (if staged {
                old(self)@.staged(source, port->0, stored, id)
            } else {
                old(self)@
            }).entered(id, source, port, stored, staged, completion),
    {
        let ghost v = self@;
        if staged {
            let i: usize = source.slot as usize;
            proof {
                assert(self@.actors.len() == self.actors@.len());
                assert(self.actors@[i as int]@ == v.at(source));
                assert(self.actors@[i as int].wf());
            }
            let over: bool = match self.actors[i].staged_bytes.checked_add(stored.bytes) {
                Some(total) => total > self.cfg.mailbox_bytes,
                None => true,
            };
            if self.actors[i].staged.len() >= self.cfg.mailbox_capacity || over {
                return false;
            }
            match port {
                Some(index) => self.put_aside(source, index, stored.clone(), id),
                None => {},
            }
        }
        self.enter(id, source, port, stored, staged, completion);
        true
    }

    /// Puts a publication aside until its source runs.
    fn put_aside(&mut self, source: ActorRef, port: u16, stored: Arc<Stored>, id: u64)
        requires
            old(self).steady(),
            old(self)@.valid(source),
            old(self)@.stages(source, stored.bytes as int),
            old(self)@.lives(source),
        ensures
            final(self).steady(),
            final(self)@ == old(self)@.staged(source, port, stored, id),
    {
        let ghost v = self@;
        let i: usize = source.slot as usize;
        let cost: usize = stored.bytes;
        let deadline = stored.options.deadline;
        let share: u64 = stored.id;
        let ghost entry = Staged { port, stored, publication: id };
        let ghost prior = self.actors@[i as int];
        proof {
            assert(prior@ == v.at(source));
            assert(prior.wf());
            super::lemma_placed(v, i as int);
            lemma_aside(prior@, entry);
            assert(prior.queue.len() == v.at(source).queue.len());
            assert(prior.staged.len() == v.at(source).staged.len());
        }
        let a = self.actor_mut(i);
        a.staged_bytes = a.staged_bytes + cost;
        a.deadlines.add(deadline);
        a.staged.push(Staged { port, stored, publication: id });
        self.reindex(i);
        proof {
            let n = v.put(
                source,
                ActorView { staged: v.at(source).staged.push(entry), ..v.at(source) },
            );
            assert(self@.actors =~= n.actors);
            assert(self@ == n);
        }
        self.share(share);
    }

    fn enter(
        &mut self,
        id: u64,
        source: ActorRef,
        port: Option<u16>,
        stored: Arc<Stored>,
        staged: bool,
        completion: bool,
    )
        requires
            old(self).steady(),
            id + 1 == old(self)@.pubs.next_id,
            !old(self)@.pubs.entries.dom().contains(id),
            old(self)@.pubs.tickets.dom().contains(id),
            old(self)@.pubs.tickets[id].source == source,
            !(old(self)@.pubs.tickets[id].status is Terminal),
            old(self)@.lives(source),
        ensures
            final(self).steady(),
            final(self)@ == old(self)@.entered(id, source, port, stored, staged, completion),
    {
        let report = DeliveryReport {
            admitted: 0,
            rejected: 0,
            staged: if staged {
                1
            } else {
                0
            },
            matched: 0,
            outcome: PublicationOutcome::Pending,
        };
        let publication = Publication {
            source,
            source_port: port,
            stored,
            staged,
            completion,
            routes: None,
            cursor: 0,
            report,
        };
        proof {
            super::lemma_sound_parts(self@);
        }
        self.publications.insert(id, publication);
        self.metrics.publication_admitted = self.metrics.publication_admitted.wrapping_add(1);
        if !staged {
            self.routing_dirty = true;
        }
        proof {
            super::living::lemma_living_entry(old(self)@, self@, id);
            self.lemma_kept(*old(self));
        }
        self.mark(source);
    }

    pub fn publish(&mut self, source: ActorRef, p: Payload) -> (result: Result<
        PublicationTicket,
        Error,
    >)
        requires
            old(self).inv(),
        ensures
            final(self).inv(),
            exists|now: Instant, charge: usize| #[trigger]
                old(self)@.clock.reads(now) && #[trigger] payload::may_charge(p, charge) && (
                final(self)@,
                told(result),
            ) == old(self)@.publishing(
                now,
                source,
                p,
                charge,
                None,
                None,
                envelope::no_options(),
            ),
    {
        self.publish_with(source, p, MessageOptions::default())
    }

    /// Publishes a payload to the subscribers of an actor.
    pub fn publish_with(&mut self, source: ActorRef, p: Payload, options: MessageOptions) -> (result:
        Result<PublicationTicket, Error>)
        requires
            old(self).inv(),
        ensures
            final(self).inv(),
            exists|now: Instant, charge: usize| #[trigger]
                old(self)@.clock.reads(now) && #[trigger] payload::may_charge(p, charge) && (
                final(self)@,
                told(result),
            ) == old(self)@.publishing(now, source, p, charge, None, None, options),
    {
        let now = self.now();
        let charge = p.bytes();
        self.publish_at(now, source, p, charge, None, None, options)
    }

    pub fn publish_port(&mut self, source: PortRef, p: Payload) -> (result: Result<
        PublicationTicket,
        Error,
    >)
        requires
            old(self).inv(),
        ensures
            final(self).inv(),
            exists|now: Instant, charge: usize| #[trigger]
                old(self)@.clock.reads(now) && #[trigger] payload::may_charge(p, charge) && (
                final(self)@,
                told(result),
            ) == old(self)@.publishing(
                now,
                source.owner,
                p,
                charge,
                None,
                Some(source.index),
                envelope::no_options(),
            ),
    {
        self.publish_port_with(source, p, MessageOptions::default())
    }

    /// Publishes a payload to what is linked to an output port.
    pub fn publish_port_with(&mut self, source: PortRef, p: Payload, options: MessageOptions) -> (result:
        Result<PublicationTicket, Error>)
        requires
            old(self).inv(),
        ensures
            final(self).inv(),
            exists|now: Instant, charge: usize| #[trigger]
                old(self)@.clock.reads(now) && #[trigger] payload::may_charge(p, charge) && (
                final(self)@,
                told(result),
            ) == old(self)@.publishing(
                now,
                source.owner,
                p,
                charge,
                None,
                Some(source.index),
                options,
            ),
    {
        let now = self.now();
        let charge = p.bytes();
        self.publish_at(now, source.owner, p, charge, None, Some(source.index), options)
    }

    /// Lets a publication that was put aside be routed.
    pub(super) fn enqueue(&mut self, id: u64)
        requires
            old(self).steady(),
        ensures
            final(self).steady(),
            final(self)@ == old(self)@.enqueued(id),
    {
        proof {
            super::lemma_sound_parts(self@);
        }
        let source = self.publications.unstage(id);
        match source {
            Some(source) => {
                self.routing_dirty = true;
                proof {
                    self.lemma_kept(*old(self));
                }
                self.mark(source);
            },
            None => {
                proof {
                    self.lemma_kept(*old(self));
                }
            },
        }
    }

    fn count_outcome(&mut self, outcome: PublicationOutcome)
        ensures
            *final(self) == (World {
                metrics: outcome_counted(old(self).metrics, outcome),
                ..*old(self)
            }),
    {
        match outcome {
            PublicationOutcome::Routed => {
                self.metrics.publication_completed = self.metrics.publication_completed.wrapping_add(
                    1,
                );
            },
            PublicationOutcome::Expired => {
                self.metrics.publication_expired = self.metrics.publication_expired.wrapping_add(1);
            },
            PublicationOutcome::FanoutLimit | PublicationOutcome::SnapshotFull => {
                self.metrics.publication_failed = self.metrics.publication_failed.wrapping_add(1);
            },
            _ => {
                self.metrics.publication_cancelled = self.metrics.publication_cancelled.wrapping_add(
                    1,
                );
            },
        }
    }

    /// Ends a publication.
    pub(super) fn end_publication(&mut self, id: u64, outcome: PublicationOutcome)
        requires
            old(self).steady(),
            outcome != PublicationOutcome::Pending,
        ensures
            final(self).steady(),
            final(self)@ == old(self)@.publication_cancelled(id, outcome),
    {
        proof {
            super::lemma_sound_parts(self@);
        }
        let (publication, untried) = match self.publications.finish(id, outcome) {
            Some(ended) => ended,
            None => {
                proof {
                    self.lemma_kept(*old(self));
                }
                return;
            },
        };
        self.metrics.rejected = self.metrics.rejected.wrapping_add(untried as u64);
        self.count_outcome(outcome);
        if self.publications.is_ready() {
            self.routing_dirty = true;
        }
        proof {
            self.lemma_kept(*old(self));
        }
        self.release(publication.stored.id);
        self.mark(publication.source);
    }

    pub(super) fn end_publications(&mut self, ids: &Vec<u64>, outcome: PublicationOutcome)
        requires
            old(self).steady(),
            outcome != PublicationOutcome::Pending,
        ensures
            final(self).steady(),
            final(self)@ == old(self)@.publications_cancelled(ids@, outcome),
    {
        let mut i: usize = 0;
        assert(ids@.take(0) =~= Seq::<u64>::empty());
        while i < ids.len()
            invariant
                i <= ids@.len(),
                self.steady(),
                outcome != PublicationOutcome::Pending,
                self@ == old(self)@.publications_cancelled(ids@.take(i as int), outcome),
            decreases ids@.len() - i,
        {
            assert(ids@.take(i + 1).drop_last() =~= ids@.take(i as int));
            self.end_publication(ids[i], outcome);
            i += 1;
        }
        assert(ids@.take(i as int) =~= ids@);
    }

    /// Withdraws the publications of a source.
    pub(super) fn silence(&mut self, source: ActorRef)
        requires
            old(self).steady(),
        ensures
            final(self).steady(),
            final(self)@ == old(self)@.source_silenced(source),
    {
        let ids = self.publications.ids_of(source);
        self.end_publications(&ids, PublicationOutcome::Cancelled);
    }

    /// Drops the publications that came due.
    pub(super) fn expire_publications(&mut self, now: Instant)
        requires
            old(self).steady(),
        ensures
            final(self).steady(),
            final(self)@ == old(self)@.publications_expired(now),
    {
        let ids = self.publications.due_ids(now);
        self.end_publications(&ids, PublicationOutcome::Expired);
    }

    /// How many publications wait to be routed to the end.
    pub fn routing_pending(&self) -> (r: usize)
        requires
            self.inv(),
        ensures
            r == self@.pubs.entries.dom().len(),
    {
        self.publications.pending()
    }

    /// Whether a turn of routing has something to do.
    pub fn routing_ready(&self) -> (r: bool)
        ensures
            r == (self@.pubs.ready.len() > 0),
    {
        self.publications.is_ready()
    }
}

/// One more entry put aside.
proof fn lemma_aside(a: ActorView, s: Staged)
    ensures
        held::bytes_of(held::staged_costs(a.staged.push(s))) == a.staged_bytes() + s.stored.bytes,
        (ActorView { staged: a.staged.push(s), ..a }).deadlines() == expiry::with_deadline(
            a.deadlines(),
            s.stored.options.deadline,
        ),
        a.deadlines().len() <= a.queue.len() + a.staged.len(),
{
    let q = a.staged.push(s);
    assert(held::staged_costs(q) =~= held::staged_costs(a.staged).push(s.stored.bytes));
    held::lemma_bytes_push(held::staged_costs(a.staged), s.stored.bytes);
    assert(held::staged_deadlines(q) =~= held::staged_deadlines(a.staged).push(
        s.stored.options.deadline,
    ));
    expiry::lemma_bag_push(held::staged_deadlines(a.staged), s.stored.options.deadline);
    let n = ActorView { staged: q, ..a };
    assert(n.deadlines() =~= expiry::with_deadline(a.deadlines(), s.stored.options.deadline));
    expiry::lemma_bag_len(held::queue_deadlines(a.queue));
    expiry::lemma_bag_len(held::staged_deadlines(a.staged));
}

} // verus!
