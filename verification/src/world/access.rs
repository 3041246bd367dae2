//! What drivers read from a World and how they are woken; schemas, history
//! and tickets.
use vstd::prelude::*;
use vstd::multiset::Multiset;
use vstd::string::*;
use std::sync::Arc;
use super::{World, WorldView};
use crate::activity::{ActivityPoll, Retired};
use crate::buffers::NativeBufferBudget;
use crate::codec::copied;
use crate::diagnostics;
use crate::diagnostics::{DiagnosticGap, DiagnosticRead};
use crate::ordered;
use crate::payload::{Payload, StructuredRecord};
use crate::publications::{DeliveryReport, PublicationStatus, PublicationTicket};
use crate::readiness::{PythonReadyPhase, ReadyView};
use crate::schema;
use crate::schema::{RegistryView, Schema, SchemaError, SchemaView};
use crate::types::{ActorRef, Error, Lifecycle};

verus! {

/// What a router learns when it asks for work.
#[derive(Clone, Copy, Debug, PartialEq, Eq)]
pub enum RoutingPoll {
    Ready(Result<(), Error>),
    Pending,
}

impl WorldView {
    /// Whether an actor still works, so that a closed World takes schemas.
    pub open spec fn busy(self) -> bool {
        exists|i: int|
            0 <= i < self.actors.len() && ((#[trigger] self.actors[i]).state == Lifecycle::Quiescing
                || self.actors[i].in_flight)
    }

    /// Why bytes do not make a payload.
    pub open spec fn refuses_structured(self, id: u32, bytes: Seq<u8>) -> Option<Seq<char>> {
        if super::reports::capped(bytes.len() as usize, 4) > self.cfg.max_event_bytes {
            Some(schema::clip("event exceeds configured byte limit"@))
        } else if !self.schemas.has(id) {
            Some(schema::clip("unknown schema"@))
        } else {
            match self.schemas.get(id).reading(bytes) {
                Ok(_) => None,
                Err(message) => Some(message),
            }
        }
    }

    /// The status that a ticket stands for.
    pub open spec fn ticket_status(self, ticket: PublicationTicket) -> Option<PublicationStatus> {
        if ticket.publisher().world == self.id && self.pubs.tickets.dom().contains(
            ticket.number(),
        ) {
            Some(self.pubs.tickets[ticket.number()].status)
        } else {
            None
        }
    }

    /// What a router learns.
    pub open spec fn routing_polled(self, incoming: u64) -> (WorldView, RoutingPoll, Option<u64>) {
        if self.routing_closed {
            (
                WorldView { routing_observer: None, ..self },
                RoutingPoll::Ready(Err(Error::ActorStopped)),
                self.routing_observer,
            )
        } else if self.pubs.ready.len() > 0 {
            (self, RoutingPoll::Ready(Ok(())), None)
        } else {
            (
                WorldView { routing_observer: Some(incoming), ..self },
                RoutingPoll::Pending,
                self.routing_observer,
            )
        }
    }
}

impl World {
    /// The youngest actor's order. A driver reads it once per phase, so that
    /// what its callbacks register waits for the next one.
    pub fn python_ready_cutoff(&self) -> (r: u64)
        requires
            self.inv(),
        ensures
            r == self@.next_ready_order - 1,
    {
        proof {
            reveal(WorldView::sound);
        }
        self.next_ready_order - 1
    }

    /// The next hint of a phase. Hints say where to look; claims decide.
    pub fn python_ready_next(&self, phase: PythonReadyPhase, after: Option<u64>, through: u64) -> (r: Option<
        (u64, ActorRef),
    >)
        requires
            self.inv(),
        ensures
            self@.python_ready.is_next(phase, after, through, r),
    {
        self.python_ready.next(phase, after, through)
    }

    /// Whether any phase has a hint.
    pub fn python_is_ready(&self) -> (r: bool)
        requires
            self.inv(),
        ensures
            r == (self@.python_ready != ReadyView::none()),
    {
        !self.python_ready.is_empty()
    }

    /// The version of an actor's activity, to be read before its work is looked
    /// at. An observer of an actor that had the slot before is given back.
    pub fn activity(&mut self, actor: ActorRef) -> (r: (Result<u64, Error>, Option<Retired>))
        requires
            old(self).inv(),
        ensures
            final(self).inv(),
            if old(self)@.valid(actor) {
                &&& final(self)@ == (WorldView {
                    activity: old(self)@.activity.seated(actor),
                    ..old(self)@
                })
                &&& r.0 == final(self)@.activity.shown(actor)
                &&& r.1 == old(self)@.activity.unseated(actor)
            } else {
                &&& final(self)@ == old(self)@
                &&& r == (Err::<u64, Error>(old(self)@.stale(actor)), None::<Retired>)
            },
    {
        match self.locate(actor) {
            Ok(_) => {},
            Err(e) => return (Err(e), None),
        }
        let r = self.activity.version(actor);
        proof {
            self.lemma_kept(*old(self));
            super::tidy::lemma_aside(old(self)@, self@, super::tidy::nothing_open());
        }
        r
    }

    /// Waits until an actor's activity differs from a version, or until it
    /// stops. One observer waits per actor; the one it takes the place of is
    /// given back.
    pub fn poll_activity(&mut self, actor: ActorRef, observed: u64, incoming: u64) -> (r: (
        ActivityPoll,
        Option<Retired>,
    ))
        requires
            old(self).inv(),
        ensures
            final(self).inv(),
            if !old(self)@.valid(actor) {
                &&& final(self)@ == old(self)@
                &&& r == (ActivityPoll::Ready(Err(old(self)@.stale(actor))), None::<Retired>)
            } else if super::is_ended(old(self)@.at(actor).state) {
                &&& final(self)@ == (WorldView {
                    activity: old(self)@.activity.seated(actor),
                    ..old(self)@
                })
                &&& r == (
                    ActivityPoll::Ready(final(self)@.activity.shown(actor)),
                    old(self)@.activity.unseated(actor),
                )
            } else {
                &&& final(self)@ == (WorldView {
                    activity: old(self)@.activity.polled(actor, observed, incoming),
                    ..old(self)@
                })
                &&& r.0 == (if old(self)@.activity.reports(actor, observed) {
                    ActivityPoll::Ready(final(self)@.activity.shown(actor))
                } else {
                    ActivityPoll::Pending
                })
                &&& r.1 == old(self)@.activity.poll_retires(actor, observed, incoming)
            },
    {
        let i = match self.locate(actor) {
            Ok(i) => i,
            Err(e) => return (ActivityPoll::Ready(Err(e)), None),
        };
        let ended: bool = match self.actors[i].state {
            Lifecycle::Stopping | Lifecycle::Stopped => true,
            _ => false,
        };
        if ended {
            let (version, retired) = self.activity.version(actor);
            proof {
                self.lemma_kept(*old(self));
                super::tidy::lemma_aside(old(self)@, self@, super::tidy::nothing_open());
            }
            return (ActivityPoll::Ready(version), retired);
        }
        let r = self.activity.poll(actor, observed, incoming);
        proof {
            self.lemma_kept(*old(self));
            super::tidy::lemma_aside(old(self)@, self@, super::tidy::nothing_open());
        }
        r
    }

    /// Takes the observers of what was marked, so that they can be woken.
    pub fn notify_activity(&mut self) -> (r: Vec<u64>)
        requires
            old(self).inv(),
        ensures
            final(self).inv(),
            final(self)@ == (WorldView { activity: old(self)@.activity.flushed(), ..old(self)@ }),
            r@ == old(self)@.activity.observers_of(ordered::sorted(old(self)@.activity.dirty)),
    {
        let r = self.activity.notify_marked();
        proof {
            self.lemma_kept(*old(self));
            super::tidy::lemma_aside(old(self)@, self@, super::tidy::nothing_open());
        }
        r
    }

    /// Asks for routing work. One router waits; the one it takes the place of
    /// is given back. A closed World has no more work.
    pub fn poll_routing_ready(&mut self, incoming: u64) -> (r: (RoutingPoll, Option<u64>))
        requires
            old(self).inv(),
        ensures
            final(self).inv(),
            (final(self)@, r.0, r.1) == old(self)@.routing_polled(incoming),
    {
        let r: (RoutingPoll, Option<u64>) = if self.routing_closed {
            let retired = self.routing_observer;
            self.routing_observer = None;
            (RoutingPoll::Ready(Err(Error::ActorStopped)), retired)
        } else if self.publications.is_ready() {
            (RoutingPoll::Ready(Ok(())), None)
        } else {
            let retired = self.routing_observer;
            self.routing_observer = Some(incoming);
            (RoutingPoll::Pending, retired)
        };
        proof {
            self.lemma_kept(*old(self));
            super::tidy::lemma_aside(old(self)@, self@, super::tidy::nothing_open());
        }
        r
    }

    /// Takes the router that waits, if there is news for it.
    pub fn wake_routing(&mut self) -> (r: Option<u64>)
        requires
            old(self).inv(),
        ensures
            final(self).inv(),
            if old(self)@.routing_dirty {
                &&& r == old(self)@.routing_observer
                &&& final(self)@ == (WorldView {
                    routing_dirty: false,
                    routing_observer: None,
                    ..old(self)@
                })
            } else {
                r is None && final(self)@ == old(self)@
            },
    {
        if !self.routing_dirty {
            return None;
        }
        let r = self.routing_observer;
        self.routing_dirty = false;
        self.routing_observer = None;
        proof {
            self.lemma_kept(*old(self));
            super::tidy::lemma_aside(old(self)@, self@, super::tidy::nothing_open());
        }
        r
    }

    fn is_busy(&self) -> (r: bool)
        ensures
            r == self@.busy(),
    {
        let mut i: usize = 0;
        assert(self.actors@.len() == self@.actors.len());
        while i < self.actors.len()
            invariant
                i <= self.actors@.len(),
                self.actors@.len() == self@.actors.len(),
                forall|k: int|
                    0 <= k < i ==> (#[trigger] self@.actors[k]).state != Lifecycle::Quiescing
                        && !self@.actors[k].in_flight,
            decreases self.actors@.len() - i,
        {
            assert(self@.actors[i as int] == self.actors@[i as int]@);
            if self.actors[i].state == Lifecycle::Quiescing || self.actors[i].in_flight {
                return true;
            }
            i += 1;
        }
        false
    }

    /// Registers schemas, all of them or none.
    pub fn register_schemas(&mut self, schemas: Vec<Schema>) -> (r: Result<Vec<u32>, SchemaError>)
        requires
            old(self).inv(),
        ensures
            final(self).inv(),
            if old(self)@.closed && !old(self)@.busy() {
                &&& r matches Err(e) && e@ == schema::clip("World is closed"@)
                &&& final(self)@ == old(self)@
            } else {
                &&& final(self)@ == (WorldView {
                    schemas: old(self)@.schemas.registered(schema::schemas_view(schemas@)),
                    ..old(self)@
                })
                &&& match r {
                    Ok(ids) => old(self)@.schemas.registering(
                        schema::schemas_view(schemas@),
                    ) matches Ok((_, told)) && told == ids@,
                    Err(e) => old(self)@.schemas.registering(schema::schemas_view(schemas@)) == Err::<
                        (Seq<SchemaView>, Seq<u32>),
                        Seq<char>,
                    >(e@),
                }
            },
    {
        if self.closed && !self.is_busy() {
            return Err(SchemaError::new("World is closed"));
        }
        let r = self.schemas.register_batch(schemas);
        proof {
            self.lemma_kept(*old(self));
            super::tidy::lemma_aside(old(self)@, self@, super::tidy::nothing_open());
        }
        r
    }

    pub fn schema(&self, id: u32) -> (r: Result<Arc<Schema>, SchemaError>)
        requires
            self.inv(),
        ensures
            r is Ok <==> self@.schemas.has(id),
            r matches Ok(schema) ==> schema@ == self@.schemas.get(id),
            r matches Err(e) ==> e@ == schema::clip("unknown schema"@),
    {
        self.schemas.schema(id)
    }

    pub fn schema_count(&self) -> (r: usize)
        requires
            self.inv(),
        ensures
            r == self@.schemas.items.len(),
    {
        self.schemas.len()
    }

    /// A payload from the canonical bytes of a registered schema.
    pub fn structured(&self, id: u32, bytes: &[u8]) -> (r: Result<Payload, SchemaError>)
        requires
            self.inv(),
        ensures
            match self@.refuses_structured(id, bytes@) {
                Some(message) => r matches Err(e) && e@ == message,
                None => r matches Ok(Payload::Structured(record)) && record.world_id() == self@.id
                    && record.schema_id() == id && record.content() == bytes@,
            },
            r is Ok <==> super::reports::capped(bytes@.len() as usize, 4)
                <= self@.cfg.max_event_bytes && self@.schemas.has(id) && self@.schemas.get(
                id,
            ).decoding(bytes@) is Ok,
    {
        proof {
            self.lemma_schemas();
            reveal(RegistryView::sound);
            if self@.schemas.has(id) {
                assert(self@.schemas.items[id - 1].valid());
            }
        }
        if bytes.len().saturating_add(4) > self.cfg.max_event_bytes {
            return Err(SchemaError::new("event exceeds configured byte limit"));
        }
        let descriptor = match self.schemas.schema(id) {
            Ok(descriptor) => descriptor,
            Err(e) => return Err(e),
        };
        match descriptor.validate_registered_bytes(bytes) {
            Ok(_) => {},
            Err(e) => return Err(e),
        }
        Ok(Payload::Structured(StructuredRecord::new(self.id, id, copied(bytes))))
    }

    /// The diagnostics after a number.
    pub fn diagnostics(&self, after_sequence: u64, limit: usize) -> (r: Result<DiagnosticRead, Error>)
        requires
            self.inv(),
        ensures
            match r {
                Err(e) => limit > self@.cfg.diagnostic_capacity && e == Error::LimitExceeded,
                Ok(read) => {
                    &&& limit <= self@.cfg.diagnostic_capacity
                    &&& read.entries@ == diagnostics::entries_after(
                        self@.history.entries,
                        after_sequence,
                        limit as nat,
                    )
                    &&& read.next_sequence == self@.history.next
                    &&& read.dropped == self@.history.dropped
                    &&& read.gap == (if diagnostics::saturating_succ(after_sequence)
                        < diagnostics::first_available(self@.history) {
                        Some(
                            (DiagnosticGap {
                                first_available: diagnostics::first_available(self@.history),
                                requested_after: after_sequence,
                            }),
                        )
                    } else {
                        None
                    })
                },
            },
    {
        if limit > self.cfg.diagnostic_capacity {
            return Err(Error::LimitExceeded);
        }
        Ok(self.diagnostics.read(after_sequence, limit))
    }

    /// The budget that payloads and native buffers share.
    pub fn native_buffer_budget(&mut self) -> (r: &mut NativeBufferBudget)
        requires
            old(self).inv(),
        ensures
            r.wf(),
            r@ == old(self)@.budget,
            final(r).wf() && final(r)@.serves(old(self)@.budget) ==> final(self).inv(),
            final(self)@ == (WorldView { budget: final(r)@, ..old(self)@ }),
    {
        let ghost before = *self;
        proof {
            assert forall|b: NativeBufferBudget| b.wf() && b@.serves(before@.budget) implies (
            #[trigger] before.with_budget(b)).inv() by {
                let after = before.with_budget(b);
                after.lemma_kept(before);
                b.lemma_within_limit();
                super::tidy::lemma_owing_scratch(before@, after@, Multiset::empty());
                super::tidy::lemma_kept_up(before@, after@, Set::empty(), Set::empty());
            }
        }
        let r = &mut self.budget;
        assert(final(r).wf() && final(r)@.serves(before@.budget) ==> before.with_budget(
            *final(r),
        ).inv());
        r
    }

    spec fn with_budget(self, budget: NativeBufferBudget) -> World {
        World { budget, ..self }
    }

    /// One more holder of a ticket.
    pub fn share_ticket(&mut self, ticket: &PublicationTicket) -> (r: PublicationTicket)
        requires
            old(self).inv(),
        ensures
            final(self).inv(),
            r.number() == ticket.number(),
            r.publisher() == ticket.publisher(),
            final(self)@ == (if ticket.publisher().world == old(self)@.id {
                WorldView { pubs: old(self)@.pubs.ticket_shared(ticket.number()), ..old(self)@ }
            } else {
                old(self)@
            }),
    {
        if ticket.source().world == self.id {
            self.publications.share_ticket(ticket.id());
            proof {
                self.lemma_kept(*old(self));
                super::tidy::lemma_aside(old(self)@, self@, super::tidy::nothing_open());
            }
        }
        PublicationTicket::make(ticket.id(), ticket.source())
    }

    /// A holder gives a ticket back. Work that was accepted goes on; the report
    /// is dropped once nobody can ask for it.
    pub fn release_ticket(&mut self, ticket: PublicationTicket)
        requires
            old(self).inv(),
        ensures
            final(self).inv(),
            final(self)@ == (if ticket.publisher().world == old(self)@.id {
                WorldView { pubs: old(self)@.pubs.ticket_released(ticket.number()), ..old(self)@ }
            } else {
                old(self)@
            }),
    {
        if ticket.source().world == self.id {
            self.publications.release_ticket(ticket.id());
            proof {
                self.lemma_kept(*old(self));
                super::tidy::lemma_aside(old(self)@, self@, super::tidy::nothing_open());
            }
        }
    }
}

impl PublicationTicket {
    /// How far a publication has come; nothing of another World's.
    pub fn status(&self, world: &World) -> (r: Option<PublicationStatus>)
        requires
            world.inv(),
        ensures
            r == world@.ticket_status(*self),
    {
        if self.source().world != world.id {
            return None;
        }
        world.publications.status(self.id())
    }

    /// The report on a publication that has ended.
    pub fn report(&self, world: &World) -> (r: Option<DeliveryReport>)
        requires
            world.inv(),
        ensures
            r == (match world@.ticket_status(*self) {
                Some(PublicationStatus::Terminal(report)) => Some(report),
                _ => None,
            }),
    {
        match self.status(world) {
            Some(PublicationStatus::Terminal(report)) => Some(report),
            _ => None,
        }
    }
}

} // verus!
