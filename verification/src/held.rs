//! Payloads that a World keeps, each charged to its budget once however many
//! places hold it.
use vstd::prelude::*;
use std::sync::Arc;
use crate::clock::Instant;
use crate::components::PortRef;
use crate::envelope::{Envelope, MessageOptions};
use crate::operations::OperationId;
use crate::payload::Payload;

verus! {

/// A payload with its metadata. `id` is the share of the budget that pays for
/// it, `bytes` what it costs. Only the library makes one.
#[non_exhaustive]
pub struct Stored {
    pub id: u64,
    pub payload: Payload,
    pub options: MessageOptions,
    pub dispatcher: Option<PortRef>,
    pub bytes: usize,
}

/// A place in a mailbox.
#[non_exhaustive]
pub struct Delivery {
    pub event_id: u64,
    pub envelope: Envelope,
    pub payload: Arc<Stored>,
    pub subscription: Option<u64>,
    pub operation: Option<OperationId>,
}

/// A publication that waits for its source to start.
#[non_exhaustive]
pub struct Staged {
    pub port: u16,
    pub stored: Arc<Stored>,
    pub publication: u64,
}

/// A hold on a stored payload. It counts as one holder of the payload's share
/// until the World that gave it takes it back.
pub struct HeldPayload {
    stored: Arc<Stored>,
    world: u64,
    envelope: Option<Arc<Envelope>>,
}

/// The spec-side contents of a hold.
pub open spec fn held_envelope(held: HeldPayload) -> Option<Envelope> {
    match held.context() {
        Some(envelope) => Some(*envelope),
        None => None,
    }
}

impl HeldPayload {
    pub closed spec fn of_world(self) -> u64 {
        self.world
    }

    /// What is held.
    pub closed spec fn kept(self) -> Arc<Stored> {
        self.stored
    }

    pub open spec fn share(self) -> u64 {
        self.kept().id
    }

    pub open spec fn carried(self) -> Payload {
        self.kept().payload
    }

    pub open spec fn metadata(self) -> MessageOptions {
        self.kept().options
    }

    pub open spec fn cost(self) -> usize {
        self.kept().bytes
    }

    pub closed spec fn context(self) -> Option<Arc<Envelope>> {
        self.envelope
    }

    /// The hold on a stored payload in a World.
    pub closed spec fn made(stored: Arc<Stored>, world: u64, envelope: Option<Arc<Envelope>>) -> HeldPayload {
        HeldPayload { stored, world, envelope }
    }

    pub proof fn lemma_made(stored: Arc<Stored>, world: u64, envelope: Option<Arc<Envelope>>)
        ensures
            HeldPayload::made(stored, world, envelope).kept() == stored,
            HeldPayload::made(stored, world, envelope).of_world() == world,
            HeldPayload::made(stored, world, envelope).context() == envelope,
    {
    }

    pub(crate) fn new(stored: Arc<Stored>, world: u64, envelope: Option<Arc<Envelope>>) -> (r: Self)
        ensures
            r == HeldPayload::made(stored, world, envelope),
            r.kept() == stored,
            r.of_world() == world,
            r.context() == envelope,
    {
        HeldPayload { stored, world, envelope }
    }

    /// The same hold once more.
    pub(crate) fn again(&self) -> (r: Self)
        ensures
            r == *self,
    {
        HeldPayload {
            stored: self.stored.clone(),
            world: self.world,
            envelope: match &self.envelope {
                Some(envelope) => Some(envelope.clone()),
                None => None,
            },
        }
    }

    pub(crate) fn stored(&self) -> (r: &Arc<Stored>)
        ensures
            *r == self.kept(),
    {
        &self.stored
    }

    pub fn world(&self) -> (r: u64)
        ensures
            r == self.of_world(),
    {
        self.world
    }

    pub fn payload(&self) -> (r: &Payload)
        ensures
            *r == self.carried(),
    {
        &self.stored.payload
    }

    pub fn envelope(&self) -> (r: Option<&Envelope>)
        ensures
            match r {
                Some(envelope) => held_envelope(*self) == Some(*envelope),
                None => held_envelope(*self) is None,
            },
    {
        match &self.envelope {
            Some(envelope) => Some(&**envelope),
            None => None,
        }
    }

    pub fn options(&self) -> (r: &MessageOptions)
        ensures
            *r == self.metadata(),
    {
        &self.stored.options
    }

    pub fn retained_bytes(&self) -> (r: usize)
        ensures
            r == self.cost(),
    {
        self.stored.bytes
    }
}

/// What entries cost together.
pub open spec fn bytes_of(costs: Seq<usize>) -> nat
    decreases costs.len(),
{
    if costs.len() == 0 {
        0
    } else {
        bytes_of(costs.drop_last()) + costs.last() as nat
    }
}

pub proof fn lemma_bytes_push(costs: Seq<usize>, cost: usize)
    ensures
        bytes_of(costs.push(cost)) == bytes_of(costs) + cost,
{
    assert(costs.push(cost).drop_last() =~= costs);
}

pub proof fn lemma_bytes_first(costs: Seq<usize>)
    requires
        costs.len() > 0,
    ensures
        bytes_of(costs) == costs[0] + bytes_of(costs.drop_first()),
    decreases costs.len(),
{
    if costs.len() == 1 {
        assert(costs.drop_last() =~= Seq::<usize>::empty());
        assert(costs.drop_first() =~= Seq::<usize>::empty());
    } else {
        lemma_bytes_first(costs.drop_last());
        assert(costs.drop_last().drop_first() =~= costs.drop_first().drop_last());
    }
}

/// The costs of the entries of a mailbox.
pub open spec fn queue_costs(queue: Seq<Delivery>) -> Seq<usize> {
    queue.map_values(|d: Delivery| d.payload.bytes)
}

/// The deadlines of the entries of a mailbox.
pub open spec fn queue_deadlines(queue: Seq<Delivery>) -> Seq<Option<Instant>> {
    queue.map_values(|d: Delivery| d.envelope.deadline)
}

pub open spec fn staged_costs(staged: Seq<Staged>) -> Seq<usize> {
    staged.map_values(|s: Staged| s.stored.bytes)
}

pub open spec fn staged_deadlines(staged: Seq<Staged>) -> Seq<Option<Instant>> {
    staged.map_values(|s: Staged| s.stored.options.deadline)
}

/// The bytes of a queue are those of its entries.
pub proof fn each_entry_counts_with_its_bytes(queue: Seq<Delivery>, d: Delivery)
    ensures
        bytes_of(queue_costs(Seq::empty())) == 0,
        bytes_of(queue_costs(queue.push(d))) == bytes_of(queue_costs(queue)) + d.payload.bytes,
{
    assert(queue_costs(queue.push(d)).drop_last() =~= queue_costs(queue));
    assert(queue_costs(Seq::<Delivery>::empty()) =~= Seq::<usize>::empty());
}

} // verus!
