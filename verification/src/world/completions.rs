//! Publications on behalf of work that was accepted before: they pass while
//! an actor drains.
use vstd::prelude::*;
use super::{World, WorldView};
use super::claims::DeliveryLease;
use super::lifecycle::TaskLease;
use super::publishing;
use super::requests;
use super::requests::merge_options;
use crate::clock::Instant;
use crate::components::PortRef;
use crate::envelope;
use crate::envelope::MessageOptions;
use crate::held::Delivery;
use crate::payload;
use crate::payload::Payload;
use crate::publications::PublicationTicket;
use crate::types::{ActorRef, Error};

verus! {

impl WorldView {
    /// What a handler publishes inherits from what it handles.
    pub open spec fn completing_delivery(
        self,
        now: Instant,
        holder: ActorRef,
        d: Delivery,
        source: PortRef,
        p: Payload,
        charge: usize,
        options: MessageOptions,
    ) -> (WorldView, Result<(u64, ActorRef), Error>) {
        if !options.valid() {
            (self, Err(Error::InvalidMetadata))
        } else if options.source is Some && options.source->0 != source.owner {
            (self, Err(Error::InvalidMetadata))
        } else {
            self.publishing(
                now,
                source.owner,
                p,
                charge,
                Some(holder),
                Some(source.index),
                requests::merged_options(
                    envelope::child_of(d.envelope, source.owner),
                    options,
                ),
            )
        }
    }
}

impl TaskLease {
    /// Publishes the completion of a task.
    pub fn publish_completion(&self, world: &mut World, source: ActorRef, p: Payload) -> (result: Result<
        PublicationTicket,
        Error,
    >)
        requires
            old(world).inv(),
        ensures
            final(world).inv(),
            exists|now: Instant, charge: usize| #[trigger]
                old(world)@.clock.reads(now) && #[trigger] payload::may_charge(p, charge) && (
                final(world)@,
                publishing::told(result),
            ) == old(world)@.publishing(
                now,
                source,
                p,
                charge,
                Some(self.held_for()),
                None,
                envelope::no_options(),
            ),
    {
        let now = world.now();
        let charge = p.bytes();
        world.publish_at(
            now,
            source,
            p,
            charge,
            Some(self.owner()),
            None,
            MessageOptions::default(),
        )
    }

    pub fn publish_port_completion(&self, world: &mut World, source: PortRef, p: Payload) -> (result: Result<
        PublicationTicket,
        Error,
    >)
        requires
            old(world).inv(),
        ensures
            final(world).inv(),
            exists|now: Instant, charge: usize| #[trigger]
                old(world)@.clock.reads(now) && #[trigger] payload::may_charge(p, charge) && (
                final(world)@,
                publishing::told(result),
            ) == old(world)@.publishing(
                now,
                source.owner,
                p,
                charge,
                Some(self.held_for()),
                Some(source.index),
                envelope::no_options(),
            ),
    {
        self.publish_port_completion_with(world, source, p, MessageOptions::default())
    }

    /// Publishes the completion of a task at a port.
    pub fn publish_port_completion_with(
        &self,
        world: &mut World,
        source: PortRef,
        p: Payload,
        options: MessageOptions,
    ) -> (result: Result<PublicationTicket, Error>)
        requires
            old(world).inv(),
        ensures
            final(world).inv(),
            exists|now: Instant, charge: usize| #[trigger]
                old(world)@.clock.reads(now) && #[trigger] payload::may_charge(p, charge) && (
                final(world)@,
                publishing::told(result),
            ) == old(world)@.publishing(
                now,
                source.owner,
                p,
                charge,
                Some(self.held_for()),
                Some(source.index),
                options,
            ),
    {
        let now = world.now();
        let charge = p.bytes();
        world.publish_at(
            now,
            source.owner,
            p,
            charge,
            Some(self.owner()),
            Some(source.index),
            options,
        )
    }
}

impl DeliveryLease {
    pub fn publish_port_completion(&self, world: &mut World, source: PortRef, p: Payload) -> (result: Result<
        PublicationTicket,
        Error,
    >)
        requires
            old(world).inv(),
        ensures
            final(world).inv(),
            exists|now: Instant, charge: usize| #[trigger]
                old(world)@.clock.reads(now) && #[trigger] payload::may_charge(p, charge) && (
                final(world)@,
                publishing::told(result),
            ) == old(world)@.completing_delivery(
                now,
                self.holder(),
                self.held(),
                source,
                p,
                charge,
                envelope::no_options(),
            ),
    {
        self.publish_port_completion_with(world, source, p, MessageOptions::default())
    }

    /// Publishes what a handler has to say on what it handles. The source
    /// belongs to the handler's actor or is below it.
    pub fn publish_port_completion_with(
        &self,
        world: &mut World,
        source: PortRef,
        p: Payload,
        options: MessageOptions,
    ) -> (result: Result<PublicationTicket, Error>)
        requires
            old(world).inv(),
        ensures
            final(world).inv(),
            exists|now: Instant, charge: usize| #[trigger]
                old(world)@.clock.reads(now) && #[trigger] payload::may_charge(p, charge) && (
                final(world)@,
                publishing::told(result),
            ) == old(world)@.completing_delivery(
                now,
                self.holder(),
                self.held(),
                source,
                p,
                charge,
                options,
            ),
    {
        let now = world.now();
        let charge = p.bytes();
        self.publish_port_completion_at(world, now, source, p, charge, options)
    }

    pub fn publish_port_completion_at(
        &self,
        world: &mut World,
        now: Instant,
        source: PortRef,
        p: Payload,
        charge: usize,
        options: MessageOptions,
    ) -> (result: Result<PublicationTicket, Error>)
        requires
            old(world).inv(),
        ensures
            final(world).inv(),
            (final(world)@, publishing::told(result)) == old(world)@.completing_delivery(
                now,
                self.holder(),
                self.held(),
                source,
                p,
                charge,
                options,
            ),
    {
        match options.validate() {
            Ok(_) => {},
            Err(e) => return Err(e),
        }
        match options.source {
            Some(claimed) => {
                if claimed != source.owner {
                    return Err(Error::InvalidMetadata);
                }
            },
            None => {},
        }
        let inherited = self.envelope().child_options(source.owner);
        let metadata = merge_options(inherited, options);
        world.publish_at(
            now,
            source.owner,
            p,
            charge,
            Some(self.target()),
            Some(source.index),
            metadata,
        )
    }
}

} // verus!
