//! Claims for native startup, periodic and drain callbacks. They share the
//! control slot of an actor with failures.
use vstd::prelude::*;
use super::{ActorView, World, WorldView};
use crate::types::{ActorRef, EndpointKind, Error, Lifecycle};

verus! {

/// A native callback in the hands of an actor.
#[derive(Debug)]
pub struct NativeCallbackLease {
    owner: ActorRef,
}

impl WorldView {
    /// Whether a native actor may run a callback that belongs to a state.
    pub open spec fn hook_ready(self, owner: ActorRef, expected: Lifecycle) -> bool {
        let a = self.at(owner);
        &&& a.kind == EndpointKind::Native
        &&& self.execution(owner) == Ok::<Lifecycle, Error>(expected)
        &&& expected == Lifecycle::Starting ==> a.state == Lifecycle::Starting
        &&& !a.in_flight
        &&& !a.control_in_flight
        &&& a.notification is None
    }

    pub open spec fn hooked(self, owner: ActorRef) -> WorldView {
        self.put(owner, ActorView { control_in_flight: true, ..self.at(owner) }).marked(
            owner,
        ).refreshed(owner)
    }
}

/// What a claim for a callback gives.
pub open spec fn hook_claimed(
    v: WorldView,
    owner: ActorRef,
    expected: Lifecycle,
    n: WorldView,
    result: Result<Option<NativeCallbackLease>, Error>,
) -> bool {
    match v.execution(owner) {
        Err(e) => result == Err::<Option<NativeCallbackLease>, Error>(e) && n == v,
        Ok(_) => if v.hook_ready(owner, expected) {
            &&& result matches Ok(Some(lease)) && lease.held_for() == owner
            &&& n == v.hooked(owner)
        } else {
            result == Ok::<Option<NativeCallbackLease>, Error>(None) && n == v
        },
    }
}

impl World {
    /// Claims the startup callback of an actor that starts, or a periodic one
    /// of an actor that runs.
    pub fn claim_native_callback(&mut self, owner: ActorRef, startup: bool) -> (result: Result<
        Option<NativeCallbackLease>,
        Error,
    >)
        requires
            old(self).inv(),
        ensures
            final(self).inv(),
            hook_claimed(
                old(self)@,
                owner,
                if startup {
                    Lifecycle::Starting
                } else {
                    Lifecycle::Active
                },
                final(self)@,
                result,
            ),
    {
        proof {
            if self@.execution(owner) is Ok {
                super::turning::lemma_hooked(self@, owner);
            }
        }
        self.claim_native_hook(
            owner,
            if startup {
                Lifecycle::Starting
            } else {
                Lifecycle::Active
            },
        )
    }

    /// Claims a callback of an actor that drains.
    pub fn claim_native_drain_callback(&mut self, owner: ActorRef) -> (result: Result<
        Option<NativeCallbackLease>,
        Error,
    >)
        requires
            old(self).inv(),
        ensures
            final(self).inv(),
            hook_claimed(old(self)@, owner, Lifecycle::Quiescing, final(self)@, result),
    {
        proof {
            if self@.execution(owner) is Ok {
                super::turning::lemma_hooked(self@, owner);
            }
        }
        self.claim_native_hook(owner, Lifecycle::Quiescing)
    }

    fn claim_native_hook(&mut self, owner: ActorRef, expected: Lifecycle) -> (result: Result<
        Option<NativeCallbackLease>,
        Error,
    >)
        requires
            old(self).steady(),
        ensures
            final(self).steady(),
            hook_claimed(old(self)@, owner, expected, final(self)@, result),
    {
        let ghost v = self@;
        let state = match self.execution(owner) {
            Ok(state) => state,
            Err(e) => return Err(e),
        };
        let i = match self.locate(owner) {
            Ok(i) => i,
            Err(e) => return Err(e),
        };
        let eligible = state == expected && (expected != Lifecycle::Starting
            || self.actors[i].state == Lifecycle::Starting);
        if self.actors[i].kind != EndpointKind::Native || !eligible || self.actors[i].in_flight
            || self.actors[i].control_in_flight || self.actors[i].notification.is_some() {
            return Ok(None);
        }
        let a = self.actor_mut(i);
        a.control_in_flight = true;
        assert(self@.actors =~= v.put(
            owner,
            ActorView { control_in_flight: true, ..v.at(owner) },
        ).actors);
        self.mark(owner);
        self.refresh(owner);
        Ok(Some(NativeCallbackLease { owner }))
    }
}

impl NativeCallbackLease {
    pub closed spec fn held_for(self) -> ActorRef {
        self.owner
    }

    pub fn owner(&self) -> (r: ActorRef)
        ensures
            r == self.held_for(),
    {
        self.owner
    }

    /// The callback came back.
    pub fn release(self, world: &mut World)
        requires
            old(world).inv(),
        ensures
            final(world).inv(),
            final(world)@ == old(world)@.control_freed(self.held_for()).finalized(self.held_for()),
    {
        proof {
            super::turning::lemma_control_freed(world@, self.owner);
        }
        world.free_control(self.owner);
        world.finalize(self.owner);
    }
}

} // verus!
