//! Services: named actors that others lease, and what goes through a lease.
use vstd::prelude::*;
use std::sync::Arc;
use super::{ActorView, World, WorldView};
use crate::clock::Instant;
use crate::components;
use crate::components::{
    find_port, has_distinct_names, offers_interface, satisfies, valid_name, ComponentDescriptor,
    InterfaceSpec, InterfaceView, PortDirection, PortRef, MAX_PORTS,
};
use crate::envelope::MessageOptions;
use crate::operations::OperationId;
use crate::ordered;
use crate::payload;
use crate::payload::Payload;
use crate::routing::Sub;
use crate::services;
use crate::services::{RecordView, ServiceLease, ServiceSnapshot};
use crate::types::{ActorRef, EndpointKind, Error, Lifecycle};

verus! {

/// Whether a component offers an interface as a contract.
pub open spec fn contract_matches(d: ComponentDescriptor, required: InterfaceView) -> bool {
    &&& components::name_ok(required.name)
    &&& required.version != 0
    &&& required.ports.len() <= MAX_PORTS
    &&& components::names_distinct(required.ports)
    &&& components::offers(d.interfaces@, required)
}

/// Whether two contracts are the same, whatever the order of their ports.
pub open spec fn contracts_equal(left: InterfaceView, right: InterfaceView) -> bool {
    &&& components::interface_satisfies(left, right)
    &&& components::names_distinct(left.ports)
    &&& components::names_distinct(right.ports)
}

impl WorldView {
    /// Why a service is not registered.
    pub open spec fn refuses_service(self, name: Seq<char>, target: ActorRef, required: InterfaceView) -> Option<
        Error,
    > {
        if !components::name_ok(name) || self.services.taken(name) || self.services.records.dom().contains(
            target,
        ) {
            Some(Error::InvalidConfig)
        } else if self.services.records.dom().len() >= self.cfg.max_services {
            Some(Error::LimitExceeded)
        } else if !self.valid(target) {
            Some(self.stale(target))
        } else {
            let a = self.at(target);
            if a.kind != EndpointKind::Native || a.parent is Some || a.state != Lifecycle::Active
                || a.component is None || !contract_matches(*a.component->0, required) {
                Some(Error::InterfaceMismatch)
            } else {
                None
            }
        }
    }

    pub open spec fn with_service(self, name: Seq<char>, target: ActorRef, contract: InterfaceView) -> WorldView {
        WorldView {
            services: self.services.registered(target, RecordView { name, contract }),
            ..self
        }.marked(target)
    }

    /// Why a service is not leased.
    pub open spec fn refuses_lease(
        self,
        owner: ActorRef,
        name: Seq<char>,
        required: InterfaceView,
        expected: Option<ActorRef>,
    ) -> Option<Error> {
        if self.closed {
            Some(Error::ActorStopped)
        } else if !components::name_ok(name) {
            Some(Error::InvalidConfig)
        } else {
            match self.execution(owner) {
                Err(e) => Some(e),
                Ok(state) => if !super::is_open(state) {
                    Some(Error::ActorStopped)
                } else if !self.services.taken(name) {
                    Some(
                        if expected is Some {
                            Error::StaleReference
                        } else {
                            Error::NotFound
                        },
                    )
                } else {
                    let service = self.services.find(name);
                    if expected is Some && expected->0 != service {
                        Some(Error::StaleReference)
                    } else if !contracts_equal(self.services.records[service].contract, required) {
                        Some(Error::InterfaceMismatch)
                    } else if !self.valid(service) {
                        Some(self.stale(service))
                    } else if self.at(service).state != Lifecycle::Active {
                        Some(Error::ActorStopped)
                    } else if self.services.leases.dom().len() >= self.cfg.max_service_leases
                        || self.services.held_by(owner).len() >= self.cfg.max_leases_per_actor {
                        Some(Error::LimitExceeded)
                    } else {
                        self.refuses_actor(Some(owner))
                    }
                },
            }
        }
    }

    /// The lease that an actor gets next on a service.
    pub open spec fn next_lease(self, owner: ActorRef, name: Seq<char>) -> ServiceLease {
        ServiceLease { scope: self.next_ref(), owner, service: self.services.find(name) }
    }

    /// After an actor leased a service: the lease is an actor below it.
    pub open spec fn with_lease(self, lease: ServiceLease) -> WorldView {
        let v = self.allocated(EndpointKind::Native, Some(lease.owner));
        let n = v.put(
            lease.scope,
            ActorView { state: Lifecycle::Active, ..v.at(lease.scope) },
        ).refreshed(lease.scope);
        WorldView { services: n.services.leased(lease), ..n }.marked(lease.scope).marked(
            lease.service,
        )
    }

    pub open spec fn lease_is_local(self, lease: ServiceLease) -> bool {
        lease.scope.world == self.id && lease.owner.world == self.id && lease.service.world
            == self.id
    }

    /// Why a lease does not let work through.
    pub open spec fn lease_fault(self, lease: ServiceLease) -> Option<Error> {
        if !self.lease_is_local(lease) {
            Some(Error::CrossWorld)
        } else if !self.services.leases.dom().contains(lease.scope)
            || self.services.leases[lease.scope] != lease {
            Some(Error::StaleReference)
        } else {
            match self.execution(lease.scope) {
                Err(e) => Some(e),
                Ok(scope) => if !super::is_open(scope) {
                    Some(Error::ActorStopped)
                } else {
                    match self.execution(lease.service) {
                        Err(e) => Some(e),
                        Ok(service) => if service != Lifecycle::Active {
                            Some(Error::ActorStopped)
                        } else if !self.services.records.dom().contains(lease.service) {
                            Some(Error::StaleReference)
                        } else {
                            None
                        },
                    }
                },
            }
        }
    }

    /// The port that a request through a lease goes to.
    pub open spec fn service_input(self, lease: ServiceLease, port: Seq<char>, p: Payload) -> Result<
        PortRef,
        Error,
    > {
        if self.lease_fault(lease) is Some {
            Err(self.lease_fault(lease)->0)
        } else if self.execution(lease.scope) != Ok::<Lifecycle, Error>(Lifecycle::Active) {
            Err(Error::ActorNotReady)
        } else {
            let promised = self.services.records[lease.service].contract.ports;
            match components::port_position(promised, port, PortDirection::Input) {
                None => Err(Error::InvalidPort),
                Some(i) => if !components::type_matches(promised[i].schema, p) {
                    Err(Error::SchemaMismatch)
                } else {
                    match self.at(lease.service).component {
                        None => Err(Error::InterfaceMismatch),
                        Some(component) => {
                            let ports = components::port_views(component.ports@);
                            match components::port_position(ports, port, PortDirection::Input) {
                                None => Err(Error::InvalidPort),
                                Some(k) => if !components::type_matches(ports[k].schema, p) {
                                    Err(Error::SchemaMismatch)
                                } else {
                                    Ok(PortRef { owner: lease.service, index: k as u16 })
                                },
                            }
                        },
                    }
                },
            }
        }
    }

    /// The port that a link through a lease comes from.
    pub open spec fn service_output(self, lease: ServiceLease, port: Seq<char>) -> Result<
        PortRef,
        Error,
    > {
        if self.lease_fault(lease) is Some {
            Err(self.lease_fault(lease)->0)
        } else {
            let promised = self.services.records[lease.service].contract.ports;
            if components::port_position(promised, port, PortDirection::Output) is None {
                Err(Error::InvalidPort)
            } else {
                match self.at(lease.service).component {
                    None => Err(Error::InterfaceMismatch),
                    Some(component) => match components::port_position(
                        components::port_views(component.ports@),
                        port,
                        PortDirection::Output,
                    ) {
                        None => Err(Error::InvalidPort),
                        Some(k) => Ok(PortRef { owner: lease.service, index: k as u16 }),
                    },
                }
            }
        }
    }

    pub open spec fn service_requesting(
        self,
        now: Instant,
        lease: ServiceLease,
        port: Seq<char>,
        p: Payload,
        charge: usize,
        deadline: Instant,
        options: MessageOptions,
    ) -> (WorldView, Result<OperationId, Error>) {
        match self.service_input(lease, port, p) {
            Err(e) => (self, Err(e)),
            Ok(input) => self.requesting(
                now,
                lease.scope,
                lease.service,
                p,
                charge,
                deadline,
                options,
                Some(input),
            ),
        }
    }

    /// After a lease was given back.
    pub open spec fn lease_ending(self, now: Instant, lease: ServiceLease) -> (
        WorldView,
        Result<bool, Error>,
    ) {
        if !self.lease_is_local(lease) {
            (self, Err(Error::CrossWorld))
        } else if !self.services.leases.dom().contains(lease.scope) {
            (self, Ok(false))
        } else if self.services.leases[lease.scope] != lease {
            (self, Err(Error::StaleReference))
        } else {
            let (v, result) = self.stopping(now, lease.scope);
            (
                v,
                match result {
                    Ok(_) => Ok(true),
                    Err(e) => Err(e),
                },
            )
        }
    }
}

fn contract_holds(d: &ComponentDescriptor, required: &InterfaceSpec) -> (r: bool)
    ensures
        r == contract_matches(*d, required@),
{
    assert(required@.ports.len() == required.ports@.len());
    valid_name(required.name.as_str()) && required.version != 0 && required.ports.len() <= MAX_PORTS
        && has_distinct_names(&required.ports) && offers_interface(&d.interfaces, required)
}

fn same_contract(left: &InterfaceSpec, right: &InterfaceSpec) -> (r: bool)
    ensures
        r == contracts_equal(left@, right@),
{
    satisfies(left, right) && has_distinct_names(&left.ports) && has_distinct_names(&right.ports)
}

/// A new lease keeps the World sound.
proof fn lemma_leased(v: WorldView, lease: ServiceLease)
    requires
        v.sound(),
        v.valid(lease.scope),
        v.valid(lease.service),
        v.order(lease.service) < v.order(lease.scope),
        v.services.leases.dom().finite(),
        !v.services.leases.dom().contains(lease.scope),
        v.services.leases.dom().len() < v.cfg.max_service_leases,
        v.services.held_by(lease.owner).len() < v.cfg.max_leases_per_actor,
    ensures
        (WorldView { services: v.services.leased(lease), ..v }).sound(),
{
    reveal(WorldView::sound);
    services::lemma_leased_within(
        v.services,
        lease,
        v.cfg.max_services,
        v.cfg.max_service_leases,
        v.cfg.max_leases_per_actor,
    );
    let n = WorldView { services: v.services.leased(lease), ..v };
    assert forall|r: ActorRef| #[trigger] n.valid(r) == v.valid(r) by {}
    assert forall|r: ActorRef| #[trigger] n.order(r) == v.order(r) by {
        assert(n.valid(r) == v.valid(r));
    }
    assert forall|r: ActorRef| #[trigger] n.known(r) == v.known(r) by {}
    assert forall|k: int| 0 <= k < n.actors.len() implies n.placed(k, #[trigger] n.actors[k]) by {
        assert(v.placed(k, v.actors[k]));
        let a = n.actors[k];
        assert forall|c: int| 0 <= c < a.children.len() implies n.younger(
            #[trigger] a.children[c],
            a.ready_order,
        ) by {
            assert(v.younger(a.children[c], a.ready_order));
        }
    }
    assert forall|s: ActorRef| #[trigger] n.services.leases.dom().contains(s) implies {
        let l = n.services.leases[s];
        &&& l.scope == s
        &&& n.known(s)
        &&& n.known(l.service)
        &&& n.valid(s) && n.valid(l.service) ==> n.order(l.service) < n.order(s)
    } by {
        if s != lease.scope {
            assert(v.services.leases.dom().contains(s));
        }
    }
}

/// The next reference has not been given out.
pub(super) proof fn lemma_next_unknown(v: WorldView, parent: Option<ActorRef>)
    requires
        v.sound(),
        v.refuses_actor(parent) is None,
    ensures
        !v.known(v.next_ref()),
        !v.services.leases.dom().contains(v.next_ref()),
{
    reveal(WorldView::sound);
    if v.services.leases.dom().contains(v.next_ref()) {
        assert(v.known(v.next_ref()));
    }
}

impl World {
    /// Registers an actor under a name.
    pub fn register_service(&mut self, name: &str, target: ActorRef, required: &InterfaceSpec) -> (r: Result<
        (),
        Error,
    >)
        requires
            old(self).inv(),
        ensures
            final(self).inv(),
            match old(self)@.refuses_service(name@, target, required@) {
                Some(e) => r == Err::<(), Error>(e) && final(self)@ == old(self)@,
                None => r is Ok && final(self)@ == old(self)@.with_service(
                    name@,
                    target,
                    required@,
                ),
            },
    {
        proof {
            super::tidy::lemma_aside(
                self@,
                self@.with_service(name@, target, required@),
                super::tidy::nothing_open(),
            );
        }
        let ghost v = self@;
        if !valid_name(name) {
            return Err(Error::InvalidConfig);
        }
        if self.services.find(name).is_some() || self.services.is_registered(target) {
            return Err(Error::InvalidConfig);
        }
        if self.services.service_count() >= self.cfg.max_services {
            return Err(Error::LimitExceeded);
        }
        let i = match self.locate(target) {
            Ok(i) => i,
            Err(e) => return Err(e),
        };
        let fits: bool = match &self.actors[i].component {
            Some(component) => contract_holds(component, required),
            None => false,
        };
        if self.actors[i].kind != EndpointKind::Native || self.actors[i].parent.is_some()
            || self.actors[i].state != Lifecycle::Active || !fits {
            return Err(Error::InterfaceMismatch);
        }
        let contract = Arc::new(required.clone());
        proof {
            self.services.lemma_finite();
        }
        self.services.register(name, target, contract);
        proof {
            super::living::lemma_living_services(v, self@, target);
            self.lemma_services_less(*old(self));
        }
        self.mark(target);
        Ok(())
    }

    fn lease_refusal(
        &self,
        owner: ActorRef,
        name: &str,
        required: &InterfaceSpec,
        expected: Option<ActorRef>,
    ) -> (r: Result<ActorRef, Error>)
        requires
            self.steady(),
        ensures
            match r {
                Ok(service) => {
                    &&& self@.refuses_lease(owner, name@, required@, expected) == self@.refuses_actor(
                        Some(owner),
                    )
                    &&& service == self@.services.find(name@)
                    &&& self@.valid(service)
                    &&& self@.at(service).state == Lifecycle::Active
                    &&& !self@.closed
                },
                Err(e) => self@.refuses_lease(owner, name@, required@, expected) == Some(e),
            },
    {
        if self.closed {
            return Err(Error::ActorStopped);
        }
        if !valid_name(name) {
            return Err(Error::InvalidConfig);
        }
        match self.execution(owner) {
            Err(e) => return Err(e),
            Ok(Lifecycle::Starting) => {},
            Ok(Lifecycle::Active) => {},
            Ok(_) => return Err(Error::ActorStopped),
        }
        let service = match self.services.find(name) {
            Some(service) => service,
            None => {
                return Err(
                    if expected.is_some() {
                        Error::StaleReference
                    } else {
                        Error::NotFound
                    },
                );
            },
        };
        match expected {
            Some(expected) => {
                if expected != service {
                    return Err(Error::StaleReference);
                }
            },
            None => {},
        }
        let same: bool = match self.services.contract(service) {
            Some(contract) => same_contract(&contract, required),
            None => {
                assert(false);
                false
            },
        };
        if !same {
            return Err(Error::InterfaceMismatch);
        }
        let i = match self.locate(service) {
            Ok(i) => i,
            Err(e) => return Err(e),
        };
        if self.actors[i].state != Lifecycle::Active {
            return Err(Error::ActorStopped);
        }
        if self.services.lease_count() >= self.cfg.max_service_leases || self.services.held_count(
            owner,
        ) >= self.cfg.max_leases_per_actor {
            return Err(Error::LimitExceeded);
        }
        Ok(service)
    }

    /// Leases the service of a name.
    pub fn acquire_service(&mut self, owner: ActorRef, name: &str, required: &InterfaceSpec) -> (r: Result<
        ServiceLease,
        Error,
    >)
        requires
            old(self).inv(),
        ensures
            final(self).inv(),
            match old(self)@.refuses_lease(owner, name@, required@, None) {
                Some(e) => r == Err::<ServiceLease, Error>(e) && final(self)@ == old(self)@,
                None => {
                    &&& r == Ok::<ServiceLease, Error>(old(self)@.next_lease(owner, name@))
                    &&& final(self)@ == old(self)@.with_lease(old(self)@.next_lease(owner, name@))
                },
            },
    {
        proof {
            if self@.refuses_lease(owner, name@, required@, None) is None {
                self.lemma_sound();
                self.lemma_kin();
                self.lemma_living();
                super::joining::lemma_leased(self@, self@.next_lease(owner, name@));
            }
        }
        self.acquire(owner, name, required, None)
    }

    /// Leases the service of a name if it is still the expected one.
    pub fn acquire_service_from(
        &mut self,
        owner: ActorRef,
        name: &str,
        required: &InterfaceSpec,
        expected_service: ActorRef,
    ) -> (r: Result<ServiceLease, Error>)
        requires
            old(self).inv(),
        ensures
            final(self).inv(),
            if expected_service.world != old(self)@.id {
                r == Err::<ServiceLease, Error>(Error::CrossWorld) && final(self)@ == old(self)@
            } else {
                match old(self)@.refuses_lease(owner, name@, required@, Some(expected_service)) {
                    Some(e) => r == Err::<ServiceLease, Error>(e) && final(self)@ == old(self)@,
                    None => {
                        &&& r == Ok::<ServiceLease, Error>(old(self)@.next_lease(owner, name@))
                        &&& final(self)@ == old(self)@.with_lease(
                            old(self)@.next_lease(owner, name@),
                        )
                    },
                }
            },
    {
        proof {
            if self@.refuses_lease(owner, name@, required@, Some(expected_service)) is None {
                self.lemma_sound();
                self.lemma_kin();
                self.lemma_living();
                super::joining::lemma_leased(self@, self@.next_lease(owner, name@));
            }
        }
        if expected_service.world != self.id {
            return Err(Error::CrossWorld);
        }
        self.acquire(owner, name, required, Some(expected_service))
    }

    fn acquire(
        &mut self,
        owner: ActorRef,
        name: &str,
        required: &InterfaceSpec,
        expected: Option<ActorRef>,
    ) -> (r: Result<ServiceLease, Error>)
        requires
            old(self).steady(),
        ensures
            final(self).steady(),
            match old(self)@.refuses_lease(owner, name@, required@, expected) {
                Some(e) => r == Err::<ServiceLease, Error>(e) && final(self)@ == old(self)@,
                None => {
                    &&& r == Ok::<ServiceLease, Error>(old(self)@.next_lease(owner, name@))
                    &&& final(self)@ == old(self)@.with_lease(old(self)@.next_lease(owner, name@))
                },
            },
    {
        let ghost v = self@;
        let service = match self.lease_refusal(owner, name, required, expected) {
            Ok(service) => service,
            Err(e) => return Err(e),
        };
        proof {
            if v.refuses_actor(Some(owner)) is None {
                lemma_next_unknown(v, Some(owner));
                super::actors::lemma_allocated(v, EndpointKind::Native, Some(owner), service);
            }
        }
        let scope = match self.allocate_under(EndpointKind::Native, Some(owner)) {
            Ok(scope) => scope,
            Err(e) => return Err(e),
        };
        let ghost made = self@;
        proof {
            reveal(WorldView::living);
            assert(v.services.records.dom().contains(service));
            assert(v.serves(service));
        }
        self.open_scope(scope);
        let lease = ServiceLease { scope, owner, service };
        self.enter_lease(lease);
        self.mark(scope);
        self.mark(service);
        Ok(lease)
    }

    fn open_scope(&mut self, scope: ActorRef)
        requires
            old(self).steady(),
            old(self)@.valid(scope),
            old(self)@.at(scope).state == Lifecycle::Starting,
        ensures
            final(self).steady(),
            final(self)@ == old(self)@.put(
                scope,
                (ActorView { state: Lifecycle::Active, ..old(self)@.at(scope) }),
            ).refreshed(scope),
    {
        let ghost v = self@;
        let i: usize = scope.slot as usize;
        assert(self.actors@.len() == v.actors.len());
        let a = self.actor_mut(i);
        a.state = Lifecycle::Active;
        assert(self@.actors =~= v.put(
            scope,
            ActorView { state: Lifecycle::Active, ..v.at(scope) },
        ).actors);
        self.refresh(scope);
    }

    fn enter_lease(&mut self, lease: ServiceLease)
        requires
            old(self).steady(),
            old(self)@.scopes(lease.scope, lease.service),
            old(self)@.valid(lease.service),
            old(self)@.order(lease.service) < old(self)@.order(lease.scope),
            !old(self)@.services.leases.dom().contains(lease.scope),
            old(self)@.services.leases.dom().len() < old(self)@.cfg.max_service_leases,
            old(self)@.services.held_by(lease.owner).len() < old(self)@.cfg.max_leases_per_actor,
        ensures
            final(self).steady(),
            final(self)@ == (WorldView {
                services: old(self)@.services.leased(lease),
                ..old(self)@
            }),
    {
        let ghost v = self@;
        proof {
            self.services.lemma_finite();
            lemma_leased(v, lease);
        }
        self.services.add_lease(lease);
        proof {
            reveal(World::exact_but);
            let n = self@;
            super::lemma_kin_frame(v, n);
            super::living::lemma_living_services(v, n, lease.scope);
            assert forall|r: ActorRef| #[trigger] n.valid(r) == v.valid(r) by {}
            assert forall|r: ActorRef| #[trigger] n.at(r) == v.at(r) by {}
        }
    }

    /// Gives a lease back; whether it was still held.
    pub fn release_service(&mut self, lease: ServiceLease) -> (result: Result<bool, Error>)
        requires
            old(self).inv(),
        ensures
            final(self).inv(),
            exists|now: Instant| #[trigger]
                old(self)@.clock.reads(now) && (final(self)@, result) == old(self)@.lease_ending(
                    now,
                    lease,
                ),
    {
        let now = self.now();
        self.release_service_at(now, lease)
    }

    pub fn release_service_at(&mut self, now: Instant, lease: ServiceLease) -> (result: Result<bool, Error>)
        requires
            old(self).inv(),
        ensures
            final(self).inv(),
            (final(self)@, result) == old(self)@.lease_ending(now, lease),
    {
        proof {
            self.lemma_orderly();
            super::turning::lemma_stopping(self@, now, lease.scope, Set::empty());
        }
        if lease.scope.world != self.id || lease.owner.world != self.id || lease.service.world
            != self.id {
            return Err(Error::CrossWorld);
        }
        match self.services.lease(lease.scope) {
            None => return Ok(false),
            Some(current) => {
                if current != lease {
                    return Err(Error::StaleReference);
                }
            },
        }
        match self.stop_now(now, lease.scope) {
            Ok(_) => Ok(true),
            Err(e) => Err(e),
        }
    }

    /// The registered services, by name.
    pub fn services(&self) -> (r: Vec<ServiceSnapshot>)
        requires
            self.inv(),
        ensures
            services::snapshots_ok(self@.services, r@),
    {
        self.services.snapshots()
    }

    /// The leases, by scope.
    pub fn service_leases(&self) -> (r: Vec<ServiceLease>)
        requires
            self.inv(),
        ensures
            r@ == ordered::sorted(self@.services.leases.dom()).map_values(
                |s: ActorRef| self@.services.leases[s],
            ),
    {
        self.services.all_leases()
    }

    fn check_lease(&self, lease: ServiceLease) -> (r: Option<Error>)
        requires
            self.steady(),
        ensures
            r == self@.lease_fault(lease),
    {
        if lease.scope.world != self.id || lease.owner.world != self.id || lease.service.world
            != self.id {
            return Some(Error::CrossWorld);
        }
        match self.services.lease(lease.scope) {
            None => return Some(Error::StaleReference),
            Some(current) => {
                if current != lease {
                    return Some(Error::StaleReference);
                }
            },
        }
        match self.execution(lease.scope) {
            Err(e) => return Some(e),
            Ok(Lifecycle::Starting) => {},
            Ok(Lifecycle::Active) => {},
            Ok(_) => return Some(Error::ActorStopped),
        }
        match self.execution(lease.service) {
            Err(e) => return Some(e),
            Ok(Lifecycle::Active) => {},
            Ok(_) => return Some(Error::ActorStopped),
        }
        if !self.services.is_registered(lease.service) {
            return Some(Error::StaleReference);
        }
        None
    }

    fn find_input(&self, lease: ServiceLease, port: &str, p: &Payload) -> (r: Result<PortRef, Error>)
        requires
            self.steady(),
        ensures
            r == self@.service_input(lease, port@, *p),
    {
        match self.check_lease(lease) {
            Some(e) => return Err(e),
            None => {},
        }
        match self.execution(lease.scope) {
            Ok(Lifecycle::Active) => {},
            _ => return Err(Error::ActorNotReady),
        }
        let contract = match self.services.contract(lease.service) {
            Some(contract) => contract,
            None => {
                assert(false);
                return Err(Error::StaleReference);
            },
        };
        match find_port(&contract.ports, port, PortDirection::Input) {
            None => return Err(Error::InvalidPort),
            Some(i) => {
                assert(contract@.ports[i as int] == contract.ports@[i as int]@);
                if !contract.ports[i].schema.matches(p) {
                    return Err(Error::SchemaMismatch);
                }
            },
        }
        let i = match self.locate(lease.service) {
            Ok(i) => i,
            Err(e) => {
                assert(false);
                return Err(e);
            },
        };
        match &self.actors[i].component {
            None => Err(Error::InterfaceMismatch),
            Some(component) => match find_port(&component.ports, port, PortDirection::Input) {
                None => Err(Error::InvalidPort),
                Some(k) => {
                    assert(components::port_views(component.ports@)[k as int]
                        == component.ports@[k as int]@);
                    if component.ports[k].schema.matches(p) {
                        Ok(PortRef { owner: lease.service, index: k as u16 })
                    } else {
                        Err(Error::SchemaMismatch)
                    }
                },
            },
        }
    }

    fn find_output(&self, lease: ServiceLease, port: &str) -> (r: Result<PortRef, Error>)
        requires
            self.steady(),
        ensures
            r == self@.service_output(lease, port@),
    {
        match self.check_lease(lease) {
            Some(e) => return Err(e),
            None => {},
        }
        let contract = match self.services.contract(lease.service) {
            Some(contract) => contract,
            None => {
                assert(false);
                return Err(Error::StaleReference);
            },
        };
        if find_port(&contract.ports, port, PortDirection::Output).is_none() {
            return Err(Error::InvalidPort);
        }
        let i = match self.locate(lease.service) {
            Ok(i) => i,
            Err(e) => {
                assert(false);
                return Err(e);
            },
        };
        match &self.actors[i].component {
            None => Err(Error::InterfaceMismatch),
            Some(component) => match find_port(&component.ports, port, PortDirection::Output) {
                None => Err(Error::InvalidPort),
                Some(k) => Ok(PortRef { owner: lease.service, index: k as u16 }),
            },
        }
    }

    /// Asks a leased service for a result.
    pub fn service_request(
        &mut self,
        lease: ServiceLease,
        port: &str,
        p: Payload,
        deadline: Instant,
        options: MessageOptions,
    ) -> (result: Result<OperationId, Error>)
        requires
            old(self).inv(),
        ensures
            final(self).inv(),
            exists|now: Instant, charge: usize| #[trigger]
                old(self)@.clock.reads(now) && #[trigger] payload::may_charge(p, charge) && (
                final(self)@,
                result,
            ) == old(self)@.service_requesting(now, lease, port@, p, charge, deadline, options),
    {
        let now = self.now();
        let charge = p.bytes();
        self.service_request_at(now, lease, port, p, charge, deadline, options)
    }

    pub fn service_request_at(
        &mut self,
        now: Instant,
        lease: ServiceLease,
        port: &str,
        p: Payload,
        charge: usize,
        deadline: Instant,
        options: MessageOptions,
    ) -> (result: Result<OperationId, Error>)
        requires
            old(self).inv(),
        ensures
            final(self).inv(),
            (final(self)@, result) == old(self)@.service_requesting(
                now,
                lease,
                port@,
                p,
                charge,
                deadline,
                options,
            ),
    {
        let input = match self.find_input(lease, port, &p) {
            Ok(input) => input,
            Err(e) => return Err(e),
        };
        self.request_at(now, lease.scope, lease.service, p, charge, deadline, options, Some(input))
    }

    /// Links an output of a leased service to a port.
    pub fn service_link(&mut self, lease: ServiceLease, output: &str, target: PortRef) -> (r: Result<
        u64,
        Error,
    >)
        requires
            old(self).inv(),
        ensures
            final(self).inv(),
            match old(self)@.service_output(lease, output@) {
                Err(e) => r == Err::<u64, Error>(e) && final(self)@ == old(self)@,
                Ok(source) => match old(self)@.refuses_link(lease.scope, source, target) {
                    Some(e) => r == Err::<u64, Error>(e) && final(self)@ == old(self)@,
                    None => r == Ok::<u64, Error>(old(self)@.next_sub) && final(self)@ == old(
                        self,
                    )@.with_route(
                        (Sub {
                            owner: lease.scope,
                            source: source.owner,
                            target: target.owner,
                            source_port: Some(source.index),
                            target_port: Some(target.index),
                        }),
                    ),
                },
            },
    {
        let source = match self.find_output(lease, output) {
            Ok(source) => source,
            Err(e) => return Err(e),
        };
        self.link(lease.scope, source, target)
    }
}

} // verus!
