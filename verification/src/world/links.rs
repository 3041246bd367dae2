//! Components and the routes between actors.
use vstd::prelude::*;
use std::sync::Arc;
use super::{ActorView, World, WorldView};
use crate::clock::Instant;
use crate::components;
use crate::components::{
    all_ports_within,
    offers_interface,
    satisfies,
    valid_name,
    ComponentDescriptor,
    InterfaceSpec,
    InterfaceView,
    LinkSnapshot,
    PayloadType,
    PortDirection,
    PortRef,
    PortSpec,
    PortView,
    MAX_INTERFACES,
    MAX_PORTS,
    MAX_WORLD_INTERFACES,
};
use crate::envelope;
use crate::envelope::MessageOptions;
use crate::ordered;
use crate::payload;
use crate::payload::Payload;
use crate::routing;
use crate::routing::Sub;
use crate::schema::{RegistryView, SchemaRegistry};
use crate::text::same_text;
use crate::types::{ActorRef, Error, Lifecycle};

verus! {

/// What is wrong with one of several ports, given those before it.
pub open spec fn port_fault(ports: Seq<PortView>, i: int, schemas: RegistryView) -> Option<Error> {
    let port = ports[i];
    if !components::name_ok(port.name) || (exists|j: int|
        0 <= j < i && (#[trigger] ports[j]).name == port.name) {
        Some(Error::InvalidPort)
    } else if port.direction == PortDirection::Input && (exists|j: int|
        0 <= j < i && (#[trigger] ports[j]).direction == PortDirection::Input && ports[j].schema
            == port.schema) {
        Some(Error::InvalidPort)
    } else {
        match port.schema {
            PayloadType::Structured(id) => if schemas.has(id) {
                None
            } else {
                Some(Error::SchemaMismatch)
            },
            _ => None,
        }
    }
}

pub open spec fn first_port_fault(ports: Seq<PortView>, n: nat, schemas: RegistryView) -> Option<Error>
    decreases n,
{
    if n == 0 {
        None
    } else {
        match first_port_fault(ports, (n - 1) as nat, schemas) {
            Some(e) => Some(e),
            None => port_fault(ports, n - 1, schemas),
        }
    }
}

/// What is wrong with a list of ports: names are unique, inputs differ in what
/// they take, and schemas are known.
pub open spec fn ports_fault(ports: Seq<PortView>, schemas: RegistryView) -> Option<Error> {
    if ports.len() > MAX_PORTS {
        Some(Error::LimitExceeded)
    } else {
        first_port_fault(ports, ports.len(), schemas)
    }
}

proof fn lemma_first_port_fault(ports: Seq<PortView>, n: nat, m: nat, schemas: RegistryView)
    requires
        n <= m,
        first_port_fault(ports, n, schemas) is Some,
    ensures
        first_port_fault(ports, m, schemas) == first_port_fault(ports, n, schemas),
    decreases m,
{
    if n < m {
        lemma_first_port_fault(ports, n, (m - 1) as nat, schemas);
    }
}

fn check_port(ports: &Vec<PortSpec>, i: usize, schemas: &SchemaRegistry) -> (r: Option<Error>)
    requires
        i < ports@.len(),
    ensures
        r == port_fault(components::port_views(ports@), i as int, schemas@),
{
    let ghost views = components::port_views(ports@);
    let port = &ports[i];
    if !valid_name(port.name.as_str()) {
        return Some(Error::InvalidPort);
    }
    let mut j: usize = 0;
    let mut twice = false;
    while j < i
        invariant
            j <= i < ports@.len(),
            *port == ports@[i as int],
            views == components::port_views(ports@),
            components::name_ok(views[i as int].name),
            forall|k: int| 0 <= k < j ==> (#[trigger] views[k]).name != views[i as int].name,
            twice == exists|k: int|
                0 <= k < j && (#[trigger] views[k]).direction == PortDirection::Input
                    && views[k].schema == views[i as int].schema,
        decreases i - j,
    {
        if same_text(ports[j].name.as_str(), port.name.as_str()) {
            assert(views[j as int].name == views[i as int].name);
            return Some(Error::InvalidPort);
        }
        if ports[j].direction == PortDirection::Input && ports[j].schema == port.schema {
            assert(views[j as int].direction == PortDirection::Input);
            twice = true;
        }
        assert(views[j as int].name == ports@[j as int].name@);
        j += 1;
    }
    if port.direction == PortDirection::Input && twice {
        return Some(Error::InvalidPort);
    }
    match port.schema {
        PayloadType::Structured(id) => match schemas.schema(id) {
            Ok(_) => None,
            Err(_) => Some(Error::SchemaMismatch),
        },
        _ => None,
    }
}

pub(super) fn check_ports(ports: &Vec<PortSpec>, schemas: &SchemaRegistry) -> (r: Option<Error>)
    ensures
        r == ports_fault(components::port_views(ports@), schemas@),
{
    if ports.len() > MAX_PORTS {
        return Some(Error::LimitExceeded);
    }
    let ghost views = components::port_views(ports@);
    let mut i: usize = 0;
    while i < ports.len()
        invariant
            i <= ports@.len(),
            ports@.len() <= MAX_PORTS,
            views == components::port_views(ports@),
            first_port_fault(views, i as nat, schemas@) is None,
        decreases ports@.len() - i,
    {
        match check_port(ports, i, schemas) {
            Some(e) => {
                proof {
                    assert(first_port_fault(views, (i + 1) as nat, schemas@) == Some(e));
                    lemma_first_port_fault(views, (i + 1) as nat, views.len(), schemas@);
                }
                return Some(e);
            },
            None => {},
        }
        assert(first_port_fault(views, (i + 1) as nat, schemas@) is None);
        i += 1;
    }
    None
}

pub open spec fn same_identity(a: InterfaceView, b: InterfaceView) -> bool {
    a.name == b.name && a.version == b.version
}

/// Whether an interface of this name and version is known.
pub open spec fn is_known(known: Seq<InterfaceView>, interface: InterfaceView) -> bool {
    exists|k: int| 0 <= k < known.len() && same_identity(#[trigger] known[k], interface)
}

/// Whether the name and version of an interface stand for something else.
pub open spec fn conflicts(known: Seq<InterfaceView>, interface: InterfaceView) -> bool {
    exists|k: int|
        0 <= k < known.len() && same_identity(#[trigger] known[k], interface)
            && !components::interface_satisfies(known[k], interface)
}

/// The interfaces of a list that are not known yet.
pub open spec fn unknown(known: Seq<InterfaceView>, list: Seq<InterfaceView>) -> Seq<InterfaceView>
    decreases list.len(),
{
    if list.len() == 0 {
        Seq::empty()
    } else if is_known(known, list.last()) {
        unknown(known, list.drop_last())
    } else {
        unknown(known, list.drop_last()).push(list.last())
    }
}

impl WorldView {
    pub open spec fn interface_fault(
        self,
        ports: Seq<PortView>,
        list: Seq<InterfaceView>,
        i: int,
    ) -> Option<Error> {
        let interface = list[i];
        if !components::name_ok(interface.name) || interface.version == 0 {
            Some(Error::InterfaceMismatch)
        } else if ports_fault(interface.ports, self.schemas) is Some {
            ports_fault(interface.ports, self.schemas)
        } else if !components::ports_within(interface.ports, ports) {
            Some(Error::InterfaceMismatch)
        } else if is_known(list.take(i), interface) {
            Some(Error::InterfaceMismatch)
        } else if conflicts(self.interfaces, interface) {
            Some(Error::InterfaceMismatch)
        } else {
            None
        }
    }

    pub open spec fn first_interface_fault(
        self,
        ports: Seq<PortView>,
        list: Seq<InterfaceView>,
        n: nat,
    ) -> Option<Error>
        decreases n,
    {
        if n == 0 {
            None
        } else {
            match self.first_interface_fault(ports, list, (n - 1) as nat) {
                Some(e) => Some(e),
                None => self.interface_fault(ports, list, n - 1),
            }
        }
    }

    /// Why a component is refused.
    pub open spec fn refuses_component(self, owner: ActorRef, d: ComponentDescriptor) -> Option<Error> {
        let ports = components::port_views(d.ports@);
        let list = super::interfaces_view(d.interfaces@);
        if !self.valid(owner) {
            Some(self.stale(owner))
        } else if self.closed || self.at(owner).state != Lifecycle::Starting || self.at(
            owner,
        ).component is Some {
            Some(Error::ActorNotReady)
        } else {
            match self.execution(owner) {
                Err(e) => Some(e),
                Ok(state) => if !super::is_open(state) {
                    Some(Error::ActorStopped)
                } else if !components::name_ok(d.name@) || d.version == 0 || d.interfaces@.len()
                    > MAX_INTERFACES {
                    Some(Error::InvalidConfig)
                } else if ports_fault(ports, self.schemas) is Some {
                    ports_fault(ports, self.schemas)
                } else if self.first_interface_fault(ports, list, list.len()) is Some {
                    self.first_interface_fault(ports, list, list.len())
                } else if self.interfaces.len() + unknown(self.interfaces, list).len()
                    > MAX_WORLD_INTERFACES {
                    Some(Error::LimitExceeded)
                } else {
                    None
                },
            }
        }
    }

    pub open spec fn with_component(self, owner: ActorRef, d: ComponentDescriptor) -> WorldView {
        WorldView {
            interfaces: self.interfaces + unknown(
                self.interfaces,
                super::interfaces_view(d.interfaces@),
            ),
            ..self
        }.put(owner, ActorView { component: Some(Arc::new(d)), ..self.at(owner) })
    }

    /// The declaration of a port, or why there is none.
    pub open spec fn port_spec(self, port: PortRef) -> Result<PortSpec, Error> {
        if !self.valid(port.owner) {
            Err(self.stale(port.owner))
        } else {
            match self.at(port.owner).component {
                Some(component) => if (port.index as int) < component.ports@.len() {
                    Ok(component.ports@[port.index as int])
                } else {
                    Err(Error::InvalidPort)
                },
                None => Err(Error::InvalidPort),
            }
        }
    }

    /// Why a subscription is refused.
    pub open spec fn refuses_subscription(self, source: ActorRef, target: ActorRef) -> Option<Error> {
        if !self.valid(source) {
            Some(self.stale(source))
        } else if !self.valid(target) {
            Some(self.stale(target))
        } else if !super::is_open(self.at(source).state) || !super::is_open(self.at(target).state) {
            Some(Error::ActorStopped)
        } else if self.subs.dom().len() >= self.cfg.max_subscriptions {
            Some(Error::LimitExceeded)
        } else if routing::routed(self.subs, routing::from_actor(self.subs, source), target) {
            Some(Error::DuplicateSubscription)
        } else if self.next_sub == u64::MAX {
            Some(Error::LimitExceeded)
        } else {
            None
        }
    }

    pub open spec fn with_route(self, route: Sub) -> WorldView {
        WorldView {
            subs: self.subs.insert(self.next_sub, route),
            next_sub: (self.next_sub + 1) as u64,
            ..self
        }.marked_route(route)
    }

    pub open spec fn without_route(self, id: u64) -> WorldView {
        WorldView { subs: self.subs.remove(id), ..self }.marked_route(self.subs[id])
    }

    pub open spec fn can_link(self, r: ActorRef) -> Option<Error> {
        match self.execution(r) {
            Err(e) => Some(e),
            Ok(state) => if super::is_open(state) {
                None
            } else {
                Some(Error::ActorStopped)
            },
        }
    }

    /// Why a link is refused.
    pub open spec fn refuses_link(self, owner: ActorRef, source: PortRef, target: PortRef) -> Option<
        Error,
    > {
        if self.can_link(owner) is Some {
            self.can_link(owner)
        } else if self.can_link(source.owner) is Some {
            self.can_link(source.owner)
        } else if self.can_link(target.owner) is Some {
            self.can_link(target.owner)
        } else {
            match (self.port_spec(source), self.port_spec(target)) {
                (Err(e), _) => Some(e),
                (_, Err(e)) => Some(e),
                (Ok(src), Ok(dst)) => if src.direction != PortDirection::Output || dst.direction
                    != PortDirection::Input {
                    Some(Error::InvalidPort)
                } else if src.schema != dst.schema {
                    Some(Error::SchemaMismatch)
                } else if self.subs.dom().len() >= self.cfg.max_subscriptions {
                    Some(Error::LimitExceeded)
                } else if routing::routed(
                    self.subs,
                    routing::from_port(self.subs, source.owner, Some(source.index)),
                    target.owner,
                ) {
                    Some(Error::DuplicateSubscription)
                } else if self.next_sub == u64::MAX {
                    Some(Error::LimitExceeded)
                } else {
                    None
                },
            }
        }
    }

    /// A message to a port.
    pub open spec fn sending_port(
        self,
        now: Instant,
        port: PortRef,
        p: Payload,
        charge: usize,
        options: MessageOptions,
    ) -> (WorldView, Result<u64, Error>) {
        let v = self.submitting();
        match v.refuses_port_message(port, p, charge, options) {
            Some(e) => (v.rejected(now, e, port.owner), Err(e)),
            None => {
                let stored = v.stored_next(p, charge, options, None);
                let (n, result) = v.storing(charge, options).admission(
                    now,
                    port.owner,
                    stored,
                    None,
                    false,
                    None,
                );
                match result {
                    Ok(id) => (n.redirected(port.owner, port), Ok(id)),
                    Err(e) => (n.releasing(stored.id).rejected(now, e, port.owner), Err(e)),
                }
            },
        }
    }

    pub open spec fn refuses_port_message(
        self,
        port: PortRef,
        p: Payload,
        charge: usize,
        options: MessageOptions,
    ) -> Option<Error> {
        match self.port_spec(port) {
            Err(e) => Some(e),
            Ok(declared) => if declared.direction != PortDirection::Input {
                Some(Error::InvalidPort)
            } else if !components::type_matches(declared.schema, p) {
                Some(Error::SchemaMismatch)
            } else {
                self.refuses_payload(p, charge, options)
            },
        }
    }

    /// Whether a producer has nothing more for its consumers.
    pub open spec fn producer_done(self, r: ActorRef) -> bool {
        let a = self.at(r);
        &&& self.valid(r)
        &&& super::is_draining(a.state)
        &&& a.native_tasks == 0
        &&& self.pubs.of_source(r).len() == 0
        &&& a.queue.len() == 0
        &&& !a.in_flight
    }

    /// Whether an actor and all who feed it are done.
    pub open spec fn intake_done(self, r: ActorRef) -> bool {
        let a = self.at(r);
        &&& a.queue.len() == 0
        &&& !a.in_flight
        &&& self.pubs.of_source(r).len() == 0
        &&& forall|id: u64|
            routing::to_actor(self.subs, r).contains(id) ==> self.producer_done(
                (#[trigger] self.subs[id]).source,
            )
    }
}

/// The routes between ports, in the order of their numbers.
pub open spec fn links_of(routes: Map<u64, Sub>, ids: Seq<u64>) -> Seq<LinkSnapshot>
    decreases ids.len(),
{
    if ids.len() == 0 {
        Seq::empty()
    } else {
        let route = routes[ids.last()];
        let rest = links_of(routes, ids.drop_last());
        if route.source_port is Some && route.target_port is Some {
            rest.push(
                LinkSnapshot {
                    id: ids.last(),
                    owner: route.owner,
                    source: PortRef { owner: route.source, index: route.source_port->0 },
                    target: PortRef { owner: route.target, index: route.target_port->0 },
                },
            )
        } else {
            rest
        }
    }
}

/// The ports that a component owns.
pub open spec fn port_refs(owner: ActorRef, n: nat) -> Seq<PortRef> {
    Seq::new(n, |i: int| PortRef { owner, index: i as u16 })
}

/// The first port of a name.
pub open spec fn port_named(ports: Seq<PortSpec>, name: Seq<char>) -> Option<int> {
    components::first_position(ports, |p: PortSpec| p.name@ == name)
}

fn find_named(ports: &Vec<PortSpec>, name: &str) -> (r: Option<usize>)
    ensures
        match r {
            Some(i) => port_named(ports@, name@) == Some(i as int) && i < ports@.len(),
            None => port_named(ports@, name@) is None,
        },
{
    let ghost p = |p: PortSpec| p.name@ == name@;
    let mut i: usize = 0;
    while i < ports.len()
        invariant
            i <= ports@.len(),
            p == (|p: PortSpec| p.name@ == name@),
            forall|j: int| 0 <= j < i ==> !p(#[trigger] ports@[j]),
        decreases ports@.len() - i,
    {
        if same_text(ports[i].name.as_str(), name) {
            proof {
                components::lemma_first_position(ports@, p, i as int);
            }
            return Some(i);
        }
        i += 1;
    }
    proof {
        components::lemma_first_position(ports@, p, i as int);
    }
    None
}

/// Whether two interfaces have the same name and version.
fn identical(a: &InterfaceSpec, b: &InterfaceSpec) -> (r: bool)
    ensures
        r == same_identity(a@, b@),
{
    a.version == b.version && same_text(a.name.as_str(), b.name.as_str())
}

fn knows(known: &Vec<InterfaceSpec>, upto: usize, interface: &InterfaceSpec) -> (r: bool)
    requires
        upto <= known@.len(),
    ensures
        r == is_known(super::interfaces_view(known@).take(upto as int), interface@),
{
    let ghost views = super::interfaces_view(known@).take(upto as int);
    let mut k: usize = 0;
    while k < upto
        invariant
            k <= upto <= known@.len(),
            views == super::interfaces_view(known@).take(upto as int),
            forall|j: int| 0 <= j < k ==> !same_identity(#[trigger] views[j], interface@),
        decreases upto - k,
    {
        assert(views[k as int] == known@[k as int]@);
        if identical(&known[k], interface) {
            return true;
        }
        k += 1;
    }
    false
}

fn clashes(known: &Vec<InterfaceSpec>, interface: &InterfaceSpec) -> (r: bool)
    ensures
        r == conflicts(super::interfaces_view(known@), interface@),
{
    let ghost views = super::interfaces_view(known@);
    let mut k: usize = 0;
    while k < known.len()
        invariant
            k <= known@.len(),
            views == super::interfaces_view(known@),
            forall|j: int|
                0 <= j < k && same_identity(#[trigger] views[j], interface@)
                    ==> components::interface_satisfies(views[j], interface@),
        decreases known@.len() - k,
    {
        assert(views[k as int] == known@[k as int]@);
        if identical(&known[k], interface) && !satisfies(&known[k], interface) {
            return true;
        }
        k += 1;
    }
    false
}

proof fn lemma_first_interface_fault(
    v: WorldView,
    ports: Seq<PortView>,
    list: Seq<InterfaceView>,
    n: nat,
    m: nat,
)
    requires
        n <= m,
        v.first_interface_fault(ports, list, n) is Some,
    ensures
        v.first_interface_fault(ports, list, m) == v.first_interface_fault(ports, list, n),
    decreases m,
{
    if n < m {
        lemma_first_interface_fault(v, ports, list, n, (m - 1) as nat);
    }
}

/// Those of a list that are not known yet.
fn collect_unknown(known: &Vec<InterfaceSpec>, list: &Vec<InterfaceSpec>) -> (r: Vec<InterfaceSpec>)
    ensures
        super::interfaces_view(r@) == unknown(
            super::interfaces_view(known@),
            super::interfaces_view(list@),
        ),
{
    let ghost kv = super::interfaces_view(known@);
    let ghost lv = super::interfaces_view(list@);
    let mut r: Vec<InterfaceSpec> = Vec::new();
    let mut i: usize = 0;
    proof {
        assert(lv.take(0) =~= Seq::<InterfaceView>::empty());
        assert(super::interfaces_view(r@) =~= Seq::<InterfaceView>::empty());
    }
    while i < list.len()
        invariant
            i <= list@.len(),
            kv == super::interfaces_view(known@),
            lv == super::interfaces_view(list@),
            super::interfaces_view(r@) == unknown(kv, lv.take(i as int)),
        decreases list@.len() - i,
    {
        proof {
            assert(lv.take(i + 1).drop_last() =~= lv.take(i as int));
            assert(kv.take(kv.len() as int) =~= kv);
            assert(lv.take(i + 1).last() == list@[i as int]@);
        }
        if !knows(known, known.len(), &list[i]) {
            let ghost before = r@;
            let copy = list[i].clone();
            r.push(copy);
            proof {
                assert(super::interfaces_view(r@) =~= super::interfaces_view(before).push(
                    list@[i as int]@,
                ));
            }
        }
        i += 1;
    }
    assert(lv.take(i as int) =~= lv);
    r
}

impl World {
    fn interfaces_refusal(&self, d: &ComponentDescriptor) -> (r: Option<Error>)
        ensures
            r == self@.first_interface_fault(
                components::port_views(d.ports@),
                super::interfaces_view(d.interfaces@),
                d.interfaces@.len(),
            ),
    {
        let ghost ports = components::port_views(d.ports@);
        let ghost list = super::interfaces_view(d.interfaces@);
        let mut i: usize = 0;
        while i < d.interfaces.len()
            invariant
                i <= d.interfaces@.len(),
                ports == components::port_views(d.ports@),
                list == super::interfaces_view(d.interfaces@),
                self@.first_interface_fault(ports, list, i as nat) is None,
            decreases d.interfaces@.len() - i,
        {
            match self.interface_refusal(d, i) {
                Some(e) => {
                    proof {
                        assert(self@.first_interface_fault(ports, list, (i + 1) as nat) == Some(e));
                        lemma_first_interface_fault(
                            self@,
                            ports,
                            list,
                            (i + 1) as nat,
                            list.len(),
                        );
                    }
                    return Some(e);
                },
                None => {},
            }
            assert(self@.first_interface_fault(ports, list, (i + 1) as nat) is None);
            i += 1;
        }
        None
    }

    fn interface_refusal(&self, d: &ComponentDescriptor, i: usize) -> (r: Option<Error>)
        requires
            i < d.interfaces@.len(),
        ensures
            r == self@.interface_fault(
                components::port_views(d.ports@),
                super::interfaces_view(d.interfaces@),
                i as int,
            ),
    {
        let interface = &d.interfaces[i];
        assert(super::interfaces_view(d.interfaces@)[i as int] == interface@);
        if !valid_name(interface.name.as_str()) || interface.version == 0 {
            return Some(Error::InterfaceMismatch);
        }
        match check_ports(&interface.ports, &self.schemas) {
            Some(e) => return Some(e),
            None => {},
        }
        if !all_ports_within(&interface.ports, &d.ports) {
            return Some(Error::InterfaceMismatch);
        }
        if knows(&d.interfaces, i, interface) {
            return Some(Error::InterfaceMismatch);
        }
        if clashes(&self.interfaces, interface) {
            return Some(Error::InterfaceMismatch);
        }
        None
    }

    /// Declares the ports and interfaces of an actor that starts.
    pub fn register_component(&mut self, owner: ActorRef, descriptor: ComponentDescriptor) -> (r: Result<
        Vec<PortRef>,
        Error,
    >)
        requires
            old(self).inv(),
        ensures
            final(self).inv(),
            match old(self)@.refuses_component(owner, descriptor) {
                Some(e) => r == Err::<Vec<PortRef>, Error>(e) && final(self)@ == old(self)@,
                None => {
                    &&& r matches Ok(ports) && ports@ == port_refs(owner, descriptor.ports@.len())
                    &&& final(self)@ == old(self)@.with_component(owner, descriptor)
                },
            },
    {
        proof {
            if self@.valid(owner) {
                super::turning::lemma_with_component(self@, owner, descriptor);
            }
        }
        let ghost v = self@;
        let i = match self.locate(owner) {
            Ok(i) => i,
            Err(e) => return Err(e),
        };
        if self.closed || self.actors[i].state != Lifecycle::Starting
            || self.actors[i].component.is_some() {
            return Err(Error::ActorNotReady);
        }
        match self.execution(owner) {
            Err(e) => return Err(e),
            Ok(Lifecycle::Starting) => {},
            Ok(Lifecycle::Active) => {},
            Ok(_) => return Err(Error::ActorStopped),
        }
        if !valid_name(descriptor.name.as_str()) || descriptor.version == 0
            || descriptor.interfaces.len() > MAX_INTERFACES {
            return Err(Error::InvalidConfig);
        }
        match check_ports(&descriptor.ports, &self.schemas) {
            Some(e) => return Err(e),
            None => {},
        }
        match self.interfaces_refusal(&descriptor) {
            Some(e) => return Err(e),
            None => {},
        }
        let mut fresh = collect_unknown(&self.interfaces, &descriptor.interfaces);
        let over: bool = match self.interfaces.len().checked_add(fresh.len()) {
            Some(total) => total > MAX_WORLD_INTERFACES,
            None => true,
        };
        proof {
            assert(self@.interfaces.len() == self.interfaces@.len());
            assert(super::interfaces_view(fresh@).len() == fresh@.len());
        }
        if over {
            return Err(Error::LimitExceeded);
        }
        let ports = refs_of(owner, descriptor.ports.len());
        let ghost prior = *self;
        let ghost added = fresh@;
        self.interfaces.append(&mut fresh);
        proof {
            assert(super::interfaces_view(self.interfaces@) =~= super::interfaces_view(
                prior.interfaces@,
            ) + super::interfaces_view(added));
            self.lemma_kept(prior);
        }
        let a = self.actor_mut(i);
        a.component = Some(Arc::new(descriptor));
        assert(self@.actors =~= v.with_component(owner, descriptor).actors);
        Ok(ports)
    }

    pub fn component(&self, owner: ActorRef) -> (r: Result<Option<Arc<ComponentDescriptor>>, Error>)
        requires
            self.inv(),
        ensures
            r == (if self@.valid(owner) {
                Ok::<Option<Arc<ComponentDescriptor>>, Error>(self@.at(owner).component)
            } else {
                Err(self@.stale(owner))
            }),
    {
        let i = match self.locate(owner) {
            Ok(i) => i,
            Err(e) => return Err(e),
        };
        Ok(
            match &self.actors[i].component {
                Some(component) => Some(component.clone()),
                None => None,
            },
        )
    }

    /// Whether an actor offers an interface.
    pub fn require_interface(&self, owner: ActorRef, required: &InterfaceSpec) -> (r: Result<(), Error>)
        requires
            self.inv(),
        ensures
            r == (match ports_fault(required@.ports, self@.schemas) {
                Some(e) => Err::<(), Error>(e),
                None => if !self@.valid(owner) {
                    Err(self@.stale(owner))
                } else {
                    match self@.at(owner).component {
                        Some(component) => if components::offers(
                            component.interfaces@,
                            required@,
                        ) {
                            Ok(())
                        } else {
                            Err(Error::InterfaceMismatch)
                        },
                        None => Err(Error::InterfaceMismatch),
                    }
                },
            }),
    {
        match check_ports(&required.ports, &self.schemas) {
            Some(e) => return Err(e),
            None => {},
        }
        let i = match self.locate(owner) {
            Ok(i) => i,
            Err(e) => return Err(e),
        };
        match &self.actors[i].component {
            Some(component) => if offers_interface(&component.interfaces, required) {
                Ok(())
            } else {
                Err(Error::InterfaceMismatch)
            },
            None => Err(Error::InterfaceMismatch),
        }
    }

    /// The port of a name.
    pub fn port(&self, owner: ActorRef, name: &str) -> (r: Result<PortRef, Error>)
        requires
            self.inv(),
        ensures
            r == (if !self@.valid(owner) {
                Err::<PortRef, Error>(self@.stale(owner))
            } else {
                match self@.at(owner).component {
                    Some(component) => match port_named(component.ports@, name@) {
                        Some(i) => Ok(PortRef { owner, index: i as u16 }),
                        None => Err(Error::InvalidPort),
                    },
                    None => Err(Error::InvalidPort),
                }
            }),
    {
        let i = match self.locate(owner) {
            Ok(i) => i,
            Err(e) => return Err(e),
        };
        match &self.actors[i].component {
            Some(component) => match find_named(&component.ports, name) {
                Some(k) => Ok(PortRef { owner, index: k as u16 }),
                None => Err(Error::InvalidPort),
            },
            None => Err(Error::InvalidPort),
        }
    }

    pub(super) fn port_spec(&self, port: PortRef) -> (r: Result<&PortSpec, Error>)
        requires
            self.steady(),
        ensures
            match r {
                Ok(declared) => self@.port_spec(port) == Ok::<PortSpec, Error>(*declared),
                Err(e) => self@.port_spec(port) == Err::<PortSpec, Error>(e),
            },
    {
        let i = match self.locate(port.owner) {
            Ok(i) => i,
            Err(e) => return Err(e),
        };
        match &self.actors[i].component {
            Some(component) => {
                let k: usize = port.index as usize;
                if k < component.ports.len() {
                    Ok(&component.ports[k])
                } else {
                    Err(Error::InvalidPort)
                }
            },
            None => Err(Error::InvalidPort),
        }
    }

    /// Adds a route under the next number.
    fn add_route(&mut self, route: Sub) -> (id: u64)
        requires
            old(self).steady(),
            old(self)@.next_sub < u64::MAX,
            old(self)@.subs.dom().len() < old(self)@.cfg.max_subscriptions,
            old(self)@.route_lives(route),
        ensures
            final(self).steady(),
            id == old(self)@.next_sub,
            final(self)@ == old(self)@.with_route(route),
    {
        proof {
            super::lemma_sound_parts(self@);
            self.subs.lemma_finite();
        }
        let id: u64 = self.next_sub;
        self.next_sub = id + 1;
        self.subs.insert(id, route);
        proof {
            let v = old(self)@;
            super::living::lemma_living_route(v, id, route);
            super::living::lemma_living_parts(
                WorldView { subs: v.subs.insert(id, route), ..v },
                self@,
            );
            self.lemma_kept(*old(self));
        }
        self.mark_route(route);
        id
    }

    /// Takes a route away.
    pub(super) fn drop_route(&mut self, id: u64) -> (found: bool)
        requires
            old(self).steady(),
        ensures
            final(self).steady(),
            found == old(self)@.subs.dom().contains(id),
            final(self)@ == (if found {
                old(self)@.without_route(id)
            } else {
                old(self)@
            }),
    {
        proof {
            super::lemma_sound_parts(self@);
            self.subs.lemma_finite();
        }
        let removed = self.subs.remove(&id);
        proof {
            self.lemma_kept(*old(self));
        }
        match removed {
            Some(route) => {
                self.mark_route(route);
                true
            },
            None => {
                assert(old(self)@.subs.remove(id) =~= old(self)@.subs);
                false
            },
        }
    }

    /// Routes what an actor publishes to another actor.
    pub fn subscribe(&mut self, source: ActorRef, target: ActorRef) -> (r: Result<u64, Error>)
        requires
            old(self).inv(),
        ensures
            final(self).inv(),
            match old(self)@.refuses_subscription(source, target) {
                Some(e) => r == Err::<u64, Error>(e) && final(self)@ == old(self)@,
                None => r == Ok::<u64, Error>(old(self)@.next_sub) && final(self)@ == old(
                    self,
                )@.with_route(
                    (Sub { owner: source, source, target, source_port: None, target_port: None }),
                ),
            },
    {
        proof {
            let route = Sub { owner: source, source, target, source_port: None, target_port: None };
            super::tidy::lemma_aside(self@, self@.with_route(route), super::tidy::nothing_open());
        }
        let i = match self.locate(source) {
            Ok(i) => i,
            Err(e) => return Err(e),
        };
        let k = match self.locate(target) {
            Ok(k) => k,
            Err(e) => return Err(e),
        };
        let source_open = self.actors[i].state == Lifecycle::Starting || self.actors[i].state
            == Lifecycle::Active;
        let target_open = self.actors[k].state == Lifecycle::Starting || self.actors[k].state
            == Lifecycle::Active;
        if !source_open || !target_open {
            return Err(Error::ActorStopped);
        }
        if self.subs.active_len() >= self.cfg.max_subscriptions {
            return Err(Error::LimitExceeded);
        }
        if self.subs.source_target_exists(source, target) {
            return Err(Error::DuplicateSubscription);
        }
        if self.next_sub == u64::MAX {
            return Err(Error::LimitExceeded);
        }
        Ok(
            self.add_route(
                Sub { owner: source, source, target, source_port: None, target_port: None },
            ),
        )
    }

    pub fn unsubscribe(&mut self, id: u64) -> (r: Result<(), Error>)
        requires
            old(self).inv(),
        ensures
            final(self).inv(),
            if old(self)@.subs.dom().contains(id) {
                r == Ok::<(), Error>(()) && final(self)@ == old(self)@.without_route(id)
            } else {
                r == Err::<(), Error>(Error::NotFound) && final(self)@ == old(self)@
            },
    {
        proof {
            super::tidy::lemma_aside(self@, self@.without_route(id), super::tidy::nothing_open());
        }
        if self.drop_route(id) {
            Ok(())
        } else {
            Err(Error::NotFound)
        }
    }

    fn link_refusal(&self, r: ActorRef) -> (e: Option<Error>)
        requires
            self.steady(),
        ensures
            e == self@.can_link(r),
    {
        match self.execution(r) {
            Err(e) => Some(e),
            Ok(Lifecycle::Starting) => None,
            Ok(Lifecycle::Active) => None,
            Ok(_) => Some(Error::ActorStopped),
        }
    }

    /// Routes what comes out of a port into another port.
    pub fn link(&mut self, owner: ActorRef, source: PortRef, target: PortRef) -> (r: Result<u64, Error>)
        requires
            old(self).inv(),
        ensures
            final(self).inv(),
            match old(self)@.refuses_link(owner, source, target) {
                Some(e) => r == Err::<u64, Error>(e) && final(self)@ == old(self)@,
                None => r == Ok::<u64, Error>(old(self)@.next_sub) && final(self)@ == old(
                    self,
                )@.with_route(
                    (Sub {
                        owner,
                        source: source.owner,
                        target: target.owner,
                        source_port: Some(source.index),
                        target_port: Some(target.index),
                    }),
                ),
            },
    {
        proof {
            let route = Sub {
                owner,
                source: source.owner,
                target: target.owner,
                source_port: Some(source.index),
                target_port: Some(target.index),
            };
            super::tidy::lemma_aside(self@, self@.with_route(route), super::tidy::nothing_open());
        }
        match self.link_refusal(owner) {
            Some(e) => return Err(e),
            None => {},
        }
        match self.link_refusal(source.owner) {
            Some(e) => return Err(e),
            None => {},
        }
        match self.link_refusal(target.owner) {
            Some(e) => return Err(e),
            None => {},
        }
        let (src_direction, src_schema) = match self.port_spec(source) {
            Ok(declared) => (declared.direction, declared.schema),
            Err(e) => return Err(e),
        };
        let (dst_direction, dst_schema) = match self.port_spec(target) {
            Ok(declared) => (declared.direction, declared.schema),
            Err(e) => return Err(e),
        };
        if src_direction != PortDirection::Output || dst_direction != PortDirection::Input {
            return Err(Error::InvalidPort);
        }
        if src_schema != dst_schema {
            return Err(Error::SchemaMismatch);
        }
        if self.subs.active_len() >= self.cfg.max_subscriptions {
            return Err(Error::LimitExceeded);
        }
        if self.subs.typed_duplicate(source, target) {
            return Err(Error::DuplicateSubscription);
        }
        if self.next_sub == u64::MAX {
            return Err(Error::LimitExceeded);
        }
        proof {
            super::living::lemma_running_lives(self@, owner);
            super::living::lemma_running_lives(self@, source.owner);
            super::living::lemma_running_lives(self@, target.owner);
        }
        Ok(
            self.add_route(
                Sub {
                    owner,
                    source: source.owner,
                    target: target.owner,
                    source_port: Some(source.index),
                    target_port: Some(target.index),
                },
            ),
        )
    }

    pub fn send_port(&mut self, port: PortRef, p: Payload) -> (result: Result<u64, Error>)
        requires
            old(self).inv(),
        ensures
            final(self).inv(),
            exists|now: Instant, charge: usize| #[trigger]
                old(self)@.clock.reads(now) && #[trigger] payload::may_charge(p, charge) && (
                final(self)@,
                result,
            ) == old(self)@.sending_port(now, port, p, charge, envelope::no_options()),
    {
        self.send_port_with(port, p, MessageOptions::default())
    }

    /// Sends a payload to an input port.
    pub fn send_port_with(&mut self, port: PortRef, p: Payload, options: MessageOptions) -> (result: Result<
        u64,
        Error,
    >)
        requires
            old(self).inv(),
        ensures
            final(self).inv(),
            exists|now: Instant, charge: usize| #[trigger]
                old(self)@.clock.reads(now) && #[trigger] payload::may_charge(p, charge) && (
                final(self)@,
                result,
            ) == old(self)@.sending_port(now, port, p, charge, options),
    {
        let now = self.now();
        let charge = p.bytes();
        self.send_port_at(now, port, p, charge, options)
    }

    pub fn send_port_at(
        &mut self,
        now: Instant,
        port: PortRef,
        p: Payload,
        charge: usize,
        options: MessageOptions,
    ) -> (result: Result<u64, Error>)
        requires
            old(self).inv(),
        ensures
            final(self).inv(),
            (final(self)@, result) == old(self)@.sending_port(now, port, p, charge, options),
    {
        proof {
            super::keeping::lemma_sending_port(self@, now, port, p, charge, options);
        }
        self.count_submission();
        let (direction, schema) = match self.port_spec(port) {
            Ok(declared) => (declared.direction, declared.schema),
            Err(e) => {
                self.reject(now, e, port.owner);
                return Err(e);
            },
        };
        if direction != PortDirection::Input {
            self.reject(now, Error::InvalidPort, port.owner);
            return Err(Error::InvalidPort);
        }
        if !schema.matches(&p) {
            self.reject(now, Error::SchemaMismatch, port.owner);
            return Err(Error::SchemaMismatch);
        }
        let stored = match self.store(p, charge, options, None) {
            Ok(stored) => stored,
            Err(e) => {
                self.reject(now, e, port.owner);
                return Err(e);
            },
        };
        let share: u64 = stored.id;
        match self.take_in(now, port.owner, stored, None, false, None) {
            Ok(id) => {
                self.redirect(port.owner, port);
                Ok(id)
            },
            Err(e) => {
                self.release(share);
                self.reject(now, e, port.owner);
                Err(e)
            },
        }
    }

    /// The routes between ports.
    pub fn links(&self) -> (r: Vec<LinkSnapshot>)
        requires
            self.inv(),
        ensures
            r@ == links_of(self@.subs, ordered::sorted(self@.subs.dom())),
    {
        let ids = self.subs.ids();
        let mut r: Vec<LinkSnapshot> = Vec::new();
        let mut i: usize = 0;
        assert(ids@.take(0) =~= Seq::<u64>::empty());
        while i < ids.len()
            invariant
                i <= ids@.len(),
                self.steady(),
                ids@.to_set() == self@.subs.dom(),
                r@ == links_of(self@.subs, ids@.take(i as int)),
            decreases ids@.len() - i,
        {
            let id: u64 = ids[i];
            proof {
                assert(ids@.take(i + 1).drop_last() =~= ids@.take(i as int));
                assert(ids@.contains(id));
                assert(ids@.to_set().contains(id));
            }
            match self.subs.get(&id) {
                Some(route) => match (route.source_port, route.target_port) {
                    (Some(from), Some(to)) => {
                        r.push(
                            LinkSnapshot {
                                id,
                                owner: route.owner,
                                source: PortRef { owner: route.source, index: from },
                                target: PortRef { owner: route.target, index: to },
                            },
                        );
                    },
                    _ => {},
                },
                None => {},
            }
            i += 1;
        }
        assert(ids@.take(i as int) =~= ids@);
        r
    }

    fn source_done(&self, r: ActorRef) -> (done: bool)
        requires
            self.steady(),
        ensures
            done == self@.producer_done(r),
    {
        let i = match self.locate(r) {
            Ok(i) => i,
            Err(_) => return false,
        };
        let a = &self.actors[i];
        let draining = match a.state {
            Lifecycle::Quiescing | Lifecycle::Stopping | Lifecycle::Stopped => true,
            _ => false,
        };
        draining && a.native_tasks == 0 && self.publications.pending_for(r) == 0 && a.queue.len()
            == 0 && !a.in_flight
    }

    /// Whether a draining consumer has nothing more to expect.
    pub fn upstream_done(&self, target: ActorRef) -> (r: Result<bool, Error>)
        requires
            self.inv(),
        ensures
            r == (if self@.valid(target) {
                Ok::<bool, Error>(self@.intake_done(target))
            } else {
                Err(self@.stale(target))
            }),
    {
        let i = match self.locate(target) {
            Ok(i) => i,
            Err(e) => return Err(e),
        };
        if self.actors[i].queue.len() > 0 || self.actors[i].in_flight
            || self.publications.pending_for(target) != 0 {
            return Ok(false);
        }
        let ids = self.subs.target_ids(target);
        let mut k: usize = 0;
        while k < ids.len()
            invariant
                k <= ids@.len(),
                self.steady(),
                self@.valid(target),
                ids@.to_set() == routing::to_actor(self@.subs, target),
                forall|j: int|
                    0 <= j < k ==> self@.producer_done(self@.subs[#[trigger] ids@[j]].source),
            decreases ids@.len() - k,
        {
            let id: u64 = ids[k];
            proof {
                assert(ids@.contains(id));
                assert(ids@.to_set().contains(id));
            }
            match self.subs.get(&id) {
                Some(route) => {
                    if !self.source_done(route.source) {
                        assert(!self@.producer_done(self@.subs[id].source));
                        return Ok(false);
                    }
                },
                None => {},
            }
            k += 1;
        }
        proof {
            assert forall|id: u64|
                routing::to_actor(self@.subs, target).contains(id) implies self@.producer_done(
                (#[trigger] self@.subs[id]).source,
            ) by {
                assert(ids@.to_set().contains(id));
                let j = ids@.index_of(id);
                assert(ids@[j] == id);
            }
        }
        Ok(true)
    }
}

fn refs_of(owner: ActorRef, n: usize) -> (r: Vec<PortRef>)
    ensures
        r@ == port_refs(owner, n as nat),
{
    let mut r: Vec<PortRef> = Vec::new();
    let mut i: usize = 0;
    while i < n
        invariant
            i <= n,
            r@ == port_refs(owner, i as nat),
        decreases n - i,
    {
        r.push(PortRef { owner, index: i as u16 });
        i += 1;
        assert(r@ =~= port_refs(owner, i as nat));
    }
    assert(r@ =~= port_refs(owner, n as nat));
    r
}

} // verus!
