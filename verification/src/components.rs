//! Component contracts: typed ports and named, versioned interfaces.
use vstd::prelude::*;
use crate::payload::Payload;
use crate::text;
use crate::text::{byte_len, same_text};
use crate::types::ActorRef;

verus! {

pub const MAX_PORTS: usize = 64;

pub const MAX_INTERFACES: usize = 16;

pub const MAX_WORLD_INTERFACES: usize = 1024;

/// The payloads that a port carries.
#[derive(Clone, Copy, Debug, PartialEq, Eq, Hash, Structural)]
pub enum PayloadType {
    Pulse,
    CountSnapshot,
    Structured(u32),
}

/// Whether a payload is of a type.
pub open spec fn type_matches(ty: PayloadType, payload: Payload) -> bool {
    match (ty, payload) {
        (PayloadType::Pulse, Payload::Pulse(_)) => true,
        (PayloadType::CountSnapshot, Payload::CountSnapshot { .. }) => true,
        (PayloadType::Structured(id), Payload::Structured(record)) => id == record.schema_id(),
        _ => false,
    }
}

impl PayloadType {
    pub fn matches(self, payload: &Payload) -> (r: bool)
        ensures
            r == type_matches(self, *payload),
    {
        match (self, payload) {
            (PayloadType::Pulse, Payload::Pulse(_)) => true,
            (PayloadType::CountSnapshot, Payload::CountSnapshot { .. }) => true,
            (PayloadType::Structured(id), Payload::Structured(record)) => id == record.schema(),
            _ => false,
        }
    }
}

#[derive(Clone, Copy, Debug, PartialEq, Eq, Hash, Structural)]
pub enum PortDirection {
    Input,
    Output,
}

#[derive(Debug, PartialEq, Eq)]
pub struct PortSpec {
    pub name: String,
    pub direction: PortDirection,
    pub schema: PayloadType,
}

/// What a port declares.
#[verifier::ext_equal]
pub struct PortView {
    pub name: Seq<char>,
    pub direction: PortDirection,
    pub schema: PayloadType,
}

impl View for PortSpec {
    type V = PortView;

    open spec fn view(&self) -> PortView {
        PortView { name: self.name@, direction: self.direction, schema: self.schema }
    }
}

impl Clone for PortSpec {
    fn clone(&self) -> (r: Self)
        ensures
            r == *self,
    {
        PortSpec { name: self.name.clone(), direction: self.direction, schema: self.schema }
    }
}

impl PortSpec {
    pub fn same(&self, other: &PortSpec) -> (r: bool)
        ensures
            r == (self@ == other@),
    {
        self.name == other.name && self.direction == other.direction && self.schema == other.schema
    }
}

/// The ports of a list, as declared.
pub open spec fn port_views(ports: Seq<PortSpec>) -> Seq<PortView> {
    ports.map_values(|p: PortSpec| p@)
}

#[derive(Debug, PartialEq, Eq)]
pub struct InterfaceSpec {
    pub name: String,
    pub version: u32,
    pub ports: Vec<PortSpec>,
}

/// What an interface declares; the order of its ports carries no meaning.
#[verifier::ext_equal]
pub struct InterfaceView {
    pub name: Seq<char>,
    pub version: u32,
    pub ports: Seq<PortView>,
}

impl View for InterfaceSpec {
    type V = InterfaceView;

    open spec fn view(&self) -> InterfaceView {
        InterfaceView { name: self.name@, version: self.version, ports: port_views(self.ports@) }
    }
}

impl Clone for InterfaceSpec {
    fn clone(&self) -> (r: Self)
        ensures
            r@ == self@,
    {
        let ports = clone_ports(&self.ports);
        InterfaceSpec { name: self.name.clone(), version: self.version, ports }
    }
}

pub fn clone_ports(ports: &Vec<PortSpec>) -> (r: Vec<PortSpec>)
    ensures
        r@ == ports@,
{
    let mut r: Vec<PortSpec> = Vec::new();
    let mut i: usize = 0;
    while i < ports.len()
        invariant
            i <= ports.len(),
            r@ == ports@.take(i as int),
        decreases ports.len() - i,
    {
        r.push(ports[i].clone());
        i += 1;
        assert(ports@.take(i as int) =~= ports@.take(i - 1).push(ports@[i - 1]));
    }
    assert(ports@.take(ports.len() as int) =~= ports@);
    r
}

#[derive(Debug, PartialEq, Eq)]
pub struct ComponentDescriptor {
    pub name: String,
    pub version: u32,
    pub ports: Vec<PortSpec>,
    pub interfaces: Vec<InterfaceSpec>,
}

/// One port of one actor.
#[derive(Clone, Copy, Debug, PartialEq, Eq, Hash, Structural)]
pub struct PortRef {
    pub owner: ActorRef,
    pub index: u16,
}

#[derive(Clone, Copy, Debug)]
pub struct LinkSnapshot {
    pub id: u64,
    pub owner: ActorRef,
    pub source: PortRef,
    pub target: PortRef,
}

/// A name of 1 to 128 bytes.
pub open spec fn name_ok(name: Seq<char>) -> bool {
    1 <= text::utf8(name).len() <= 128
}

pub fn valid_name(name: &str) -> (r: bool)
    ensures
        r == name_ok(name@),
{
    let n = byte_len(name);
    1 <= n && n <= 128
}

/// No two ports share a name.
pub open spec fn names_distinct(ports: Seq<PortView>) -> bool {
    forall|i: int, j: int|
        0 <= i < j < ports.len() ==> #[trigger] ports[i].name != #[trigger] ports[j].name
}

pub fn has_distinct_names(ports: &Vec<PortSpec>) -> (r: bool)
    ensures
        r == names_distinct(port_views(ports@)),
{
    let ghost views = port_views(ports@);
    let mut i: usize = 0;
    while i < ports.len()
        invariant
            i <= ports.len(),
            views == port_views(ports@),
            forall|a: int, b: int|
                0 <= a < b < i ==> #[trigger] views[a].name != #[trigger] views[b].name,
        decreases ports.len() - i,
    {
        let mut j: usize = 0;
        while j < i
            invariant
                j <= i < ports.len(),
                views == port_views(ports@),
                forall|a: int| 0 <= a < j ==> #[trigger] views[a].name != views[i as int].name,
            decreases i - j,
        {
            if ports[j].name == ports[i].name {
                assert(views[j as int].name == views[i as int].name);
                return false;
            }
            j += 1;
        }
        i += 1;
    }
    true
}

/// The first port with a name and direction, if there is one.
pub open spec fn port_position(ports: Seq<PortView>, name: Seq<char>, direction: PortDirection) -> Option<
    int,
> {
    first_position(ports, |p: PortView| p.name == name && p.direction == direction)
}

/// The first index whose element satisfies a predicate.
pub open spec fn first_position<T>(s: Seq<T>, p: spec_fn(T) -> bool) -> Option<int>
    decreases s.len(),
{
    if s.len() == 0 {
        None
    } else if p(s[0]) {
        Some(0)
    } else {
        match first_position(s.drop_first(), p) {
            Some(i) => Some(i + 1),
            None => None,
        }
    }
}

pub proof fn lemma_first_position<T>(s: Seq<T>, p: spec_fn(T) -> bool, at: int)
    requires
        0 <= at <= s.len(),
        forall|i: int| 0 <= i < at ==> !p(#[trigger] s[i]),
    ensures
        at < s.len() && p(s[at]) ==> first_position(s, p) == Some(at),
        at == s.len() ==> first_position(s, p) is None,
    decreases s.len(),
{
    if s.len() > 0 && at > 0 {
        assert(!p(s[0]));
        let t = s.drop_first();
        assert forall|i: int| 0 <= i < at - 1 implies !p(#[trigger] t[i]) by {
            assert(!p(s[i + 1]));
        }
        lemma_first_position(t, p, at - 1);
    }
}

pub proof fn lemma_first_position_sound<T>(s: Seq<T>, p: spec_fn(T) -> bool)
    ensures
        first_position(s, p) matches Some(i) ==> 0 <= i < s.len() && p(s[i]) && forall|j: int|
            0 <= j < i ==> !p(#[trigger] s[j]),
        first_position(s, p) is None ==> forall|j: int| 0 <= j < s.len() ==> !p(#[trigger] s[j]),
    decreases s.len(),
{
    if s.len() > 0 && !p(s[0]) {
        let t = s.drop_first();
        lemma_first_position_sound(t, p);
        assert forall|j: int| 1 <= j < s.len() implies #[trigger] s[j] == t[j - 1] by {}
    }
}

pub fn find_port(ports: &Vec<PortSpec>, name: &str, direction: PortDirection) -> (r: Option<usize>)
    ensures
        match r {
            Some(i) => i < ports.len() && port_position(port_views(ports@), name@, direction) == Some(
                i as int,
            ),
            None => port_position(port_views(ports@), name@, direction) is None,
        },
{
    let ghost views = port_views(ports@);
    let ghost pred = |p: PortView| p.name == name@ && p.direction == direction;
    let mut i: usize = 0;
    while i < ports.len()
        invariant
            i <= ports.len(),
            views == port_views(ports@),
            pred == (|p: PortView| p.name == name@ && p.direction == direction),
            forall|j: int| 0 <= j < i ==> !pred(#[trigger] views[j]),
        decreases ports.len() - i,
    {
        if same_text(ports[i].name.as_str(), name) && ports[i].direction == direction {
            proof {
                assert(pred(views[i as int]));
                lemma_first_position(views, pred, i as int);
            }
            return Some(i);
        }
        i += 1;
    }
    proof {
        lemma_first_position(views, pred, i as int);
    }
    None
}

/// Whether a list of ports holds a port.
pub fn has_port(ports: &Vec<PortSpec>, port: &PortSpec) -> (r: bool)
    ensures
        r == port_views(ports@).contains(port@),
{
    let ghost views = port_views(ports@);
    let mut i: usize = 0;
    while i < ports.len()
        invariant
            i <= ports.len(),
            views == port_views(ports@),
            forall|j: int| 0 <= j < i ==> #[trigger] views[j] != port@,
        decreases ports.len() - i,
    {
        if ports[i].same(port) {
            assert(views[i as int] == port@);
            return true;
        }
        i += 1;
    }
    false
}

/// Every port of `inner` is a port of `outer`.
pub open spec fn ports_within(inner: Seq<PortView>, outer: Seq<PortView>) -> bool {
    forall|i: int| 0 <= i < inner.len() ==> outer.contains(#[trigger] inner[i])
}

pub fn all_ports_within(inner: &Vec<PortSpec>, outer: &Vec<PortSpec>) -> (r: bool)
    ensures
        r == ports_within(port_views(inner@), port_views(outer@)),
{
    let ghost views = port_views(inner@);
    let mut i: usize = 0;
    while i < inner.len()
        invariant
            i <= inner.len(),
            views == port_views(inner@),
            forall|j: int| 0 <= j < i ==> port_views(outer@).contains(#[trigger] views[j]),
        decreases inner.len() - i,
    {
        if !has_port(outer, &inner[i]) {
            assert(!port_views(outer@).contains(views[i as int]));
            return false;
        }
        i += 1;
    }
    true
}

/// Whether an offered interface satisfies a required one: same identity and
/// number of ports, and every required port offered.
pub open spec fn interface_satisfies(offered: InterfaceView, required: InterfaceView) -> bool {
    &&& offered.name == required.name
    &&& offered.version == required.version
    &&& offered.ports.len() == required.ports.len()
    &&& ports_within(required.ports, offered.ports)
}

pub fn satisfies(offered: &InterfaceSpec, required: &InterfaceSpec) -> (r: bool)
    ensures
        r == interface_satisfies(offered@, required@),
{
    offered.name == required.name && offered.version == required.version && offered.ports.len()
        == required.ports.len() && all_ports_within(&required.ports, &offered.ports)
}

/// Whether one of a component's interfaces satisfies a required one.
pub open spec fn offers(interfaces: Seq<InterfaceSpec>, required: InterfaceView) -> bool {
    exists|i: int|
        0 <= i < interfaces.len() && interface_satisfies(#[trigger] interfaces[i]@, required)
}

pub fn offers_interface(interfaces: &Vec<InterfaceSpec>, required: &InterfaceSpec) -> (r: bool)
    ensures
        r == offers(interfaces@, required@),
{
    let mut i: usize = 0;
    while i < interfaces.len()
        invariant
            i <= interfaces.len(),
            forall|j: int|
                0 <= j < i ==> !interface_satisfies(#[trigger] interfaces@[j]@, required@),
        decreases interfaces.len() - i,
    {
        if satisfies(&interfaces[i], required) {
            return true;
        }
        i += 1;
    }
    false
}

/// A port is found where it is declared first, under its name and direction; it
/// is not found exactly if none is declared so.
pub proof fn a_port_is_found_where_it_is_first(
    ports: Seq<PortView>,
    name: Seq<char>,
    direction: PortDirection,
)
    ensures
        port_position(ports, name, direction) matches Some(at) ==> {
            &&& 0 <= at < ports.len()
            &&& ports[at].name == name
            &&& ports[at].direction == direction
            &&& forall|i: int|
                0 <= i < at ==> (#[trigger] ports[i]).name != name || ports[i].direction
                    != direction
        },
        port_position(ports, name, direction) is None ==> forall|i: int|
            0 <= i < ports.len() ==> (#[trigger] ports[i]).name != name || ports[i].direction
                != direction,
{
    lemma_first_position_sound(ports, |p: PortView| p.name == name && p.direction == direction);
}

/// An interface satisfies itself. What satisfies another has its name, its
/// version and as many ports, each port of the other among them.
pub proof fn an_interface_is_satisfied_by_its_like(offered: InterfaceView, required: InterfaceView)
    ensures
        interface_satisfies(offered, offered),
        interface_satisfies(offered, required) ==> {
            &&& offered.name == required.name
            &&& offered.version == required.version
            &&& offered.ports.len() == required.ports.len()
            &&& forall|i: int|
                0 <= i < required.ports.len() ==> offered.ports.contains(
                    #[trigger] required.ports[i],
                )
        },
        offered.name == required.name && offered.version == required.version && offered.ports
            == required.ports.reverse() ==> interface_satisfies(offered, required),
{
    assert forall|i: int| 0 <= i < offered.ports.len() implies offered.ports.contains(
        #[trigger] offered.ports[i],
    ) by {}
    if offered.ports == required.ports.reverse() {
        assert forall|i: int| 0 <= i < required.ports.len() implies offered.ports.contains(
            #[trigger] required.ports[i],
        ) by {
            assert(offered.ports[required.ports.len() - 1 - i] == required.ports[i]);
        }
    }
}

/// A name has at least one byte and at most 128.
pub proof fn a_name_has_its_size(name: Seq<char>)
    ensures
        name_ok(name) <==> text::utf8(name).len() > 0 && text::utf8(name).len() < 129,
{
}

} // verus!
