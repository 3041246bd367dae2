//! Service registrations and the leases that scopes hold on them.
use vstd::prelude::*;
use std::sync::Arc;
use crate::components::{InterfaceSpec, InterfaceView};
use crate::ordered;
use crate::ordered::{MultiIndex, OrdMap};
use crate::text;
use crate::text::same_text;
use crate::types::ActorRef;

verus! {

/// A scope's right to use a service on behalf of an owner.
#[derive(Clone, Copy, Debug, PartialEq, Eq, Hash, Structural)]
pub struct ServiceLease {
    pub scope: ActorRef,
    pub owner: ActorRef,
    pub service: ActorRef,
}

#[derive(Debug)]
pub struct ServiceSnapshot {
    pub name: String,
    pub service: ActorRef,
    pub contract: Arc<InterfaceSpec>,
    pub leases: usize,
}

struct Record {
    name: String,
    contract: Arc<InterfaceSpec>,
}

/// A registration: the name and the contract of a service.
pub struct RecordView {
    pub name: Seq<char>,
    pub contract: InterfaceView,
}

impl View for Record {
    type V = RecordView;

    closed spec fn view(&self) -> RecordView {
        RecordView { name: self.name@, contract: self.contract@ }
    }
}

/// The registered services by endpoint, and the leases by scope.
#[verifier::ext_equal]
pub struct ServicesView {
    pub records: Map<ActorRef, RecordView>,
    pub leases: Map<ActorRef, ServiceLease>,
}

impl ServicesView {
    pub open spec fn none() -> ServicesView {
        ServicesView { records: Map::empty(), leases: Map::empty() }
    }

    /// The scopes that hold a lease on a service.
    pub open spec fn scopes_of(self, service: ActorRef) -> Set<ActorRef> {
        self.leases.dom().filter(|s: ActorRef| self.leases[s].service == service)
    }

    /// The scopes through which an owner holds leases.
    pub open spec fn held_by(self, owner: ActorRef) -> Set<ActorRef> {
        self.leases.dom().filter(|s: ActorRef| self.leases[s].owner == owner)
    }

    /// Whether a service is registered under a name.
    pub open spec fn named(self, name: Seq<char>, service: ActorRef) -> bool {
        self.records.dom().contains(service) && self.records[service].name == name
    }

    pub open spec fn taken(self, name: Seq<char>) -> bool {
        exists|service: ActorRef| self.named(name, service)
    }

    /// The service that a name stands for.
    pub open spec fn find(self, name: Seq<char>) -> ActorRef {
        choose|service: ActorRef| self.named(name, service)
    }

    pub open spec fn registered(self, service: ActorRef, record: RecordView) -> ServicesView {
        ServicesView { records: self.records.insert(service, record), ..self }
    }

    pub open spec fn leased(self, lease: ServiceLease) -> ServicesView {
        ServicesView { leases: self.leases.insert(lease.scope, lease), ..self }
    }

    pub open spec fn unleased(self, scope: ActorRef) -> ServicesView {
        ServicesView { leases: self.leases.remove(scope), ..self }
    }

    pub open spec fn unregistered(self, service: ActorRef) -> ServicesView {
        ServicesView { records: self.records.remove(service), ..self }
    }

    /// Whether services and leases keep to their limits, for each owner too.
    pub open spec fn within(self, services: usize, leases: usize, per_owner: usize) -> bool {
        &&& self.records.dom().len() <= services
        &&& self.leases.dom().len() <= leases
        &&& forall|owner: ActorRef| (#[trigger] self.held_by(owner)).len() <= per_owner
    }

    /// Names are unique.
    pub open spec fn names_unique(self) -> bool {
        forall|a: ActorRef, b: ActorRef|
            #![trigger self.records[a], self.records[b]]
            self.records.dom().contains(a) && self.records.dom().contains(b) && self.records[a].name
                == self.records[b].name ==> a == b
    }
}

/// An empty registry keeps to the limits.
pub proof fn lemma_none_within(services: usize, leases: usize, per_owner: usize)
    ensures
        ServicesView::none().within(services, leases, per_owner),
{
    let v = ServicesView::none();
    assert forall|owner: ActorRef| (#[trigger] v.held_by(owner)).len() <= per_owner by {
        assert(v.held_by(owner) =~= Set::empty());
    }
}

/// Fewer leases keep to the limits.
pub proof fn lemma_fewer_within(
    v: ServicesView,
    n: ServicesView,
    services: usize,
    leases: usize,
    per_owner: usize,
)
    requires
        v.within(services, leases, per_owner),
        v.leases.dom().finite(),
        n.records.dom().len() <= services,
        forall|s: ActorRef| #[trigger]
            n.leases.dom().contains(s) ==> v.leases.dom().contains(s) && n.leases[s] == v.leases[s],
    ensures
        n.within(services, leases, per_owner),
{
    assert(n.leases.dom().subset_of(v.leases.dom()));
    vstd::set_lib::lemma_len_subset(n.leases.dom(), v.leases.dom());
    assert forall|owner: ActorRef| (#[trigger] n.held_by(owner)).len() <= per_owner by {
        assert(v.held_by(owner).subset_of(v.leases.dom()));
        vstd::set_lib::lemma_len_subset(v.held_by(owner), v.leases.dom());
        assert(n.held_by(owner).subset_of(v.held_by(owner)));
        vstd::set_lib::lemma_len_subset(n.held_by(owner), v.held_by(owner));
    }
}

/// A lease that the limits leave room for keeps to them.
pub proof fn lemma_leased_within(
    v: ServicesView,
    lease: ServiceLease,
    services: usize,
    leases: usize,
    per_owner: usize,
)
    requires
        v.within(services, leases, per_owner),
        v.leases.dom().finite(),
        !v.leases.dom().contains(lease.scope),
        v.leases.dom().len() < leases,
        v.held_by(lease.owner).len() < per_owner,
    ensures
        v.leased(lease).within(services, leases, per_owner),
{
    let n = v.leased(lease);
    assert forall|owner: ActorRef| (#[trigger] n.held_by(owner)).len() <= per_owner by {
        let held = v.held_by(owner);
        assert(held.subset_of(v.leases.dom()));
        vstd::set_lib::lemma_len_subset(held, v.leases.dom());
        if owner == lease.owner {
            assert(n.held_by(owner) =~= held.insert(lease.scope));
        } else {
            assert(n.held_by(owner) =~= held);
        }
    }
}

pub struct Registry {
    records: OrdMap<ActorRef, Record>,
    leases: OrdMap<ActorRef, ServiceLease>,
    by_service: MultiIndex<ActorRef, ActorRef>,
    by_holder: MultiIndex<ActorRef, ActorRef>,
}

impl View for Registry {
    type V = ServicesView;

    closed spec fn view(&self) -> ServicesView {
        ServicesView {
            records: self.records@.map_values(|r: Record| r@),
            leases: self.leases@,
        }
    }
}

impl Registry {
    pub closed spec fn wf(self) -> bool {
        &&& self.records.wf()
        &&& self.leases.wf()
        &&& self.by_service.wf()
        &&& self.by_holder.wf()
        &&& self@.names_unique()
        &&& forall|a: ActorRef| #[trigger] self.by_service.at(a) == self@.scopes_of(a)
        &&& forall|a: ActorRef| #[trigger] self.by_holder.at(a) == self@.held_by(a)
    }

    pub proof fn lemma_finite(self)
        requires
            self.wf(),
        ensures
            self@.records.dom().finite(),
            self@.leases.dom().finite(),
    {
        self.leases.lemma_listing();
        self.records.lemma_listing();
        assert(self@.records.dom() =~= self.records@.dom());
    }

    pub fn new() -> (r: Self)
        ensures
            r.wf(),
            r@ == ServicesView::none(),
    {
        let r = Registry {
            records: OrdMap::new(),
            leases: OrdMap::new(),
            by_service: MultiIndex::new(),
            by_holder: MultiIndex::new(),
        };
        proof {
            assert(r@ =~= ServicesView::none());
            assert forall|a: ActorRef| #[trigger] r.by_service.at(a) == r@.scopes_of(a) by {
                assert(r@.scopes_of(a) =~= Set::empty());
            }
            assert forall|a: ActorRef| #[trigger] r.by_holder.at(a) == r@.held_by(a) by {
                assert(r@.held_by(a) =~= Set::empty());
            }
        }
        r
    }

    pub fn service_count(&self) -> (n: usize)
        requires
            self.wf(),
        ensures
            n == self@.records.dom().len(),
    {
        assert(self@.records.dom() =~= self.records@.dom());
        self.records.len()
    }

    pub fn lease_count(&self) -> (n: usize)
        requires
            self.wf(),
        ensures
            n == self@.leases.dom().len(),
    {
        self.leases.len()
    }

    pub fn held_count(&self, owner: ActorRef) -> (n: usize)
        requires
            self.wf(),
        ensures
            n == self@.held_by(owner).len(),
    {
        self.by_holder.count(&owner)
    }

    pub fn is_registered(&self, service: ActorRef) -> (r: bool)
        requires
            self.wf(),
        ensures
            r == self@.records.dom().contains(service),
    {
        assert(self@.records.dom() =~= self.records@.dom());
        self.records.contains_key(&service)
    }

    /// The service that a name stands for.
    pub fn find(&self, name: &str) -> (r: Option<ActorRef>)
        requires
            self.wf(),
        ensures
            r is Some <==> self@.taken(name@),
            r matches Some(service) ==> self@.named(name@, service) && service == self@.find(name@),
    {
        let count = self.records.len();
        let ghost listing = self.records.listing();
        let mut i: usize = 0;
        proof {
            self.records.lemma_listing();
            assert(self@.records.dom() =~= self.records@.dom());
        }
        while i < count
            invariant
                self.wf(),
                count == listing.len(),
                listing == self.records.listing(),
                i <= count,
                self@.records.dom() == self.records@.dom(),
                forall|s: ActorRef| #[trigger]
                    self.records@.dom().contains(s) <==> listing.contains(s),
                forall|j: int| 0 <= j < i ==> self@.records[#[trigger] listing[j]].name != name@,
            decreases count - i,
        {
            let service = self.records.key_at(i);
            let record = self.records.value_at(i);
            assert(self@.records[service] == record@);
            if same_text(record.name.as_str(), name) {
                proof {
                    assert(self@.named(name@, service));
                    let other = self@.find(name@);
                    assert(self@.named(name@, other));
                    assert(self@.records[other].name == self@.records[service].name);
                }
                return Some(service);
            }
            i += 1;
        }
        proof {
            assert forall|s: ActorRef| !self@.named(name@, s) by {
                if self@.named(name@, s) {
                    assert(self.records@.dom().contains(s));
                    assert(listing.contains(s));
                    let j = listing.index_of(s);
                    assert(listing[j] == s);
                }
            }
        }
        None
    }

    pub fn contract(&self, service: ActorRef) -> (r: Option<Arc<InterfaceSpec>>)
        requires
            self.wf(),
        ensures
            match r {
                Some(contract) => self@.records.dom().contains(service)
                    && self@.records[service].contract == contract@,
                None => !self@.records.dom().contains(service),
            },
    {
        match self.records.get(&service) {
            Some(record) => Some(record.contract.clone()),
            None => None,
        }
    }

    pub fn lease(&self, scope: ActorRef) -> (r: Option<ServiceLease>)
        requires
            self.wf(),
        ensures
            r == (if self@.leases.dom().contains(scope) {
                Some(self@.leases[scope])
            } else {
                None
            }),
    {
        match self.leases.get(&scope) {
            Some(lease) => Some(*lease),
            None => None,
        }
    }

    /// The scopes on a service, by slot and generation.
    pub fn scopes(&self, service: ActorRef) -> (r: Vec<ActorRef>)
        requires
            self.wf(),
        ensures
            r@ == ordered::sorted(self@.scopes_of(service)),
            r@.to_set() == self@.scopes_of(service),
    {
        self.by_service.list(&service)
    }

    pub fn register(&mut self, name: &str, service: ActorRef, contract: Arc<InterfaceSpec>)
        requires
            old(self).wf(),
            !old(self)@.taken(name@),
            !old(self)@.records.dom().contains(service),
        ensures
            final(self).wf(),
            final(self)@ == old(self)@.registered(
                service,
                (RecordView { name: name@, contract: contract@ }),
            ),
    {
        let ghost before = self@;
        let record = Record { name: name.to_owned(), contract };
        let ghost told = RecordView { name: name@, contract: contract@ };
        let _none = self.records.insert(service, record);
        proof {
            let now = before.registered(service, told);
            assert(self@ =~= now);
            assert forall|a: ActorRef| #[trigger] self.by_service.at(a) == now.scopes_of(a) by {
                assert(now.scopes_of(a) =~= before.scopes_of(a));
            }
            assert forall|a: ActorRef| #[trigger] self.by_holder.at(a) == now.held_by(a) by {
                assert(now.held_by(a) =~= before.held_by(a));
            }
            assert forall|a: ActorRef, b: ActorRef|
                #![trigger now.records[a], now.records[b]]
                now.records.dom().contains(a) && now.records.dom().contains(b) && now.records[a].name
                    == now.records[b].name implies a == b by {
                if a == service && b != service {
                    assert(before.named(name@, b));
                }
                if b == service && a != service {
                    assert(before.named(name@, a));
                }
                if a != service && b != service {
                    assert(before.records[a].name == before.records[b].name);
                }
            }
        }
    }

    /// Takes a registration out; its leases stay.
    pub fn unregister(&mut self, service: ActorRef) -> (found: bool)
        requires
            old(self).wf(),
        ensures
            final(self).wf(),
            final(self)@ == old(self)@.unregistered(service),
            found == old(self)@.records.dom().contains(service),
    {
        let ghost before = self@;
        proof {
            assert(before.records.dom() =~= self.records@.dom());
        }
        let found = self.records.remove(&service).is_some();
        proof {
            let now = before.unregistered(service);
            assert(self@ =~= now);
            assert forall|a: ActorRef| #[trigger] self.by_service.at(a) == now.scopes_of(a) by {
                assert(now.scopes_of(a) =~= before.scopes_of(a));
            }
            assert forall|a: ActorRef| #[trigger] self.by_holder.at(a) == now.held_by(a) by {
                assert(now.held_by(a) =~= before.held_by(a));
            }
            assert forall|a: ActorRef, b: ActorRef|
                #![trigger now.records[a], now.records[b]]
                now.records.dom().contains(a) && now.records.dom().contains(b) && now.records[a].name
                    == now.records[b].name implies a == b by {
                assert(before.records[a].name == before.records[b].name);
            }
        }
        found
    }

    pub fn add_lease(&mut self, lease: ServiceLease)
        requires
            old(self).wf(),
            !old(self)@.leases.dom().contains(lease.scope),
        ensures
            final(self).wf(),
            final(self)@ == old(self)@.leased(lease),
    {
        let ghost before = self@;
        let _none = self.leases.insert(lease.scope, lease);
        self.by_service.insert(lease.service, lease.scope);
        self.by_holder.insert(lease.owner, lease.scope);
        proof {
            let now = before.leased(lease);
            assert(self@ =~= now);
            assert forall|a: ActorRef| #[trigger] self.by_service.at(a) == now.scopes_of(a) by {
                if a == lease.service {
                    assert(now.scopes_of(a) =~= before.scopes_of(a).insert(lease.scope));
                } else {
                    assert(now.scopes_of(a) =~= before.scopes_of(a));
                }
            }
            assert forall|a: ActorRef| #[trigger] self.by_holder.at(a) == now.held_by(a) by {
                if a == lease.owner {
                    assert(now.held_by(a) =~= before.held_by(a).insert(lease.scope));
                } else {
                    assert(now.held_by(a) =~= before.held_by(a));
                }
            }
        }
    }

    pub fn remove_lease(&mut self, scope: ActorRef) -> (r: Option<ServiceLease>)
        requires
            old(self).wf(),
        ensures
            final(self).wf(),
            final(self)@ == old(self)@.unleased(scope),
            r == (if old(self)@.leases.dom().contains(scope) {
                Some(old(self)@.leases[scope])
            } else {
                None
            }),
    {
        let ghost before = self@;
        let lease = match self.leases.remove(&scope) {
            Some(lease) => lease,
            None => {
                assert(self@ =~= before.unleased(scope));
                assert(before.unleased(scope) =~= before);
                return None;
            },
        };
        self.by_service.remove(&lease.service, &scope);
        self.by_holder.remove(&lease.owner, &scope);
        proof {
            let now = before.unleased(scope);
            assert(self@ =~= now);
            assert forall|a: ActorRef| #[trigger] self.by_service.at(a) == now.scopes_of(a) by {
                assert(now.scopes_of(a) =~= before.scopes_of(a).remove(scope));
                if a != lease.service {
                    assert(before.scopes_of(a).remove(scope) =~= before.scopes_of(a));
                }
            }
            assert forall|a: ActorRef| #[trigger] self.by_holder.at(a) == now.held_by(a) by {
                assert(now.held_by(a) =~= before.held_by(a).remove(scope));
                if a != lease.owner {
                    assert(before.held_by(a).remove(scope) =~= before.held_by(a));
                }
            }
        }
        Some(lease)
    }

    /// All leases, by the slot and generation of their scopes.
    pub fn all_leases(&self) -> (r: Vec<ServiceLease>)
        requires
            self.wf(),
        ensures
            r@ == ordered::sorted(self@.leases.dom()).map_values(
                |s: ActorRef| self@.leases[s],
            ),
    {
        let count = self.leases.len();
        let mut r: Vec<ServiceLease> = Vec::new();
        let mut i: usize = 0;
        proof {
            self.leases.lemma_listing();
        }
        while i < count
            invariant
                self.wf(),
                count == self.leases.listing().len(),
                i <= count,
                r.len() == i,
                forall|j: int|
                    0 <= j < i ==> #[trigger] r@[j] == self.leases@[self.leases.listing()[j]],
            decreases count - i,
        {
            r.push(*self.leases.value_at(i));
            i += 1;
        }
        assert(r@ =~= ordered::sorted(self@.leases.dom()).map_values(|s: ActorRef| self@.leases[s]));
        r
    }

    /// A registration by its place in the order of endpoints.
    fn snapshot_at(&self, index: usize) -> (r: ServiceSnapshot)
        requires
            self.wf(),
            index < self.records.listing().len(),
        ensures
            shows(self@, r),
            r.service == self.records.listing()[index as int],
    {
        let service = self.records.key_at(index);
        let record = self.records.value_at(index);
        ServiceSnapshot {
            name: record.name.clone(),
            service,
            contract: record.contract.clone(),
            leases: self.by_service.count(&service),
        }
    }

    /// All registrations, by name.
    pub fn snapshots(&self) -> (r: Vec<ServiceSnapshot>)
        requires
            self.wf(),
        ensures
            snapshots_ok(self@, r@),
    {
        let count = self.records.len();
        let ghost listing = self.records.listing();
        proof {
            self.records.lemma_listing();
            assert(self@.records.dom() =~= self.records@.dom());
        }
        let mut r: Vec<ServiceSnapshot> = Vec::new();
        let mut i: usize = 0;
        while i < count
            invariant
                self.wf(),
                listing == self.records.listing(),
                ordered::ascending(listing),
                self@.records.dom() == self.records@.dom(),
                forall|k: ActorRef| #[trigger]
                    self.records@.dom().contains(k) <==> listing.contains(k),
                count == listing.len(),
                i <= count,
                names_ascend(r@),
                forall|j: int| 0 <= j < r@.len() ==> shows(self@, #[trigger] r@[j]),
                forall|s: ActorRef| #[trigger]
                    listing.take(i as int).contains(s) <==> exists|j: int|
                        0 <= j < r@.len() && (#[trigger] r@[j]).service == s,
            decreases count - i,
        {
            let snapshot = self.snapshot_at(i);
            let ghost service = listing[i as int];
            let ghost before = r@;
            let mut at: usize = 0;
            while at < r.len() && text::text_before(r[at].name.as_str(), snapshot.name.as_str())
                invariant
                    at <= r.len(),
                    forall|j: int| 0 <= j < at ==> text::bytes_lt(
                        text::utf8((#[trigger] r@[j]).name@),
                        text::utf8(snapshot.name@),
                    ),
                decreases r.len() - at,
            {
                at += 1;
            }
            proof {
                ordered::lemma_ascending_distinct(listing);
                assert(!listing.take(i as int).contains(service)) by {
                    if listing.take(i as int).contains(service) {
                        let j = listing.take(i as int).index_of(service);
                        assert(listing[j] == service);
                    }
                }
                assert forall|j: int| 0 <= j < before.len() implies (#[trigger] before[j]).name@
                    != snapshot.name@ by {
                    assert(shows(self@, before[j]));
                    if before[j].name@ == snapshot.name@ {
                        assert(self@.records[before[j].service].name == self@.records[service].name);
                        assert(before[j].service == service);
                        assert(listing.take(i as int).contains(service));
                    }
                }
                lemma_insert_named(before, at as int, snapshot);
            }
            r.insert(at, snapshot);
            proof {
                assert forall|s: ActorRef| #[trigger] listing.take(i + 1).contains(s) <==> exists|j: int|
                    0 <= j < r@.len() && (#[trigger] r@[j]).service == s by {
                    if listing.take(i + 1).contains(s) {
                        let k = listing.take(i + 1).index_of(s);
                        if k < i {
                            assert(listing.take(i as int)[k] == s);
                            assert(listing.take(i as int).contains(s));
                            let j = choose|j: int|
                                0 <= j < before.len() && (#[trigger] before[j]).service == s;
                            if j < at {
                                assert(r@[j].service == s);
                            } else {
                                assert(r@[j + 1].service == s);
                            }
                        } else {
                            assert(r@[at as int].service == s);
                        }
                    }
                    if exists|j: int| 0 <= j < r@.len() && (#[trigger] r@[j]).service == s {
                        let j = choose|j: int| 0 <= j < r@.len() && (#[trigger] r@[j]).service == s;
                        if j == at {
                            assert(listing.take(i + 1)[i as int] == s);
                        } else {
                            if j < at {
                                assert(before[j].service == s);
                            } else {
                                assert(before[j - 1].service == s);
                            }
                            assert(listing.take(i as int).contains(s));
                            let k = listing.take(i as int).index_of(s);
                            assert(listing.take(i + 1)[k] == s);
                        }
                    }
                }
                assert forall|j: int| 0 <= j < r@.len() implies shows(self@, #[trigger] r@[j]) by {
                    if j < at {
                        assert(r@[j] == before[j]);
                    } else if j > at {
                        assert(r@[j] == before[j - 1]);
                    }
                }
            }
            i += 1;
        }
        proof {
            assert(listing.take(i as int) =~= listing);
            assert forall|s: ActorRef| #[trigger] self@.records.dom().contains(s) implies exists|j: int|
                0 <= j < r@.len() && (#[trigger] r@[j]).service == s by {
                assert(listing.contains(s));
                assert(listing.take(i as int).contains(s));
            }
        }
        r
    }
}

/// Whether a snapshot tells what is registered.
pub open spec fn shows(v: ServicesView, s: ServiceSnapshot) -> bool {
    &&& v.records.dom().contains(s.service)
    &&& v.records[s.service].name == s.name@
    &&& v.records[s.service].contract == s.contract@
    &&& s.leases == v.scopes_of(s.service).len()
}

pub open spec fn names_ascend(list: Seq<ServiceSnapshot>) -> bool {
    forall|i: int, j: int|
        0 <= i < j < list.len() ==> text::bytes_lt(
            text::utf8((#[trigger] list[i]).name@),
            text::utf8((#[trigger] list[j]).name@),
        )
}

/// Every registration once, by name.
pub open spec fn snapshots_ok(v: ServicesView, list: Seq<ServiceSnapshot>) -> bool {
    &&& names_ascend(list)
    &&& forall|j: int| 0 <= j < list.len() ==> shows(v, #[trigger] list[j])
    &&& forall|s: ActorRef| #[trigger]
        v.records.dom().contains(s) ==> exists|j: int|
            0 <= j < list.len() && (#[trigger] list[j]).service == s
}

proof fn lemma_insert_named(list: Seq<ServiceSnapshot>, at: int, s: ServiceSnapshot)
    requires
        names_ascend(list),
        0 <= at <= list.len(),
        forall|j: int|
            0 <= j < at ==> text::bytes_lt(
                text::utf8((#[trigger] list[j]).name@),
                text::utf8(s.name@),
            ),
        at < list.len() ==> !text::bytes_lt(
            text::utf8(list[at].name@),
            text::utf8(s.name@),
        ),
        forall|j: int| 0 <= j < list.len() ==> (#[trigger] list[j]).name@ != s.name@,
    ensures
        names_ascend(list.insert(at, s)),
{
    let now = list.insert(at, s);
    if at < list.len() {
        text::lemma_bytes_lt_total(
            text::utf8(list[at].name@),
            text::utf8(s.name@),
        );
        text::lemma_utf8_injective(list[at].name@, s.name@);
    }
    assert forall|i: int, j: int| 0 <= i < j < now.len() implies text::bytes_lt(
        text::utf8((#[trigger] now[i]).name@),
        text::utf8((#[trigger] now[j]).name@),
    ) by {
        if j == at {
            assert(now[i] == list[i]);
        } else if i == at {
            assert(now[j] == list[j - 1]);
            if j - 1 > at {
                assert(text::bytes_lt(
                    text::utf8(list[at].name@),
                    text::utf8(list[j - 1].name@),
                ));
                text::lemma_bytes_lt_transitive(
                    text::utf8(s.name@),
                    text::utf8(list[at].name@),
                    text::utf8(list[j - 1].name@),
                );
            }
        } else {
            let x = if i < at { i } else { i - 1 };
            let y = if j < at { j } else { j - 1 };
            assert(now[i] == list[x]);
            assert(now[j] == list[y]);
        }
    }
}

/// A lease is counted for its service and for its owner, and for nobody else.
pub proof fn a_lease_is_counted_for_both_ends(v: ServicesView, lease: ServiceLease, x: ActorRef)
    requires
        !v.leases.dom().contains(lease.scope),
    ensures
        ({
            let n = v.leased(lease);
            &&& n.records == v.records
            &&& n.leases[lease.scope] == lease
            &&& n.scopes_of(x).contains(lease.scope) <==> x == lease.service
            &&& n.held_by(x).contains(lease.scope) <==> x == lease.owner
            &&& n.unleased(lease.scope) == v
            &&& forall|s: ActorRef|
                s != lease.scope ==> (#[trigger] n.scopes_of(x).contains(s) <==> v.scopes_of(
                    x,
                ).contains(s))
        }),
{
    assert(v.leased(lease).unleased(lease.scope).leases =~= v.leases);
}

/// A service is found under the name it registered, until it is taken out.
pub proof fn a_service_is_found_by_its_name(v: ServicesView, service: ActorRef, record: RecordView)
    requires
        v.names_unique(),
        !v.taken(record.name),
        !v.records.dom().contains(service),
    ensures
        v.registered(service, record).taken(record.name),
        v.registered(service, record).find(record.name) == service,
        v.registered(service, record).records[service] == record,
        v.registered(service, record).leases == v.leases,
        v.registered(service, record).unregistered(service) == v,
        !v.registered(service, record).unregistered(service).taken(record.name),
{
    let n = v.registered(service, record);
    assert(n.named(record.name, service));
    assert forall|s: ActorRef| #[trigger] n.named(record.name, s) implies s == service by {
        if s != service {
            assert(v.named(record.name, s));
        }
    }
    assert(n.unregistered(service).records =~= v.records);
}

/// A snapshot shows each service once, in the order of the names, with what it
/// promised and how many have leased it.
pub proof fn services_are_shown_as_they_are(v: ServicesView, list: Seq<ServiceSnapshot>, j: int)
    requires
        snapshots_ok(v, list),
        0 <= j < list.len(),
    ensures
        v.records.dom().contains(list[j].service),
        v.records[list[j].service].name == list[j].name@,
        v.records[list[j].service].contract == list[j].contract@,
        list[j].leases == v.leases.dom().filter(
            |s: ActorRef| v.leases[s].service == list[j].service,
        ).len(),
        forall|i: int| 0 <= i < list.len() && i != j ==> (#[trigger] list[i]).service
            != list[j].service,
{
    assert(shows(v, list[j]));
    assert(v.scopes_of(list[j].service) =~= v.leases.dom().filter(
        |s: ActorRef| v.leases[s].service == list[j].service,
    ));
    assert forall|i: int| 0 <= i < list.len() && i != j implies (#[trigger] list[i]).service
        != list[j].service by {
        assert(shows(v, list[i]));
        text::lemma_bytes_lt_irreflexive(text::utf8(list[j].name@));
        if list[i].service == list[j].service {
            assert(list[i].name@ == list[j].name@);
        }
    }
}

} // verus!
