//! The route table: subscriptions and typed links, findable from every side.
use vstd::prelude::*;
use crate::components::PortRef;
use crate::ordered;
use crate::ordered::{Key, MultiIndex, OrdMap, OrdSet};
use crate::types::ActorRef;

verus! {

/// A route from a source to a target. An owner's end takes it along.
#[derive(Clone, Copy, Debug, PartialEq, Eq, Structural)]
pub struct Sub {
    pub owner: ActorRef,
    pub source: ActorRef,
    pub target: ActorRef,
    pub source_port: Option<u16>,
    pub target_port: Option<u16>,
}

/// A source and the port it publishes on.
#[derive(Clone, Copy, Debug, PartialEq, Eq, Structural)]
pub struct SourcePort {
    pub source: ActorRef,
    pub port: Option<u16>,
}

pub open spec fn port_number(port: Option<u16>) -> int {
    match port {
        Some(p) => p + 1,
        None => 0,
    }
}

impl Key for SourcePort {
    open spec fn lt(a: Self, b: Self) -> bool {
        ActorRef::lt(a.source, b.source) || (a.source == b.source && port_number(a.port)
            < port_number(b.port))
    }

    proof fn lt_irreflexive(a: Self) {
    }

    proof fn lt_transitive(a: Self, b: Self, c: Self) {
    }

    proof fn lt_total(a: Self, b: Self) {
    }

    fn less(&self, other: &Self) -> (r: bool) {
        if self.source == other.source {
            match (self.port, other.port) {
                (Some(a), Some(b)) => a < b,
                (None, Some(_)) => true,
                _ => false,
            }
        } else {
            self.source.less(&other.source)
        }
    }
}

/// The routes that leave a source on a port.
pub open spec fn from_port(routes: Map<u64, Sub>, source: ActorRef, port: Option<u16>) -> Set<u64> {
    routes.dom().filter(|id: u64| routes[id].source == source && routes[id].source_port == port)
}

/// The routes that leave a source.
pub open spec fn from_actor(routes: Map<u64, Sub>, source: ActorRef) -> Set<u64> {
    routes.dom().filter(|id: u64| routes[id].source == source)
}

/// The routes that an owner holds.
pub open spec fn owned_by(routes: Map<u64, Sub>, owner: ActorRef) -> Set<u64> {
    routes.dom().filter(|id: u64| routes[id].owner == owner)
}

/// The routes that lead to a target.
pub open spec fn to_actor(routes: Map<u64, Sub>, target: ActorRef) -> Set<u64> {
    routes.dom().filter(|id: u64| routes[id].target == target)
}

/// The routes that an actor owns, feeds or receives.
pub open spec fn touching(routes: Map<u64, Sub>, actor: ActorRef) -> Set<u64> {
    routes.dom().filter(
        |id: u64|
            routes[id].owner == actor || routes[id].source == actor || routes[id].target == actor,
    )
}

pub struct RouteTable {
    entries: OrdMap<u64, Sub>,
    by_source: MultiIndex<SourcePort, u64>,
    by_source_actor: MultiIndex<ActorRef, u64>,
    by_owner: MultiIndex<ActorRef, u64>,
    by_target: MultiIndex<ActorRef, u64>,
}

impl View for RouteTable {
    type V = Map<u64, Sub>;

    closed spec fn view(&self) -> Map<u64, Sub> {
        self.entries@
    }
}

impl RouteTable {
    /// Every index holds exactly the routes of the table.
    pub closed spec fn wf(self) -> bool {
        &&& self.entries.wf()
        &&& self.by_source.wf()
        &&& self.by_source_actor.wf()
        &&& self.by_owner.wf()
        &&& self.by_target.wf()
        &&& forall|k: SourcePort| #[trigger]
            self.by_source.at(k) == from_port(self.entries@, k.source, k.port)
        &&& forall|a: ActorRef| #[trigger]
            self.by_source_actor.at(a) == from_actor(self.entries@, a)
        &&& forall|a: ActorRef| #[trigger] self.by_owner.at(a) == owned_by(self.entries@, a)
        &&& forall|a: ActorRef| #[trigger] self.by_target.at(a) == to_actor(self.entries@, a)
    }

    pub proof fn lemma_finite(self)
        requires
            self.wf(),
        ensures
            self@.dom().finite(),
    {
        self.entries.lemma_listing();
    }

    pub fn new() -> (r: Self)
        ensures
            r.wf(),
            r@ == Map::<u64, Sub>::empty(),
    {
        let r = RouteTable {
            entries: OrdMap::new(),
            by_source: MultiIndex::new(),
            by_source_actor: MultiIndex::new(),
            by_owner: MultiIndex::new(),
            by_target: MultiIndex::new(),
        };
        proof {
            assert forall|k: SourcePort| #[trigger] r.by_source.at(k) == from_port(
                r.entries@,
                k.source,
                k.port,
            ) by {
                assert(from_port(r.entries@, k.source, k.port) =~= Set::empty());
            }
            assert forall|a: ActorRef| #[trigger] r.by_source_actor.at(a) == from_actor(
                r.entries@,
                a,
            ) by {
                assert(from_actor(r.entries@, a) =~= Set::empty());
            }
            assert forall|a: ActorRef| #[trigger] r.by_owner.at(a) == owned_by(r.entries@, a) by {
                assert(owned_by(r.entries@, a) =~= Set::empty());
            }
            assert forall|a: ActorRef| #[trigger] r.by_target.at(a) == to_actor(r.entries@, a) by {
                assert(to_actor(r.entries@, a) =~= Set::empty());
            }
        }
        r
    }

    pub fn active_len(&self) -> (n: usize)
        requires
            self.wf(),
        ensures
            n == self@.dom().len(),
    {
        self.entries.len()
    }

    pub fn get(&self, id: &u64) -> (r: Option<Sub>)
        requires
            self.wf(),
        ensures
            r == (if self@.dom().contains(*id) {
                Some(self@[*id])
            } else {
                None
            }),
    {
        match self.entries.get(id) {
            Some(route) => Some(*route),
            None => None,
        }
    }

    pub fn contains_active(&self, id: u64) -> (r: bool)
        requires
            self.wf(),
        ensures
            r == self@.dom().contains(id),
    {
        self.entries.contains_key(&id)
    }

    /// The identifiers of all routes, ascending.
    pub fn ids(&self) -> (r: Vec<u64>)
        requires
            self.wf(),
        ensures
            r@ == ordered::sorted(self@.dom()),
            r@.to_set() == self@.dom(),
            ordered::ascending(r@),
    {
        self.entries.keys()
    }

    pub fn source_ids(&self, source: ActorRef, port: Option<u16>) -> (r: Vec<u64>)
        requires
            self.wf(),
        ensures
            r@ == ordered::sorted(from_port(self@, source, port)),
            r@.to_set() == from_port(self@, source, port),
            r@.len() == from_port(self@, source, port).len(),
    {
        self.by_source.list(&SourcePort { source, port })
    }

    pub fn source_count(&self, source: ActorRef, port: Option<u16>) -> (n: usize)
        requires
            self.wf(),
        ensures
            n == from_port(self@, source, port).len(),
    {
        self.by_source.count(&SourcePort { source, port })
    }

    pub fn source_actor_ids(&self, source: ActorRef) -> (r: Vec<u64>)
        requires
            self.wf(),
        ensures
            r@ == ordered::sorted(from_actor(self@, source)),
            r@.to_set() == from_actor(self@, source),
    {
        self.by_source_actor.list(&source)
    }

    pub fn target_ids(&self, target: ActorRef) -> (r: Vec<u64>)
        requires
            self.wf(),
        ensures
            r@ == ordered::sorted(to_actor(self@, target)),
            r@.to_set() == to_actor(self@, target),
    {
        self.by_target.list(&target)
    }

    /// The routes that end with an actor.
    pub fn actor_route_ids(&self, actor: ActorRef) -> (r: Vec<u64>)
        requires
            self.wf(),
        ensures
            r@ == ordered::sorted(touching(self@, actor)),
            r@.to_set() == touching(self@, actor),
    {
        let mut ids: OrdSet<u64> = OrdSet::new();
        let owned = self.by_owner.list(&actor);
        let fed = self.by_source_actor.list(&actor);
        let received = self.by_target.list(&actor);
        collect_into(&mut ids, &owned);
        collect_into(&mut ids, &fed);
        collect_into(&mut ids, &received);
        assert(ids@ =~= touching(self@, actor));
        ids.to_vec()
    }

    pub fn insert(&mut self, id: u64, route: Sub)
        requires
            old(self).wf(),
            !old(self)@.dom().contains(id),
        ensures
            final(self).wf(),
            final(self)@ == old(self)@.insert(id, route),
    {
        let ghost before = self.entries@;
        self.by_source.insert(SourcePort { source: route.source, port: route.source_port }, id);
        self.by_source_actor.insert(route.source, id);
        self.by_owner.insert(route.owner, id);
        self.by_target.insert(route.target, id);
        let _none = self.entries.insert(id, route);
        proof {
            let now = self.entries@;
            assert forall|k: SourcePort| #[trigger] self.by_source.at(k) == from_port(
                now,
                k.source,
                k.port,
            ) by {
                if k.source == route.source && k.port == route.source_port {
                    assert(from_port(now, k.source, k.port) =~= from_port(
                        before,
                        k.source,
                        k.port,
                    ).insert(id));
                } else {
                    assert(from_port(now, k.source, k.port) =~= from_port(before, k.source, k.port));
                }
            }
            assert forall|a: ActorRef| #[trigger] self.by_source_actor.at(a) == from_actor(now, a) by {
                if a == route.source {
                    assert(from_actor(now, a) =~= from_actor(before, a).insert(id));
                } else {
                    assert(from_actor(now, a) =~= from_actor(before, a));
                }
            }
            assert forall|a: ActorRef| #[trigger] self.by_owner.at(a) == owned_by(now, a) by {
                if a == route.owner {
                    assert(owned_by(now, a) =~= owned_by(before, a).insert(id));
                } else {
                    assert(owned_by(now, a) =~= owned_by(before, a));
                }
            }
            assert forall|a: ActorRef| #[trigger] self.by_target.at(a) == to_actor(now, a) by {
                if a == route.target {
                    assert(to_actor(now, a) =~= to_actor(before, a).insert(id));
                } else {
                    assert(to_actor(now, a) =~= to_actor(before, a));
                }
            }
        }
    }

    pub fn remove(&mut self, id: &u64) -> (r: Option<Sub>)
        requires
            old(self).wf(),
        ensures
            final(self).wf(),
            final(self)@ == old(self)@.remove(*id),
            r == (if old(self)@.dom().contains(*id) {
                Some(old(self)@[*id])
            } else {
                None
            }),
    {
        let ghost before = self.entries@;
        let route = match self.entries.remove(id) {
            Some(route) => route,
            None => {
                assert(self.entries@ =~= before);
                return None;
            },
        };
        self.by_source.remove(&SourcePort { source: route.source, port: route.source_port }, id);
        self.by_source_actor.remove(&route.source, id);
        self.by_owner.remove(&route.owner, id);
        self.by_target.remove(&route.target, id);
        proof {
            let now = self.entries@;
            assert forall|k: SourcePort| #[trigger] self.by_source.at(k) == from_port(
                now,
                k.source,
                k.port,
            ) by {
                assert(from_port(now, k.source, k.port) =~= from_port(before, k.source, k.port).remove(
                    *id,
                ));
                assert(from_port(before, k.source, k.port).contains(*id) <==> k == SourcePort {
                    source: route.source,
                    port: route.source_port,
                });
                if k != (SourcePort { source: route.source, port: route.source_port }) {
                    assert(from_port(before, k.source, k.port).remove(*id) =~= from_port(
                        before,
                        k.source,
                        k.port,
                    ));
                }
            }
            assert forall|a: ActorRef| #[trigger] self.by_source_actor.at(a) == from_actor(now, a) by {
                assert(from_actor(now, a) =~= from_actor(before, a).remove(*id));
                if a != route.source {
                    assert(from_actor(before, a).remove(*id) =~= from_actor(before, a));
                }
            }
            assert forall|a: ActorRef| #[trigger] self.by_owner.at(a) == owned_by(now, a) by {
                assert(owned_by(now, a) =~= owned_by(before, a).remove(*id));
                if a != route.owner {
                    assert(owned_by(before, a).remove(*id) =~= owned_by(before, a));
                }
            }
            assert forall|a: ActorRef| #[trigger] self.by_target.at(a) == to_actor(now, a) by {
                assert(to_actor(now, a) =~= to_actor(before, a).remove(*id));
                if a != route.target {
                    assert(to_actor(before, a).remove(*id) =~= to_actor(before, a));
                }
            }
        }
        Some(route)
    }

    /// Whether any route leads from a source to a target.
    pub fn source_target_exists(&self, source: ActorRef, target: ActorRef) -> (r: bool)
        requires
            self.wf(),
        ensures
            r == routed(self@, from_actor(self@, source), target),
    {
        let ids = self.source_actor_ids(source);
        self.any_to(&ids, target)
    }

    /// Whether a route leads from a port to the target port's owner.
    pub fn typed_duplicate(&self, source: PortRef, target: PortRef) -> (r: bool)
        requires
            self.wf(),
        ensures
            r == routed(self@, from_port(self@, source.owner, Some(source.index)), target.owner),
    {
        let ids = self.source_ids(source.owner, Some(source.index));
        self.any_to(&ids, target.owner)
    }

    fn any_to(&self, ids: &Vec<u64>, target: ActorRef) -> (r: bool)
        requires
            self.wf(),
            ids@.to_set().subset_of(self@.dom()),
        ensures
            r == routed(self@, ids@.to_set(), target),
    {
        let mut i: usize = 0;
        while i < ids.len()
            invariant
                self.wf(),
                i <= ids.len(),
                ids@.to_set().subset_of(self@.dom()),
                forall|j: int| 0 <= j < i ==> self@[#[trigger] ids@[j]].target != target,
            decreases ids.len() - i,
        {
            let id: u64 = ids[i];
            proof {
                assert(ids@.contains(id));
                assert(ids@.to_set().contains(id));
            }
            match self.get(&id) {
                Some(route) => {
                    if route.target == target {
                        return true;
                    }
                },
                None => {},
            }
            i += 1;
        }
        proof {
            assert forall|id: u64| #[trigger] ids@.to_set().contains(id) implies self@[id].target
                != target by {
                let j = ids@.index_of(id);
                assert(ids@[j] == id);
            }
        }
        false
    }
}

/// Whether one of the routes leads to the target.
pub open spec fn routed(routes: Map<u64, Sub>, ids: Set<u64>, target: ActorRef) -> bool {
    exists|id: u64| #[trigger] ids.contains(id) && routes[id].target == target
}

fn collect_into(ids: &mut OrdSet<u64>, more: &Vec<u64>)
    requires
        old(ids).wf(),
    ensures
        final(ids).wf(),
        final(ids)@ == old(ids)@.union(more@.to_set()),
{
    let mut i: usize = 0;
    let ghost before = ids@;
    assert(before.union(more@.take(0).to_set()) =~= before);
    while i < more.len()
        invariant
            ids.wf(),
            i <= more.len(),
            ids@ == before.union(more@.take(i as int).to_set()),
        decreases more.len() - i,
    {
        let _added = ids.insert(more[i]);
        proof {
            assert(more@.take(i + 1) =~= more@.take(i as int).push(more@[i as int]));
            assert forall|k: u64| #[trigger]
                more@.take(i + 1).to_set().contains(k) <==> more@.take(i as int).to_set().contains(k)
                    || k == more@[i as int] by {
                let longer = more@.take(i + 1);
                let shorter = more@.take(i as int);
                if longer.contains(k) {
                    let j = longer.index_of(k);
                    if j < i {
                        assert(shorter[j] == k);
                    }
                }
                if shorter.contains(k) {
                    let j = shorter.index_of(k);
                    assert(longer[j] == k);
                }
                if k == more@[i as int] {
                    assert(longer[i as int] == k);
                }
            }
            assert(ids@ =~= before.union(more@.take(i + 1).to_set()));
        }
        i += 1;
    }
    assert(more@.take(i as int) =~= more@);
}

/// Removing every route that touches an actor leaves none that names it.
pub proof fn no_route_survives_its_actor(routes: Map<u64, Sub>, actor: ActorRef)
    ensures
        touching(routes.remove_keys(touching(routes, actor)), actor) == Set::<u64>::empty(),
{
    assert(touching(routes.remove_keys(touching(routes, actor)), actor) =~= Set::<u64>::empty());
}

/// A route is listed under its source and port, its source, its owner and its
/// target, and under no other.
pub proof fn a_route_is_listed_under_its_ends(
    routes: Map<u64, Sub>,
    id: u64,
    actor: ActorRef,
    port: Option<u16>,
)
    ensures
        !routes.dom().contains(id) ==> !from_port(routes, actor, port).contains(id)
            && !from_actor(routes, actor).contains(id) && !owned_by(routes, actor).contains(id)
            && !to_actor(routes, actor).contains(id) && !touching(routes, actor).contains(id),
        routes.dom().contains(id) ==> {
            let route = routes[id];
            &&& from_port(routes, actor, port).contains(id) <==> route.source == actor
                && route.source_port == port
            &&& from_actor(routes, actor).contains(id) <==> route.source == actor
            &&& owned_by(routes, actor).contains(id) <==> route.owner == actor
            &&& to_actor(routes, actor).contains(id) <==> route.target == actor
            &&& touching(routes, actor).contains(id) <==> actor == route.source || actor
                == route.owner || actor == route.target
        },
{
}

} // verus!
