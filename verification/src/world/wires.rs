//! Routes, services and publications: who may be connected to whom, what a
//! lease gives, and how a publication comes to its destinations.
use vstd::prelude::*;
use super::laws;
use super::messages;
use super::router::Turn;
use super::{ActorView, World, WorldView};
use crate::clock::Instant;
use crate::components;
use crate::components::{InterfaceView, PortDirection, PortRef, PortSpec, PortView};
use crate::envelope::MessageOptions;
use crate::ordered;
use crate::payload::Payload;
use crate::publications::{PublicationOutcome, PublicationStatus, PublicationView};
use crate::routing;
use crate::services::ServiceLease;
use crate::types::{ActorRef, EndpointKind, Error, Lifecycle, Metrics};

verus! {

/// Whether an actor is there and starts or runs.
pub open spec fn begun(v: WorldView, r: ActorRef) -> bool {
    v.valid(r) && (v.at(r).state == Lifecycle::Starting || v.at(r).state == Lifecycle::Active)
}

/// Whether a route leads from one actor to another, at whichever port.
pub open spec fn leads(v: WorldView, source: ActorRef, target: ActorRef) -> bool {
    exists|id: u64| #[trigger]
        v.subs.dom().contains(id) && v.subs[id].source == source && v.subs[id].target == target
}

/// Whether a route leads from a port to an actor.
pub open spec fn leads_from(v: WorldView, source: PortRef, target: ActorRef) -> bool {
    exists|id: u64| #[trigger]
        v.subs.dom().contains(id) && v.subs[id].source == source.owner && v.subs[id].source_port
            == Some(source.index) && v.subs[id].target == target
}

/// An actor is subscribed to another exactly if both start or run, there is room
/// for a route, and none leads from one to the other yet.
pub proof fn a_subscription_is_made_exactly_if_it_is_new(
    v: WorldView,
    source: ActorRef,
    target: ActorRef,
)
    ensures
        v.refuses_subscription(source, target) is None <==> {
            &&& begun(v, source)
            &&& begun(v, target)
            &&& v.subs.dom().len() < v.cfg.max_subscriptions
            &&& !leads(v, source, target)
            &&& v.next_sub < u64::MAX
        },
        v.refuses_subscription(source, target) matches Some(e) ==> {
            ||| e == Error::DuplicateSubscription && leads(v, source, target)
            ||| e == Error::LimitExceeded && (v.subs.dom().len() >= v.cfg.max_subscriptions
                || v.next_sub == u64::MAX)
            ||| e == Error::ActorStopped && v.valid(source) && v.valid(target) && (!begun(v, source)
                || !begun(v, target))
            ||| e == Error::CrossWorld && (source.world != v.id || target.world != v.id)
            ||| e == Error::StaleReference && (!v.valid(source) || !v.valid(target))
        },
{
    let ids = routing::from_actor(v.subs, source);
    if leads(v, source, target) {
        let id = choose|id: u64| #[trigger]
            v.subs.dom().contains(id) && v.subs[id].source == source && v.subs[id].target == target;
        assert(ids.contains(id));
    }
    if routing::routed(v.subs, ids, target) {
        let id = choose|id: u64| #[trigger] ids.contains(id) && v.subs[id].target == target;
        assert(v.subs.dom().contains(id));
    }
}

/// The declaration of a port that is there.
pub open spec fn declares(v: WorldView, port: PortRef, spec_of: PortSpec) -> bool {
    &&& v.valid(port.owner)
    &&& v.at(port.owner).component matches Some(c)
    &&& (port.index as int) < c.ports@.len()
    &&& c.ports@[port.index as int] == spec_of
}

/// Whether the owners above an actor let it start or run.
pub open spec fn may_run(v: WorldView, r: ActorRef) -> bool {
    v.execution(r) == Ok::<Lifecycle, Error>(Lifecycle::Starting) || v.execution(r) == Ok::<
        Lifecycle,
        Error,
    >(Lifecycle::Active)
}

/// Two ports are linked exactly if an output of an actor that may run meets an
/// input of another for the same payloads, there is room for a route, and none
/// leads from the port to the actor yet.
pub proof fn a_link_joins_an_output_to_an_input(
    v: WorldView,
    owner: ActorRef,
    source: PortRef,
    target: PortRef,
)
    ensures
        v.refuses_link(owner, source, target) is None ==> {
            &&& may_run(v, owner)
            &&& may_run(v, source.owner)
            &&& may_run(v, target.owner)
            &&& v.port_spec(source) matches Ok(from)
            &&& v.port_spec(target) matches Ok(to)
            &&& declares(v, source, from)
            &&& declares(v, target, to)
            &&& from.direction == PortDirection::Output
            &&& to.direction == PortDirection::Input
            &&& from.schema == to.schema
            &&& v.subs.dom().len() < v.cfg.max_subscriptions
            &&& !leads_from(v, source, target.owner)
            &&& v.next_sub < u64::MAX
        },
        v.refuses_link(owner, source, target) matches Some(e) ==> {
            ||| !may_run(v, owner)
            ||| !may_run(v, source.owner)
            ||| !may_run(v, target.owner)
            ||| v.port_spec(source) is Err
            ||| v.port_spec(target) is Err
            ||| e == Error::InvalidPort && (v.port_spec(source)->Ok_0.direction
                != PortDirection::Output || v.port_spec(target)->Ok_0.direction
                != PortDirection::Input)
            ||| e == Error::SchemaMismatch && v.port_spec(source)->Ok_0.schema != v.port_spec(
                target,
            )->Ok_0.schema
            ||| e == Error::LimitExceeded && (v.subs.dom().len() >= v.cfg.max_subscriptions
                || v.next_sub == u64::MAX)
            ||| e == Error::DuplicateSubscription && leads_from(v, source, target.owner)
        },
        v.port_spec(source) matches Ok(from) ==> declares(v, source, from),
        v.port_spec(source) matches Err(e) ==> (v.valid(source.owner) ==> e
            == Error::InvalidPort),
{
    let ids = routing::from_port(v.subs, source.owner, Some(source.index));
    if leads_from(v, source, target.owner) {
        let id = choose|id: u64| #[trigger]
            v.subs.dom().contains(id) && v.subs[id].source == source.owner
                && v.subs[id].source_port == Some(source.index) && v.subs[id].target
                == target.owner;
        assert(ids.contains(id));
    }
    if routing::routed(v.subs, ids, target.owner) {
        let id = choose|id: u64| #[trigger] ids.contains(id) && v.subs[id].target == target.owner;
        assert(v.subs.dom().contains(id));
    }
}

/// A name is registered for an actor exactly if the name is free and the actor
/// runs, has no owner, is native and offers the contract.
pub proof fn a_service_is_what_it_says(
    v: WorldView,
    name: Seq<char>,
    target: ActorRef,
    required: InterfaceView,
)
    ensures
        v.refuses_service(name, target, required) is None <==> {
            &&& 1 <= crate::text::utf8(name).len() <= 128
            &&& forall|s: ActorRef| #[trigger]
                v.services.records.dom().contains(s) ==> s != target && v.services.records[s].name
                    != name
            &&& v.services.records.dom().len() < v.cfg.max_services
            &&& v.valid(target)
            &&& v.at(target).kind == EndpointKind::Native
            &&& v.at(target).parent is None
            &&& v.at(target).state == Lifecycle::Active
            &&& v.at(target).component matches Some(c)
            &&& super::leasing::contract_matches(*c, required)
        },
        v.refuses_service(name, target, required) is None ==> {
            let n = v.with_service(name, target, required);
            &&& n.services.records == v.services.records.insert(
                target,
                crate::services::RecordView { name, contract: required },
            )
            &&& n.services.leases == v.services.leases
            &&& n.actors == v.actors
        },
{
    if v.services.taken(name) {
        let s = choose|s: ActorRef| v.services.named(name, s);
        assert(v.services.records.dom().contains(s));
    } else {
        assert forall|s: ActorRef| #[trigger]
            v.services.records.dom().contains(s) implies v.services.records[s].name != name by {
            assert(!v.services.named(name, s));
        }
    }
}

/// A lease that is given stands for a new actor below its holder, on the service
/// of that name.
pub proof fn a_lease_is_on_the_service_of_its_name(
    world: World,
    owner: ActorRef,
    name: Seq<char>,
    required: InterfaceView,
    expected: Option<ActorRef>,
)
    requires
        world.inv(),
        world@.refuses_lease(owner, name, required, expected) is None,
    ensures
        ({
            let v = world@;
            let lease = v.next_lease(owner, name);
            let n = v.with_lease(lease);
            &&& !v.closed
            &&& may_run(v, owner)
            &&& lease.owner == owner
            &&& lease.scope == v.next_ref()
            &&& v.services.records.dom().contains(lease.service)
            &&& v.services.records[lease.service].name == name
            &&& v.valid(lease.service)
            &&& v.at(lease.service).state == Lifecycle::Active
            &&& expected matches Some(s) ==> lease.service == s
            &&& v.services.leases.dom().len() < v.cfg.max_service_leases
            &&& n.valid(lease.scope)
            &&& n.at(lease.scope).parent == Some(owner)
            &&& n.at(lease.scope).state == Lifecycle::Active
            &&& n.at(lease.scope).kind == EndpointKind::Native
            &&& n.services.leases == v.services.leases.insert(lease.scope, lease)
            &&& n.services.records == v.services.records
            &&& n.at(owner).children == v.at(owner).children.push(lease.scope)
        }),
{
    let v = world@;
    laws::lemma_execution_errors(world, owner);
    let lease = v.next_lease(owner, name);
    let s = choose|s: ActorRef| v.services.named(name, s);
    assert(v.services.named(name, lease.service));
    super::deeds::a_new_actor_starts_with_nothing(world, EndpointKind::Native, Some(owner));
}

/// What a publication is refused for.
pub open spec fn may_publish(
    v: WorldView,
    now: Instant,
    source: ActorRef,
    p: Payload,
    completion: Option<ActorRef>,
    port: Option<u16>,
    options: MessageOptions,
) -> bool {
    &&& options.source is None || options.source == Some(source)
    &&& options.correlation_id != Some(0u64)
    &&& options.causation_id != Some(0u64)
    &&& options.deadline matches Some(d) ==> now.nanos < d.nanos
    &&& p matches Payload::Structured(record) ==> record.world_id() == v.id
    &&& port matches Some(index) ==> {
        &&& v.port_spec(PortRef { owner: source, index }) matches Ok(declared)
        &&& declared.direction == PortDirection::Output
        &&& messages::fits_port(declared, p)
    }
    &&& v.execution(source) == Ok::<Lifecycle, Error>(Lifecycle::Active) || (v.execution(source)
        == Ok::<Lifecycle, Error>(Lifecycle::Starting) && completion is None && port is Some) || (
    v.execution(source) == Ok::<Lifecycle, Error>(Lifecycle::Quiescing) && completion is Some)
    &&& completion matches Some(owner) ==> {
        &&& v.execution(owner) == Ok::<Lifecycle, Error>(Lifecycle::Active) || v.execution(owner)
            == Ok::<Lifecycle, Error>(Lifecycle::Quiescing)
        &&& v.below(source, owner, Error::CrossWorld) is None
    }
}

/// Why a publication is refused is what is wrong with it.
pub proof fn a_publication_is_refused_for_a_reason(
    v: WorldView,
    now: Instant,
    source: ActorRef,
    p: Payload,
    completion: Option<ActorRef>,
    port: Option<u16>,
    options: MessageOptions,
)
    ensures
        v.refuses_publication(now, source, p, completion, port, options) is None <==> may_publish(
            v,
            now,
            source,
            p,
            completion,
            port,
            options,
        ),
        completion is None && v.execution(source) is Ok ==> (v.refuses_publication(
            now,
            source,
            p,
            completion,
            port,
            options,
        ) matches Some(e) ==> {
            &&& e == Error::DeadlineExpired ==> (options.deadline matches Some(d) && d.nanos
                <= now.nanos)
            &&& e == Error::InvalidMetadata ==> options.correlation_id == Some(0u64)
                || options.causation_id == Some(0u64) || (options.source is Some && options.source
                != Some(source))
            &&& e == Error::SchemaMismatch ==> (port matches Some(index) && (v.port_spec(
                PortRef { owner: source, index },
            ) matches Ok(declared) && (declared.direction != PortDirection::Output
                || !messages::fits_port(declared, p))))
            &&& e == Error::ActorStopped ==> (v.execution(source) matches Ok(state) && state
                != Lifecycle::Starting && state != Lifecycle::Active && state
                != Lifecycle::Quiescing)
            &&& e == Error::ActorNotReady ==> v.execution(source) != Ok::<Lifecycle, Error>(
                Lifecycle::Active,
            )
            &&& e == Error::CrossWorld ==> (p matches Payload::Structured(record)
                && record.world_id() != v.id)
        }),
{
}

/// A publication that is taken in waits, with what was published, under a new
/// number: for its source to run, or to be routed.
pub proof fn a_publication_waits_under_its_number(
    v: WorldView,
    now: Instant,
    source: ActorRef,
    p: Payload,
    charge: usize,
    completion: Option<ActorRef>,
    port: Option<u16>,
    options: MessageOptions,
)
    requires
        v.publishing(now, source, p, charge, completion, port, options).1 is Ok,
        v.pubs.consistent(),
    ensures
        ({
            let (n, result) = v.publishing(now, source, p, charge, completion, port, options);
            let id = result->Ok_0.0;
            let made = n.pubs.entries[id];
            let starts = v.execution(source) == Ok::<Lifecycle, Error>(Lifecycle::Starting);
            &&& may_publish(v, now, source, p, completion, port, options)
            &&& result->Ok_0.1 == source
            &&& id == v.pubs.next_id
            &&& !v.pubs.entries.dom().contains(id)
            &&& n.pubs.next_id == id + 1
            &&& n.pubs.entries == v.pubs.entries.insert(id, made)
            &&& made.source == source
            &&& made.source_port == port
            &&& made.stored.payload == p
            &&& made.stored.options == (MessageOptions { source: Some(source), ..options })
            &&& made.stored.bytes == charge + options.charge()
            &&& port matches Some(index) ==> made.stored.dispatcher == Some(
                PortRef { owner: source, index },
            )
            &&& port is None ==> made.stored.dispatcher is None
            &&& made.staged == starts
            &&& made.completion == (completion is Some)
            &&& made.routes is None
            &&& made.cursor == 0
            &&& made.report.admitted == 0
            &&& made.report.rejected == 0
            &&& made.report.matched == 0
            &&& n.pubs.tickets.dom().contains(id)
            &&& n.pubs.tickets[id].source == source
            &&& n.pubs.tickets[id].handles == 1
            &&& n.pubs.tickets[id].status == (if starts {
                PublicationStatus::Staged
            } else {
                PublicationStatus::Queued
            })
            &&& starts ==> n.at(source).staged.len() == v.at(source).staged.len() + 1 && n.at(
                source,
            ).staged.last().publication == id && n.at(source).staged.drop_last() == v.at(
                source,
            ).staged
            &&& !starts ==> n.actors == v.actors && n.routing_dirty
            &&& n.metrics == (Metrics {
                publication_submitted: n.metrics.publication_submitted,
                publication_admitted: n.metrics.publication_admitted,
                submitted: n.metrics.submitted,
                ..v.metrics
            })
            &&& v.metrics.publication_submitted < u64::MAX ==> n.metrics.publication_submitted
                == v.metrics.publication_submitted + 1
            &&& v.metrics.publication_admitted < u64::MAX ==> n.metrics.publication_admitted
                == v.metrics.publication_admitted + 1
            &&& v.metrics.submitted < u64::MAX ==> n.metrics.submitted == v.metrics.submitted + 1
        }),
{
    let u = v.publication_submitted();
    laws::lemma_execution_alike(v, u, source, false, false);
    match completion {
        Some(owner) => {
            laws::lemma_execution_alike(v, u, owner, false, false);
            lemma_below_alike(v, u, source, owner, Error::CrossWorld);
        },
        None => {},
    }
    a_publication_is_refused_for_a_reason(u, now, source, p, completion, port, options);
    let n = v.publishing(now, source, p, charge, completion, port, options).0;
    assert(n.at(source).staged.len() > 0 ==> n.at(source).staged.drop_last().push(
        n.at(source).staged.last(),
    ) =~= n.at(source).staged);
    if v.execution(source) == Ok::<Lifecycle, Error>(Lifecycle::Starting) {
        assert(n.at(source).staged.drop_last() =~= v.at(source).staged);
    }
}

proof fn lemma_below_alike(
    v: WorldView,
    n: WorldView,
    current: ActorRef,
    owner: ActorRef,
    unowned: Error,
)
    requires
        n.id == v.id,
        n.actors == v.actors,
    ensures
        n.below(current, owner, unowned) == v.below(current, owner, unowned),
    decreases v.order(current),
{
    if current != owner && v.valid(current) {
        match v.at(current).parent {
            Some(p) => {
                if v.order(p) < v.order(current) {
                    lemma_below_alike(v, n, p, owner, unowned);
                }
            },
            None => {},
        }
    }
}

/// A turn begins with the routes that the port of the source has now, in the
/// order of their numbers, unless the source no longer runs, the time is up, or
/// there are too many.
pub proof fn a_turn_captures_the_routes_of_its_port(
    v: WorldView,
    now: Instant,
    p: PublicationView,
)
    requires
        v.subs.dom().finite(),
    ensures
        ({
            let turn = v.turn_begun(now, p);
            let runs = v.execution(p.source) == Ok::<Lifecycle, Error>(Lifecycle::Active)
                || v.execution(p.source) == Ok::<Lifecycle, Error>(Lifecycle::Quiescing);
            let late = p.stored.options.deadline matches Some(d) && d.nanos <= now.nanos;
            &&& turn.cursor == p.cursor
            &&& turn.destinations == 0
            &&& !runs ==> turn.outcome == Some(PublicationOutcome::Cancelled)
            &&& runs && late ==> turn.outcome == Some(PublicationOutcome::Expired)
            &&& runs && !late && p.routes is Some ==> turn.outcome is None && turn.routes
                == p.routes && turn.report == p.report
            &&& turn.outcome == Some(PublicationOutcome::Cancelled) ==> !runs
            &&& turn.outcome == Some(PublicationOutcome::Expired) ==> late
            &&& turn.outcome == Some(PublicationOutcome::FanoutLimit) ==> routing::from_port(
                v.subs,
                p.source,
                p.source_port,
            ).len() > v.cfg.max_publication_fanout
            &&& turn.outcome != Some(PublicationOutcome::Routed)
            &&& runs && !late && p.routes is None && turn.outcome is None ==> {
                &&& turn.routes matches Some(routes)
                &&& turn.report.matched == routes.len()
                &&& routes.len() <= v.cfg.max_publication_fanout
                &&& forall|k: int|
                    0 <= k < routes.len() ==> {
                        let (id, target) = #[trigger] routes[k];
                        &&& v.subs.dom().contains(id)
                        &&& v.subs[id].source == p.source
                        &&& v.subs[id].source_port == p.source_port
                        &&& v.subs[id].target == target
                    }
                &&& forall|id: u64| #[trigger]
                    v.subs.dom().contains(id) && v.subs[id].source == p.source
                        && v.subs[id].source_port == p.source_port ==> routes.contains(
                        (id, v.subs[id].target),
                    )
                &&& forall|j: int, k: int|
                    0 <= j < k < routes.len() ==> (#[trigger] routes[j]).0 < (#[trigger] routes[k]).0
            }
        }),
{
    let ids = routing::from_port(v.subs, p.source, p.source_port);
    assert(ids.subset_of(v.subs.dom()));
    vstd::set_lib::lemma_len_subset(ids, v.subs.dom());
    ordered::lemma_sorted_exists(ids);
    let order = ordered::sorted(ids);
    let routes = super::router::snapshot(v.subs, order);
    assert forall|k: int| 0 <= k < routes.len() implies {
        let (id, target) = #[trigger] routes[k];
        &&& v.subs.dom().contains(id)
        &&& v.subs[id].source == p.source
        &&& v.subs[id].source_port == p.source_port
        &&& v.subs[id].target == target
    } by {
        assert(order.to_set().contains(order[k]));
        assert(ids.contains(order[k]));
    }
    assert forall|id: u64| #[trigger]
        v.subs.dom().contains(id) && v.subs[id].source == p.source && v.subs[id].source_port
            == p.source_port implies routes.contains((id, v.subs[id].target)) by {
        assert(ids.contains(id));
        assert(order.to_set().contains(id));
        let k = order.index_of(id);
        assert(routes[k] == (id, v.subs[id].target));
    }
}

/// One destination of a turn is told of the publication, or it counts as
/// rejected; either way the next one comes after it.
pub proof fn each_destination_counts_once(
    v: WorldView,
    now: Instant,
    id: u64,
    p: PublicationView,
    turn: Turn,
)
    requires
        v.turn_goes_on(turn),
        turn.report.admitted < usize::MAX,
        turn.report.rejected < usize::MAX,
        turn.destinations < usize::MAX,
        turn.cursor < usize::MAX,
    ensures
        ({
            let (n, next) = v.turn_step(now, id, p, turn);
            let (route, target) = turn.routes->0[turn.cursor as int];
            let late = p.stored.options.deadline matches Some(d) && d.nanos <= now.nanos;
            &&& next.routes == turn.routes
            &&& late ==> n == v && next.outcome == Some(PublicationOutcome::Expired) && next.cursor
                == turn.cursor
            &&& !late ==> {
                &&& next.outcome == turn.outcome
                &&& next.cursor == turn.cursor + 1
                &&& next.destinations == turn.destinations + 1
                &&& next.report.matched == turn.report.matched
                &&& next.report.admitted + next.report.rejected == turn.report.admitted
                    + turn.report.rejected + 1
                &&& next.report.admitted == turn.report.admitted + 1 ==> {
                    &&& n.at(target).queue.len() == v.at(target).queue.len() + 1
                    &&& n.at(target).queue.last().subscription == Some(route)
                    &&& *n.at(target).queue.last().payload == p.stored
                    &&& n.at(target).queue.last().envelope.deadline == p.stored.options.deadline
                    &&& n.at(target).queue.last().envelope.source == p.stored.options.source
                    &&& n.metrics.rejected == v.metrics.rejected
                    &&& v.subs.dom().contains(route)
                }
                &&& next.report.rejected == turn.report.rejected + 1 ==> {
                    &&& n.actors == v.actors
                    &&& v.metrics.rejected < u64::MAX ==> n.metrics.rejected == v.metrics.rejected
                        + 1
                }
            }
        }),
{
    let (route, target) = turn.routes->0[turn.cursor as int];
    let stored = std::sync::Arc::new(p.stored);
    let (n, result) = v.relaying(now, id, route, target, stored, p.completion);
    if result is Ok {
        messages::what_is_admitted_arrives(
            v.sharing(stored.id),
            now,
            target,
            stored,
            Some(route),
            true,
            None,
        );
    }
}

/// A destination gets a publication only by a route that is there, whose owner
/// runs, and not where it began to drain before the publication was made.
pub proof fn a_destination_is_reached_by_a_route_that_is_there(
    v: WorldView,
    id: u64,
    route: u64,
    target: ActorRef,
    completion: bool,
)
    requires
        v.refuses_destination(id, route, target, completion) is None,
    ensures
        v.subs.dom().contains(route),
        v.execution(v.subs[route].owner) == Ok::<Lifecycle, Error>(Lifecycle::Active)
            || v.execution(v.subs[route].owner) == Ok::<Lifecycle, Error>(Lifecycle::Quiescing),
        v.execution(target) is Ok,
        v.execution(target) == Ok::<Lifecycle, Error>(Lifecycle::Quiescing) && !completion ==> (
        v.at(target).publication_cutoff matches Some(cutoff) && id <= cutoff),
{
}

/// A publication ends as routed exactly if no other end came first and every
/// destination was tried.
pub proof fn a_publication_is_routed_once_all_were_tried(turn: Turn)
    ensures
        turn.outcome is Some ==> super::router::turn_outcome(turn) == turn.outcome,
        turn.outcome is None ==> (super::router::turn_outcome(turn) == Some(
            PublicationOutcome::Routed,
        ) <==> (turn.routes matches Some(routes) && turn.cursor == routes.len())),
        turn.outcome is None && !(turn.routes matches Some(routes) && turn.cursor == routes.len())
            ==> super::router::turn_outcome(turn) is None,
{
}

/// A publication that ends counts once, under what it ended as.
pub proof fn each_end_has_its_counter(m: Metrics, outcome: PublicationOutcome)
    ensures
        ({
            let n = super::publishing::outcome_counted(m, outcome);
            &&& outcome == PublicationOutcome::Routed ==> n == (Metrics {
                publication_completed: n.publication_completed,
                ..m
            }) && (m.publication_completed < u64::MAX ==> n.publication_completed
                == m.publication_completed + 1)
            &&& outcome == PublicationOutcome::Expired ==> n == (Metrics {
                publication_expired: n.publication_expired,
                ..m
            }) && (m.publication_expired < u64::MAX ==> n.publication_expired
                == m.publication_expired + 1)
            &&& outcome == PublicationOutcome::Cancelled ==> n == (Metrics {
                publication_cancelled: n.publication_cancelled,
                ..m
            }) && (m.publication_cancelled < u64::MAX ==> n.publication_cancelled
                == m.publication_cancelled + 1)
            &&& outcome == PublicationOutcome::FanoutLimit || outcome
                == PublicationOutcome::SnapshotFull ==> n == (Metrics {
                publication_failed: n.publication_failed,
                ..m
            }) && (m.publication_failed < u64::MAX ==> n.publication_failed
                == m.publication_failed + 1)
        }),
{
}

/// A publication that ends leaves its table: its ticket says how it ended as
/// long as somebody holds it.
pub proof fn a_publication_that_ends_is_told_of(
    v: WorldView,
    id: u64,
    p: PublicationView,
    outcome: PublicationOutcome,
)
    requires
        p.counted(),
    ensures
        ({
            let n = v.publication_ended(id, p, outcome);
            &&& !n.pubs.entries.dom().contains(id)
            &&& n.pubs.entries == v.pubs.entries.remove(id)
            &&& v.pubs.tickets[id].handles > 0 ==> {
                &&& n.pubs.tickets.dom().contains(id)
                &&& n.pubs.tickets[id].status matches PublicationStatus::Terminal(report)
                &&& report.outcome == outcome
                &&& report.admitted == p.report.admitted
                &&& report.matched == p.report.matched
                &&& report.admitted + report.rejected == report.matched
            }
            &&& v.pubs.tickets[id].handles == 0 ==> !n.pubs.tickets.dom().contains(id)
            &&& n.actors == v.actors
        }),
{
    assert(p.untried() >= 0);
}

/// Whether two interfaces promise the same under the same name, in whichever
/// order their ports are listed.
pub open spec fn promise_the_same(a: InterfaceView, b: InterfaceView) -> bool {
    &&& a.name == b.name
    &&& a.version == b.version
    &&& a.ports.len() == b.ports.len()
    &&& forall|i: int| 0 <= i < b.ports.len() ==> a.ports.contains(#[trigger] b.ports[i])
}

/// Whether no two ports of an interface have the same name.
pub open spec fn names_differ(a: InterfaceView) -> bool {
    forall|i: int, j: int|
        0 <= i < a.ports.len() && 0 <= j < a.ports.len() && (#[trigger] a.ports[i]).name == (
        #[trigger] a.ports[j]).name ==> i == j
}

/// A lease is given exactly if its holder starts or runs, somebody is registered
/// under the name with the same contract and runs, and there is room.
pub proof fn a_lease_is_given_exactly_if_it_may_be(
    v: WorldView,
    owner: ActorRef,
    name: Seq<char>,
    required: InterfaceView,
    expected: Option<ActorRef>,
)
    ensures
        v.refuses_lease(owner, name, required, expected) is None <==> {
            let service = v.services.find(name);
            let promised = v.services.records[service].contract;
            &&& !v.closed
            &&& 1 <= crate::text::utf8(name).len() <= 128
            &&& v.execution(owner) == Ok::<Lifecycle, Error>(Lifecycle::Starting) || v.execution(
                owner,
            ) == Ok::<Lifecycle, Error>(Lifecycle::Active)
            &&& v.services.taken(name)
            &&& expected is None || expected == Some(service)
            &&& promise_the_same(promised, required)
            &&& names_differ(promised)
            &&& names_differ(required)
            &&& v.valid(service)
            &&& v.at(service).state == Lifecycle::Active
            &&& v.services.leases.dom().len() < v.cfg.max_service_leases
            &&& v.services.held_by(owner).len() < v.cfg.max_leases_per_actor
            &&& v.refuses_actor(Some(owner)) is None
        },
{
    let promised = v.services.records[v.services.find(name)].contract;
    lemma_names_differ(promised);
    lemma_names_differ(required);
}

proof fn lemma_names_differ(a: InterfaceView)
    ensures
        components::names_distinct(a.ports) <==> names_differ(a),
{
    if names_differ(a) {
        assert forall|i: int, j: int| 0 <= i < j < a.ports.len() implies (
        #[trigger] a.ports[i]).name != (#[trigger] a.ports[j]).name by {}
    }
}

/// A component keeps a contract if the contract is sound and one of its
/// interfaces promises the same.
pub proof fn a_contract_is_kept_by_an_interface(
    d: components::ComponentDescriptor,
    required: InterfaceView,
)
    ensures
        super::leasing::contract_matches(d, required) <==> {
            &&& 1 <= crate::text::utf8(required.name).len() <= 128
            &&& required.version > 0
            &&& required.ports.len() <= 64
            &&& names_differ(required)
            &&& exists|i: int|
                0 <= i < d.interfaces@.len() && promise_the_same(
                    (#[trigger] d.interfaces@[i])@,
                    required,
                )
        },
{
    lemma_names_differ(required);
    if exists|i: int|
        0 <= i < d.interfaces@.len() && promise_the_same((#[trigger] d.interfaces@[i])@, required) {
        let i = choose|i: int|
            0 <= i < d.interfaces@.len() && promise_the_same(
                (#[trigger] d.interfaces@[i])@,
                required,
            );
        assert(components::interface_satisfies(d.interfaces@[i]@, required));
    }
    if components::offers(d.interfaces@, required) {
        let i = choose|i: int|
            0 <= i < d.interfaces@.len() && components::interface_satisfies(
                (#[trigger] d.interfaces@[i])@,
                required,
            );
        assert(promise_the_same(d.interfaces@[i]@, required));
    }
}

/// A component is registered exactly if its actor starts in an open World and has
/// none yet, its name and version are good, and its ports and interfaces are.
pub proof fn a_component_is_registered_exactly_if_it_may_be(
    v: WorldView,
    owner: ActorRef,
    d: components::ComponentDescriptor,
)
    ensures
        v.refuses_component(owner, d) is None <==> {
            let ports = components::port_views(d.ports@);
            let list = super::interfaces_view(d.interfaces@);
            &&& v.valid(owner)
            &&& !v.closed
            &&& v.at(owner).state == Lifecycle::Starting
            &&& v.at(owner).component is None
            &&& v.execution(owner) == Ok::<Lifecycle, Error>(Lifecycle::Starting) || v.execution(
                owner,
            ) == Ok::<Lifecycle, Error>(Lifecycle::Active)
            &&& 1 <= crate::text::utf8(d.name@).len() <= 128
            &&& d.version > 0
            &&& d.interfaces@.len() <= 16
            &&& super::links::ports_fault(ports, v.schemas) is None
            &&& forall|i: int|
                0 <= i < list.len() ==> #[trigger] v.interface_fault(ports, list, i) is None
            &&& v.interfaces.len() + super::links::unknown(v.interfaces, list).len() <= 1024
        },
        v.refuses_component(owner, d) is None ==> {
            let n = v.with_component(owner, d);
            &&& n.at(owner).component matches Some(kept) && *kept == d
            &&& n.at(owner) == (ActorView { component: n.at(owner).component, ..v.at(owner) })
            &&& v.interfaces.is_prefix_of(n.interfaces)
        },
{
    let ports = components::port_views(d.ports@);
    let list = super::interfaces_view(d.interfaces@);
    lemma_interface_faults(v, ports, list, list.len());
}

proof fn lemma_interface_faults(
    v: WorldView,
    ports: Seq<PortView>,
    list: Seq<InterfaceView>,
    n: nat,
)
    ensures
        v.first_interface_fault(ports, list, n) is None <==> forall|i: int|
            0 <= i < n ==> #[trigger] v.interface_fault(ports, list, i) is None,
    decreases n,
{
    if n > 0 {
        lemma_interface_faults(v, ports, list, (n - 1) as nat);
    }
}

/// An interface is declared well if its name and version are good, its ports are
/// ports of the component, and its name and version stand for nothing else, here
/// or in the World.
pub proof fn an_interface_is_declared_well(
    v: WorldView,
    ports: Seq<PortView>,
    list: Seq<InterfaceView>,
    i: int,
)
    requires
        0 <= i < list.len(),
        v.interface_fault(ports, list, i) is None,
    ensures
        1 <= crate::text::utf8(list[i].name).len() <= 128,
        list[i].version > 0,
        super::links::ports_fault(list[i].ports, v.schemas) is None,
        forall|k: int| 0 <= k < list[i].ports.len() ==> ports.contains(#[trigger] list[i].ports[k]),
        forall|k: int|
            0 <= k < i ==> (#[trigger] list[k]).name != list[i].name || list[k].version
                != list[i].version,
        forall|k: int|
            0 <= k < v.interfaces.len() && (#[trigger] v.interfaces[k]).name == list[i].name
                && v.interfaces[k].version == list[i].version ==> promise_the_same(
                v.interfaces[k],
                list[i],
            ),
{
    let interface = list[i];
    assert forall|k: int| 0 <= k < i implies (#[trigger] list[k]).name != interface.name
        || list[k].version != interface.version by {
        let before = list.take(i);
        assert(before[k] == list[k]);
        if list[k].name == interface.name && list[k].version == interface.version {
            assert(super::links::same_identity(before[k], interface));
        }
    }
    assert forall|k: int|
        0 <= k < v.interfaces.len() && (#[trigger] v.interfaces[k]).name == interface.name
            && v.interfaces[k].version == interface.version implies promise_the_same(
        v.interfaces[k],
        interface,
    ) by {
        assert(super::links::same_identity(v.interfaces[k], interface));
    }
}

} // verus!
