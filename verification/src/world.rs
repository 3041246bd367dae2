//! A World: actors with mailboxes, routes between them, and the work in flight.
use vstd::prelude::*;
use vstd::multiset::Multiset;
use std::sync::Arc;
use crate::activity::{ActivityRegistry, ActivityView};
use crate::buffers::{BudgetView, NativeBufferBudget};
use crate::clock;
use crate::clock::{Clock, Duration, Instant};
use crate::components::{ComponentDescriptor, InterfaceSpec, InterfaceView};
use crate::diagnostics;
use crate::diagnostics::{DiagnosticCode, History, HistoryView};
use crate::expiry;
use crate::expiry::{ActorDeadlines, DeadlineIndex};
use crate::failures::FailureRecord;
use crate::held;
use crate::held::{Delivery, HeldPayload, Staged};
use crate::operations::{OperationId, OperationTable, OpsView};
use crate::ordered;
use crate::ordered::OrdMap;
use crate::publications::{PublicationTable, PublicationView, PubsView};
use crate::readiness::{PythonReadyIndex, ReadyView};
use crate::routing;
use crate::routing::{RouteTable, Sub};
use crate::schema::{RegistryView, SchemaRegistry};
use crate::services;
use crate::services::{Registry, ServicesView};
use crate::sums;
use crate::types;
use crate::types::{ActorRef, Config, EndpointKind, Error, Lifecycle, Metrics};

pub mod access;
pub mod actors;
pub mod callbacks;
pub mod claims;
pub mod closing;
pub mod completions;
pub mod deeds;
pub mod endings;
pub mod expiring;
pub mod fence;
pub mod figures;
pub mod laws;
pub mod leasing;
pub mod lifecycle;
pub mod links;
pub mod living;
pub mod losses;
pub mod mailbox;
pub mod messages;
pub mod publishing;
pub mod refusals;
pub mod replies;
pub mod reports;
pub mod requests;
pub mod router;
pub mod supervision;
pub mod tidy;
pub mod keeping;
pub mod joining;
pub mod agreement;
pub mod bystanders;
pub mod sightings;
pub mod telling;
pub mod turning;
pub mod upkeep;
pub mod wires;

verus! {

/// A failure that waits for the actor's supervisor.
#[derive(Debug)]
pub struct Notification {
    pub failure: Arc<FailureRecord>,
    pub coalesced: u64,
}

struct Actor {
    reference: ActorRef,
    ready_order: u64,
    kind: EndpointKind,
    state: Lifecycle,
    parent: Option<ActorRef>,
    children: Vec<ActorRef>,
    queue: Vec<Delivery>,
    queue_bytes: usize,
    staged: Vec<Staged>,
    staged_bytes: usize,
    deadlines: ActorDeadlines,
    in_flight: bool,
    control_in_flight: bool,
    notification: Option<Notification>,
    pending_failures: usize,
    reported_failure: Option<u64>,
    native_tasks: usize,
    python_done: bool,
    drain_root: Option<ActorRef>,
    drain_deadline: Option<Instant>,
    publication_cutoff: Option<u64>,
    drain_timed_out: bool,
    errors: u64,
    last_error: Option<Arc<FailureRecord>>,
    component: Option<Arc<ComponentDescriptor>>,
}

/// The contents of an actor slot.
#[verifier::ext_equal]
pub struct ActorView {
    pub reference: ActorRef,
    pub ready_order: u64,
    pub kind: EndpointKind,
    pub state: Lifecycle,
    pub parent: Option<ActorRef>,
    pub children: Seq<ActorRef>,
    pub queue: Seq<Delivery>,
    pub staged: Seq<Staged>,
    pub in_flight: bool,
    pub control_in_flight: bool,
    pub notification: Option<Notification>,
    pub pending_failures: usize,
    pub reported_failure: Option<u64>,
    pub native_tasks: usize,
    pub python_done: bool,
    pub drain_root: Option<ActorRef>,
    pub drain_deadline: Option<Instant>,
    pub publication_cutoff: Option<u64>,
    pub drain_timed_out: bool,
    pub errors: u64,
    pub last_error: Option<Arc<FailureRecord>>,
    pub component: Option<Arc<ComponentDescriptor>>,
}

impl View for Actor {
    type V = ActorView;

    closed spec fn view(&self) -> ActorView {
        ActorView {
            reference: self.reference,
            ready_order: self.ready_order,
            kind: self.kind,
            state: self.state,
            parent: self.parent,
            children: self.children@,
            queue: self.queue@,
            staged: self.staged@,
            in_flight: self.in_flight,
            control_in_flight: self.control_in_flight,
            notification: self.notification,
            pending_failures: self.pending_failures,
            reported_failure: self.reported_failure,
            native_tasks: self.native_tasks,
            python_done: self.python_done,
            drain_root: self.drain_root,
            drain_deadline: self.drain_deadline,
            publication_cutoff: self.publication_cutoff,
            drain_timed_out: self.drain_timed_out,
            errors: self.errors,
            last_error: self.last_error,
            component: self.component,
        }
    }
}

impl Actor {
    /// The counters agree with the entries that they count.
    spec fn wf(self) -> bool {
        &&& self.deadlines.wf()
        &&& self.queue_bytes == held::bytes_of(held::queue_costs(self.queue@))
        &&& self.staged_bytes == held::bytes_of(held::staged_costs(self.staged@))
        &&& self.deadlines@ == self@.deadlines()
    }
}

impl ActorView {
    /// The deadlines of queued and staged entries.
    pub open spec fn deadlines(self) -> Multiset<Instant> {
        expiry::deadline_bag(held::queue_deadlines(self.queue)).add(
            expiry::deadline_bag(held::staged_deadlines(self.staged)),
        )
    }

    /// When the first entry comes due.
    pub open spec fn first_deadline(self) -> Option<Instant> {
        expiry::least(self.deadlines())
    }

    pub open spec fn queue_bytes(self) -> nat {
        held::bytes_of(held::queue_costs(self.queue))
    }

    pub open spec fn staged_bytes(self) -> nat {
        held::bytes_of(held::staged_costs(self.staged))
    }

    /// Whether what an actor holds keeps to the limits of a mailbox.
    pub open spec fn fits(self, cfg: Config) -> bool {
        &&& self.queue.len() <= cfg.mailbox_capacity
        &&& self.queue_bytes() <= cfg.mailbox_bytes
        &&& self.staged.len() <= cfg.mailbox_capacity
        &&& self.staged_bytes() <= cfg.mailbox_bytes
    }

    /// Whether two states of a slot belong to the same living actor.
    pub open spec fn same_place(self, other: ActorView) -> bool {
        &&& self.reference == other.reference
        &&& self.ready_order == other.ready_order
        &&& self.kind == other.kind
        &&& self.parent == other.parent
        &&& forall|k: int|
            0 <= k < self.children.len() ==> other.children.contains(#[trigger] self.children[k])
        &&& self.state == Lifecycle::Stopped <==> other.state == Lifecycle::Stopped
    }

    pub open spec fn same_entries(self, other: ActorView) -> bool {
        self.queue == other.queue && self.staged == other.staged
    }
}

/// The contents of a World.
#[verifier::ext_equal]
pub struct WorldView {
    pub id: u64,
    pub cfg: Config,
    pub clock: Clock,
    pub epoch: Instant,
    pub next_event: u64,
    pub next_sub: u64,
    pub actors: Seq<ActorView>,
    pub next_ready_order: u64,
    pub python_ready: ReadyView,
    pub drain_roots: Map<u32, ActorRef>,
    pub free: Seq<u32>,
    pub subs: Map<u64, Sub>,
    pub metrics: Metrics,
    pub closed: bool,
    pub ops: OpsView,
    pub pubs: PubsView,
    pub history: HistoryView,
    pub next_failure: u64,
    pub last_error: Option<Arc<FailureRecord>>,
    pub schemas: RegistryView,
    pub interfaces: Seq<InterfaceView>,
    pub services: ServicesView,
    pub activity: ActivityView,
    pub budget: BudgetView,
    pub routing_dirty: bool,
    pub routing_closed: bool,
    pub routing_observer: Option<u64>,
}

/// Whether an actor in this state drains or has drained.
pub open spec fn is_draining(state: Lifecycle) -> bool {
    state == Lifecycle::Quiescing || state == Lifecycle::Stopping || state == Lifecycle::Stopped
}

pub open spec fn is_running(state: Lifecycle) -> bool {
    state == Lifecycle::Active || state == Lifecycle::Quiescing
}

pub open spec fn is_open(state: Lifecycle) -> bool {
    state == Lifecycle::Starting || state == Lifecycle::Active
}

pub open spec fn is_ended(state: Lifecycle) -> bool {
    state == Lifecycle::Stopping || state == Lifecycle::Stopped
}

impl WorldView {
    /// Whether a reference names the actor that is in its slot.
    pub open spec fn valid(self, r: ActorRef) -> bool {
        &&& r.world == self.id
        &&& (r.slot as int) < self.actors.len()
        &&& self.actors[r.slot as int].reference.generation == r.generation
    }

    /// Why a reference is refused.
    pub open spec fn stale(self, r: ActorRef) -> Error {
        if r.world != self.id {
            Error::CrossWorld
        } else {
            Error::StaleReference
        }
    }

    pub open spec fn at(self, r: ActorRef) -> ActorView {
        self.actors[r.slot as int]
    }

    pub open spec fn order(self, r: ActorRef) -> nat {
        if self.valid(r) {
            self.at(r).ready_order as nat
        } else {
            0
        }
    }

    pub open spec fn put(self, r: ActorRef, actor: ActorView) -> WorldView {
        WorldView { actors: self.actors.update(r.slot as int, actor), ..self }
    }

    /// How many actors have not stopped.
    pub open spec fn live(self) -> int {
        self.actors.len() - self.free.len()
    }

    /// The actor and its owners, up to the root.
    pub open spec fn lineage(self, r: ActorRef) -> Seq<ActorRef>
        decreases self.order(r),
    {
        if !self.valid(r) {
            Seq::empty()
        } else {
            seq![r] + (match self.at(r).parent {
                Some(p) => if self.order(p) < self.order(r) {
                    self.lineage(p)
                } else {
                    Seq::empty()
                },
                None => Seq::empty(),
            })
        }
    }

    /// The state in which an actor can run, given its owners: it stops with
    /// any of them, drains with any of them, and waits for all of them to start.
    pub open spec fn execution_from(self, r: ActorRef, starting: bool, quiescing: bool) -> Result<
        Lifecycle,
        Error,
    >
        decreases self.order(r),
    {
        if !self.valid(r) {
            Err(self.stale(r))
        } else {
            let state = self.at(r).state;
            if is_ended(state) {
                Ok(Lifecycle::Stopping)
            } else {
                let s = starting || state == Lifecycle::Starting;
                let q = quiescing || state == Lifecycle::Quiescing;
                match self.at(r).parent {
                    Some(p) => if !self.valid(p) {
                        Err(self.stale(p))
                    } else if self.order(p) < self.order(r) {
                        self.execution_from(p, s, q)
                    } else {
                        Err(Error::StaleReference)
                    },
                    None => Ok(
                        if q {
                            Lifecycle::Quiescing
                        } else if s {
                            Lifecycle::Starting
                        } else {
                            Lifecycle::Active
                        },
                    ),
                }
            }
        }
    }

    pub open spec fn execution(self, r: ActorRef) -> Result<Lifecycle, Error> {
        self.execution_from(r, false, false)
    }

    /// The draining consumers at the end of routes, with their owners.
    pub open spec fn consumers(self, ids: Seq<u64>) -> Seq<ActorRef>
        decreases ids.len(),
    {
        if ids.len() == 0 {
            Seq::empty()
        } else {
            let target = self.subs[ids.last()].target;
            self.consumers(ids.drop_last()) + (if self.valid(target) && self.at(target).state
                == Lifecycle::Quiescing {
                self.lineage(target)
            } else {
                Seq::empty()
            })
        }
    }

    /// The actors that see a change to an actor's work: itself, its owners, and
    /// the draining consumers of those among them that drain.
    pub open spec fn dependents(self, r: ActorRef) -> Seq<ActorRef>
        decreases self.order(r),
    {
        if !self.valid(r) {
            Seq::empty()
        } else {
            seq![r] + (if is_draining(self.at(r).state) {
                self.consumers(ordered::sorted(routing::from_actor(self.subs, r)))
            } else {
                Seq::empty()
            }) + (match self.at(r).parent {
                Some(p) => if self.order(p) < self.order(r) {
                    self.dependents(p)
                } else {
                    Seq::empty()
                },
                None => Seq::empty(),
            })
        }
    }

    /// After a change to an actor's work was marked.
    pub open spec fn marked(self, r: ActorRef) -> WorldView {
        WorldView { activity: self.activity.marked_all(self.dependents(r)), ..self }
    }

    pub open spec fn marked_operation(self, owner: ActorRef, target: Option<ActorRef>) -> WorldView {
        let first = self.marked(owner);
        match target {
            Some(target) => if target != owner {
                first.marked(target)
            } else {
                first
            },
            None => first,
        }
    }

    pub open spec fn marked_route(self, route: Sub) -> WorldView {
        let a = self.marked(route.owner);
        let b = if route.source != route.owner {
            a.marked(route.source)
        } else {
            a
        };
        if route.target != route.owner && route.target != route.source {
            b.marked(route.target)
        } else {
            b
        }
    }

    /// Whether a Python actor can run something now.
    pub open spec fn executable(self, r: ActorRef) -> bool {
        let a = self.at(r);
        &&& !a.python_done
        &&& !a.in_flight
        &&& !a.control_in_flight
        &&& self.execution(r) matches Ok(state) && is_running(state)
    }

    /// After the readiness hints of an actor were brought up to date.
    pub open spec fn refreshed(self, r: ActorRef) -> WorldView {
        if !self.valid(r) || self.at(r).kind != EndpointKind::Python {
            self
        } else {
            let a = self.at(r);
            WorldView {
                python_ready: self.python_ready.is_set(
                    a.ready_order,
                    r,
                    !a.python_done && a.state == Lifecycle::Starting,
                    self.executable(r) && a.pending_failures > 0,
                    self.executable(r) && a.queue.len() > 0,
                    !a.python_done && is_ended(a.state),
                ),
                ..self
            }
        }
    }

    pub open spec fn noted(
        self,
        now: Instant,
        code: DiagnosticCode,
        actor: Option<ActorRef>,
        operation: Option<OperationId>,
    ) -> WorldView {
        WorldView {
            history: diagnostics::noted(self.history, now, code, actor, operation),
            ..self
        }
    }

    /// After a refusal was counted and recorded.
    pub open spec fn rejected(self, now: Instant, error: Error, actor: ActorRef) -> WorldView {
        WorldView {
            metrics: Metrics { rejected: types::bumped(self.metrics.rejected), ..self.metrics },
            ..self
        }.noted(now, diagnostics::code_of(error), Some(actor), None)
    }

    /// After a holder of a payload let go of it.
    pub open spec fn releasing(self, share: u64) -> WorldView {
        WorldView { budget: self.budget.released(share), ..self }
    }

    /// After a holder took a payload out of the World.
    pub open spec fn lending(self, share: u64) -> WorldView {
        WorldView { budget: self.budget.lent(share), ..self }
    }

    /// After a payload that was out came back.
    pub open spec fn returning(self, share: u64) -> WorldView {
        WorldView { budget: self.budget.returned(share), ..self }
    }

    /// Whether a hold is one that this World has given out.
    pub open spec fn lends(self, held: HeldPayload) -> bool {
        held.of_world() == self.id && self.budget.lends(held.share(), held.cost())
    }

    pub open spec fn releasing_all(self, shares: Seq<u64>) -> WorldView
        decreases shares.len(),
    {
        if shares.len() == 0 {
            self
        } else {
            self.releasing_all(shares.drop_last()).releasing(shares.last())
        }
    }

    /// The World with another state of its operations: what the table let go
    /// of is given back.
    pub open spec fn with_ops(self, ops: OpsView) -> WorldView {
        WorldView {
            ops: OpsView { dropped: Seq::empty(), ..ops },
            ..self
        }.releasing_all(ops.dropped)
    }

    /// References, ownership and free slots agree with each other.
    #[verifier::opaque]
    pub open spec fn sound(self) -> bool {
        &&& self.cfg.accepted()
        &&& self.actors.len() <= self.cfg.max_actors
        &&& self.next_ready_order >= 1
        &&& self.ops.world == self.id
        &&& self.tables_sized()
        &&& self.ops.dropped == Seq::<u64>::empty()
        &&& diagnostics::history_ok(self.history)
        &&& forall|i: int| 0 <= i < self.actors.len() ==> self.placed(i, #[trigger] self.actors[i])
        &&& forall|i: int, j: int|
            0 <= i < j < self.actors.len() ==> (#[trigger] self.actors[i]).ready_order != (
            #[trigger] self.actors[j]).ready_order
        &&& forall|i: int|
            0 <= i < self.free.len() ==> (#[trigger] self.free[i] as int) < self.actors.len()
                && self.actors[self.free[i] as int].state == Lifecycle::Stopped
        &&& forall|i: int, j: int|
            0 <= i < j < self.free.len() ==> #[trigger] self.free[i] != #[trigger] self.free[j]
        &&& forall|i: int|
            0 <= i < self.actors.len() && (#[trigger] self.actors[i]).state == Lifecycle::Stopped
                ==> self.free.contains(i as u32)
        &&& forall|id: u64| #[trigger] self.subs.dom().contains(id) ==> id < self.next_sub
        &&& self.subs.dom().len() <= self.cfg.max_subscriptions
        &&& self.services_fit()
        &&& forall|s: ActorRef| #[trigger]
            self.services.leases.dom().contains(s) ==> {
                let lease = self.services.leases[s];
                &&& lease.scope == s
                &&& self.known(s)
                &&& self.known(lease.service)
                &&& self.valid(s) && self.valid(lease.service) ==> self.order(lease.service)
                    < self.order(s)
            }
    }

    /// Whether the tables have the limits of the World, and captured routes fit.
    pub open spec fn tables_sized(self) -> bool {
        &&& self.ops.max == self.cfg.max_operations
        &&& self.pubs.limit == self.cfg.max_publications
        &&& self.pubs.per_source == self.cfg.max_publications_per_source
        &&& self.budget.limit == self.cfg.native_payload_budget
        &&& self.history.capacity == self.cfg.diagnostic_capacity
        &&& self.pubs.snapshot_entries() <= self.cfg.max_routing_snapshot_entries
    }

    /// Whether services and leases keep to the limits of the World.
    pub open spec fn services_fit(self) -> bool {
        self.services.within(
            self.cfg.max_services,
            self.cfg.max_service_leases,
            self.cfg.max_leases_per_actor,
        )
    }

    /// An actor sits in its slot, older than what it owns and younger than
    /// what owns it, and holds no more than a mailbox takes.
    pub open spec fn placed(self, i: int, a: ActorView) -> bool {
        &&& a.fits(self.cfg)
        &&& a.reference.world == self.id
        &&& a.reference.slot == i
        &&& 1 <= a.ready_order < self.next_ready_order
        &&& a.parent matches Some(p) ==> self.known(p) && (self.valid(p) ==> self.order(p)
            < a.ready_order)
        &&& forall|k: int|
            0 <= k < a.children.len() ==> self.younger(#[trigger] a.children[k], a.ready_order)
    }

    /// Whether a reference was given out by this World.
    pub open spec fn known(self, r: ActorRef) -> bool {
        &&& r.world == self.id
        &&& (r.slot as int) < self.actors.len()
        &&& r.generation <= self.actors[r.slot as int].reference.generation
    }

    pub open spec fn younger(self, r: ActorRef, order: u64) -> bool {
        self.known(r) && (self.valid(r) ==> self.order(r) > order)
    }

    /// Owners and what they own name each other: what an owner lists is there,
    /// and what has not stopped is listed by an owner that has not stopped.
    #[verifier::opaque]
    pub open spec fn kin(self) -> bool {
        &&& forall|i: int, k: int|
            0 <= i < self.actors.len() && 0 <= k < self.actors[i].children.len() ==> self.owned(
                #[trigger] self.actors[i].children[k],
                self.actors[i].reference,
            )
        &&& forall|i: int|
            0 <= i < self.actors.len() && (#[trigger] self.actors[i]).state != Lifecycle::Stopped
                && self.actors[i].parent is Some ==> self.owning(
                self.actors[i].parent->0,
                self.actors[i].reference,
            )
    }

    /// Whether an actor that has not stopped belongs to an owner.
    pub open spec fn owned(self, c: ActorRef, owner: ActorRef) -> bool {
        &&& self.valid(c)
        &&& self.at(c).parent == Some(owner)
        &&& self.at(c).state != Lifecycle::Stopped
    }

    /// Whether an owner that has not stopped lists a child.
    pub open spec fn owning(self, owner: ActorRef, c: ActorRef) -> bool {
        &&& self.valid(owner)
        &&& self.at(owner).state != Lifecycle::Stopped
        &&& self.at(owner).children.contains(c)
    }
}

pub struct World {
    id: u64,
    cfg: Config,
    clock: Clock,
    epoch: Instant,
    next_event: u64,
    next_sub: u64,
    actors: Vec<Actor>,
    next_ready_order: u64,
    python_ready: PythonReadyIndex,
    event_deadlines: DeadlineIndex,
    staged_actors: OrdMap<u32, ActorRef>,
    drain_roots: OrdMap<u32, ActorRef>,
    free: Vec<u32>,
    subs: RouteTable,
    metrics: Metrics,
    closed: bool,
    operations: OperationTable,
    publications: PublicationTable,
    diagnostics: History,
    next_failure: u64,
    last_error: Option<Arc<FailureRecord>>,
    schemas: SchemaRegistry,
    interfaces: Vec<InterfaceSpec>,
    services: Registry,
    activity: ActivityRegistry,
    budget: NativeBufferBudget,
    routing_dirty: bool,
    routing_closed: bool,
    routing_observer: Option<u64>,
}

spec fn actors_view(actors: Seq<Actor>) -> Seq<ActorView> {
    actors.map_values(|a: Actor| a@)
}

pub open spec fn interfaces_view(interfaces: Seq<InterfaceSpec>) -> Seq<InterfaceView> {
    interfaces.map_values(|i: InterfaceSpec| i@)
}

impl View for World {
    type V = WorldView;

    closed spec fn view(&self) -> WorldView {
        WorldView {
            id: self.id,
            cfg: self.cfg,
            clock: self.clock,
            epoch: self.epoch,
            next_event: self.next_event,
            next_sub: self.next_sub,
            actors: actors_view(self.actors@),
            next_ready_order: self.next_ready_order,
            python_ready: self.python_ready@,
            drain_roots: self.drain_roots@,
            free: self.free@,
            subs: self.subs@,
            metrics: self.metrics,
            closed: self.closed,
            ops: self.operations@,
            pubs: self.publications@,
            history: self.diagnostics@,
            next_failure: self.next_failure,
            last_error: self.last_error,
            schemas: self.schemas@,
            interfaces: interfaces_view(self.interfaces@),
            services: self.services@,
            activity: self.activity@,
            budget: self.budget@,
            routing_dirty: self.routing_dirty,
            routing_closed: self.routing_closed,
            routing_observer: self.routing_observer,
        }
    }
}

impl World {
    /// The tables keep their own invariants.
    spec fn tables_ok(self) -> bool {
        &&& self.python_ready.wf()
        &&& self.event_deadlines.wf()
        &&& self.staged_actors.wf()
        &&& self.drain_roots.wf()
        &&& self.subs.wf()
        &&& self.operations.wf()
        &&& self.publications.wf()
        &&& self.schemas.wf()
        &&& self.services.wf()
        &&& self.activity.wf()
        &&& self.budget.wf()
    }

    spec fn actors_ok(self) -> bool {
        forall|i: int| 0 <= i < self.actors@.len() ==> (#[trigger] self.actors@[i]).wf()
    }

    spec fn solid(self) -> bool {
        &&& self.tables_ok()
        &&& self.actors_ok()
        &&& self@.sound()
    }

    /// The deadline index and the index of staging actors are exact, but for
    /// one slot.
    #[verifier::opaque]
    spec fn exact_but(self, slot: int) -> bool {
        &&& forall|r: ActorRef|
            r.slot != slot ==> (#[trigger] self.event_deadlines@.dom().contains(r) <==> self@.valid(r)
                && self@.at(r).first_deadline() is Some)
        &&& forall|r: ActorRef|
            r.slot != slot && #[trigger] self.event_deadlines@.dom().contains(r)
                ==> self.event_deadlines@[r] == self@.at(r).first_deadline()->0
        &&& forall|s: u32|
            s != slot ==> (#[trigger] self.staged_actors@.dom().contains(s) <==> (s as int)
                < self@.actors.len() && self@.actors[s as int].staged.len() > 0)
        &&& forall|s: u32|
            s != slot && #[trigger] self.staged_actors@.dom().contains(s) ==> self.staged_actors@[s]
                == self@.actors[s as int].reference
    }

    /// No entry in the indexes names a generation that has left its slot.
    #[verifier::opaque]
    spec fn no_ghosts(self, slot: int) -> bool {
        &&& forall|r: ActorRef|
            r.slot == slot && #[trigger] self.event_deadlines@.dom().contains(r) ==> self@.valid(r)
    }

    /// What holds but for the kinship of actors.
    spec fn loose(self) -> bool {
        self.solid() && self.exact_but(-1)
    }

    /// What every step of a World keeps.
    pub closed spec fn steady(self) -> bool {
        self.loose() && self@.kin() && self@.living()
    }

    /// What every World keeps between calls.
    pub closed spec fn inv(self) -> bool {
        self.steady() && self@.neat(tidy::nothing_open())
    }

    /// The hints, the counts of waiting failures, the drains and the budget are
    /// those that the actors and the tables imply.
    pub proof fn lemma_neat(self)
        requires
            self.inv(),
        ensures
            self@.neat(tidy::nothing_open()),
    {
    }

    /// What callers may rely on.
    pub proof fn lemma_sound(self)
        requires
            self.steady(),
        ensures
            self@.sound(),
    {
    }

    /// Owners and what they own name each other.
    pub proof fn lemma_kin(self)
        requires
            self.steady(),
        ensures
            self@.kin(),
    {
    }

    /// What has ended holds nothing and takes part in nothing.
    pub proof fn lemma_living(self)
        requires
            self.steady(),
        ensures
            self@.living(),
    {
    }

    /// The schemas of a World are valid and compatible.
    pub proof fn lemma_schemas(self)
        requires
            self.steady(),
        ensures
            self@.schemas.sound(),
    {
        self.schemas.lemma_sound();
    }

    /// The payload budget holds what it counts.
    pub proof fn lemma_budget(self)
        requires
            self.steady(),
        ensures
            self@.budget.used() <= self@.budget.limit,
            self@.budget.shares.dom().finite(),
            !self@.budget.shares.dom().contains(self@.budget.next),
            self@.budget.tidy(),
    {
        self.budget.lemma_within_limit();
    }

    /// The drains that are on can be listed.
    pub proof fn lemma_drains(self)
        requires
            self.steady(),
        ensures
            self@.drain_roots.dom().finite(),
    {
        self.drain_roots.lemma_listing();
    }

    /// The operation slots are numbered alike.
    pub proof fn lemma_operations(self)
        requires
            self.steady(),
        ensures
            self@.ops.slotted(),
            self@.ops.live_ids().len() <= self@.ops.max,
    {
        self.operations.lemma_bounds();
    }

    /// Publications, tickets and the ready queue agree with each other.
    pub proof fn lemma_publications(self)
        requires
            self.steady(),
        ensures
            self@.pubs.consistent(),
            self@.pubs.within_quota(),
            self@.pubs.settled(),
    {
        self.publications.lemma_consistent();
    }

    /// The tables are finite, and what an actor owns or leases is younger.
    pub proof fn lemma_orderly(self)
        requires
            self.steady(),
        ensures
            endings::orderly(self@),
    {
        reveal(endings::orderly);
        reveal(WorldView::sound);
        reveal(WorldView::kin);
        let v = self@;
        assert forall|i: int, k: int|
            0 <= i < v.actors.len() && 0 <= k < v.actors[i].children.len() implies v.valid(
            #[trigger] v.actors[i].children[k],
        ) && v.order(v.actors[i].children[k]) > v.actors[i].ready_order by {
            assert(v.placed(i, v.actors[i]));
            assert(v.younger(v.actors[i].children[k], v.actors[i].ready_order));
            assert(v.owned(v.actors[i].children[k], v.actors[i].reference));
        }
        self.lemma_operations();
        self.subs.lemma_finite();
        self.services.lemma_finite();
        self.publications.lemma_consistent();
    }

    fn locate(&self, r: ActorRef) -> (i: Result<usize, Error>)
        requires
            self.solid(),
        ensures
            i is Ok <==> self@.valid(r),
            i matches Ok(i) ==> i == r.slot && i < self.actors@.len() && self.actors@[i as int]@
                == self@.at(r) && self.actors@[i as int].reference == r,
            i matches Err(e) ==> e == self@.stale(r),
    {
        if r.world != self.id {
            return Err(Error::CrossWorld);
        }
        let i: usize = r.slot as usize;
        if i >= self.actors.len() {
            return Err(Error::StaleReference);
        }
        assert(self@.actors[i as int] == self.actors@[i as int]@);
        if self.actors[i].reference.generation != r.generation {
            return Err(Error::StaleReference);
        }
        proof {
            lemma_placed(self@, i as int);
        }
        Ok(i)
    }

    /// An actor to change. What stays of the invariants depends on what the
    /// caller leaves in it.
    fn actor_mut(&mut self, i: usize) -> (a: &mut Actor)
        requires
            old(self).loose(),
            i < old(self).actors@.len(),
        ensures
            *a == old(self).actors@[i as int],
            (*a)@ == old(self)@.actors[i as int],
            a.wf(),
            final(self)@ == (WorldView {
                actors: old(self)@.actors.update(i as int, (*final(a))@),
                ..old(self)@
            }),
            final(self).actors@ == old(self).actors@.update(i as int, *final(a)),
            final(a).wf() && (*final(a))@.same_place(old(self)@.actors[i as int]) && (
            *final(a))@.fits(old(self)@.cfg) ==> {
                &&& final(self).solid()
                &&& final(self).exact_but(i as int)
                &&& final(self).no_ghosts(i as int)
            },
            final(a).wf() && (*final(a))@.same_place(old(self)@.actors[i as int]) && (
            *final(a))@.same_entries(old(self)@.actors[i as int]) ==> final(self).loose(),
            old(self)@.kin() && (*final(a))@.same_place(old(self)@.actors[i as int]) && (
            *final(a))@.children == old(self)@.actors[i as int].children ==> final(self)@.kin(),
            old(self)@.living() && (*final(a))@.same_place(old(self)@.actors[i as int])
                && is_ended((*final(a))@.state) == is_ended(old(self)@.actors[i as int].state) && (
            (*final(a))@.same_entries(old(self)@.actors[i as int]) || (is_ended(
                (*final(a))@.state
            ) ==> (*final(a))@.queue.len() == 0 && (*final(a))@.staged.len() == 0))
                ==> final(self)@.living(),
    {
        let ghost before = *self;
        let ghost list = self.actors@;
        proof {
            reveal(World::exact_but);
            reveal(World::no_ghosts);
            assert(self@.actors[i as int] == list[i as int]@);
            assert forall|b: Actor| actors_view(#[trigger] list.update(i as int, b)) == actors_view(
                list,
            ).update(i as int, b@) by {
                assert(actors_view(list.update(i as int, b)) =~= actors_view(list).update(
                    i as int,
                    b@,
                ));
            }
            assert forall|b: Actor| b.wf() && b@.same_place(list[i as int]@) && b@.fits(
                before@.cfg,
            ) implies (WorldView {
                actors: #[trigger] actors_view(list).update(i as int, b@),
                ..before@
            }).sound() by {
                lemma_replaced(before@, i as int, b@);
            }
            lemma_placed(before@, i as int);
            assert forall|b: Actor| (#[trigger] b@).same_entries(list[i as int]@) implies b@.fits(
                before@.cfg,
            ) by {}
            assert forall|b: Actor| before@.kin() && b@.same_place(list[i as int]@) && b@.children
                == list[i as int]@.children implies (WorldView {
                actors: #[trigger] actors_view(list).update(i as int, b@),
                ..before@
            }).kin() by {
                lemma_kin_replaced(before@, i as int, b@);
            }
            assert forall|b: Actor| before@.living() && b@.same_place(list[i as int]@) && is_ended(
                b@.state,
            ) == is_ended(list[i as int]@.state) && (b@.same_entries(list[i as int]@) || (is_ended(
                b@.state,
            ) ==> b@.queue.len() == 0 && b@.staged.len() == 0)) implies (WorldView {
                actors: #[trigger] actors_view(list).update(i as int, b@),
                ..before@
            }).living() by {
                living::lemma_living_replaced(before@, i as int, b@);
            }
        }
        let a = &mut self.actors[i];
        a
    }
}

/// The parts of soundness that concern the tables.
proof fn lemma_sound_parts(v: WorldView)
    requires
        v.sound(),
    ensures
        v.cfg.accepted(),
        v.actors.len() <= v.cfg.max_actors,
        v.ops.world == v.id,
        v.tables_sized(),
        v.ops.dropped == Seq::<u64>::empty(),
        diagnostics::history_ok(v.history),
        forall|id: u64| #[trigger] v.subs.dom().contains(id) ==> id < v.next_sub,
        v.subs.dom().len() <= v.cfg.max_subscriptions,
        v.services_fit(),
{
    reveal(WorldView::sound);
}

proof fn lemma_placed(v: WorldView, i: int)
    requires
        v.sound(),
        0 <= i < v.actors.len(),
    ensures
        v.placed(i, v.actors[i]),
{
    reveal(WorldView::sound);
}

/// Kinship rests on the actors.
proof fn lemma_kin_frame(v: WorldView, n: WorldView)
    requires
        v.kin(),
        n.id == v.id,
        n.actors == v.actors,
    ensures
        n.kin(),
{
    reveal(WorldView::kin);
    assert forall|i: int, k: int|
        0 <= i < n.actors.len() && 0 <= k < n.actors[i].children.len() implies n.owned(
        #[trigger] n.actors[i].children[k],
        n.actors[i].reference,
    ) by {
        assert(v.owned(v.actors[i].children[k], v.actors[i].reference));
    }
    assert forall|i: int|
        0 <= i < n.actors.len() && (#[trigger] n.actors[i]).state != Lifecycle::Stopped
            && n.actors[i].parent is Some implies n.owning(
        n.actors[i].parent->0,
        n.actors[i].reference,
    ) by {
        assert(v.owning(v.actors[i].parent->0, v.actors[i].reference));
    }
}

/// A slot whose actor keeps its place and its children keeps the kinship.
proof fn lemma_kin_replaced(v: WorldView, i: int, b: ActorView)
    requires
        v.kin(),
        0 <= i < v.actors.len(),
        b.same_place(v.actors[i]),
        b.children == v.actors[i].children,
    ensures
        (WorldView { actors: v.actors.update(i, b), ..v }).kin(),
{
    reveal(WorldView::kin);
    let n = WorldView { actors: v.actors.update(i, b), ..v };
    assert forall|j: int, k: int|
        0 <= j < n.actors.len() && 0 <= k < n.actors[j].children.len() implies n.owned(
        #[trigger] n.actors[j].children[k],
        n.actors[j].reference,
    ) by {
        assert(v.owned(v.actors[j].children[k], v.actors[j].reference));
    }
    assert forall|j: int|
        0 <= j < n.actors.len() && (#[trigger] n.actors[j]).state != Lifecycle::Stopped
            && n.actors[j].parent is Some implies n.owning(
        n.actors[j].parent->0,
        n.actors[j].reference,
    ) by {
        assert(v.owning(v.actors[j].parent->0, v.actors[j].reference));
    }
}

/// A slot whose actor keeps its place keeps the World sound.
proof fn lemma_replaced(v: WorldView, i: int, b: ActorView)
    requires
        v.sound(),
        0 <= i < v.actors.len(),
        b.same_place(v.actors[i]),
        b.fits(v.cfg),
    ensures
        (WorldView { actors: v.actors.update(i, b), ..v }).sound(),
{
    reveal(WorldView::sound);
    let n = WorldView { actors: v.actors.update(i, b), ..v };
    assert forall|r: ActorRef| #[trigger] n.valid(r) == v.valid(r) by {}
    assert forall|r: ActorRef| #[trigger] n.order(r) == v.order(r) by {
        assert(n.valid(r) == v.valid(r));
    }
    assert forall|k: int| 0 <= k < n.actors.len() implies n.placed(k, #[trigger] n.actors[k]) by {
        assert(v.placed(k, v.actors[k]));
        let a = n.actors[k];
        assert forall|c: int| 0 <= c < a.children.len() implies n.younger(
            #[trigger] a.children[c],
            a.ready_order,
        ) by {
            if k == i {
                assert(v.actors[i].children.contains(a.children[c]));
                let d = v.actors[i].children.index_of(a.children[c]);
                assert(v.younger(v.actors[i].children[d], v.actors[i].ready_order));
            } else {
                assert(v.younger(v.actors[k].children[c], v.actors[k].ready_order));
            }
        }
    }
}

/// A World without actors.
pub open spec fn fresh_world(id: u64, cfg: Config, clock: Clock, epoch: Instant) -> WorldView {
    WorldView {
        id,
        cfg,
        clock,
        epoch,
        next_event: 1,
        next_sub: 1,
        actors: Seq::empty(),
        next_ready_order: 1,
        python_ready: ReadyView::none(),
        drain_roots: Map::empty(),
        free: Seq::empty(),
        subs: Map::empty(),
        metrics: types::zero_metrics(),
        closed: false,
        ops: OpsView {
            world: id,
            max: cfg.max_operations,
            slots: Seq::empty(),
            generations: Seq::empty(),
            free: Seq::empty(),
            dropped: Seq::empty(),
        },
        pubs: PubsView {
            limit: cfg.max_publications,
            per_source: cfg.max_publications_per_source,
            next_id: 1,
            entries: Map::empty(),
            tickets: Map::empty(),
            ready: Seq::empty(),
        },
        history: HistoryView {
            capacity: cfg.diagnostic_capacity,
            next: 1,
            dropped: 0,
            exhausted: false,
            epoch,
            entries: Seq::empty(),
        },
        next_failure: 1,
        last_error: None,
        schemas: RegistryView { max: cfg.max_schemas, items: Seq::empty() },
        interfaces: Seq::empty(),
        services: ServicesView::none(),
        activity: ActivityView::none(),
        budget: BudgetView {
            owner: id,
            limit: cfg.native_payload_budget,
            next: 1,
            shares: Map::empty(),
            scratch: Map::empty(),
        },
        routing_dirty: false,
        routing_closed: false,
        routing_observer: None,
    }
}

/// Where a World's counters begin.
#[derive(Clone, Copy, Debug)]
pub struct Numbering {
    pub ready_order: u64,
    pub publication: u64,
}

/// A fresh World whose counters begin elsewhere.
pub open spec fn numbered_world(
    id: u64,
    cfg: Config,
    clock: Clock,
    epoch: Instant,
    numbering: Numbering,
) -> WorldView {
    let fresh = fresh_world(id, cfg, clock, epoch);
    WorldView {
        next_ready_order: numbering.ready_order,
        pubs: PubsView { next_id: numbering.publication, ..fresh.pubs },
        ..fresh
    }
}

impl World {
    /// A World on the machine's clock. The caller gives each World its own number.
    pub fn new(id: u64, cfg: Config) -> (r: Result<Self, Error>)
        ensures
            r is Ok <==> cfg.accepted(),
            r matches Err(e) ==> e == Error::InvalidConfig,
            r matches Ok(world) ==> world.inv() && exists|clock: Clock, epoch: Instant|
                clock is System && #[trigger] clock.reads(epoch) && world@ == fresh_world(
                    id,
                    cfg,
                    clock,
                    epoch,
                ),
    {
        World::with_clock(id, cfg, Clock::system())
    }

    /// A World on a given clock.
    pub fn with_clock(id: u64, cfg: Config, clock: Clock) -> (r: Result<Self, Error>)
        ensures
            r is Ok <==> cfg.accepted(),
            r matches Err(e) ==> e == Error::InvalidConfig,
            r matches Ok(world) ==> world.inv() && exists|epoch: Instant| #[trigger]
                clock.reads(epoch) && world@ == fresh_world(id, cfg, clock, epoch),
    {
        World::numbered_from(id, cfg, clock, Numbering { ready_order: 1, publication: 1 })
    }

    /// A World whose counters begin at the given numbers.
    pub fn numbered_from(id: u64, cfg: Config, clock: Clock, numbering: Numbering) -> (r: Result<
        Self,
        Error,
    >)
        ensures
            r is Ok <==> cfg.accepted() && numbering.ready_order >= 1 && numbering.publication >= 1,
            r matches Err(e) ==> e == Error::InvalidConfig,
            r matches Ok(world) ==> world.inv() && exists|epoch: Instant| #[trigger]
                clock.reads(epoch) && world@ == numbered_world(id, cfg, clock, epoch, numbering),
    {
        if !cfg.is_accepted() || numbering.ready_order < 1 || numbering.publication < 1 {
            return Err(Error::InvalidConfig);
        }
        let epoch = clock.now();
        let operations = match OperationTable::new(id, cfg.max_operations) {
            Ok(operations) => operations,
            Err(_) => return Err(Error::InvalidConfig),
        };
        let schemas = match SchemaRegistry::new(cfg.max_schemas) {
            Ok(schemas) => schemas,
            Err(_) => return Err(Error::InvalidConfig),
        };
        let world = World {
            id,
            cfg,
            clock,
            epoch,
            next_event: 1,
            next_sub: 1,
            actors: Vec::new(),
            next_ready_order: numbering.ready_order,
            python_ready: PythonReadyIndex::new(),
            event_deadlines: DeadlineIndex::new(),
            staged_actors: OrdMap::new(),
            drain_roots: OrdMap::new(),
            free: Vec::new(),
            subs: RouteTable::new(),
            metrics: Metrics::default(),
            closed: false,
            operations,
            publications: PublicationTable::numbered_from(
                cfg.max_publications,
                cfg.max_publications_per_source,
                numbering.publication,
            ),
            diagnostics: History::new(cfg.diagnostic_capacity, epoch),
            next_failure: 1,
            last_error: None,
            schemas,
            interfaces: Vec::new(),
            services: Registry::new(),
            activity: ActivityRegistry::new(),
            budget: NativeBufferBudget::new(id, cfg.native_payload_budget),
            routing_dirty: false,
            routing_closed: false,
            routing_observer: None,
        };
        proof {
            assert(world@ =~= numbered_world(id, cfg, clock, epoch, numbering));
            assert(world@.actors.len() == 0);
            reveal(WorldView::sound);
            reveal(WorldView::kin);
            reveal(WorldView::living);
            reveal(World::exact_but);
            sums::lemma_sum_empty::<PublicationView>(|p: PublicationView| p.route_count());
            services::lemma_none_within(
                cfg.max_services,
                cfg.max_service_leases,
                cfg.max_leases_per_actor,
            );
            world.budget.lemma_within_limit();
            keeping::lemma_blank(world@);
        }
        Ok(world)
    }

    pub fn id(&self) -> (r: u64)
        ensures
            r == self@.id,
    {
        self.id
    }

    /// The limits of the World.
    pub fn config(&self) -> (r: &Config)
        ensures
            *r == self@.cfg,
    {
        &self.cfg
    }

    pub fn is_virtual(&self) -> (r: bool)
        ensures
            r == (self@.clock is Manual),
    {
        self.clock.is_virtual()
    }

    /// Moves a clock that is moved by hand.
    pub fn advance_clock(&mut self, by: Duration) -> (r: Result<Instant, Error>)
        requires
            old(self).inv(),
        ensures
            final(self).inv(),
            match old(self)@.clock {
                Clock::Manual(held) => if held.reading().nanos + by.nanos <= clock::TIMELINE_END {
                    &&& r matches Ok(now)
                    &&& now.nanos == held.reading().nanos + by.nanos
                    &&& final(self)@.clock matches Clock::Manual(later) && later.reading() == now
                    &&& final(self)@ == (WorldView { clock: final(self)@.clock, ..old(self)@ })
                } else {
                    r == Err::<Instant, Error>(Error::LimitExceeded) && final(self)@ == old(self)@
                },
                Clock::System { .. } => r == Err::<Instant, Error>(Error::InvalidConfig)
                    && final(self)@ == old(self)@,
            },
    {
        let result = match &mut self.clock {
            Clock::Manual(held) => held.advance(by),
            Clock::System { .. } => Err(Error::InvalidConfig),
        };
        proof {
            self.lemma_kept(*old(self));
            tidy::lemma_aside(old(self)@, self@, tidy::nothing_open());
        }
        result
    }
}

/// Soundness rests on the actors, the free slots, the routes and the services.
proof fn lemma_sound_frame(v: WorldView, n: WorldView)
    requires
        v.sound(),
        n.id == v.id,
        n.cfg == v.cfg,
        n.actors == v.actors,
        n.next_ready_order == v.next_ready_order,
        n.free == v.free,
        n.services == v.services,
        n.ops.world == v.ops.world,
        n.tables_sized(),
        n.ops.dropped == v.ops.dropped,
        diagnostics::history_ok(n.history),
        forall|id: u64| #[trigger] n.subs.dom().contains(id) ==> id < n.next_sub,
        n.subs.dom().len() <= n.cfg.max_subscriptions,
    ensures
        n.sound(),
{
    reveal(WorldView::sound);
    assert forall|r: ActorRef| #[trigger] n.valid(r) == v.valid(r) by {}
    assert forall|r: ActorRef| #[trigger] n.order(r) == v.order(r) by {
        assert(n.valid(r) == v.valid(r));
    }
    assert forall|k: int| 0 <= k < n.actors.len() implies n.placed(k, #[trigger] n.actors[k]) by {
        assert(v.placed(k, v.actors[k]));
        let a = n.actors[k];
        assert forall|c: int| 0 <= c < a.children.len() implies n.younger(
            #[trigger] a.children[c],
            a.ready_order,
        ) by {
            assert(v.younger(a.children[c], a.ready_order));
        }
    }
}

impl World {
    /// What touches no actor and no index of actors keeps the invariants.
    proof fn lemma_kept(self, prior: World)
        requires
            prior.steady(),
            self.tables_ok(),
            self.actors == prior.actors,
            self.event_deadlines == prior.event_deadlines,
            self.staged_actors == prior.staged_actors,
            self@.id == prior@.id,
            self@.cfg == prior@.cfg,
            self@.next_ready_order == prior@.next_ready_order,
            self@.free == prior@.free,
            self@.services == prior@.services,
            self@.ops.world == prior@.ops.world,
            self@.ops.max == prior@.ops.max,
            self@.pubs.limit == prior@.pubs.limit,
            self@.pubs.per_source == prior@.pubs.per_source,
            self@.budget.limit == prior@.budget.limit,
            self@.history.capacity == prior@.history.capacity,
            self@.pubs.entries == prior@.pubs.entries || self@.pubs.snapshot_entries()
                <= self@.cfg.max_routing_snapshot_entries,
            (self@.subs == prior@.subs && self@.ops == prior@.ops && self@.pubs.entries
                == prior@.pubs.entries) || living::no_more(prior@, self@) || self@.living(),
            self@.ops.dropped == prior@.ops.dropped,
            self@.history == prior@.history || diagnostics::history_ok(self@.history),
            (self@.subs == prior@.subs && self@.next_sub == prior@.next_sub) || (self@.subs.dom().len()
                <= self@.cfg.max_subscriptions && forall|id: u64| #[trigger]
                self@.subs.dom().contains(id) ==> id < self@.next_sub),
        ensures
            self.steady(),
    {
        lemma_sound_parts(prior@);
        reveal(World::exact_but);
        lemma_sound_frame(prior@, self@);
        lemma_kin_frame(prior@, self@);
        if !self@.living() {
            living::lemma_living_frame(prior@, self@);
        }
        let v = prior@;
        let n = self@;
        assert(n.actors == v.actors);
        assert forall|r: ActorRef| #[trigger] n.valid(r) == v.valid(r) by {}
        assert forall|r: ActorRef| #[trigger] n.at(r) == v.at(r) by {}
    }

    /// The reading of the World's clock.
    pub fn now(&self) -> (r: Instant)
        ensures
            self@.clock.reads(r),
    {
        self.clock.now()
    }

    /// Records a diagnostic.
    fn note(
        &mut self,
        now: Instant,
        code: DiagnosticCode,
        actor: Option<ActorRef>,
        operation: Option<OperationId>,
    )
        requires
            old(self).steady(),
        ensures
            final(self).steady(),
            final(self)@ == old(self)@.noted(now, code, actor, operation),
    {
        proof {
            lemma_sound_parts(self@);
        }
        self.diagnostics.record(now, code, actor, operation);
        proof {
            self.lemma_kept(*old(self));
        }
    }

    fn reject(&mut self, now: Instant, error: Error, actor: ActorRef)
        requires
            old(self).steady(),
        ensures
            final(self).steady(),
            final(self)@ == old(self)@.rejected(now, error, actor),
    {
        self.metrics.rejected = self.metrics.rejected.wrapping_add(1);
        proof {
            self.lemma_kept(*old(self));
        }
        self.note(now, DiagnosticCode::from_error(error), Some(actor), None);
    }

    /// Gives one hold on a payload back.
    fn release(&mut self, share: u64)
        requires
            old(self).steady(),
        ensures
            final(self).steady(),
            final(self)@ == old(self)@.releasing(share),
    {
        self.budget.let_go(share);
        proof {
            self.lemma_kept(*old(self));
        }
    }

    /// A holder takes a payload out of the World.
    fn lend(&mut self, share: u64)
        requires
            old(self).steady(),
        ensures
            final(self).steady(),
            final(self)@ == old(self)@.lending(share),
    {
        self.budget.lend(share);
        proof {
            self.lemma_kept(*old(self));
        }
    }

    /// A payload that was out comes back.
    fn take_back(&mut self, share: u64)
        requires
            old(self).steady(),
        ensures
            final(self).steady(),
            final(self)@ == old(self)@.returning(share),
    {
        self.budget.take_back(share);
        proof {
            self.lemma_kept(*old(self));
        }
    }

    /// After the operation table changed, the World can settle what it dropped.
    proof fn lemma_ops_changed(self, prior: World)
        requires
            prior.steady(),
            self.operations.wf(),
            self@.ops.world == prior@.ops.world,
            self@.ops.max == prior@.ops.max,
            living::ops_within(prior@.ops, self@.ops) || prior@.ops_live(self@.ops),
            self@ == (WorldView { ops: self@.ops, ..prior@ }),
            self.actors == prior.actors,
            self.event_deadlines == prior.event_deadlines,
            self.staged_actors == prior.staged_actors,
            self.python_ready == prior.python_ready,
            self.drain_roots == prior.drain_roots,
            self.subs == prior.subs,
            self.publications == prior.publications,
            self.schemas == prior.schemas,
            self.services == prior.services,
            self.activity == prior.activity,
            self.budget == prior.budget,
        ensures
            self.tables_ok(),
            self.actors_ok(),
            (WorldView {
                ops: (OpsView { dropped: Seq::empty(), ..self@.ops }),
                ..self@
            }).sound(),
            self.exact_but(-1),
            self@.kin(),
            self@.living(),
    {
        lemma_kin_frame(prior@, self@);
        if living::ops_within(prior@.ops, self@.ops) {
            living::lemma_within_live(prior@, self@.ops);
        }
        living::lemma_living_ops(prior@, self@);
        let n = WorldView { ops: OpsView { dropped: Seq::empty(), ..self@.ops }, ..self@ };
        lemma_sound_parts(prior@);
        lemma_sound_frame(prior@, n);
        reveal(World::exact_but);
        assert forall|r: ActorRef| #[trigger] self@.valid(r) == prior@.valid(r) by {}
        assert forall|r: ActorRef| #[trigger] self@.at(r) == prior@.at(r) by {}
    }

    fn release_all(&mut self, shares: &Vec<u64>)
        requires
            old(self).steady(),
        ensures
            final(self).steady(),
            final(self)@ == old(self)@.releasing_all(shares@),
    {
        let mut i: usize = 0;
        assert(shares@.take(0) =~= Seq::<u64>::empty());
        while i < shares.len()
            invariant
                i <= shares.len(),
                self.steady(),
                self@ == old(self)@.releasing_all(shares@.take(i as int)),
            decreases shares.len() - i,
        {
            assert(shares@.take(i + 1).drop_last() =~= shares@.take(i as int));
            self.release(shares[i]);
            i += 1;
        }
        assert(shares@.take(i as int) =~= shares@);
    }

    /// Gives back what the operation table let go of.
    fn settle(&mut self)
        requires
            old(self).tables_ok(),
            old(self).actors_ok(),
            (WorldView {
                ops: (OpsView { dropped: Seq::empty(), ..old(self)@.ops }),
                ..old(self)@
            }).sound(),
            old(self).exact_but(-1),
            old(self)@.kin(),
            old(self)@.living(),
        ensures
            final(self).steady(),
            final(self)@ == (WorldView {
                ops: (OpsView { dropped: Seq::empty(), ..old(self)@.ops }),
                ..old(self)@
            }).releasing_all(old(self)@.ops.dropped),
    {
        let ghost before = self@;
        let dropped = self.operations.take_dropped();
        proof {
            reveal(World::exact_but);
            assert(self@.actors == before.actors);
            assert forall|r: ActorRef| #[trigger] self@.valid(r) == before.valid(r) by {}
            assert forall|r: ActorRef| #[trigger] self@.at(r) == before.at(r) by {}
            lemma_kin_frame(before, self@);
            living::lemma_living_frame(before, self@);
        }
        self.release_all(&dropped);
    }

    /// The readiness hints of an actor follow its state.
    fn refresh(&mut self, r: ActorRef)
        requires
            old(self).steady(),
        ensures
            final(self).steady(),
            final(self)@ == old(self)@.refreshed(r),
    {
        let i = match self.locate(r) {
            Ok(i) => i,
            Err(_) => return,
        };
        if self.actors[i].kind != EndpointKind::Python {
            return;
        }
        let running: bool = match self.execution(r) {
            Ok(Lifecycle::Active) => true,
            Ok(Lifecycle::Quiescing) => true,
            _ => false,
        };
        let a = &self.actors[i];
        let executable = !a.python_done && !a.in_flight && !a.control_in_flight && running;
        let order: u64 = a.ready_order;
        let start = !a.python_done && a.state == Lifecycle::Starting;
        let failure = executable && a.pending_failures > 0;
        let delivery = executable && a.queue.len() > 0;
        let cleanup = !a.python_done && (a.state == Lifecycle::Stopping || a.state
            == Lifecycle::Stopped);
        let _changed = self.python_ready.set(order, r, start, failure, delivery, cleanup);
        proof {
            self.lemma_kept(*old(self));
        }
    }

    /// The state in which an actor can run, given its owners.
    fn execution(&self, r: ActorRef) -> (result: Result<Lifecycle, Error>)
        requires
            self.solid(),
        ensures
            result == self@.execution(r),
    {
        let mut current: ActorRef = r;
        let mut starting = false;
        let mut quiescing = false;
        loop
            invariant
                self.solid(),
                self@.execution(r) == self@.execution_from(current, starting, quiescing),
            decreases self@.order(current),
        {
            let i = match self.locate(current) {
                Ok(i) => i,
                Err(e) => return Err(e),
            };
            proof {
                lemma_placed(self@, i as int);
            }
            match self.actors[i].state {
                Lifecycle::Stopping => return Ok(Lifecycle::Stopping),
                Lifecycle::Stopped => return Ok(Lifecycle::Stopping),
                Lifecycle::Starting => starting = true,
                Lifecycle::Quiescing => quiescing = true,
                Lifecycle::Active => {},
            }
            match self.actors[i].parent {
                Some(parent) => {
                    if self.locate(parent).is_err() {
                        return match self.locate(parent) {
                            Ok(_) => Err(Error::StaleReference),
                            Err(e) => Err(e),
                        };
                    }
                    current = parent;
                },
                None => {
                    return Ok(
                        if quiescing {
                            Lifecycle::Quiescing
                        } else if starting {
                            Lifecycle::Starting
                        } else {
                            Lifecycle::Active
                        },
                    );
                },
            }
        }
    }

    /// Marks an actor and its owners.
    fn mark_lineage(&mut self, r: ActorRef)
        requires
            old(self).steady(),
        ensures
            final(self).steady(),
            final(self)@ == (WorldView {
                activity: old(self)@.activity.marked_all(old(self)@.lineage(r)),
                ..old(self)@
            }),
    {
        let ghost v = self@;
        let ghost mut done = Seq::<ActorRef>::empty();
        let mut next: Option<ActorRef> = Some(r);
        proof {
            assert(done + v.lineage(r) =~= v.lineage(r));
        }
        while next.is_some()
            invariant
                self.steady(),
                v == old(self)@,
                v.sound(),
                self@ == (WorldView { activity: v.activity.marked_all(done), ..v }),
                done + (match next {
                    Some(p) => v.lineage(p),
                    None => Seq::empty(),
                }) == v.lineage(r),
            ensures
                done == v.lineage(r),
            decreases
                    match next {
                        Some(p) => v.order(p) + 1,
                        None => 0,
                    },
        {
            let current: ActorRef = match next {
                Some(current) => current,
                None => break,
            };
            let ghost prior = *self;
            let i = match self.locate(current) {
                Ok(i) => i,
                Err(_) => {
                    assert(done + v.lineage(current) =~= done);
                    break;
                },
            };
            self.activity.mark(current);
            proof {
                self.lemma_kept(prior);
                lemma_placed(v, i as int);
                let rest = match v.at(current).parent {
                    Some(p) => v.lineage(p),
                    None => Seq::empty(),
                };
                assert(v.lineage(current) == seq![current] + rest);
                assert(done.push(current) + rest =~= done + (seq![current] + rest));
                assert(done.push(current).drop_last() =~= done);
                done = done.push(current);
            }
            next = self.actors[i].parent;
            assert(v.actors[i as int] == self.actors@[i as int]@);
        }
        assert(done + Seq::<ActorRef>::empty() =~= done);
    }

    /// Marks everyone who sees a change to an actor's work.
    fn mark(&mut self, r: ActorRef)
        requires
            old(self).steady(),
        ensures
            final(self).steady(),
            final(self)@ == old(self)@.marked(r),
    {
        let ghost v = self@;
        let ghost mut done = Seq::<ActorRef>::empty();
        let mut next: Option<ActorRef> = Some(r);
        proof {
            assert(done + v.dependents(r) =~= v.dependents(r));
        }
        while next.is_some()
            invariant
                self.steady(),
                v == old(self)@,
                v.sound(),
                self@ == (WorldView { activity: v.activity.marked_all(done), ..v }),
                done + (match next {
                    Some(p) => v.dependents(p),
                    None => Seq::empty(),
                }) == v.dependents(r),
            ensures
                done == v.dependents(r),
            decreases
                    match next {
                        Some(p) => v.order(p) + 1,
                        None => 0,
                    },
        {
            let current: ActorRef = match next {
                Some(current) => current,
                None => break,
            };
            let ghost prior = *self;
            let i = match self.locate(current) {
                Ok(i) => i,
                Err(_) => {
                    assert(done + v.dependents(current) =~= done);
                    break;
                },
            };
            self.activity.mark(current);
            let ghost rest = match v.at(current).parent {
                Some(p) => v.dependents(p),
                None => Seq::empty(),
            };
            let ghost side = if is_draining(v.at(current).state) {
                v.consumers(ordered::sorted(routing::from_actor(v.subs, current)))
            } else {
                Seq::empty()
            };
            proof {
                self.lemma_kept(prior);
                lemma_placed(v, i as int);
                assert(v.dependents(current) == seq![current] + side + rest);
                assert(done.push(current).drop_last() =~= done);
                assert((done.push(current) + side) + rest =~= done + (seq![current] + side + rest));
                done = done.push(current);
                assert(v.actors[i as int] == self.actors@[i as int]@);
            }
            next = self.actors[i].parent;
            match self.actors[i].state {
                Lifecycle::Quiescing | Lifecycle::Stopping | Lifecycle::Stopped => {
                    self.mark_consumers(current);
                    proof {
                        crate::activity::lemma_marked_all_concat(v.activity, done, side);
                        let here = WorldView { activity: v.activity.marked_all(done), ..v };
                        lemma_consumers_frame(
                            v,
                            here,
                            ordered::sorted(routing::from_actor(v.subs, current)),
                        );
                    }
                },
                _ => {
                    assert(done + side =~= done);
                },
            }
            proof {
                done = done + side;
            }
        }
        assert(done + Seq::<ActorRef>::empty() =~= done);
    }

    /// Marks the draining consumers of an actor's routes.
    fn mark_consumers(&mut self, r: ActorRef)
        requires
            old(self).steady(),
        ensures
            final(self).steady(),
            final(self)@ == (WorldView {
                activity: old(self)@.activity.marked_all(
                    old(self)@.consumers(ordered::sorted(routing::from_actor(old(self)@.subs, r))),
                ),
                ..old(self)@
            }),
    {
        let ghost v = self@;
        let ids = self.subs.source_actor_ids(r);
        let mut i: usize = 0;
        assert(ids@.take(0) =~= Seq::<u64>::empty());
        while i < ids.len()
            invariant
                i <= ids.len(),
                self.steady(),
                v == old(self)@,
                ids@.to_set() == routing::from_actor(v.subs, r),
                self@ == (WorldView {
                    activity: v.activity.marked_all(v.consumers(ids@.take(i as int))),
                    ..v
                }),
            decreases ids.len() - i,
        {
            let id: u64 = ids[i];
            let ghost here = self@;
            let ghost seen = v.consumers(ids@.take(i as int));
            proof {
                assert(ids@.take(i + 1).drop_last() =~= ids@.take(i as int));
                assert(ids@.contains(id));
                assert(ids@.to_set().contains(id));
                assert(v.subs.dom().contains(id));
            }
            let route = self.subs.get(&id);
            match route {
                Some(route) => {
                    let draining: bool = match self.locate(route.target) {
                        Ok(k) => self.actors[k].state == Lifecycle::Quiescing,
                        Err(_) => false,
                    };
                    if draining {
                        self.mark_lineage(route.target);
                        proof {
                            lemma_lineage_frame(v, here, route.target);
                            crate::activity::lemma_marked_all_concat(
                                v.activity,
                                seen,
                                v.lineage(route.target),
                            );
                        }
                    } else {
                        assert(seen + Seq::<ActorRef>::empty() =~= seen);
                    }
                },
                None => {},
            }
            i += 1;
        }
        assert(ids@.take(i as int) =~= ids@);
    }

    fn mark_operation(&mut self, owner: ActorRef, target: Option<ActorRef>)
        requires
            old(self).steady(),
        ensures
            final(self).steady(),
            final(self)@ == old(self)@.marked_operation(owner, target),
    {
        self.mark(owner);
        match target {
            Some(target) => {
                if target != owner {
                    self.mark(target);
                }
            },
            None => {},
        }
    }

    fn mark_route(&mut self, route: Sub)
        requires
            old(self).steady(),
        ensures
            final(self).steady(),
            final(self)@ == old(self)@.marked_route(route),
    {
        self.mark(route.owner);
        if route.source != route.owner {
            self.mark(route.source);
        }
        if route.target != route.owner && route.target != route.source {
            self.mark(route.target);
        }
    }

    /// Brings the indexes of one slot up to date.
    fn reindex(&mut self, i: usize)
        requires
            old(self).solid(),
            i < old(self).actors@.len(),
            old(self).exact_but(i as int),
            old(self).no_ghosts(i as int),
            old(self)@.kin(),
            old(self)@.living(),
        ensures
            final(self).steady(),
            final(self)@ == old(self)@,
    {
        let ghost v = self@;
        proof {
            assert(v.actors[i as int] == self.actors@[i as int]@);
            lemma_placed(v, i as int);
            reveal(World::exact_but);
            reveal(World::no_ghosts);
        }
        let r = self.actors[i].reference;
        let earliest = self.actors[i].deadlines.first();
        let staged: bool = self.actors[i].staged.len() > 0;
        self.event_deadlines.set(r, earliest);
        if staged {
            let _prior = self.staged_actors.insert(r.slot, r);
        } else {
            let _gone = self.staged_actors.remove(&r.slot);
        }
        proof {
            assert(self@ == v);
            assert(self.actors_ok());
        }
    }
}

proof fn lemma_lineage_frame(v: WorldView, n: WorldView, r: ActorRef)
    requires
        n.id == v.id,
        n.actors == v.actors,
    ensures
        n.lineage(r) == v.lineage(r),
    decreases v.order(r),
{
    if v.valid(r) {
        match v.at(r).parent {
            Some(p) => {
                if v.order(p) < v.order(r) {
                    lemma_lineage_frame(v, n, p);
                }
            },
            None => {},
        }
    }
}

proof fn lemma_consumers_frame(v: WorldView, n: WorldView, ids: Seq<u64>)
    requires
        n.id == v.id,
        n.actors == v.actors,
        n.subs == v.subs,
    ensures
        n.consumers(ids) == v.consumers(ids),
    decreases ids.len(),
{
    if ids.len() > 0 {
        lemma_consumers_frame(v, n, ids.drop_last());
        lemma_lineage_frame(v, n, v.subs[ids.last()].target);
    }
}

} // verus!
