//! Identities, lifecycle states, limits and errors shared by the runtime.
use vstd::prelude::*;
use crate::ordered::Key;

verus! {

/// Admission limits of one World.
#[derive(Clone, Copy, Debug)]
pub struct Config {
    pub max_actors: usize,
    pub mailbox_capacity: usize,
    pub mailbox_bytes: usize,
    pub native_payload_budget: usize,
    pub max_subscriptions: usize,
    pub max_event_bytes: usize,
    pub max_operations: usize,
    pub diagnostic_capacity: usize,
    pub max_schemas: usize,
    pub max_services: usize,
    pub max_service_leases: usize,
    pub max_leases_per_actor: usize,
    pub max_publications: usize,
    pub max_publications_per_source: usize,
    pub max_publication_fanout: usize,
    pub max_routing_snapshot_entries: usize,
    pub routing_batch_size: usize,
}

impl Config {
    /// The limits that a World accepts.
    pub open spec fn accepted(self) -> bool {
        &&& 0 < self.max_actors <= u32::MAX
        &&& 0 < self.mailbox_capacity
        &&& 0 < self.mailbox_bytes
        &&& 0 < self.native_payload_budget
        &&& 0 < self.max_event_bytes
        &&& 0 < self.max_operations <= u32::MAX
        &&& 0 < self.max_schemas <= 65536
        &&& self.max_services <= 4096
        &&& self.max_service_leases <= 65536
        &&& self.max_leases_per_actor <= 1024
        &&& 1 <= self.max_publications <= 65536
        &&& 1 <= self.max_publications_per_source <= self.max_publications
        &&& 1 <= self.max_publication_fanout <= 65536
        &&& 1 <= self.max_routing_snapshot_entries <= 1048576
        &&& 1 <= self.routing_batch_size <= 4096
    }

    /// Whether every limit lies in its accepted range.
    pub fn is_accepted(&self) -> (r: bool)
        ensures
            r == self.accepted(),
            r ==> self.max_actors >= 1 && self.max_actors <= 0xffff_ffff,
            r ==> self.mailbox_capacity >= 1 && self.mailbox_bytes >= 1,
            r ==> self.native_payload_budget >= 1 && self.max_event_bytes >= 1,
            r ==> self.max_operations >= 1 && self.max_operations <= 0xffff_ffff,
            r ==> self.max_schemas >= 1 && self.max_schemas <= 0x1_0000,
            r ==> self.max_services <= 0x1000,
            r ==> self.max_service_leases <= 0x1_0000,
            r ==> self.max_leases_per_actor <= 0x400,
            r ==> self.max_publications >= 1 && self.max_publications <= 0x1_0000,
            r ==> self.max_publications_per_source >= 1 && self.max_publications_per_source
                <= self.max_publications,
            r ==> self.max_publication_fanout >= 1 && self.max_publication_fanout <= 0x1_0000,
            r ==> self.max_routing_snapshot_entries >= 1 && self.max_routing_snapshot_entries
                <= 0x10_0000,
            r ==> self.routing_batch_size >= 1 && self.routing_batch_size <= 0x1000,
            !r ==> {
                ||| self.max_actors == 0 || self.max_actors > 0xffff_ffff
                ||| self.mailbox_capacity == 0 || self.mailbox_bytes == 0
                ||| self.native_payload_budget == 0 || self.max_event_bytes == 0
                ||| self.max_operations == 0 || self.max_operations > 0xffff_ffff
                ||| self.max_schemas == 0 || self.max_schemas > 0x1_0000
                ||| self.max_services > 0x1000 || self.max_service_leases > 0x1_0000
                ||| self.max_leases_per_actor > 0x400
                ||| self.max_publications == 0 || self.max_publications > 0x1_0000
                ||| self.max_publications_per_source == 0
                ||| self.max_publications_per_source > self.max_publications
                ||| self.max_publication_fanout == 0 || self.max_publication_fanout > 0x1_0000
                ||| self.max_routing_snapshot_entries == 0
                ||| self.max_routing_snapshot_entries > 0x10_0000
                ||| self.routing_batch_size == 0 || self.routing_batch_size > 0x1000
            },
    {
        0 < self.max_actors && self.max_actors <= u32::MAX as usize && 0 < self.mailbox_capacity && 0
            < self.mailbox_bytes && 0 < self.native_payload_budget && 0 < self.max_event_bytes && 0
            < self.max_operations && self.max_operations <= u32::MAX as usize && 0
            < self.max_schemas && self.max_schemas <= 65536 && self.max_services <= 4096
            && self.max_service_leases <= 65536 && self.max_leases_per_actor <= 1024 && 1
            <= self.max_publications && self.max_publications <= 65536 && 1
            <= self.max_publications_per_source && self.max_publications_per_source
            <= self.max_publications && 1 <= self.max_publication_fanout
            && self.max_publication_fanout <= 65536 && 1 <= self.max_routing_snapshot_entries
            && self.max_routing_snapshot_entries <= 1048576 && 1 <= self.routing_batch_size
            && self.routing_batch_size <= 4096
    }
}

pub open spec fn default_config() -> Config {
    Config {
        max_actors: 1024,
        mailbox_capacity: 64,
        mailbox_bytes: 1048576,
        native_payload_budget: 16777216,
        max_subscriptions: 4096,
        max_event_bytes: 1048576,
        max_operations: 1024,
        diagnostic_capacity: 1024,
        max_schemas: 128,
        max_services: 64,
        max_service_leases: 1024,
        max_leases_per_actor: 16,
        max_publications: 256,
        max_publications_per_source: 32,
        max_publication_fanout: 4096,
        max_routing_snapshot_entries: 16384,
        routing_batch_size: 32,
    }
}

impl Default for Config {
    fn default() -> (r: Self)
        ensures
            r == default_config(),
            r.accepted(),
            r.max_actors == 1024 && r.mailbox_capacity == 64 && r.mailbox_bytes == 1024 * 1024,
            r.native_payload_budget == 16 * 1024 * 1024 && r.max_event_bytes == 1024 * 1024,
            r.max_subscriptions == 4096 && r.max_operations == 1024 && r.diagnostic_capacity
                == 1024,
            r.max_schemas == 128 && r.max_services == 64 && r.max_service_leases == 1024,
            r.max_leases_per_actor == 16 && r.max_publications == 256,
            r.max_publications_per_source == 32 && r.max_publication_fanout == 4096,
            r.max_routing_snapshot_entries == 16384 && r.routing_batch_size == 32,
    {
        Config {
            max_actors: 1024,
            mailbox_capacity: 64,
            mailbox_bytes: 1048576,
            native_payload_budget: 16777216,
            max_subscriptions: 4096,
            max_event_bytes: 1048576,
            max_operations: 1024,
            diagnostic_capacity: 1024,
            max_schemas: 128,
            max_services: 64,
            max_service_leases: 1024,
            max_leases_per_actor: 16,
            max_publications: 256,
            max_publications_per_source: 32,
            max_publication_fanout: 4096,
            max_routing_snapshot_entries: 16384,
            routing_batch_size: 32,
        }
    }
}

/// Why a request was refused.
#[derive(Clone, Copy, Debug, PartialEq, Eq, Structural)]
pub enum Error {
    QueueFull,
    BudgetExceeded,
    ActorNotReady,
    ActorStopped,
    StaleReference,
    CrossWorld,
    LimitExceeded,
    InvalidConfig,
    NotFound,
    DuplicateSubscription,
    SchemaMismatch,
    InvalidPort,
    InterfaceMismatch,
    InvalidMetadata,
    DeadlineExpired,
}

/// One generation of one actor slot of one World.
#[derive(Clone, Copy, Debug, PartialEq, Eq, Hash, Structural)]
pub struct ActorRef {
    pub world: u64,
    pub slot: u32,
    pub generation: u64,
}

/// Ordered by slot, then generation, then World.
impl Key for ActorRef {
    open spec fn lt(a: Self, b: Self) -> bool {
        a.slot < b.slot || (a.slot == b.slot && (a.generation < b.generation || (a.generation
            == b.generation && a.world < b.world)))
    }

    proof fn lt_irreflexive(a: Self) {
    }

    proof fn lt_transitive(a: Self, b: Self, c: Self) {
    }

    proof fn lt_total(a: Self, b: Self) {
    }

    fn less(&self, other: &Self) -> (r: bool) {
        self.slot < other.slot || (self.slot == other.slot && (self.generation < other.generation
            || (self.generation == other.generation && self.world < other.world)))
    }
}

/// Who drives an actor's callbacks.
#[derive(Clone, Copy, Debug, PartialEq, Eq, Structural)]
pub enum EndpointKind {
    Native,
    Python,
}

impl Default for EndpointKind {
    fn default() -> (r: Self)
        ensures
            r == EndpointKind::Native,
    {
        EndpointKind::Native
    }
}

#[derive(Clone, Copy, Debug, PartialEq, Eq, Structural)]
pub enum Lifecycle {
    Starting,
    Active,
    Quiescing,
    Stopping,
    Stopped,
}

pub type SubscriptionId = u64;

/// A counter step; the counters of a World wrap.
pub open spec fn bumped(n: u64) -> u64 {
    n.wrapping_add(1)
}

/// A counter after several steps.
pub open spec fn raised(n: u64, by: nat) -> u64 {
    n.wrapping_add(by as u64)
}

/// Counters over a World's lifetime. They wrap on overflow.
#[derive(Clone, Copy, Debug, PartialEq, Eq, Structural)]
pub struct Metrics {
    pub publication_submitted: u64,
    pub publication_admitted: u64,
    pub publication_rejected: u64,
    pub publication_completed: u64,
    pub publication_cancelled: u64,
    pub publication_expired: u64,
    pub publication_failed: u64,
    pub submitted: u64,
    pub admitted: u64,
    pub rejected: u64,
    pub started: u64,
    pub completed: u64,
    pub failed: u64,
    pub cancelled: u64,
    pub discarded: u64,
    pub expired: u64,
    pub drain_timeouts: u64,
    pub operation_completed: u64,
    pub operation_timed_out: u64,
    pub operation_cancelled: u64,
    pub operation_late_results: u64,
    pub failures: u64,
    pub notifications_coalesced: u64,
    pub notifications_delivered: u64,
    pub notifications_discarded: u64,
}

pub open spec fn zero_metrics() -> Metrics {
    Metrics {
        publication_submitted: 0,
        publication_admitted: 0,
        publication_rejected: 0,
        publication_completed: 0,
        publication_cancelled: 0,
        publication_expired: 0,
        publication_failed: 0,
        submitted: 0,
        admitted: 0,
        rejected: 0,
        started: 0,
        completed: 0,
        failed: 0,
        cancelled: 0,
        discarded: 0,
        expired: 0,
        drain_timeouts: 0,
        operation_completed: 0,
        operation_timed_out: 0,
        operation_cancelled: 0,
        operation_late_results: 0,
        failures: 0,
        notifications_coalesced: 0,
        notifications_delivered: 0,
        notifications_discarded: 0,
    }
}

impl Default for Metrics {
    fn default() -> (r: Self)
        ensures
            r == zero_metrics(),
    {
        Metrics {
            publication_submitted: 0,
            publication_admitted: 0,
            publication_rejected: 0,
            publication_completed: 0,
            publication_cancelled: 0,
            publication_expired: 0,
            publication_failed: 0,
            submitted: 0,
            admitted: 0,
            rejected: 0,
            started: 0,
            completed: 0,
            failed: 0,
            cancelled: 0,
            discarded: 0,
            expired: 0,
            drain_timeouts: 0,
            operation_completed: 0,
            operation_timed_out: 0,
            operation_cancelled: 0,
            operation_late_results: 0,
            failures: 0,
            notifications_coalesced: 0,
            notifications_delivered: 0,
            notifications_discarded: 0,
        }
    }
}

/// A counter goes up by what is counted, as long as it can.
pub proof fn a_counter_goes_up(n: u64, by: nat)
    ensures
        n < u64::MAX ==> bumped(n) == n + 1,
        n + by <= u64::MAX ==> raised(n, by) == n + by,
{
}

/// References are ordered by their slot, then by their generation, then by their
/// World; of two that differ one comes first.
pub proof fn references_are_ordered_by_slot(a: ActorRef, b: ActorRef)
    ensures
        a.slot < b.slot ==> ActorRef::lt(a, b) && !ActorRef::lt(b, a),
        a.slot == b.slot && a.generation < b.generation ==> ActorRef::lt(a, b) && !ActorRef::lt(
            b,
            a,
        ),
        a.slot == b.slot && a.generation == b.generation && a.world < b.world ==> ActorRef::lt(
            a,
            b,
        ) && !ActorRef::lt(b, a),
        !ActorRef::lt(a, a),
{
}

} // verus!
