//! What a refusal leaves behind: counts and records, and nothing else.
use vstd::prelude::*;
use super::{World, WorldView};
use crate::buffers;
use crate::clock::Instant;
use crate::components::PortRef;
use crate::envelope::MessageOptions;
use crate::operations;
use crate::operations::{OperationId, OpsView};
use crate::payload::Payload;
use crate::types::{ActorRef, Error, Lifecycle};

verus! {

/// Whether two tables hold the same operations, under the same identities.
pub open spec fn same_operations(a: OpsView, b: OpsView) -> bool {
    &&& forall|id: OperationId| #[trigger] b.has(id) <==> a.has(id)
    &&& forall|id: OperationId| #[trigger] b.has(id) ==> b.entry(id) == a.entry(id)
}

/// Whether a World has in both states the same actors with the same mailboxes,
/// the same routes, operations, publications, tickets and services, and retains
/// the same bytes.
pub open spec fn only_counted(v: WorldView, n: WorldView) -> bool {
    &&& n.actors == v.actors
    &&& n.subs == v.subs
    &&& same_operations(v.ops, n.ops)
    &&& n.pubs.entries == v.pubs.entries
    &&& n.pubs.tickets == v.pubs.tickets
    &&& n.pubs.ready == v.pubs.ready
    &&& n.services == v.services
    &&& n.activity == v.activity
    &&& n.budget.shares == v.budget.shares
    &&& n.budget.used() == v.budget.used()
}

/// A reservation that is withdrawn changes the operations by a spent identity
/// alone.
proof fn lemma_withdrawn(
    v: WorldView,
    owner: ActorRef,
    target: ActorRef,
    deadline: Instant,
)
    requires
        v.ops.slotted(),
        v.ops.dropped == Seq::<u64>::empty(),
        v.ops.refuses(owner, target) is None,
    ensures
        ({
            let id = v.ops.next_id();
            let mid = v.with_ops(v.ops.reserved(owner, target, deadline));
            &&& mid == (WorldView { ops: v.ops.reserved(owner, target, deadline), ..v })
            &&& mid.ops.released(id).dropped == Seq::<u64>::empty()
            &&& same_operations(v.ops, mid.ops.released(id))
        }),
{
    operations::a_withdrawn_operation_leaves_no_trace(v.ops, owner, target, deadline);
    let ops = v.ops.reserved(owner, target, deadline);
    assert(OpsView { dropped: Seq::empty(), ..ops } =~= ops);
}

/// A request that is refused leaves mailboxes, routes, operations, publications,
/// services and retained bytes as they were.
pub proof fn a_refused_request_is_only_counted(
    world: World,
    now: Instant,
    owner: ActorRef,
    target: ActorRef,
    p: Payload,
    charge: usize,
    deadline: Instant,
    options: MessageOptions,
    port: Option<PortRef>,
)
    requires
        world.inv(),
        world@.requesting(now, owner, target, p, charge, deadline, options, port).1 is Err,
    ensures
        only_counted(
            world@,
            world@.requesting(now, owner, target, p, charge, deadline, options, port).0,
        ),
{
    world.lemma_budget();
    world.lemma_operations();
    world.lemma_sound();
    super::lemma_sound_parts(world@);
    let v = world@.submitting();
    let full = super::requests::request_options(owner, deadline, options);
    if v.ops.refuses(owner, target) is None {
        lemma_withdrawn(v, owner, target, full.deadline->0);
        let id = v.ops.next_id();
        let mid = v.with_ops(v.ops.reserved(owner, target, full.deadline->0));
        let gone = mid.ops.released(id);
        assert(OpsView { dropped: Seq::empty(), ..gone } =~= gone);
        if mid.refuses_payload(p, charge, full) is None {
            buffers::reserve_then_release(mid.budget, WorldView::cost(charge, full) as usize);
            let stored = mid.stored_next(p, charge, full, None);
            let n = mid.storing(charge, full).admission(
                now,
                target,
                stored,
                None,
                false,
                Some(id),
            ).0;
            let back = n.releasing(stored.id);
            if mid.storing(charge, full).admission(
                now,
                target,
                stored,
                None,
                false,
                Some(id),
            ).1 is Err {
                assert(back.ops == mid.ops);
                assert(back.with_ops(back.ops.released(id)).ops == gone);
            }
        }
    }
}

/// A publication that is refused leaves mailboxes, routes, operations,
/// publications, tickets, services and retained bytes as they were.
pub proof fn a_refused_publication_is_only_counted(
    world: World,
    now: Instant,
    source: ActorRef,
    p: Payload,
    charge: usize,
    completion: Option<ActorRef>,
    port: Option<u16>,
    options: MessageOptions,
)
    requires
        world.inv(),
        world@.publishing(now, source, p, charge, completion, port, options).1 is Err,
    ensures
        only_counted(
            world@,
            world@.publishing(now, source, p, charge, completion, port, options).0,
        ),
{
    world.lemma_budget();
    world.lemma_publications();
    let v = world@.publication_submitted();
    let full = super::publishing::from_source(source, options);
    let staged = v.execution(source) == Ok::<Lifecycle, Error>(Lifecycle::Starting);
    if v.pubs.refuses(source) is None {
        let id = v.pubs.next_id;
        assert(!v.pubs.tickets.dom().contains(id));
        assert(!v.pubs.entries.dom().contains(id));
        let mid = v.pubs.reserved(source, staged);
        assert(mid.ticket_released(id).tickets =~= v.pubs.tickets);
        if v.refuses_payload(p, charge, full) is None {
            buffers::reserve_then_release(v.budget, WorldView::cost(charge, full) as usize);
        }
    }
}

/// A structured payload that another World made is refused, whatever it is for.
pub proof fn a_foreign_payload_is_refused(
    v: WorldView,
    now: Instant,
    r: ActorRef,
    p: Payload,
    charge: usize,
    options: MessageOptions,
    target: ActorRef,
    deadline: Instant,
    answer: Option<PortRef>,
    completion: Option<ActorRef>,
    port: Option<u16>,
)
    requires
        p is Structured,
        p->Structured_0.world_id() != v.id,
    ensures
        v.sending(now, r, p, charge, options).1 == Err::<u64, Error>(
            if options.valid() {
                Error::CrossWorld
            } else {
                Error::InvalidMetadata
            },
        ),
        v.holding(now, p, charge, options).1 is Err,
        v.requesting(now, r, target, p, charge, deadline, options, answer).1 is Err,
        v.publishing(now, r, p, charge, completion, port, options).1 is Err,
{
}

} // verus!
