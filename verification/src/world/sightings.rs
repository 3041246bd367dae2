//! Whoever depends on a change sees it: queues, leases, operations, routes and
//! drains move the versions of those that watch them.
use vstd::prelude::*;
use super::WorldView;
use crate::activity::ActivityView;
use crate::clock::Instant;
use crate::envelope::MessageOptions;
use crate::held::Delivery;
use crate::operations::{OperationId, OutcomeView};
use crate::payload::Payload;
use crate::routing::Sub;
use crate::services::ServiceLease;
use crate::types::{ActorRef, Error, Lifecycle};

verus! {

/// Whether an actor is watched under its own slot.
pub open spec fn watched(a: ActivityView, x: ActorRef) -> bool {
    a.slots.dom().contains(x.slot) && a.slots[x.slot].actor == x
}

/// Whether what an actor shows never went back between two states.
spec fn onward(a: ActivityView, b: ActivityView, x: ActorRef) -> bool {
    watched(a, x) ==> {
        &&& watched(b, x)
        &&& a.slots[x.slot].overflow ==> b.slots[x.slot].overflow
        &&& b.slots[x.slot].version >= a.slots[x.slot].version
    }
}

/// Whether an actor that was watched shows something new: a later version, or
/// that versions ran out.
pub open spec fn moved(a: ActivityView, b: ActivityView, x: ActorRef) -> bool {
    watched(a, x) ==> {
        &&& watched(b, x)
        &&& b.slots[x.slot].version > a.slots[x.slot].version || b.slots[x.slot].overflow
    }
}

/// Whether a change is seen by all that depend on an actor.
pub open spec fn seen(v: WorldView, n: WorldView, r: ActorRef) -> bool {
    forall|x: ActorRef| #[trigger] n.dependents(r).contains(x) ==> moved(v.activity, n.activity, x)
}

proof fn lemma_marked(a: ActivityView, actors: Seq<ActorRef>, x: ActorRef)
    ensures
        onward(a, a.marked_all(actors), x),
        actors.contains(x) ==> moved(a, a.marked_all(actors), x),
    decreases actors.len(),
{
    if actors.len() > 0 {
        let rest = actors.drop_last();
        lemma_marked(a, rest, x);
        if actors.contains(x) {
            let k = actors.index_of(x);
            if k < rest.len() {
                assert(rest[k] == x);
            }
        }
    }
}

/// Who depends on an actor goes by the actors and the routes.
proof fn lemma_dependents(v: WorldView, n: WorldView, r: ActorRef)
    requires
        n.id == v.id,
        n.actors == v.actors,
        n.subs == v.subs,
    ensures
        n.dependents(r) == v.dependents(r),
    decreases v.order(r),
{
    if v.valid(r) {
        super::lemma_consumers_frame(
            v,
            n,
            crate::ordered::sorted(crate::routing::from_actor(v.subs, r)),
        );
        match v.at(r).parent {
            Some(p) => {
                if v.order(p) < v.order(r) {
                    lemma_dependents(v, n, p);
                }
            },
            None => {},
        }
    }
}

/// A mark is seen by all that depend on the actor.
proof fn lemma_mark(v: WorldView, n: WorldView, m: WorldView, r: ActorRef)
    requires
        n == m.marked(r),
        m.activity == v.activity,
    ensures
        seen(v, n, r),
{
    lemma_dependents(m, n, r);
    assert forall|x: ActorRef| #[trigger] n.dependents(r).contains(x) implies moved(
        v.activity,
        n.activity,
        x,
    ) by {
        lemma_marked(m.activity, m.dependents(r), x);
    }
}

/// What was seen stays seen, and another mark is seen too.
proof fn lemma_mark_more(v: WorldView, m: WorldView, n: WorldView, r: ActorRef, q: ActorRef)
    requires
        n == m.marked(r),
        seen(v, m, q),
        forall|x: ActorRef| onward(v.activity, m.activity, x),
    ensures
        seen(v, n, q),
        seen(v, n, r),
        forall|x: ActorRef| onward(v.activity, n.activity, x),
{
    lemma_dependents(m, n, r);
    lemma_dependents(m, n, q);
    assert forall|x: ActorRef| onward(v.activity, n.activity, x) by {
        lemma_marked(m.activity, m.dependents(r), x);
        assert(onward(v.activity, m.activity, x));
    }
    assert forall|x: ActorRef| #[trigger] n.dependents(q).contains(x) implies moved(
        v.activity,
        n.activity,
        x,
    ) by {
        lemma_marked(m.activity, m.dependents(r), x);
        assert(m.dependents(q).contains(x));
    }
    assert forall|x: ActorRef| #[trigger] n.dependents(r).contains(x) implies moved(
        v.activity,
        n.activity,
        x,
    ) by {
        lemma_marked(m.activity, m.dependents(r), x);
        assert(onward(v.activity, m.activity, x));
    }
}

proof fn lemma_mark_first(v: WorldView, m: WorldView, n: WorldView, r: ActorRef)
    requires
        n == m.marked(r),
        m.activity == v.activity,
    ensures
        seen(v, n, r),
        forall|x: ActorRef| onward(v.activity, n.activity, x),
{
    lemma_mark(v, n, m, r);
    assert forall|x: ActorRef| onward(v.activity, n.activity, x) by {
        lemma_marked(m.activity, m.dependents(r), x);
    }
}

/// Whoever depends on an actor sees an entry join or leave its mailbox.
pub proof fn queue_changes_are_seen(v: WorldView, r: ActorRef, d: Delivery)
    ensures
        seen(v, v.delivered(r, d), r),
        seen(v, v.unqueued(r), r),
{
    let n = v.delivered(r, d);
    lemma_mark(v, n, WorldView { activity: v.activity, ..n }, r);
    let n = v.unqueued(r);
    lemma_mark(v, n, WorldView { activity: v.activity, ..n }, r);
}

/// Whoever depends on an actor sees a message that is sent to it.
pub proof fn a_sent_message_is_seen(
    v: WorldView,
    now: Instant,
    r: ActorRef,
    p: Payload,
    charge: usize,
    options: MessageOptions,
)
    requires
        v.sending(now, r, p, charge, options).1 is Ok,
    ensures
        seen(v, v.sending(now, r, p, charge, options).0, r),
{
    let n = v.sending(now, r, p, charge, options).0;
    lemma_mark(v, n, WorldView { activity: v.activity, ..n }, r);
}

proof fn lemma_route(v: WorldView, m: WorldView, route: Sub)
    requires
        m.activity == v.activity,
    ensures
        seen(v, m.marked_route(route), route.owner),
        seen(v, m.marked_route(route), route.source),
        seen(v, m.marked_route(route), route.target),
{
    let a = m.marked(route.owner);
    lemma_mark_first(v, m, a, route.owner);
    let b = if route.source != route.owner {
        a.marked(route.source)
    } else {
        a
    };
    if route.source != route.owner {
        lemma_mark_more(v, a, b, route.source, route.owner);
    }
    if route.target != route.owner && route.target != route.source {
        lemma_mark_more(v, b, b.marked(route.target), route.target, route.owner);
        lemma_mark_more(v, b, b.marked(route.target), route.target, route.source);
    }
}

/// Whoever depends on the owner, the source or the target of a route sees it
/// come and go.
pub proof fn route_changes_are_seen(v: WorldView, route: Sub, id: u64)
    ensures
        seen(v, v.with_route(route), route.owner),
        seen(v, v.with_route(route), route.source),
        seen(v, v.with_route(route), route.target),
        seen(v, v.without_route(id), v.subs[id].owner),
        seen(v, v.without_route(id), v.subs[id].source),
        seen(v, v.without_route(id), v.subs[id].target),
{
    lemma_route(
        v,
        WorldView {
            subs: v.subs.insert(v.next_sub, route),
            next_sub: (v.next_sub + 1) as u64,
            ..v
        },
        route,
    );
    lemma_route(v, WorldView { subs: v.subs.remove(id), ..v }, v.subs[id]);
}

/// Whoever depends on either end of an operation sees it end.
pub proof fn an_operation_that_ends_is_seen(v: WorldView, id: OperationId, outcome: OutcomeView)
    requires
        v.ops.completing(id, outcome) == Ok::<bool, Error>(true),
    ensures
        seen(v, v.op_completed(id, outcome), v.ops.entry(id).ends().owner),
        seen(v, v.op_completed(id, outcome), v.ops.entry(id).ends().target),
{
    let ends = v.ops.entry(id).ends();
    let ops = v.ops.completed(id, outcome);
    super::actors::lemma_with_ops(v, ops);
    let m = v.with_ops(ops);
    let a = m.marked(ends.owner);
    lemma_mark_first(v, m, a, ends.owner);
    if ends.target != ends.owner {
        lemma_mark_more(v, a, a.marked(ends.target), ends.target, ends.owner);
    }
}

/// Whoever depends on either end of an operation sees it cancelled.
pub proof fn a_cancelled_operation_is_seen(v: WorldView, id: OperationId)
    requires
        v.cancelling_op(id).1 == Ok::<bool, Error>(true),
    ensures
        seen(v, v.cancelling_op(id).0, v.ops.entry(id).ends().owner),
        seen(v, v.cancelling_op(id).0, v.ops.entry(id).ends().target),
{
    an_operation_that_ends_is_seen(v, id, OutcomeView::Cancelled);
    let m = v.op_completed(id, OutcomeView::Cancelled);
    let n = v.cancelling_op(id).0;
    lemma_dependents(m, n, v.ops.entry(id).ends().owner);
    lemma_dependents(m, n, v.ops.entry(id).ends().target);
}

/// Whoever depends on the owner of an operation sees its outcome taken.
pub proof fn a_taken_outcome_is_seen(v: WorldView, id: OperationId)
    requires
        v.ops.has(id),
        v.ops.entry(id) is Terminal,
    ensures
        seen(v, v.taking_op(id), v.ops.entry(id).owner()),
{
    let r = v.ops.entry(id).owner();
    let ops = v.ops.taken(id);
    super::actors::lemma_with_ops(v, ops);
    let m = v.with_ops(ops);
    lemma_mark(v, m.marked(r), m, r);
    lemma_dependents(m.marked(r), v.taking_op(id), r);
}

/// Whoever depends on a service sees a lease on it.
pub proof fn a_lease_is_seen(v: WorldView, lease: ServiceLease)
    ensures
        seen(v, v.with_lease(lease), lease.service),
{
    let a = v.allocated(crate::types::EndpointKind::Native, Some(lease.owner));
    let seated = v.seated(crate::types::EndpointKind::Native, Some(lease.owner));
    let r = v.next_ref();
    lemma_mark_first(v, seated.refreshed(r), a, r);
    let b = a.put(
        lease.scope,
        super::ActorView { state: Lifecycle::Active, ..a.at(lease.scope) },
    ).refreshed(lease.scope);
    let c = WorldView { services: b.services.leased(lease), ..b };
    let d = c.marked(lease.scope);
    assert forall|x: ActorRef| onward(v.activity, d.activity, x) by {
        lemma_marked(c.activity, c.dependents(lease.scope), x);
        assert(onward(v.activity, c.activity, x));
    }
    let n = d.marked(lease.service);
    lemma_dependents(d, n, lease.service);
    assert forall|x: ActorRef| #[trigger] n.dependents(lease.service).contains(x) implies moved(
        v.activity,
        n.activity,
        x,
    ) by {
        lemma_marked(d.activity, d.dependents(lease.service), x);
        assert(onward(v.activity, d.activity, x));
    }
}

/// Whoever depends on the root of a drain sees its deadline come closer.
pub proof fn a_hastened_drain_is_seen(v: WorldView, r: ActorRef, deadline: Instant)
    requires
        v.hastened(r, deadline).1 is Ok,
    ensures
        seen(
            v,
            v.hastened(r, deadline).0,
            match v.at(r).drain_root {
                Some(root) => root,
                None => r,
            },
        ),
{
    let root = match v.at(r).drain_root {
        Some(root) => root,
        None => r,
    };
    let n = v.hastened(r, deadline).0;
    lemma_mark(v, n, WorldView { activity: v.activity, ..n }, root);
}

} // verus!
