//! What the end of actors leaves alone: the end of routing, the interfaces, the
//! schemas and the count of entries that expired.
use vstd::prelude::*;
use super::{ActorView, World, WorldView};
use crate::clock::Instant;
use crate::diagnostics::DiagnosticCode;
use crate::held::Delivery;
use crate::operations::{OperationId, OutcomeView};
use crate::ordered;
use crate::publications::PublicationOutcome;
use crate::routing;
use crate::tally;
use crate::types;
use crate::types::{ActorRef, Lifecycle, Metrics};

verus! {

/// Whether routing ended, the interfaces and the schemas are the same in two
/// states.
pub open spec fn unmoved(v: WorldView, n: WorldView) -> bool {
    &&& n.routing_closed == v.routing_closed
    &&& n.closed == v.closed
    &&& n.cfg == v.cfg
    &&& n.epoch == v.epoch
    &&& n.interfaces == v.interfaces
    &&& n.schemas == v.schemas
}

/// The same, and no entry counts as expired in between.
pub open spec fn unexpired(v: WorldView, n: WorldView) -> bool {
    unmoved(v, n) && n.metrics.expired == v.metrics.expired
}

proof fn lemma_cancelled(v: WorldView, ids: Seq<u64>, outcome: PublicationOutcome)
    ensures
        unexpired(v, v.publications_cancelled(ids, outcome)),
    decreases ids.len(),
{
    if ids.len() > 0 {
        lemma_cancelled(v, ids.drop_last(), outcome);
    }
}

proof fn lemma_finalized(v: WorldView, r: ActorRef)
    ensures
        unexpired(v, v.finalized(r)),
    decreases v.order(r),
{
    reveal(WorldView::finalized);
    let seen = v.refreshed(r).marked(r);
    if v.valid(r) && seen.can_retire(r) {
        let gone = seen.retired(r).refreshed(r);
        let ops = gone.ops.owner_retired(r);
        super::actors::lemma_with_ops(gone, ops);
        let settled = gone.with_ops(ops);
        match v.at(r).parent {
            Some(p) => {
                let told = if settled.valid(p) {
                    settled.bereaved(p, r)
                } else {
                    settled
                };
                if told.order(p) < v.order(r) {
                    lemma_finalized(told, p);
                }
            },
            None => {},
        }
    }
}

proof fn lemma_notices(v: WorldView, supervisor: ActorRef, sources: Seq<ActorRef>)
    ensures
        unexpired(v, v.notices_dropped(supervisor, sources)),
    decreases sources.len(),
{
    if sources.len() > 0 {
        lemma_notices(v, supervisor, sources.drop_last());
        let m = v.notices_dropped(supervisor, sources.drop_last());
        let source = sources.last();
        let a = m.put(source, ActorView { notification: None, ..m.at(source) });
        let b = a.put(
            supervisor,
            ActorView {
                pending_failures: super::fence::less_one(a.at(supervisor).pending_failures),
                ..a.at(supervisor)
            },
        );
        lemma_finalized(
            WorldView {
                metrics: Metrics {
                    notifications_discarded: types::bumped(b.metrics.notifications_discarded),
                    ..b.metrics
                },
                ..b
            },
            source,
        );
    }
}

proof fn lemma_ops(v: WorldView, now: Instant, r: ActorRef)
    ensures
        unexpired(v, v.ops_fenced(now, r)),
{
    let ends = v.ops.ends_of(ordered::sorted(v.ops.pending_touching(r)));
    let asked = v.ops.wins(ordered::sorted(v.ops.owned(r)), OutcomeView::OwnerStopped);
    let mid = v.ops.owner_cancelled(r);
    let answered = mid.wins(ordered::sorted(mid.targeted(r)), OutcomeView::TargetStopped);
    super::actors::lemma_with_ops(v, mid.target_stopped(r));
    let a = v.with_ops(mid.target_stopped(r));
    super::endings::lemma_ends_marked(a, ends);
    let b = a.marked_ends(ends);
    let counted = WorldView {
        metrics: Metrics {
            operation_cancelled: types::raised(
                types::raised(b.metrics.operation_cancelled, asked),
                answered,
            ),
            ..b.metrics
        },
        ..b
    };
    super::endings::lemma_times_noted(counted, now, DiagnosticCode::Cancelled, Some(r), asked);
    super::endings::lemma_times_noted(
        counted.noted_times(now, DiagnosticCode::Cancelled, Some(r), asked),
        now,
        DiagnosticCode::Cancelled,
        Some(r),
        answered,
    );
}

/// The end of an actor moves nothing of this.
proof fn lemma_fenced(v: WorldView, now: Instant, r: ActorRef)
    ensures
        unexpired(v, v.fenced(now, r).0),
    decreases v.juniors(r), 2nat, 0nat,
{
    if v.valid(r) {
        let limit = v.juniors(r);
        lemma_cancelled(v, ordered::sorted(v.pubs.of_source(r)), PublicationOutcome::Cancelled);
        let a = v.severed(r);
        lemma_service_detached(a, now, r, limit);
        let b = a.service_detached(now, r, limit);
        if b.valid(r) {
            lemma_notices(b, r, b.reporting(b.at(r).children));
        }
        let c = b.notices_discarded(r);
        lemma_ops(c, now, r);
        let d = c.ops_fenced(now, r);
        lemma_children_fenced(d, now, d.at(r).children, limit);
        let w = d.children_fenced(now, d.at(r).children, limit).0;
        let ids = ordered::sorted(routing::touching(w.subs, r));
        super::endings::lemma_routes_alone(w, ids);
        let e = w.routes_dropped(ids);
        let gone = e.at(r);
        let cut = e.put(
            r,
            ActorView {
                state: Lifecycle::Stopping,
                queue: Seq::empty(),
                staged: Seq::empty(),
                ..gone
            },
        );
        super::actors::lemma_releasing_all(cut, super::expiring::staged_shares(gone.staged));
        super::actors::lemma_releasing_all(
            cut.releasing_all(super::expiring::staged_shares(gone.staged)),
            super::expiring::queued_shares(gone.queue),
        );
        lemma_finalized(e.stripped(r), r);
    }
}

proof fn lemma_service_detached(v: WorldView, now: Instant, r: ActorRef, limit: nat)
    ensures
        unexpired(v, v.service_detached(now, r, limit)),
    decreases limit, 1nat, 0nat,
{
    if v.services.records.dom().contains(r) {
        let scopes = ordered::sorted(v.services.scopes_of(r));
        let m = WorldView { services: v.services.unregistered(r), ..v };
        lemma_scopes_fenced(m, now, r, scopes, limit);
    }
}

proof fn lemma_scopes_fenced(
    v: WorldView,
    now: Instant,
    service: ActorRef,
    scopes: Seq<ActorRef>,
    limit: nat,
)
    ensures
        unexpired(v, v.scopes_fenced(now, service, scopes, limit)),
    decreases limit, 0nat, scopes.len(),
{
    if scopes.len() > 0 {
        lemma_scopes_fenced(v, now, service, scopes.drop_last(), limit);
        let m = v.scopes_fenced(now, service, scopes.drop_last(), limit);
        let k = m.lease_revoked(service, scopes.last());
        if k.valid(scopes.last()) && k.juniors(scopes.last()) < limit {
            lemma_fenced(k, now, scopes.last());
        }
    }
}

proof fn lemma_children_fenced(v: WorldView, now: Instant, children: Seq<ActorRef>, limit: nat)
    ensures
        unexpired(v, v.children_fenced(now, children, limit).0),
    decreases limit, 0nat, children.len(),
{
    if children.len() > 0 {
        lemma_children_fenced(v, now, children.drop_last(), limit);
        let (m, result) = v.children_fenced(now, children.drop_last(), limit);
        if result is Ok && m.valid(children.last()) && m.juniors(children.last()) < limit {
            lemma_fenced(m, now, children.last());
        }
    }
}

proof fn lemma_all_fenced(v: WorldView, now: Instant, refs: Seq<ActorRef>)
    ensures
        unexpired(v, v.all_fenced(now, refs)),
    decreases refs.len(),
{
    if refs.len() > 0 {
        lemma_all_fenced(v, now, refs.drop_last());
        lemma_fenced(v.all_fenced(now, refs.drop_last()), now, refs.last());
    }
}

proof fn lemma_quiesced(v: WorldView, r: ActorRef, root: ActorRef, deadline: Instant)
    ensures
        unexpired(v, v.quiesced(r, root, deadline).0),
    decreases v.juniors(r), 1nat, 0nat,
{
    if v.valid(r) && !super::is_ended(v.at(r).state) {
        let a = v.at(r);
        let shared = match a.drain_deadline {
            Some(previous) => crate::clock::earlier(deadline, previous),
            None => deadline,
        };
        lemma_all_quiesced(
            super::turning::hushing(v, r, root),
            a.children,
            root,
            shared,
            v.juniors(r),
        );
    }
}

proof fn lemma_all_quiesced(
    v: WorldView,
    children: Seq<ActorRef>,
    root: ActorRef,
    deadline: Instant,
    limit: nat,
)
    ensures
        unexpired(v, v.all_quiesced(children, root, deadline, limit).0),
    decreases limit, 0nat, children.len(),
{
    if children.len() > 0 {
        lemma_all_quiesced(v, children.drop_last(), root, deadline, limit);
        let (m, result) = v.all_quiesced(children.drop_last(), root, deadline, limit);
        if result is Ok && m.valid(children.last()) && m.juniors(children.last()) < limit {
            lemma_quiesced(m, children.last(), root, result->Ok_0);
        }
    }
}

proof fn lemma_draining(v: WorldView, now: Instant, r: ActorRef, deadline: Instant)
    ensures
        unexpired(v, v.draining(now, r, deadline).0),
{
    lemma_fenced(v, now, r);
    lemma_quiesced(v, r, r, deadline);
}

proof fn lemma_all_draining(v: WorldView, now: Instant, refs: Seq<ActorRef>, deadline: Instant)
    ensures
        unexpired(v, v.all_draining(now, refs, deadline)),
    decreases refs.len(),
{
    if refs.len() > 0 {
        lemma_all_draining(v, now, refs.drop_last(), deadline);
        lemma_draining(
            v.all_draining(now, refs.drop_last(), deadline),
            now,
            refs.last(),
            deadline,
        );
    }
}

proof fn lemma_drains_checked(v: WorldView, now: Instant, at: Instant, roots: Seq<ActorRef>)
    ensures
        unexpired(v, v.drains_checked(now, at, roots)),
    decreases roots.len(),
{
    if roots.len() > 0 {
        lemma_drains_checked(v, now, at, roots.drop_last());
        let m = v.drains_checked(now, at, roots.drop_last());
        let root = roots.last();
        let put = m.put(root, ActorView { drain_timed_out: true, ..m.at(root) });
        let k = WorldView {
            metrics: Metrics {
                drain_timeouts: types::bumped(put.metrics.drain_timeouts),
                ..put.metrics
            },
            ..put
        }.noted(at, DiagnosticCode::DrainTimeout, Some(root), None);
        lemma_fenced(k, at, root);
        lemma_fenced(m, at, root);
    }
}

/// How many entries wait in mailboxes or were put aside.
pub open spec fn entries(v: WorldView) -> nat {
    tally::tally(v.actors, |a: ActorView| a.queue.len() + a.staged.len())
}

proof fn lemma_raised(x: u64, a: nat, b: nat)
    requires
        a + b <= u64::MAX,
    ensures
        types::raised(types::raised(x, a), b) == types::raised(x, a + b),
        types::raised(x, 0) == x,
        types::raised(x, 1) == types::bumped(x),
{
}

proof fn lemma_timed(v: WorldView, now: Instant, at: Instant, id: OperationId, actor: Option<ActorRef>)
    ensures
        unexpired(v, v.timing_out(now, at, id, actor)),
        v.timing_out(now, at, id, actor).actors == v.actors,
{
    if v.op_is_due(now, id) {
        super::actors::lemma_with_ops(v, v.ops.completed(id, OutcomeView::TimedOut));
    }
}

proof fn lemma_deliveries(v: WorldView, now: Instant, at: Instant, dead: Seq<Delivery>)
    ensures
        unmoved(v, v.deliveries_expired(now, at, dead)),
        v.deliveries_expired(now, at, dead).actors == v.actors,
        dead.len() <= u64::MAX ==> v.deliveries_expired(now, at, dead).metrics.expired
            == types::raised(v.metrics.expired, dead.len()),
    decreases dead.len(),
{
    lemma_raised(v.metrics.expired, 0, 0);
    if dead.len() > 0 {
        lemma_deliveries(v, now, at, dead.drop_last());
        let m = v.deliveries_expired(now, at, dead.drop_last());
        let d = dead.last();
        let told = WorldView {
            metrics: Metrics {
                expired: types::bumped(m.metrics.expired),
                cancelled: types::bumped(m.metrics.cancelled),
                discarded: types::bumped(m.metrics.discarded),
                ..m.metrics
            },
            history: crate::diagnostics::recorded(
                m.history,
                at,
                DiagnosticCode::DeadlineExpired,
                Some(d.envelope.destination),
                d.operation,
                None,
                Some(d.envelope),
            ),
            ..m
        };
        if d.operation is Some {
            lemma_timed(told, now, at, d.operation->0, Some(d.envelope.destination));
        }
        if dead.len() <= u64::MAX {
            lemma_raised(v.metrics.expired, (dead.len() - 1) as nat, 1);
            lemma_raised(m.metrics.expired, 0, 1);
        }
    }
}

proof fn lemma_split(a: ActorView, now: Instant)
    ensures
        super::expiring::alive_queue(a.queue, now).len() + super::expiring::dead_queue(
            a.queue,
            now,
        ).len() == a.queue.len(),
        super::expiring::alive_staged(a.staged, now).len() + super::expiring::dead_staged(
            a.staged,
            now,
        ).len() == a.staged.len(),
    decreases a.queue.len() + a.staged.len(),
{
    if a.queue.len() > 0 {
        lemma_split(ActorView { queue: a.queue.drop_last(), ..a }, now);
    } else if a.staged.len() > 0 {
        lemma_split(ActorView { staged: a.staged.drop_last(), ..a }, now);
    }
}

/// Dropping what is late of an actor counts every entry that goes.
proof fn lemma_purged(v: WorldView, now: Instant, at: Instant, r: ActorRef)
    ensures
        unmoved(v, v.purged(now, at, r)),
        entries(v.purged(now, at, r)) <= entries(v),
        entries(v) <= u64::MAX ==> v.purged(now, at, r).metrics.expired == types::raised(
            v.metrics.expired,
            (entries(v) - entries(v.purged(now, at, r))) as nat,
        ),
{
    lemma_raised(v.metrics.expired, 0, 0);
    if v.valid(r) {
        let a = v.at(r);
        let dead = super::expiring::dead_queue(a.queue, now);
        let gone = super::expiring::dead_staged(a.staged, now);
        let b = ActorView {
            queue: super::expiring::alive_queue(a.queue, now),
            staged: super::expiring::alive_staged(a.staged, now),
            ..a
        };
        let left = v.put(r, b);
        lemma_deliveries(left, now, at, dead);
        let w = left.deliveries_expired(now, at, dead);
        super::actors::lemma_releasing_all(w, super::expiring::staged_shares(gone));
        let x = w.releasing_all(super::expiring::staged_shares(gone));
        let ids = super::expiring::staged_publications(gone);
        lemma_cancelled(x, ids, PublicationOutcome::Expired);
        super::fence::lemma_cancelled_actors(x, ids, PublicationOutcome::Expired);
        let f = x.publications_cancelled(ids, PublicationOutcome::Expired).marked(r).refreshed(r);
        let g = WorldView {
            metrics: Metrics {
                expired: types::raised(f.metrics.expired, gone.len()),
                cancelled: types::raised(f.metrics.cancelled, gone.len()),
                discarded: types::raised(f.metrics.discarded, gone.len()),
                ..f.metrics
            },
            ..f
        };
        super::endings::lemma_times_noted(
            g,
            at,
            DiagnosticCode::DeadlineExpired,
            Some(r),
            gone.len(),
        );
        lemma_split(a, now);
        tally::lemma_update(
            v.actors,
            |a: ActorView| a.queue.len() + a.staged.len(),
            r.slot as int,
            b,
        );
        assert(v.purged(now, at, r).actors == left.actors);
        if entries(v) <= u64::MAX {
            lemma_raised(v.metrics.expired, dead.len(), gone.len());
        }
    }
}

proof fn lemma_purged_all(v: WorldView, now: Instant, at: Instant, owners: Seq<ActorRef>)
    ensures
        unmoved(v, v.purged_all(now, at, owners)),
        entries(v.purged_all(now, at, owners)) <= entries(v),
        entries(v) <= u64::MAX ==> v.purged_all(now, at, owners).metrics.expired == types::raised(
            v.metrics.expired,
            (entries(v) - entries(v.purged_all(now, at, owners))) as nat,
        ),
    decreases owners.len(),
{
    lemma_raised(v.metrics.expired, 0, 0);
    if owners.len() > 0 {
        lemma_purged_all(v, now, at, owners.drop_last());
        let m = v.purged_all(now, at, owners.drop_last());
        lemma_purged(m, now, at, owners.last());
        let n = v.purged_all(now, at, owners);
        if entries(v) <= u64::MAX {
            lemma_raised(
                v.metrics.expired,
                (entries(v) - entries(m)) as nat,
                (entries(m) - entries(n)) as nat,
            );
        }
    }
}

proof fn lemma_timeouts(v: WorldView, at: Instant, ids: Seq<OperationId>)
    ensures
        unexpired(v, v.timeouts_noted(at, ids)),
        v.timeouts_noted(at, ids).actors == v.actors,
    decreases ids.len(),
{
    if ids.len() > 0 {
        lemma_timeouts(v, at, ids.drop_last());
    }
}

/// Everything that upkeep drops because it is late counts as expired: the count
/// grows by as many entries as leave mailboxes or what was put aside.
pub proof fn every_late_entry_counts_as_expired(v: WorldView, now: Instant, at: Instant)
    ensures
        entries(v.lapsed(now, at)) <= entries(v),
        entries(v) <= u64::MAX ==> v.lapsed(now, at).metrics.expired == types::raised(
            v.metrics.expired,
            (entries(v) - entries(v.lapsed(now, at))) as nat,
        ),
        v.maintained(now, at).metrics.expired == v.lapsed(now, at).metrics.expired,
        unmoved(v, v.maintained(now, at)),
{
    lemma_purged_all(v, now, at, ordered::sorted(v.overdue(now)));
    let a = v.events_expired(now, at);
    lemma_cancelled(a, a.pubs.due_order(now), PublicationOutcome::Expired);
    super::fence::lemma_cancelled_actors(
        a,
        a.pubs.due_order(now),
        PublicationOutcome::Expired,
    );
    let b = a.publications_expired(now);
    let ids = ordered::sorted(b.ops.due(now));
    super::actors::lemma_with_ops(b, b.ops.expired(now));
    let c = b.with_ops(b.ops.expired(now));
    let ends = b.ops.ends_of(ids);
    super::endings::lemma_ends_marked(c, ends);
    let d = c.marked_ends(ends);
    lemma_timeouts(
        WorldView {
            metrics: Metrics {
                operation_timed_out: types::raised(d.metrics.operation_timed_out, ids.len()),
                ..d.metrics
            },
            ..d
        },
        at,
        ids,
    );
    let m = v.lapsed(now, at);
    lemma_drains_checked(m, now, at, m.drain_list());
}

/// Only closing a World ends its routing: a stop, a drain and upkeep leave it
/// as it is.
pub proof fn only_a_close_ends_routing(
    v: WorldView,
    now: Instant,
    at: Instant,
    r: ActorRef,
    deadline: Instant,
)
    ensures
        v.stopping(now, r).0.routing_closed == v.routing_closed,
        v.draining_one(now, r, deadline).0.routing_closed == v.routing_closed,
        v.draining_all(now, deadline).routing_closed == v.routing_closed,
        v.maintained(now, at).routing_closed == v.routing_closed,
        v.closing(now).routing_closed,
{
    lemma_fenced(v, now, r);
    lemma_draining(v, now, r, deadline);
    every_late_entry_counts_as_expired(v.draining(now, r, deadline).0, now, now);
    every_late_entry_counts_as_expired(v, now, at);
    let shut = WorldView { closed: true, ..v };
    let refs = v.roots(v.actors.len(), false);
    lemma_all_draining(shut, now, refs, deadline);
    every_late_entry_counts_as_expired(shut.all_draining(now, refs, deadline), now, now);
    lemma_all_fenced(
        WorldView { closed: true, routing_closed: true, routing_dirty: true, ..v },
        now,
        v.roots(v.actors.len(), true),
    );
}

/// What an interface promises outlasts the actor that declared it: a stop, a
/// drain, upkeep and a close keep every interface.
pub proof fn interfaces_outlast_their_actors(
    v: WorldView,
    now: Instant,
    at: Instant,
    r: ActorRef,
    deadline: Instant,
)
    ensures
        v.stopping(now, r).0.interfaces == v.interfaces,
        v.draining_one(now, r, deadline).0.interfaces == v.interfaces,
        v.draining_all(now, deadline).interfaces == v.interfaces,
        v.maintained(now, at).interfaces == v.interfaces,
        v.closing(now).interfaces == v.interfaces,
{
    lemma_fenced(v, now, r);
    lemma_draining(v, now, r, deadline);
    every_late_entry_counts_as_expired(v.draining(now, r, deadline).0, now, now);
    every_late_entry_counts_as_expired(v, now, at);
    let shut = WorldView { closed: true, ..v };
    let refs = v.roots(v.actors.len(), false);
    lemma_all_draining(shut, now, refs, deadline);
    every_late_entry_counts_as_expired(shut.all_draining(now, refs, deadline), now, now);
    lemma_all_fenced(
        WorldView { closed: true, routing_closed: true, routing_dirty: true, ..v },
        now,
        v.roots(v.actors.len(), true),
    );
}

/// A World is closed by a close and by a drain of all, and by nothing else: it
/// stays closed, and a stop, a drain of one actor and upkeep close none. Its
/// limits stay what they were.
pub proof fn a_world_is_closed_on_request_only(
    v: WorldView,
    now: Instant,
    at: Instant,
    r: ActorRef,
    deadline: Instant,
)
    ensures
        v.closing(now).closed,
        v.draining_all(now, deadline).closed,
        v.stopping(now, r).0.closed == v.closed,
        v.draining_one(now, r, deadline).0.closed == v.closed,
        v.maintained(now, at).closed == v.closed,
        v.closing(now).cfg == v.cfg,
        v.draining_all(now, deadline).cfg == v.cfg,
        v.stopping(now, r).0.cfg == v.cfg,
        v.draining_one(now, r, deadline).0.cfg == v.cfg,
        v.maintained(now, at).cfg == v.cfg,
{
    lemma_fenced(v, now, r);
    lemma_draining(v, now, r, deadline);
    every_late_entry_counts_as_expired(v.draining(now, r, deadline).0, now, now);
    every_late_entry_counts_as_expired(v, now, at);
    let shut = WorldView { closed: true, ..v };
    let refs = v.roots(v.actors.len(), false);
    lemma_all_draining(shut, now, refs, deadline);
    every_late_entry_counts_as_expired(shut.all_draining(now, refs, deadline), now, now);
    lemma_all_fenced(
        WorldView { closed: true, routing_closed: true, routing_dirty: true, ..v },
        now,
        v.roots(v.actors.len(), true),
    );
}

} // verus!
