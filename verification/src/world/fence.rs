//! The fence: an actor and everything below it is cut off and comes to an end.
use vstd::prelude::*;
use super::{ActorView, World, WorldView};
use crate::clock::Instant;
use crate::diagnostics::DiagnosticCode;
use crate::held;
use crate::held::{Delivery, Staged};
use crate::operations::{OperationOwner, OutcomeView};
use crate::ordered;
use crate::publications::PublicationOutcome;
use crate::routing;
use crate::services;
use crate::services::ServiceLease;
use crate::types;
use crate::types::{ActorRef, Error, Lifecycle, Metrics};

verus! {

impl WorldView {
    /// How many actors can be younger than an actor.
    pub open spec fn juniors(self, r: ActorRef) -> nat {
        if self.order(r) < self.next_ready_order {
            (self.next_ready_order - self.order(r)) as nat
        } else {
            0
        }
    }

    /// After a scope gave its lease back.
    pub open spec fn scope_detached(self, scope: ActorRef) -> WorldView {
        if self.services.leases.dom().contains(scope) {
            let lease = self.services.leases[scope];
            WorldView { services: self.services.unleased(scope), ..self }.marked(
                lease.owner,
            ).marked(lease.service)
        } else {
            self
        }
    }

    /// After a lease on a service that ends was taken away.
    pub open spec fn lease_revoked(self, service: ActorRef, scope: ActorRef) -> WorldView {
        if self.services.leases.dom().contains(scope) {
            WorldView { services: self.services.unleased(scope), ..self }.marked(
                self.services.leases[scope].owner,
            ).marked(service)
        } else {
            self.marked(service)
        }
    }

    /// The children whose failures wait for their supervisor.
    pub open spec fn reporting(self, children: Seq<ActorRef>) -> Seq<ActorRef>
        decreases children.len(),
    {
        if children.len() == 0 {
            Seq::empty()
        } else {
            let c = children.last();
            if self.valid(c) && self.at(c).notification is Some {
                self.reporting(children.drop_last()).push(c)
            } else {
                self.reporting(children.drop_last())
            }
        }
    }

    /// After one waiting failure of a child was dropped.
    pub open spec fn notice_dropped(self, supervisor: ActorRef, source: ActorRef) -> WorldView {
        let v = self.put(source, ActorView { notification: None, ..self.at(source) });
        let a = v.at(supervisor);
        let n = v.put(
            supervisor,
            ActorView { pending_failures: less_one(a.pending_failures), ..a },
        );
        WorldView {
            metrics: Metrics {
                notifications_discarded: types::bumped(n.metrics.notifications_discarded),
                ..n.metrics
            },
            ..n
        }.finalized(source)
    }

    pub open spec fn notices_dropped(self, supervisor: ActorRef, sources: Seq<ActorRef>) -> WorldView
        decreases sources.len(),
    {
        if sources.len() == 0 {
            self
        } else {
            self.notices_dropped(supervisor, sources.drop_last()).notice_dropped(
                supervisor,
                sources.last(),
            )
        }
    }

    /// After the waiting failures of an actor's children were dropped.
    pub open spec fn notices_discarded(self, supervisor: ActorRef) -> WorldView {
        if !self.valid(supervisor) {
            self
        } else {
            let sources = self.reporting(self.at(supervisor).children);
            let v = self.notices_dropped(supervisor, sources);
            (if sources.len() > 0 {
                v.marked(supervisor)
            } else {
                v
            }).refreshed(supervisor)
        }
    }

    pub open spec fn marked_ends(self, ends: Seq<OperationOwner>) -> WorldView
        decreases ends.len(),
    {
        if ends.len() == 0 {
            self
        } else {
            self.marked_ends(ends.drop_last()).marked_operation(
                ends.last().owner,
                Some(ends.last().target),
            )
        }
    }

    /// After every operation of an actor ended, asked by it or of it.
    pub open spec fn ops_fenced(self, now: Instant, r: ActorRef) -> WorldView {
        let ends = self.ops.ends_of(ordered::sorted(self.ops.pending_touching(r)));
        let asked = self.ops.wins(ordered::sorted(self.ops.owned(r)), OutcomeView::OwnerStopped);
        let mid = self.ops.owner_cancelled(r);
        let answered = mid.wins(ordered::sorted(mid.targeted(r)), OutcomeView::TargetStopped);
        let v = self.with_ops(mid.target_stopped(r)).marked_ends(ends);
        WorldView {
            metrics: Metrics {
                operation_cancelled: types::raised(
                    types::raised(v.metrics.operation_cancelled, asked),
                    answered,
                ),
                ..v.metrics
            },
            ..v
        }.noted_times(now, DiagnosticCode::Cancelled, Some(r), asked).noted_times(
            now,
            DiagnosticCode::Cancelled,
            Some(r),
            answered,
        )
    }

    pub open spec fn routes_dropped(self, ids: Seq<u64>) -> WorldView
        decreases ids.len(),
    {
        if ids.len() == 0 {
            self
        } else {
            let v = self.routes_dropped(ids.drop_last());
            if v.subs.dom().contains(ids.last()) {
                v.without_route(ids.last())
            } else {
                v
            }
        }
    }

    /// After an actor lost its entries and stops.
    pub open spec fn stripped(self, r: ActorRef) -> WorldView {
        let a = self.at(r);
        let v = self.put(
            r,
            ActorView {
                state: Lifecycle::Stopping,
                queue: Seq::empty(),
                staged: Seq::empty(),
                ..a
            },
        ).releasing_all(super::expiring::staged_shares(a.staged)).releasing_all(
            super::expiring::queued_shares(a.queue),
        );
        WorldView {
            metrics: Metrics {
                cancelled: types::raised(
                    types::raised(v.metrics.cancelled, a.staged.len()),
                    a.queue.len(),
                ),
                discarded: types::raised(
                    types::raised(v.metrics.discarded, a.staged.len()),
                    a.queue.len(),
                ),
                ..v.metrics
            },
            ..v
        }
    }

    /// After an actor lost its routes and entries and waits for its end.
    pub open spec fn halted(self, r: ActorRef) -> WorldView {
        self.routes_dropped(ordered::sorted(routing::touching(self.subs, r))).stripped(
            r,
        ).finalized(r)
    }

    /// The first part of a fence, which touches the actor alone.
    pub open spec fn severed(self, r: ActorRef) -> WorldView {
        let v = self.source_silenced(r);
        WorldView { drain_roots: v.drain_roots.remove(r.slot), ..v }.scope_detached(r)
    }

    /// Cuts an actor off: its publications, leases, operations, children,
    /// routes and entries, in this order.
    pub open spec fn fenced(self, now: Instant, r: ActorRef) -> (WorldView, Result<(), Error>)
        decreases self.juniors(r), 2nat, 0nat,
    {
        if !self.valid(r) {
            (self, Err(self.stale(r)))
        } else {
            let limit = self.juniors(r);
            let quiet = self.severed(r).service_detached(now, r, limit).notices_discarded(
                r,
            ).ops_fenced(now, r);
            let (v, below) = quiet.children_fenced(now, quiet.at(r).children, limit);
            match below {
                Err(e) => (v, Err(e)),
                Ok(_) => if v.at(r).state == Lifecycle::Stopped {
                    (v, Ok(()))
                } else {
                    (v.halted(r), Ok(()))
                },
            }
        }
    }

    /// A service leaves the registry, and what had leased it is cut off.
    pub open spec fn service_detached(self, now: Instant, r: ActorRef, limit: nat) -> WorldView
        decreases limit, 1nat, 0nat,
    {
        if self.services.records.dom().contains(r) {
            let scopes = ordered::sorted(self.services.scopes_of(r));
            WorldView { services: self.services.unregistered(r), ..self }.scopes_fenced(
                now,
                r,
                scopes,
                limit,
            )
        } else {
            self
        }
    }

    /// Cuts off the scopes that had leased a service.
    pub open spec fn scopes_fenced(
        self,
        now: Instant,
        service: ActorRef,
        scopes: Seq<ActorRef>,
        limit: nat,
    ) -> WorldView
        decreases limit, 0nat, scopes.len(),
    {
        if scopes.len() == 0 {
            self
        } else {
            let scope = scopes.last();
            let v = self.scopes_fenced(now, service, scopes.drop_last(), limit).lease_revoked(
                service,
                scope,
            );
            if v.valid(scope) && v.juniors(scope) < limit {
                v.fenced(now, scope).0
            } else {
                v
            }
        }
    }

    /// Cuts off the children of an actor.
    pub open spec fn children_fenced(self, now: Instant, children: Seq<ActorRef>, limit: nat) -> (
        WorldView,
        Result<(), Error>,
    )
        decreases limit, 0nat, children.len(),
    {
        if children.len() == 0 {
            (self, Ok(()))
        } else {
            let (v, result) = self.children_fenced(now, children.drop_last(), limit);
            let child = children.last();
            if result is Err {
                (v, result)
            } else if v.valid(child) && v.juniors(child) < limit {
                v.fenced(now, child)
            } else {
                (v, Err(v.stale(child)))
            }
        }
    }
}

pub open spec fn less_one(n: usize) -> usize {
    if n == 0 {
        0
    } else {
        (n - 1) as usize
    }
}

/// Whether two states of a World have equal actors.
pub open spec fn same_actors(v: WorldView, n: WorldView) -> bool {
    &&& n.id == v.id
    &&& n.cfg == v.cfg
    &&& n.clock == v.clock
    &&& n.next_ready_order == v.next_ready_order
    &&& n.actors == v.actors
}

pub proof fn lemma_cancelled_actors(v: WorldView, ids: Seq<u64>, outcome: PublicationOutcome)
    ensures
        same_actors(v, v.publications_cancelled(ids, outcome)),
    decreases ids.len(),
{
    if ids.len() > 0 {
        lemma_cancelled_actors(v, ids.drop_last(), outcome);
    }
}

pub proof fn lemma_noted_times(
    v: WorldView,
    now: Instant,
    code: DiagnosticCode,
    actor: Option<ActorRef>,
    n: nat,
)
    ensures
        same_actors(v, v.noted_times(now, code, actor, n)),
    decreases n,
{
    if n > 0 {
        lemma_noted_times(v, now, code, actor, (n - 1) as nat);
    }
}

proof fn lemma_marked_ends(v: WorldView, ends: Seq<OperationOwner>)
    ensures
        same_actors(v, v.marked_ends(ends)),
    decreases ends.len(),
{
    if ends.len() > 0 {
        lemma_marked_ends(v, ends.drop_last());
    }
}

proof fn lemma_routes_dropped(v: WorldView, ids: Seq<u64>)
    ensures
        same_actors(v, v.routes_dropped(ids)),
    decreases ids.len(),
{
    if ids.len() > 0 {
        lemma_routes_dropped(v, ids.drop_last());
    }
}

/// Rosters chain.
pub proof fn lemma_roster_chain(a: WorldView, b: WorldView, c: WorldView)
    requires
        b.same_roster(a),
        c.same_roster(b),
    ensures
        c.same_roster(a),
{
    assert forall|i: int| 0 <= i < c.actors.len() implies {
        &&& (#[trigger] c.actors[i]).reference == a.actors[i].reference
        &&& c.actors[i].ready_order == a.actors[i].ready_order
        &&& c.actors[i].parent == a.actors[i].parent
        &&& c.actors[i].kind == a.actors[i].kind
    } by {
        assert(b.actors[i].reference == a.actors[i].reference);
    }
}

/// What keeps the roster keeps how actors compare by age.
pub proof fn lemma_roster_age(v: WorldView, n: WorldView, r: ActorRef)
    requires
        n.same_roster(v),
    ensures
        n.valid(r) == v.valid(r),
        n.order(r) == v.order(r),
        n.juniors(r) == v.juniors(r),
{
    super::actors::lemma_same_roster(v, n, r);
}

impl World {
    /// Takes the lease of a scope away.
    fn detach_scope(&mut self, scope: ActorRef)
        requires
            old(self).steady(),
        ensures
            final(self).steady(),
            final(self)@ == old(self)@.scope_detached(scope),
    {
        match self.unlease(scope) {
            Some(lease) => {
                self.mark(lease.owner);
                self.mark(lease.service);
            },
            None => {},
        }
    }

    fn unlease(&mut self, scope: ActorRef) -> (r: Option<ServiceLease>)
        requires
            old(self).steady(),
        ensures
            final(self).steady(),
            r == (if old(self)@.services.leases.dom().contains(scope) {
                Some(old(self)@.services.leases[scope])
            } else {
                None
            }),
            final(self)@ == (if r is Some {
                WorldView { services: old(self)@.services.unleased(scope), ..old(self)@ }
            } else {
                old(self)@
            }),
    {
        let ghost v = self@;
        proof {
            super::lemma_sound_parts(v);
        }
        let r = self.services.remove_lease(scope);
        proof {
            if r is None {
                assert(v.services.leases.remove(scope) =~= v.services.leases);
                assert(self@.services == v.services);
            }
            self.lemma_services_less(*old(self));
        }
        r
    }

    /// Fewer leases keep the invariants.
    pub(super) proof fn lemma_services_less(self, prior: World)
        requires
            prior.steady(),
            self.services.wf(),
            self@ == (WorldView { services: self@.services, ..prior@ }),
            self.actors == prior.actors,
            self.event_deadlines == prior.event_deadlines,
            self.staged_actors == prior.staged_actors,
            self.python_ready == prior.python_ready,
            self.drain_roots == prior.drain_roots,
            self.subs == prior.subs,
            self.operations == prior.operations,
            self.publications == prior.publications,
            self.schemas == prior.schemas,
            self.activity == prior.activity,
            self.budget == prior.budget,
            forall|s: ActorRef| #[trigger]
                self@.services.leases.dom().contains(s) ==> prior@.services.leases.dom().contains(s)
                    && self@.services.leases[s] == prior@.services.leases[s],
            self@.services.records.dom().len() <= prior@.cfg.max_services,
            self@.living() || forall|s: ActorRef| #[trigger]
                self@.services.records.dom().contains(s)
                    ==> prior@.services.records.dom().contains(s),
        ensures
            self.steady(),
    {
        let v = prior@;
        let n = self@;
        super::lemma_sound_parts(v);
        prior.services.lemma_finite();
        services::lemma_fewer_within(
            v.services,
            n.services,
            v.cfg.max_services,
            v.cfg.max_service_leases,
            v.cfg.max_leases_per_actor,
        );
        super::lemma_kin_frame(v, n);
        if !n.living() {
            super::living::lemma_living_frame(v, n);
        }
        reveal(WorldView::sound);
        reveal(World::exact_but);
        assert forall|r: ActorRef| #[trigger] n.valid(r) == v.valid(r) by {}
        assert forall|r: ActorRef| #[trigger] n.at(r) == v.at(r) by {}
        assert forall|r: ActorRef| #[trigger] n.order(r) == v.order(r) by {
            assert(n.valid(r) == v.valid(r));
        }
        assert forall|r: ActorRef| #[trigger] n.known(r) == v.known(r) by {}
        assert forall|k: int| 0 <= k < n.actors.len() implies n.placed(k, #[trigger] n.actors[k]) by {
            assert(v.placed(k, v.actors[k]));
            let a = n.actors[k];
            assert forall|c: int| 0 <= c < a.children.len() implies n.younger(
                #[trigger] a.children[c],
                a.ready_order,
            ) by {
                assert(v.younger(a.children[c], a.ready_order));
            }
        }
        assert forall|s: ActorRef| #[trigger] n.services.leases.dom().contains(s) implies {
            let lease = n.services.leases[s];
            &&& lease.scope == s
            &&& n.known(s)
            &&& n.known(lease.service)
            &&& n.valid(s) && n.valid(lease.service) ==> n.order(lease.service) < n.order(s)
        } by {
            assert(v.services.leases.dom().contains(s));
        }
    }

    /// Takes a service out of the registry; whether it was in it.
    fn unregister_service(&mut self, service: ActorRef) -> (found: bool)
        requires
            old(self).steady(),
        ensures
            final(self).steady(),
            found == old(self)@.services.records.dom().contains(service),
            final(self)@ == (if found {
                WorldView { services: old(self)@.services.unregistered(service), ..old(self)@ }
            } else {
                old(self)@
            }),
    {
        let ghost v = self@;
        proof {
            super::lemma_sound_parts(v);
            self.services.lemma_finite();
        }
        let found = self.services.unregister(service);
        proof {
            if !found {
                assert(v.services.records.remove(service) =~= v.services.records);
                assert(self@.services == v.services);
            }
            self.lemma_services_less(*old(self));
        }
        found
    }

    fn revoke_lease(&mut self, service: ActorRef, scope: ActorRef)
        requires
            old(self).steady(),
        ensures
            final(self).steady(),
            final(self)@ == old(self)@.lease_revoked(service, scope),
    {
        match self.unlease(scope) {
            Some(lease) => self.mark(lease.owner),
            None => {},
        }
        self.mark(service);
    }

    /// The children whose failures wait.
    fn reporting_children(&self, i: usize) -> (r: Vec<ActorRef>)
        requires
            self.steady(),
            i < self@.actors.len(),
        ensures
            r@ == self@.reporting(self@.actors[i as int].children),
            forall|k: int| 0 <= k < r@.len() ==> self@.valid(#[trigger] r@[k]),
    {
        let ghost children = self@.actors[i as int].children;
        let mut r: Vec<ActorRef> = Vec::new();
        let mut k: usize = 0;
        proof {
            assert(self.actors@.len() == self@.actors.len());
            assert(children == self.actors@[i as int].children@);
            assert(children.take(0) =~= Seq::<ActorRef>::empty());
        }
        while k < self.actors[i].children.len()
            invariant
                self.steady(),
                i < self.actors@.len(),
                children == self.actors@[i as int].children@,
                k <= children.len(),
                r@ == self@.reporting(children.take(k as int)),
                forall|j: int| 0 <= j < r@.len() ==> self@.valid(#[trigger] r@[j]),
            decreases children.len() - k,
        {
            let c: ActorRef = self.actors[i].children[k];
            proof {
                assert(children.take(k + 1).drop_last() =~= children.take(k as int));
                assert(children.take(k + 1).last() == c);
            }
            match self.locate(c) {
                Ok(j) => {
                    if self.actors[j].notification.is_some() {
                        r.push(c);
                    }
                },
                Err(_) => {},
            }
            k += 1;
        }
        assert(children.take(k as int) =~= children);
        r
    }

    fn clear_notice(&mut self, source: ActorRef)
        requires
            old(self).steady(),
            old(self)@.valid(source),
        ensures
            final(self).steady(),
            final(self)@ == old(self)@.put(
                source,
                (ActorView { notification: None, ..old(self)@.at(source) }),
            ),
    {
        let ghost v = self@;
        let i: usize = source.slot as usize;
        assert(self.actors@.len() == v.actors.len());
        let a = self.actor_mut(i);
        a.notification = None;
        assert(self@.actors =~= v.put(
            source,
            ActorView { notification: None, ..v.at(source) },
        ).actors);
    }

    pub(super) fn expect_one_less(&mut self, supervisor: ActorRef)
        requires
            old(self).steady(),
            old(self)@.valid(supervisor),
        ensures
            final(self).steady(),
            final(self)@ == old(self)@.put(
                supervisor,
                (ActorView {
                    pending_failures: less_one(old(self)@.at(supervisor).pending_failures),
                    ..old(self)@.at(supervisor)
                }),
            ),
    {
        let ghost v = self@;
        let i: usize = supervisor.slot as usize;
        assert(self.actors@.len() == v.actors.len());
        let a = self.actor_mut(i);
        a.pending_failures = a.pending_failures.saturating_sub(1);
        assert(self@.actors =~= v.put(
            supervisor,
            ActorView {
                pending_failures: less_one(v.at(supervisor).pending_failures),
                ..v.at(supervisor)
            },
        ).actors);
    }

    fn drop_notice(&mut self, supervisor: ActorRef, source: ActorRef)
        requires
            old(self).steady(),
            old(self)@.valid(supervisor),
            old(self)@.valid(source),
        ensures
            final(self).steady(),
            final(self)@ == old(self)@.notice_dropped(supervisor, source),
            final(self)@.same_roster(old(self)@),
    {
        let ghost v = self@;
        self.clear_notice(source);
        self.expect_one_less(supervisor);
        let ghost prior = *self;
        self.metrics.notifications_discarded = self.metrics.notifications_discarded.wrapping_add(1);
        proof {
            self.lemma_kept(prior);
        }
        let ghost counted = self@;
        self.finalize(source);
        proof {
            assert(counted.same_roster(v));
            lemma_roster_chain(v, counted, self@);
        }
    }

    /// Drops the waiting failures of an actor's children.
    pub(super) fn discard_notices(&mut self, supervisor: ActorRef)
        requires
            old(self).steady(),
        ensures
            final(self).steady(),
            final(self)@ == old(self)@.notices_discarded(supervisor),
            final(self)@.same_roster(old(self)@),
    {
        let ghost v = self@;
        let i = match self.locate(supervisor) {
            Ok(i) => i,
            Err(_) => return,
        };
        let sources = self.reporting_children(i);
        let mut k: usize = 0;
        assert(sources@.take(0) =~= Seq::<ActorRef>::empty());
        while k < sources.len()
            invariant
                k <= sources@.len(),
                self.steady(),
                v.valid(supervisor),
                forall|j: int| 0 <= j < sources@.len() ==> v.valid(#[trigger] sources@[j]),
                self@.same_roster(v),
                self@ == v.notices_dropped(supervisor, sources@.take(k as int)),
            decreases sources@.len() - k,
        {
            let ghost before = self@;
            proof {
                assert(sources@.take(k + 1).drop_last() =~= sources@.take(k as int));
                super::actors::lemma_same_roster(v, before, supervisor);
                super::actors::lemma_same_roster(v, before, sources@[k as int]);
            }
            self.drop_notice(supervisor, sources[k]);
            proof {
                lemma_roster_chain(v, before, self@);
            }
            k += 1;
        }
        assert(sources@.take(k as int) =~= sources@);
        if sources.len() > 0 {
            self.mark(supervisor);
        }
        self.refresh(supervisor);
    }

    pub(super) fn mark_ends(&mut self, ends: &Vec<OperationOwner>)
        requires
            old(self).steady(),
        ensures
            final(self).steady(),
            final(self)@ == old(self)@.marked_ends(ends@),
    {
        let mut i: usize = 0;
        assert(ends@.take(0) =~= Seq::<OperationOwner>::empty());
        while i < ends.len()
            invariant
                i <= ends@.len(),
                self.steady(),
                self@ == old(self)@.marked_ends(ends@.take(i as int)),
            decreases ends@.len() - i,
        {
            assert(ends@.take(i + 1).drop_last() =~= ends@.take(i as int));
            self.mark_operation(ends[i].owner, Some(ends[i].target));
            i += 1;
        }
        assert(ends@.take(i as int) =~= ends@);
    }

    /// Ends every operation of an actor.
    fn fence_ops(&mut self, now: Instant, r: ActorRef)
        requires
            old(self).steady(),
        ensures
            final(self).steady(),
            final(self)@ == old(self)@.ops_fenced(now, r),
            same_actors(old(self)@, final(self)@),
    {
        let ghost v = self@;
        let ghost prior = *self;
        let ends = self.operations.pending_participants_for(r);
        let asked = self.operations.cancel_owner(r);
        let ghost mid = self@.ops;
        let answered = self.operations.stop_target(r);
        proof {
            v.ops.lemma_completed_all(ordered::sorted(v.ops.owned(r)), OutcomeView::OwnerStopped);
            mid.lemma_completed_all(ordered::sorted(mid.targeted(r)), OutcomeView::TargetStopped);
            super::endings::lemma_completed_all(
                v.ops,
                ordered::sorted(v.ops.owned(r)),
                OutcomeView::OwnerStopped,
            );
            super::endings::lemma_completed_all(
                mid,
                ordered::sorted(mid.targeted(r)),
                OutcomeView::TargetStopped,
            );
            self.lemma_ops_changed(prior);
            super::actors::lemma_with_ops(v, self@.ops);
        }
        self.settle();
        let ghost settled = self@;
        self.mark_ends(&ends);
        proof {
            lemma_marked_ends(settled, ends@);
        }
        let ghost ended = *self;
        self.metrics.operation_cancelled = self.metrics.operation_cancelled.wrapping_add(
            asked as u64,
        ).wrapping_add(answered as u64);
        proof {
            self.lemma_kept(ended);
        }
        let ghost counted = self@;
        self.note_times(now, DiagnosticCode::Cancelled, Some(r), asked);
        let ghost noted = self@;
        self.note_times(now, DiagnosticCode::Cancelled, Some(r), answered);
        proof {
            lemma_noted_times(counted, now, DiagnosticCode::Cancelled, Some(r), asked as nat);
            lemma_noted_times(noted, now, DiagnosticCode::Cancelled, Some(r), answered as nat);
        }
    }

    fn drop_routes(&mut self, r: ActorRef)
        requires
            old(self).steady(),
        ensures
            final(self).steady(),
            final(self)@ == old(self)@.routes_dropped(
                ordered::sorted(routing::touching(old(self)@.subs, r)),
            ),
    {
        let ids = self.subs.actor_route_ids(r);
        let mut i: usize = 0;
        assert(ids@.take(0) =~= Seq::<u64>::empty());
        while i < ids.len()
            invariant
                i <= ids@.len(),
                self.steady(),
                self@ == old(self)@.routes_dropped(ids@.take(i as int)),
            decreases ids@.len() - i,
        {
            assert(ids@.take(i + 1).drop_last() =~= ids@.take(i as int));
            let _found = self.drop_route(ids[i]);
            i += 1;
        }
        assert(ids@.take(i as int) =~= ids@);
    }

    /// Takes an actor's entries and lets it stop.
    fn empty_out(&mut self, r: ActorRef) -> (entries: (Vec<Delivery>, Vec<Staged>))
        requires
            old(self).steady(),
            old(self)@.valid(r),
            old(self)@.at(r).state != Lifecycle::Stopped,
            old(self)@.unclaimed(r),
        ensures
            final(self).steady(),
            entries.0@ == old(self)@.at(r).queue,
            entries.1@ == old(self)@.at(r).staged,
            final(self)@ == old(self)@.put(
                r,
                (ActorView {
                    state: Lifecycle::Stopping,
                    queue: Seq::empty(),
                    staged: Seq::empty(),
                    ..old(self)@.at(r)
                }),
            ),
    {
        let ghost v = self@;
        let i: usize = r.slot as usize;
        proof {
            assert(held::queue_costs(Seq::empty()) =~= Seq::<usize>::empty());
            assert(held::staged_costs(Seq::empty()) =~= Seq::<usize>::empty());
        }
        let entries = self.swap_entries(i, Vec::new(), Vec::new());
        assert(self.actors@.len() == self@.actors.len());
        let ghost emptied = self@;
        let a = self.actor_mut(i);
        a.state = Lifecycle::Stopping;
        proof {
            let gone = ActorView {
                state: Lifecycle::Stopping,
                queue: Seq::empty(),
                staged: Seq::empty(),
                ..v.at(r)
            };
            assert(self@.actors =~= v.put(r, gone).actors);
            super::lemma_placed(v, i as int);
            assert(v.put(r, gone) == self@);
            super::living::lemma_living_ended(v, r, gone);
        }
        entries
    }

    fn strip(&mut self, r: ActorRef)
        requires
            old(self).steady(),
            old(self)@.valid(r),
            old(self)@.at(r).state != Lifecycle::Stopped,
            old(self)@.unclaimed(r),
        ensures
            final(self).steady(),
            final(self)@ == old(self)@.stripped(r),
            final(self)@.same_roster(old(self)@),
    {
        let (queue, staged) = self.empty_out(r);
        let ghost bare = self@;
        let first = super::expiring::list_shares(&staged);
        let second = super::expiring::list_queued(&queue);
        self.release_all(&first);
        self.release_all(&second);
        proof {
            super::actors::lemma_releasing_all(bare, first@);
            super::actors::lemma_releasing_all(bare.releasing_all(first@), second@);
        }
        let ghost prior = *self;
        let aside: u64 = staged.len() as u64;
        let queued: u64 = queue.len() as u64;
        self.metrics.cancelled = self.metrics.cancelled.wrapping_add(aside).wrapping_add(queued);
        self.metrics.discarded = self.metrics.discarded.wrapping_add(aside).wrapping_add(queued);
        proof {
            self.lemma_kept(prior);
        }
    }

    /// Takes an actor's routes and entries and lets it come to its end.
    fn halt(&mut self, r: ActorRef)
        requires
            old(self).steady(),
            old(self)@.valid(r),
            old(self)@.at(r).state != Lifecycle::Stopped,
            old(self)@.unburdened(r),
        ensures
            final(self).steady(),
            final(self)@ == old(self)@.halted(r),
            final(self)@.same_roster(old(self)@),
    {
        let ghost v = self@;
        self.drop_routes(r);
        proof {
            lemma_routes_dropped(v, ordered::sorted(routing::touching(v.subs, r)));
            old(self).subs.lemma_finite();
            super::endings::lemma_untouched(v, r);
        }
        let ghost alone = self@;
        self.strip(r);
        let ghost bare = self@;
        self.finalize(r);
        proof {
            assert(alone.same_roster(v));
            lemma_roster_chain(v, alone, bare);
            lemma_roster_chain(v, bare, self@);
        }
    }
}

pub(super) fn copy_refs(refs: &Vec<ActorRef>) -> (r: Vec<ActorRef>)
    ensures
        r@ == refs@,
{
    let mut r: Vec<ActorRef> = Vec::new();
    let mut i: usize = 0;
    while i < refs.len()
        invariant
            i <= refs@.len(),
            r@ == refs@.take(i as int),
        decreases refs@.len() - i,
    {
        r.push(refs[i]);
        i += 1;
        assert(r@ =~= refs@.take(i as int));
    }
    assert(refs@.take(i as int) =~= refs@);
    r
}

/// What an actor owns is younger.
pub proof fn lemma_child_younger(v: WorldView, r: ActorRef, k: int)
    requires
        v.sound(),
        v.valid(r),
        0 <= k < v.at(r).children.len(),
    ensures
        v.valid(v.at(r).children[k]) ==> v.juniors(v.at(r).children[k]) < v.juniors(r),
        v.at(r).children[k].world == v.id,
{
    let c = v.at(r).children[k];
    super::lemma_placed(v, r.slot as int);
    assert(v.younger(c, v.at(r).ready_order));
    if v.valid(c) {
        super::lemma_placed(v, c.slot as int);
    }
}

/// What leases a service is younger.
proof fn lemma_scope_younger(v: WorldView, r: ActorRef, s: ActorRef)
    requires
        v.sound(),
        v.valid(r),
        v.services.scopes_of(r).contains(s),
    ensures
        v.valid(s) ==> v.juniors(s) < v.juniors(r),
{
    reveal(WorldView::sound);
    assert(v.services.leases.dom().contains(s));
    if v.valid(s) {
        super::lemma_placed(v, s.slot as int);
    }
}

impl World {
    pub(super) fn children_of(&self, i: usize) -> (r: Vec<ActorRef>)
        requires
            i < self@.actors.len(),
        ensures
            r@ == self@.actors[i as int].children,
    {
        proof {
            assert(self.actors@.len() == self@.actors.len());
            assert(self@.actors[i as int] == self.actors@[i as int]@);
        }
        copy_refs(&self.actors[i].children)
    }

    fn sever(&mut self, r: ActorRef)
        requires
            old(self).steady(),
        ensures
            final(self).steady(),
            final(self)@ == old(self)@.severed(r),
            same_actors(old(self)@, final(self)@),
    {
        let ghost v = self@;
        self.silence(r);
        proof {
            lemma_cancelled_actors(
                v,
                ordered::sorted(v.pubs.of_source(r)),
                PublicationOutcome::Cancelled,
            );
        }
        let ghost prior = *self;
        let _root = self.drain_roots.remove(&r.slot);
        proof {
            self.lemma_kept(prior);
        }
        self.detach_scope(r);
    }

    /// Cuts off the scopes that had leased a service.
    fn fence_scopes(
        &mut self,
        now: Instant,
        service: ActorRef,
        scopes: &Vec<ActorRef>,
        Ghost(limit): Ghost<nat>,
    )
        requires
            old(self).steady(),
            forall|k: int|
                0 <= k < scopes@.len() && old(self)@.valid(#[trigger] scopes@[k]) ==> old(
                    self,
                )@.juniors(scopes@[k]) < limit,
        ensures
            final(self).steady(),
            final(self)@ == old(self)@.scopes_fenced(now, service, scopes@, limit),
            final(self)@.same_roster(old(self)@),
        decreases limit, 0nat,
    {
        let ghost v = self@;
        let mut i: usize = 0;
        assert(scopes@.take(0) =~= Seq::<ActorRef>::empty());
        while i < scopes.len()
            invariant
                i <= scopes@.len(),
                self.steady(),
                forall|k: int|
                    0 <= k < scopes@.len() && v.valid(#[trigger] scopes@[k]) ==> v.juniors(
                        scopes@[k],
                    ) < limit,
                self@.same_roster(v),
                self@ == v.scopes_fenced(now, service, scopes@.take(i as int), limit),
            decreases scopes@.len() - i,
        {
            let ghost before = self@;
            let scope: ActorRef = scopes[i];
            proof {
                assert(scopes@.take(i + 1).drop_last() =~= scopes@.take(i as int));
                assert(scopes@.take(i + 1).last() == scope);
                lemma_roster_age(v, before, scopes@[i as int]);
            }
            self.revoke_lease(service, scope);
            let ghost revoked = self@;
            assert(revoked.same_roster(before));
            proof {
                lemma_roster_age(before, revoked, scope);
                lemma_roster_chain(v, before, revoked);
            }
            if self.locate(scope).is_ok() {
                let _ended = self.fence(now, scope);
                proof {
                    lemma_roster_chain(v, revoked, self@);
                }
            }
            i += 1;
        }
        assert(scopes@.take(i as int) =~= scopes@);
    }

    /// Cuts off the children of an actor.
    fn fence_children(
        &mut self,
        now: Instant,
        children: &Vec<ActorRef>,
        Ghost(limit): Ghost<nat>,
    ) -> (result: Result<(), Error>)
        requires
            old(self).steady(),
            forall|k: int|
                0 <= k < children@.len() && old(self)@.valid(#[trigger] children@[k]) ==> old(
                    self,
                )@.juniors(children@[k]) < limit,
        ensures
            final(self).steady(),
            (final(self)@, result) == old(self)@.children_fenced(now, children@, limit),
            final(self)@.same_roster(old(self)@),
        decreases limit, 0nat,
    {
        let ghost v = self@;
        let mut i: usize = 0;
        assert(children@.take(0) =~= Seq::<ActorRef>::empty());
        while i < children.len()
            invariant
                i <= children@.len(),
                self.steady(),
                v == old(self)@,
                forall|k: int|
                    0 <= k < children@.len() && v.valid(#[trigger] children@[k]) ==> v.juniors(
                        children@[k],
                    ) < limit,
                self@.same_roster(v),
                v.children_fenced(now, children@.take(i as int), limit) == (
                    self@,
                    Ok::<(), Error>(()),
                ),
            decreases children@.len() - i,
        {
            let ghost before = self@;
            let child: ActorRef = children[i];
            proof {
                assert(children@.take(i + 1).drop_last() =~= children@.take(i as int));
                assert(children@.take(i + 1).last() == child);
                lemma_roster_age(v, before, children@[i as int]);
            }
            let step = match self.locate(child) {
                Ok(_) => self.fence(now, child),
                Err(e) => Err(e),
            };
            proof {
                if before.valid(child) {
                    lemma_roster_chain(v, before, self@);
                }
            }
            match step {
                Ok(_) => {},
                Err(e) => {
                    proof {
                        lemma_children_stop(v, now, children@, (i + 1) as int, limit);
                    }
                    return Err(e);
                },
            }
            i += 1;
        }
        assert(children@.take(i as int) =~= children@);
        Ok(())
    }

    /// Takes a service out of the registry and cuts its scopes off.
    fn detach_service(&mut self, now: Instant, r: ActorRef)
        requires
            old(self).steady(),
            old(self)@.valid(r),
        ensures
            final(self).steady(),
            final(self)@ == old(self)@.service_detached(now, r, old(self)@.juniors(r)),
            final(self)@.same_roster(old(self)@),
        decreases old(self)@.juniors(r), 1nat,
    {
        let ghost v = self@;
        let ghost limit = v.juniors(r);
        let scopes = self.services.scopes(r);
        if self.unregister_service(r) {
            let ghost bare = self@;
            proof {
                assert(bare.same_roster(v));
                assert forall|k: int|
                    0 <= k < scopes@.len() && bare.valid(#[trigger] scopes@[k]) implies bare.juniors(
                    scopes@[k],
                ) < limit by {
                    assert(scopes@.contains(scopes@[k]));
                    assert(scopes@.to_set().contains(scopes@[k]));
                    lemma_roster_age(v, bare, scopes@[k]);
                    lemma_scope_younger(v, r, scopes@[k]);
                }
            }
            self.fence_scopes(now, r, &scopes, Ghost(limit));
            proof {
                lemma_roster_chain(v, bare, self@);
            }
        }
    }

    /// Drops what waits for an actor and ends its operations.
    fn quieten(&mut self, now: Instant, r: ActorRef)
        requires
            old(self).steady(),
        ensures
            final(self).steady(),
            final(self)@ == old(self)@.notices_discarded(r).ops_fenced(now, r),
            final(self)@.same_roster(old(self)@),
    {
        let ghost v = self@;
        self.discard_notices(r);
        let ghost told = self@;
        self.fence_ops(now, r);
        proof {
            assert(self@.same_roster(told));
            lemma_roster_chain(v, told, self@);
        }
    }

    /// Cuts off what an actor owns.
    fn fence_below(&mut self, now: Instant, r: ActorRef) -> (result: Result<(), Error>)
        requires
            old(self).steady(),
            old(self)@.valid(r),
        ensures
            final(self).steady(),
            (final(self)@, result) == old(self)@.children_fenced(
                now,
                old(self)@.at(r).children,
                old(self)@.juniors(r),
            ),
            final(self)@.same_roster(old(self)@),
        decreases old(self)@.juniors(r), 1nat,
    {
        let ghost v = self@;
        let children = self.children_of(r.slot as usize);
        proof {
            assert forall|k: int|
                0 <= k < children@.len() && v.valid(#[trigger] children@[k]) implies v.juniors(
                children@[k],
            ) < v.juniors(r) by {
                lemma_child_younger(v, r, k);
            }
        }
        self.fence_children(now, &children, Ghost(v.juniors(r)))
    }

    /// Cuts an actor off.
    pub(super) fn fence(&mut self, now: Instant, r: ActorRef) -> (result: Result<(), Error>)
        requires
            old(self).steady(),
        ensures
            final(self).steady(),
            (final(self)@, result) == old(self)@.fenced(now, r),
            final(self)@.same_roster(old(self)@),
        decreases old(self)@.juniors(r), 2nat,
    {
        let ghost v = self@;
        match self.locate(r) {
            Ok(_) => {},
            Err(e) => return Err(e),
        }
        proof {
            self.lemma_orderly();
        }
        self.sever(r);
        let ghost severed = self@;
        proof {
            assert(severed.same_roster(v));
            lemma_roster_age(v, severed, r);
        }
        self.detach_service(now, r);
        let ghost alone = self@;
        proof {
            lemma_roster_chain(v, severed, alone);
        }
        self.quieten(now, r);
        let ghost quiet = self@;
        proof {
            lemma_roster_chain(v, alone, quiet);
            lemma_roster_age(v, quiet, r);
        }
        let below = self.fence_below(now, r);
        let ghost done = self@;
        proof {
            lemma_roster_chain(v, quiet, done);
            lemma_roster_age(v, done, r);
        }
        match below {
            Ok(_) => {},
            Err(e) => return Err(e),
        }
        let i: usize = r.slot as usize;
        proof {
            assert(self.actors@.len() == self@.actors.len());
            assert(self.actors@[i as int]@ == self@.at(r));
        }
        if self.actors[i].state == Lifecycle::Stopped {
            return Ok(());
        }
        proof {
            super::endings::lemma_before_halt(v, now, r);
        }
        self.halt(r);
        proof {
            lemma_roster_chain(v, done, self@);
        }
        Ok(())
    }
}

proof fn lemma_children_stop(v: WorldView, now: Instant, children: Seq<ActorRef>, n: int, limit: nat)
    requires
        0 <= n <= children.len(),
        v.children_fenced(now, children.take(n), limit).1 is Err,
    ensures
        v.children_fenced(now, children, limit) == v.children_fenced(now, children.take(n), limit),
    decreases children.len() - n,
{
    if n < children.len() {
        assert(children.take(n + 1).drop_last() =~= children.take(n));
        lemma_children_stop(v, now, children, n + 1, limit);
    } else {
        assert(children.take(n) =~= children);
    }
}

} // verus!
