//! The life of actors: start, drain, stop, and the upkeep in between.
use vstd::prelude::*;
use super::{ActorView, World, WorldView};
use super::fence::same_actors;
use super::reports::{grown, StopReport};
use super::{fence, reports};
use crate::clock;
use crate::clock::{is_due, Instant};
use crate::diagnostics::DiagnosticCode;
use crate::operations::{OperationId, OutcomeView};
use crate::ordered;
use crate::types;
use crate::types::{ActorRef, Error, Lifecycle, Metrics};

verus! {

/// A native task that keeps an actor from ending.
#[derive(Debug)]
pub struct TaskLease {
    owner: ActorRef,
}

impl TaskLease {
    pub closed spec fn held_for(self) -> ActorRef {
        self.owner
    }

    pub fn owner(&self) -> (r: ActorRef)
        ensures
            r == self.held_for(),
    {
        self.owner
    }
}

impl WorldView {
    pub open spec fn stopping(self, now: Instant, r: ActorRef) -> (
        WorldView,
        Result<StopReport, Error>,
    ) {
        let (v, result) = self.fenced(now, r);
        (
            v,
            match result {
                Err(e) => Err(e),
                Ok(_) => match v.report(r) {
                    Err(e) => Err(e),
                    Ok(report) => Ok(
                        StopReport {
                            discarded: reports::since(
                                v.metrics.discarded,
                                self.metrics.discarded,
                            ),
                            ..report
                        },
                    ),
                },
            },
        )
    }

    /// After the readiness of an actor and of everything below it was brought
    /// up to date.
    pub open spec fn subtree_refreshed(self, r: ActorRef) -> WorldView
        decreases self.juniors(r), 1nat, 0nat,
    {
        if !self.valid(r) {
            self
        } else {
            let v = self.refreshed(r);
            v.subtrees_refreshed(self.at(r).children, self.juniors(r))
        }
    }

    pub open spec fn subtrees_refreshed(self, children: Seq<ActorRef>, limit: nat) -> WorldView
        decreases limit, 0nat, children.len(),
    {
        if children.len() == 0 {
            self
        } else {
            let v = self.subtrees_refreshed(children.drop_last(), limit);
            let c = children.last();
            if v.valid(c) && v.juniors(c) < limit {
                v.subtree_refreshed(c)
            } else {
                v
            }
        }
    }

    /// After a change to an actor and to everything below it was marked.
    pub open spec fn subtree_marked(self, r: ActorRef) -> WorldView
        decreases self.juniors(r), 1nat, 0nat,
    {
        if !self.valid(r) {
            self
        } else {
            self.marked(r).subtrees_marked(self.at(r).children, self.juniors(r))
        }
    }

    pub open spec fn subtrees_marked(self, children: Seq<ActorRef>, limit: nat) -> WorldView
        decreases limit, 0nat, children.len(),
    {
        if children.len() == 0 {
            self
        } else {
            let v = self.subtrees_marked(children.drop_last(), limit);
            let c = children.last();
            if v.valid(c) && v.juniors(c) < limit {
                v.subtree_marked(c)
            } else {
                v
            }
        }
    }

    /// Why an actor does not start.
    pub open spec fn refuses_start(self, r: ActorRef) -> Option<Error> {
        if !self.valid(r) {
            Some(self.stale(r))
        } else if self.at(r).parent matches Some(p) && !self.valid(p) {
            Some(self.stale(self.at(r).parent->0))
        } else if self.at(r).parent matches Some(p) && !super::is_open(self.at(p).state) {
            Some(Error::ActorStopped)
        } else if self.at(r).state != Lifecycle::Starting {
            Some(Error::ActorStopped)
        } else {
            None
        }
    }

    pub open spec fn started_up(self, now: Instant, r: ActorRef) -> WorldView {
        self.put(r, ActorView { state: Lifecycle::Active, ..self.at(r) }).subtree_refreshed(
            r,
        ).subtree_marked(r).flushed(now)
    }

    /// Begins to drain an actor and everything below it; the deadline that the
    /// whole tree shares.
    pub open spec fn quiesced(self, r: ActorRef, root: ActorRef, deadline: Instant) -> (
        WorldView,
        Result<Instant, Error>,
    )
        decreases self.juniors(r), 1nat, 0nat,
    {
        if !self.valid(r) {
            (self, Err(self.stale(r)))
        } else if super::is_ended(self.at(r).state) {
            (self, Ok(deadline))
        } else {
            let a = self.at(r);
            let shared = match a.drain_deadline {
                Some(previous) => clock::earlier(deadline, previous),
                None => deadline,
            };
            let v = self.put(
                r,
                ActorView {
                    state: Lifecycle::Quiescing,
                    publication_cutoff: match a.publication_cutoff {
                        Some(cutoff) => Some(cutoff),
                        None => Some(self.pubs.last_issued()),
                    },
                    drain_root: Some(root),
                    drain_deadline: None,
                    ..a
                },
            );
            let n = WorldView { drain_roots: v.drain_roots.remove(r.slot), ..v };
            let (w, result) = n.all_quiesced(a.children, root, shared, self.juniors(r));
            match result {
                Err(e) => (w, Err(e)),
                Ok(at) => (w.refreshed(r).marked(r), Ok(at)),
            }
        }
    }

    pub open spec fn all_quiesced(
        self,
        children: Seq<ActorRef>,
        root: ActorRef,
        deadline: Instant,
        limit: nat,
    ) -> (WorldView, Result<Instant, Error>)
        decreases limit, 0nat, children.len(),
    {
        if children.len() == 0 {
            (self, Ok(deadline))
        } else {
            let (v, result) = self.all_quiesced(children.drop_last(), root, deadline, limit);
            let c = children.last();
            match result {
                Err(e) => (v, Err(e)),
                Ok(at) => if v.valid(c) && v.juniors(c) < limit {
                    v.quiesced(c, root, at)
                } else {
                    (v, Err(v.stale(c)))
                },
            }
        }
    }

    /// After an actor was asked to drain by a deadline.
    pub open spec fn draining(self, now: Instant, r: ActorRef, deadline: Instant) -> (
        WorldView,
        Result<(), Error>,
    ) {
        if !self.valid(r) {
            (self, Err(self.stale(r)))
        } else {
            let a = self.at(r);
            match a.state {
                Lifecycle::Stopping | Lifecycle::Stopped => (self, Ok(())),
                Lifecycle::Starting => {
                    let (v, result) = self.stopping(now, r);
                    (
                        v,
                        match result {
                            Ok(_) => Ok(()),
                            Err(e) => Err(e),
                        },
                    )
                },
                Lifecycle::Quiescing => self.hastened(r, deadline),
                Lifecycle::Active => self.drain_begun(r, deadline),
            }
        }
    }

    /// A drain that goes on ends at the earlier deadline.
    pub open spec fn hastened(self, r: ActorRef, deadline: Instant) -> (WorldView, Result<(), Error>) {
        let root = match self.at(r).drain_root {
            Some(root) => root,
            None => r,
        };
        if !self.valid(root) {
            (self, Err(self.stale(root)))
        } else {
            (
                self.put(
                    root,
                    ActorView {
                        drain_deadline: clock::earliest(
                            self.at(root).drain_deadline,
                            Some(deadline),
                        ),
                        ..self.at(root)
                    },
                ).marked(root),
                Ok(()),
            )
        }
    }

    pub open spec fn drain_begun(self, r: ActorRef, deadline: Instant) -> (
        WorldView,
        Result<(), Error>,
    ) {
        let (v, result) = self.quiesced(r, r, deadline);
        match result {
            Err(e) => (v, Err(e)),
            Ok(at) => (
                WorldView { drain_roots: v.drain_roots.insert(r.slot, r), ..v }.put(
                    r,
                    ActorView { drain_deadline: Some(at), ..v.at(r) },
                ),
                Ok(()),
            ),
        }
    }

    /// Whether an actor and everything below it has no work left.
    pub open spec fn drained(self, r: ActorRef) -> bool
        decreases self.juniors(r), 1nat, 0nat,
    {
        if !self.valid(r) {
            true
        } else {
            self.idle(r) && self.all_drained(self.at(r).children, self.juniors(r))
        }
    }

    pub open spec fn idle(self, r: ActorRef) -> bool {
        let a = self.at(r);
        &&& a.queue.len() == 0
        &&& a.staged.len() == 0
        &&& self.pubs.of_source(r).len() == 0
        &&& !a.in_flight
        &&& !a.control_in_flight
        &&& a.notification is None
        &&& a.native_tasks == 0
        &&& self.ops.pending_by(r).len() == 0
        &&& self.ops.targeted(r).len() == 0
    }

    pub open spec fn all_drained(self, children: Seq<ActorRef>, limit: nat) -> bool
        decreases limit, 0nat, children.len(),
    {
        if children.len() == 0 {
            true
        } else {
            let c = children.last();
            &&& self.all_drained(children.drop_last(), limit)
            &&& self.valid(c) && self.juniors(c) < limit ==> self.drained(c)
        }
    }

    pub open spec fn timeouts_noted(self, at: Instant, ids: Seq<OperationId>) -> WorldView
        decreases ids.len(),
    {
        if ids.len() == 0 {
            self
        } else {
            self.timeouts_noted(at, ids.drop_last()).noted(
                at,
                DiagnosticCode::OperationTimedOut,
                None,
                Some(ids.last()),
            )
        }
    }

    /// After the operations that came due ended.
    pub open spec fn ops_expired(self, now: Instant, at: Instant) -> WorldView {
        let ids = ordered::sorted(self.ops.due(now));
        let v = self.with_ops(self.ops.expired(now)).marked_ends(self.ops.ends_of(ids));
        WorldView {
            metrics: Metrics {
                operation_timed_out: types::raised(v.metrics.operation_timed_out, ids.len()),
                ..v.metrics
            },
            ..v
        }.timeouts_noted(at, ids)
    }

    /// After a drain was looked at: it ends once the tree is idle or the
    /// deadline has passed.
    pub open spec fn drain_checked(self, now: Instant, at: Instant, root: ActorRef) -> WorldView {
        if !self.drain_roots.dom().contains(root.slot) || self.drain_roots[root.slot] != root {
            self
        } else {
            let late = self.valid(root) && clock::due(self.at(root).drain_deadline, now);
            if late && !self.drained(root) {
                let v = self.put(root, ActorView { drain_timed_out: true, ..self.at(root) });
                WorldView {
                    metrics: Metrics {
                        drain_timeouts: types::bumped(v.metrics.drain_timeouts),
                        ..v.metrics
                    },
                    ..v
                }.noted(at, DiagnosticCode::DrainTimeout, Some(root), None).fenced(at, root).0
            } else if self.drained(root) {
                self.fenced(at, root).0
            } else {
                self
            }
        }
    }

    pub open spec fn drains_checked(self, now: Instant, at: Instant, roots: Seq<ActorRef>) -> WorldView
        decreases roots.len(),
    {
        if roots.len() == 0 {
            self
        } else {
            self.drains_checked(now, at, roots.drop_last()).drain_checked(now, at, roots.last())
        }
    }

    pub open spec fn drain_list(self) -> Seq<ActorRef> {
        ordered::sorted(self.drain_roots.dom()).map_values(|s: u32| self.drain_roots[s])
    }

    /// After everything whose time has come was dropped.
    pub open spec fn lapsed(self, now: Instant, at: Instant) -> WorldView {
        self.events_expired(now, at).publications_expired(now).ops_expired(now, at)
    }

    /// After the upkeep: what came due is dropped, and drains that are over end.
    /// What is due goes by one time, the records by another.
    pub open spec fn maintained(self, now: Instant, at: Instant) -> WorldView {
        let v = self.lapsed(now, at);
        v.drains_checked(now, at, v.drain_list())
    }

    /// What upkeep may change that waiters look at.
    pub open spec fn stamp(self) -> (u64, u64, u64, nat) {
        (
            self.metrics.expired,
            self.metrics.operation_timed_out,
            self.metrics.publication_expired,
            self.drain_roots.dom().len(),
        )
    }

    /// The actors without an owner, by slot.
    pub open spec fn roots(self, n: nat, stopped_too: bool) -> Seq<ActorRef>
        decreases n,
    {
        if n == 0 {
            Seq::empty()
        } else {
            let a = self.actors[n - 1];
            let rest = self.roots((n - 1) as nat, stopped_too);
            if a.parent is None && (stopped_too || a.state != Lifecycle::Stopped) {
                rest.push(a.reference)
            } else {
                rest
            }
        }
    }

    pub open spec fn all_fenced(self, now: Instant, refs: Seq<ActorRef>) -> WorldView
        decreases refs.len(),
    {
        if refs.len() == 0 {
            self
        } else {
            self.all_fenced(now, refs.drop_last()).fenced(now, refs.last()).0
        }
    }

    pub open spec fn all_draining(self, now: Instant, refs: Seq<ActorRef>, deadline: Instant) -> WorldView
        decreases refs.len(),
    {
        if refs.len() == 0 {
            self
        } else {
            self.all_draining(now, refs.drop_last(), deadline).draining(
                now,
                refs.last(),
                deadline,
            ).0
        }
    }

    /// After the World was closed: everything is cut off.
    pub open spec fn closing(self, now: Instant) -> WorldView {
        WorldView {
            closed: true,
            routing_closed: true,
            routing_dirty: true,
            ..self
        }.all_fenced(now, self.roots(self.actors.len(), true))
    }

    /// After the World was asked to drain.
    pub open spec fn draining_all(self, now: Instant, deadline: Instant) -> WorldView {
        WorldView { closed: true, ..self }.all_draining(
            now,
            self.roots(self.actors.len(), false),
            deadline,
        ).maintained(now, now)
    }

    /// The report on the World, with what was discarded since an earlier state.
    pub open spec fn report_since(self, before: WorldView) -> StopReport {
        StopReport {
            discarded: reports::since(self.metrics.discarded, before.metrics.discarded),
            ..self.world_report()
        }
    }

    pub open spec fn draining_one(self, now: Instant, r: ActorRef, deadline: Instant) -> (
        WorldView,
        Result<StopReport, Error>,
    ) {
        let (v, result) = self.draining(now, r, deadline);
        match result {
            Err(e) => (v, Err(e)),
            Ok(_) => (v.maintained(now, now), v.maintained(now, now).report(r)),
        }
    }

    /// Why an actor takes no more tasks.
    pub open spec fn refuses_task(self, r: ActorRef) -> Option<Error> {
        if !self.valid(r) {
            Some(self.stale(r))
        } else if !super::is_open(self.at(r).state) {
            Some(Error::ActorStopped)
        } else if self.at(r).native_tasks == usize::MAX {
            Some(Error::LimitExceeded)
        } else {
            None
        }
    }

    pub open spec fn with_task(self, r: ActorRef) -> WorldView {
        self.put(
            r,
            ActorView { native_tasks: (self.at(r).native_tasks + 1) as usize, ..self.at(r) },
        ).marked(r)
    }

    /// After a task came to its end.
    pub open spec fn task_ended(self, owner: ActorRef) -> WorldView {
        (if self.valid(owner) && self.at(owner).native_tasks > 0 {
            self.put(
                owner,
                ActorView {
                    native_tasks: (self.at(owner).native_tasks - 1) as usize,
                    ..self.at(owner)
                },
            )
        } else {
            self
        }).finalized(owner)
    }

    pub open spec fn python_finished(self, r: ActorRef) -> WorldView {
        self.put(r, ActorView { python_done: true, ..self.at(r) }).finalized(r)
    }
}

/// Equal actors are on the same roster.
proof fn lemma_same_actors_roster(v: WorldView, n: WorldView)
    requires
        same_actors(v, n),
    ensures
        n.same_roster(v),
{
}

impl World {
    pub(super) fn stop_now(&mut self, now: Instant, r: ActorRef) -> (result: Result<StopReport, Error>)
        requires
            old(self).steady(),
        ensures
            final(self).steady(),
            (final(self)@, result) == old(self)@.stopping(now, r),
            final(self)@.same_roster(old(self)@),
    {
        let before: u64 = self.metrics.discarded;
        match self.fence(now, r) {
            Ok(_) => {},
            Err(e) => return Err(e),
        }
        match self.report_on(r) {
            Err(e) => Err(e),
            Ok(report) => {
                let mut report = report;
                report.discarded = grown(self.metrics.discarded, before);
                Ok(report)
            },
        }
    }

    /// Stops an actor and everything below it.
    pub fn stop(&mut self, r: ActorRef) -> (result: Result<StopReport, Error>)
        requires
            old(self).inv(),
        ensures
            final(self).inv(),
            exists|now: Instant| #[trigger]
                old(self)@.clock.reads(now) && (final(self)@, result) == old(self)@.stopping(
                    now,
                    r,
                ),
            result is Ok <==> old(self)@.valid(r),
    {
        let now = self.now();
        self.stop_at(now, r)
    }

    pub fn stop_at(&mut self, now: Instant, r: ActorRef) -> (result: Result<StopReport, Error>)
        requires
            old(self).inv(),
        ensures
            final(self).inv(),
            (final(self)@, result) == old(self)@.stopping(now, r),
            result is Ok <==> old(self)@.valid(r),
    {
        proof {
            self.lemma_orderly();
            super::turning::lemma_stopping(self@, now, r, Set::empty());
        }
        proof {
            if self@.valid(r) {
                super::endings::a_stop_succeeds(*self, now, r);
            }
        }
        self.stop_now(now, r)
    }

    fn refresh_subtree(&mut self, r: ActorRef)
        requires
            old(self).steady(),
        ensures
            final(self).steady(),
            final(self)@ == old(self)@.subtree_refreshed(r),
            same_actors(old(self)@, final(self)@),
        decreases old(self)@.juniors(r),
    {
        let ghost v = self@;
        let i = match self.locate(r) {
            Ok(i) => i,
            Err(_) => return,
        };
        let children = self.children_of(i);
        let ghost limit = v.juniors(r);
        self.refresh(r);
        let ghost here = self@;
        let mut k: usize = 0;
        assert(children@.take(0) =~= Seq::<ActorRef>::empty());
        while k < children.len()
            invariant
                k <= children@.len(),
                self.steady(),
                v == old(self)@,
                v.sound(),
                v.valid(r),
                limit == v.juniors(r),
                children@ == v.at(r).children,
                same_actors(v, here),
                same_actors(v, self@),
                self@ == here.subtrees_refreshed(children@.take(k as int), limit),
            decreases children@.len() - k,
        {
            let ghost before = self@;
            let c: ActorRef = children[k];
            proof {
                assert(children@.take(k + 1).drop_last() =~= children@.take(k as int));
                assert(children@.take(k + 1).last() == c);
                fence::lemma_child_younger(v, r, k as int);
                lemma_same_actors_roster(v, before);
                fence::lemma_roster_age(v, before, c);
            }
            if self.locate(c).is_ok() {
                self.refresh_subtree(c);
            }
            k += 1;
        }
        assert(children@.take(k as int) =~= children@);
    }

    fn mark_subtree(&mut self, r: ActorRef)
        requires
            old(self).steady(),
        ensures
            final(self).steady(),
            final(self)@ == old(self)@.subtree_marked(r),
            same_actors(old(self)@, final(self)@),
        decreases old(self)@.juniors(r),
    {
        let ghost v = self@;
        let i = match self.locate(r) {
            Ok(i) => i,
            Err(_) => return,
        };
        let children = self.children_of(i);
        let ghost limit = v.juniors(r);
        self.mark(r);
        let ghost here = self@;
        let mut k: usize = 0;
        assert(children@.take(0) =~= Seq::<ActorRef>::empty());
        while k < children.len()
            invariant
                k <= children@.len(),
                self.steady(),
                v == old(self)@,
                v.sound(),
                v.valid(r),
                limit == v.juniors(r),
                children@ == v.at(r).children,
                same_actors(v, here),
                same_actors(v, self@),
                self@ == here.subtrees_marked(children@.take(k as int), limit),
            decreases children@.len() - k,
        {
            let ghost before = self@;
            let c: ActorRef = children[k];
            proof {
                assert(children@.take(k + 1).drop_last() =~= children@.take(k as int));
                assert(children@.take(k + 1).last() == c);
                fence::lemma_child_younger(v, r, k as int);
                lemma_same_actors_roster(v, before);
                fence::lemma_roster_age(v, before, c);
            }
            if self.locate(c).is_ok() {
                self.mark_subtree(c);
            }
            k += 1;
        }
        assert(children@.take(k as int) =~= children@);
    }

    /// Lets an actor run, once its owners do.
    pub fn activate(&mut self, r: ActorRef) -> (result: Result<(), Error>)
        requires
            old(self).inv(),
        ensures
            final(self).inv(),
            match old(self)@.refuses_start(r) {
                Some(e) => result == Err::<(), Error>(e) && final(self)@ == old(self)@,
                None => result is Ok && exists|now: Instant| #[trigger]
                    old(self)@.clock.reads(now) && final(self)@ == old(self)@.started_up(now, r),
            },
    {
        let now = self.now();
        self.activate_at(now, r)
    }

    pub fn activate_at(&mut self, now: Instant, r: ActorRef) -> (result: Result<(), Error>)
        requires
            old(self).inv(),
        ensures
            final(self).inv(),
            match old(self)@.refuses_start(r) {
                Some(e) => result == Err::<(), Error>(e) && final(self)@ == old(self)@,
                None => result is Ok && final(self)@ == old(self)@.started_up(now, r),
            },
    {
        proof {
            if self@.refuses_start(r) is None {
                self.lemma_orderly();
                super::turning::lemma_started_up(self@, now, r);
            }
        }
        let ghost v = self@;
        let i = match self.locate(r) {
            Ok(i) => i,
            Err(e) => return Err(e),
        };
        match self.actors[i].parent {
            Some(p) => match self.locate(p) {
                Ok(k) => {
                    if self.actors[k].state != Lifecycle::Starting && self.actors[k].state
                        != Lifecycle::Active {
                        return Err(Error::ActorStopped);
                    }
                },
                Err(e) => return Err(e),
            },
            None => {},
        }
        if self.actors[i].state != Lifecycle::Starting {
            return Err(Error::ActorStopped);
        }
        let a = self.actor_mut(i);
        a.state = Lifecycle::Active;
        assert(self@.actors =~= v.put(
            r,
            ActorView { state: Lifecycle::Active, ..v.at(r) },
        ).actors);
        self.refresh_subtree(r);
        self.mark_subtree(r);
        self.flush_staged(now);
        Ok(())
    }

    /// One actor begins to drain.
    fn quiesce_one(&mut self, r: ActorRef, root: ActorRef)
        requires
            old(self).steady(),
            old(self)@.valid(r),
            !super::is_ended(old(self)@.at(r).state),
        ensures
            final(self).steady(),
            ({
                let a = old(self)@.at(r);
                let v = old(self)@.put(
                    r,
                    (ActorView {
                        state: Lifecycle::Quiescing,
                        publication_cutoff: match a.publication_cutoff {
                            Some(cutoff) => Some(cutoff),
                            None => Some(old(self)@.pubs.last_issued()),
                        },
                        drain_root: Some(root),
                        drain_deadline: None,
                        ..a
                    }),
                );
                final(self)@ == (WorldView { drain_roots: v.drain_roots.remove(r.slot), ..v })
            }),
            final(self)@.same_roster(old(self)@),
    {
        let ghost v = self@;
        let i: usize = r.slot as usize;
        let last: u64 = self.publications.last_issued();
        assert(self.actors@.len() == v.actors.len());
        let a = self.actor_mut(i);
        a.state = Lifecycle::Quiescing;
        a.publication_cutoff = match a.publication_cutoff {
            Some(cutoff) => Some(cutoff),
            None => Some(last),
        };
        a.drain_root = Some(root);
        a.drain_deadline = None;
        proof {
            let b = v.at(r);
            let n = v.put(
                r,
                ActorView {
                    state: Lifecycle::Quiescing,
                    publication_cutoff: match b.publication_cutoff {
                        Some(cutoff) => Some(cutoff),
                        None => Some(v.pubs.last_issued()),
                    },
                    drain_root: Some(root),
                    drain_deadline: None,
                    ..b
                },
            );
            assert(self@.actors =~= n.actors);
            assert(self@ == n);
        }
        let ghost prior = *self;
        let _gone = self.drain_roots.remove(&r.slot);
        proof {
            self.lemma_kept(prior);
        }
    }

    fn quiesce_children(
        &mut self,
        children: &Vec<ActorRef>,
        root: ActorRef,
        deadline: Instant,
        Ghost(limit): Ghost<nat>,
    ) -> (result: Result<Instant, Error>)
        requires
            old(self).steady(),
            forall|k: int|
                0 <= k < children@.len() && old(self)@.valid(#[trigger] children@[k]) ==> old(
                    self,
                )@.juniors(children@[k]) < limit,
        ensures
            final(self).steady(),
            (final(self)@, result) == old(self)@.all_quiesced(children@, root, deadline, limit),
            final(self)@.same_roster(old(self)@),
        decreases limit, 0nat,
    {
        let ghost v = self@;
        let mut at: Instant = deadline;
        let mut i: usize = 0;
        assert(children@.take(0) =~= Seq::<ActorRef>::empty());
        while i < children.len()
            invariant
                i <= children@.len(),
                self.steady(),
                v == old(self)@,
                forall|k: int|
                    0 <= k < children@.len() && v.valid(#[trigger] children@[k]) ==> v.juniors(
                        children@[k],
                    ) < limit,
                self@.same_roster(v),
                v.all_quiesced(children@.take(i as int), root, deadline, limit) == (
                    self@,
                    Ok::<Instant, Error>(at),
                ),
            decreases children@.len() - i,
        {
            let ghost before = self@;
            let child: ActorRef = children[i];
            proof {
                assert(children@.take(i + 1).drop_last() =~= children@.take(i as int));
                assert(children@.take(i + 1).last() == child);
                fence::lemma_roster_age(v, before, children@[i as int]);
            }
            let step = match self.locate(child) {
                Ok(_) => self.quiesce(child, root, at),
                Err(e) => Err(e),
            };
            proof {
                if before.valid(child) {
                    fence::lemma_roster_chain(v, before, self@);
                }
            }
            match step {
                Ok(next) => {
                    at = next;
                },
                Err(e) => {
                    proof {
                        lemma_quiesce_stop(v, children@, root, deadline, (i + 1) as int, limit);
                    }
                    return Err(e);
                },
            }
            i += 1;
        }
        assert(children@.take(i as int) =~= children@);
        Ok(at)
    }

    /// Begins to drain an actor and everything below it.
    fn quiesce(&mut self, r: ActorRef, root: ActorRef, deadline: Instant) -> (result: Result<
        Instant,
        Error,
    >)
        requires
            old(self).steady(),
        ensures
            final(self).steady(),
            (final(self)@, result) == old(self)@.quiesced(r, root, deadline),
            final(self)@.same_roster(old(self)@),
        decreases old(self)@.juniors(r), 1nat,
    {
        let ghost v = self@;
        let i = match self.locate(r) {
            Ok(i) => i,
            Err(e) => return Err(e),
        };
        match self.actors[i].state {
            Lifecycle::Stopping => return Ok(deadline),
            Lifecycle::Stopped => return Ok(deadline),
            _ => {},
        }
        let shared: Instant = match self.actors[i].drain_deadline {
            Some(previous) => deadline.min(previous),
            None => deadline,
        };
        let children = self.children_of(i);
        self.quiesce_one(r, root);
        let ghost here = self@;
        proof {
            assert forall|k: int|
                0 <= k < children@.len() && here.valid(#[trigger] children@[k]) implies here.juniors(
                children@[k],
            ) < v.juniors(r) by {
                fence::lemma_child_younger(v, r, k);
                fence::lemma_roster_age(v, here, children@[k]);
            }
        }
        let result = self.quiesce_children(&children, root, shared, Ghost(v.juniors(r)));
        proof {
            fence::lemma_roster_chain(v, here, self@);
        }
        match result {
            Ok(_) => {},
            Err(e) => return Err(e),
        }
        self.refresh(r);
        self.mark(r);
        result
    }

    fn set_drain_deadline(&mut self, r: ActorRef, deadline: Option<Instant>)
        requires
            old(self).steady(),
            old(self)@.valid(r),
        ensures
            final(self).steady(),
            final(self)@ == old(self)@.put(
                r,
                (ActorView { drain_deadline: deadline, ..old(self)@.at(r) }),
            ),
    {
        let ghost v = self@;
        let i: usize = r.slot as usize;
        assert(self.actors@.len() == v.actors.len());
        let a = self.actor_mut(i);
        a.drain_deadline = deadline;
        assert(self@.actors =~= v.put(
            r,
            ActorView { drain_deadline: deadline, ..v.at(r) },
        ).actors);
    }

    /// Brings the deadline of a drain forward.
    fn hasten(&mut self, r: ActorRef, deadline: Instant) -> (result: Result<(), Error>)
        requires
            old(self).steady(),
            old(self)@.valid(r),
        ensures
            final(self).steady(),
            (final(self)@, result) == old(self)@.hastened(r, deadline),
            final(self)@.same_roster(old(self)@),
    {
        let i: usize = r.slot as usize;
        proof {
            assert(self.actors@.len() == self@.actors.len());
            assert(self.actors@[i as int]@ == self@.at(r));
        }
        let root: ActorRef = match self.actors[i].drain_root {
            Some(root) => root,
            None => r,
        };
        let k = match self.locate(root) {
            Ok(k) => k,
            Err(e) => return Err(e),
        };
        let at = clock::earliest_of(self.actors[k].drain_deadline, Some(deadline));
        self.set_drain_deadline(root, at);
        self.mark(root);
        Ok(())
    }

    /// Begins a drain.
    fn begin_drain(&mut self, r: ActorRef, deadline: Instant) -> (result: Result<(), Error>)
        requires
            old(self).steady(),
            old(self)@.valid(r),
        ensures
            final(self).steady(),
            (final(self)@, result) == old(self)@.drain_begun(r, deadline),
            final(self)@.same_roster(old(self)@),
    {
        let ghost v = self@;
        let at = match self.quiesce(r, r, deadline) {
            Ok(at) => at,
            Err(e) => return Err(e),
        };
        let ghost quiet = self@;
        proof {
            super::actors::lemma_same_roster(v, quiet, r);
        }
        let ghost prior = *self;
        let _was = self.drain_roots.insert(r.slot, r);
        proof {
            self.lemma_kept(prior);
        }
        self.set_drain_deadline(r, Some(at));
        proof {
            assert(self@.same_roster(quiet));
            fence::lemma_roster_chain(v, quiet, self@);
        }
        Ok(())
    }

    /// Asks an actor to drain by a deadline.
    fn drain(&mut self, now: Instant, r: ActorRef, deadline: Instant) -> (result: Result<(), Error>)
        requires
            old(self).steady(),
        ensures
            final(self).steady(),
            (final(self)@, result) == old(self)@.draining(now, r, deadline),
            final(self)@.same_roster(old(self)@),
    {
        let i = match self.locate(r) {
            Ok(i) => i,
            Err(e) => return Err(e),
        };
        match self.actors[i].state {
            Lifecycle::Stopping => Ok(()),
            Lifecycle::Stopped => Ok(()),
            Lifecycle::Starting => match self.stop_now(now, r) {
                Ok(_) => Ok(()),
                Err(e) => Err(e),
            },
            Lifecycle::Quiescing => self.hasten(r, deadline),
            Lifecycle::Active => self.begin_drain(r, deadline),
        }
    }

    fn is_idle(&self, i: usize) -> (r: bool)
        requires
            self.steady(),
            i < self@.actors.len(),
        ensures
            r == self@.idle(self@.actors[i as int].reference),
    {
        proof {
            assert(self.actors@.len() == self@.actors.len());
            assert(self@.actors[i as int] == self.actors@[i as int]@);
            super::lemma_placed(self@, i as int);
        }
        let a = &self.actors[i];
        a.queue.len() == 0 && a.staged.len() == 0 && self.publications.pending_for(a.reference) == 0
            && !a.in_flight && !a.control_in_flight && a.notification.is_none() && a.native_tasks
            == 0 && self.operations.pending_for(a.reference) == 0
            && self.operations.pending_for_target(a.reference) == 0
    }

    /// Whether an actor and everything below it has no work left.
    fn is_drained(&self, r: ActorRef) -> (result: bool)
        requires
            self.steady(),
        ensures
            result == self@.drained(r),
        decreases self@.juniors(r),
    {
        let i = match self.locate(r) {
            Ok(i) => i,
            Err(_) => return true,
        };
        if !self.is_idle(i) {
            return false;
        }
        let ghost v = self@;
        let ghost limit = v.juniors(r);
        let ghost children = v.at(r).children;
        let mut k: usize = 0;
        assert(children.take(0) =~= Seq::<ActorRef>::empty());
        assert(children == self.actors@[i as int].children@);
        while k < self.actors[i].children.len()
            invariant
                self.steady(),
                v == self@,
                v.valid(r),
                limit == v.juniors(r),
                children == v.at(r).children,
                i < self.actors@.len(),
                children == self.actors@[i as int].children@,
                k <= children.len(),
                v.idle(r),
                v.all_drained(children.take(k as int), limit),
            decreases children.len() - k,
        {
            let c: ActorRef = self.actors[i].children[k];
            proof {
                assert(children.take(k + 1).drop_last() =~= children.take(k as int));
                assert(children.take(k + 1).last() == c);
                fence::lemma_child_younger(v, r, k as int);
            }
            if self.locate(c).is_ok() {
                if !self.is_drained(c) {
                    proof {
                        assert(!v.all_drained(children.take(k + 1), limit));
                        if v.all_drained(children, limit) {
                            lemma_drained_prefix(v, children, k + 1, limit);
                        }
                    }
                    return false;
                }
            }
            k += 1;
        }
        assert(children.take(k as int) =~= children);
        true
    }

    fn note_timeouts(&mut self, at: Instant, ids: &Vec<OperationId>)
        requires
            old(self).steady(),
        ensures
            final(self).steady(),
            final(self)@ == old(self)@.timeouts_noted(at, ids@),
    {
        let mut i: usize = 0;
        assert(ids@.take(0) =~= Seq::<OperationId>::empty());
        while i < ids.len()
            invariant
                i <= ids@.len(),
                self.steady(),
                self@ == old(self)@.timeouts_noted(at, ids@.take(i as int)),
            decreases ids@.len() - i,
        {
            assert(ids@.take(i + 1).drop_last() =~= ids@.take(i as int));
            self.note(at, DiagnosticCode::OperationTimedOut, None, Some(ids[i]));
            i += 1;
        }
        assert(ids@.take(i as int) =~= ids@);
    }

    fn expire_operations(&mut self, now: Instant, at: Instant)
        requires
            old(self).steady(),
        ensures
            final(self).steady(),
            final(self)@ == old(self)@.ops_expired(now, at),
    {
        let ghost v = self@;
        let ghost prior = *self;
        let ends = self.operations.due_participants(now);
        let ids = self.operations.expire_ids(now);
        proof {
            v.ops.lemma_completed_all(ordered::sorted(v.ops.due(now)), OutcomeView::TimedOut);
            super::endings::lemma_completed_all(
                v.ops,
                ordered::sorted(v.ops.due(now)),
                OutcomeView::TimedOut,
            );
            self.lemma_ops_changed(prior);
        }
        self.settle();
        self.mark_ends(&ends);
        let ghost marked = *self;
        self.metrics.operation_timed_out = self.metrics.operation_timed_out.wrapping_add(
            ids.len() as u64,
        );
        proof {
            self.lemma_kept(marked);
        }
        self.note_timeouts(at, &ids);
    }

    fn check_drain(&mut self, now: Instant, at: Instant, root: ActorRef)
        requires
            old(self).steady(),
        ensures
            final(self).steady(),
            final(self)@ == old(self)@.drain_checked(now, at, root),
    {
        let ghost v = self@;
        let current: bool = match self.drain_roots.get(&root.slot) {
            Some(held) => *held == root,
            None => false,
        };
        if !current {
            return;
        }
        let drained = self.is_drained(root);
        let late: bool = match self.locate(root) {
            Ok(i) => is_due(self.actors[i].drain_deadline, now),
            Err(_) => false,
        };
        if late && !drained {
            let i: usize = root.slot as usize;
            assert(self.actors@.len() == v.actors.len());
            let a = self.actor_mut(i);
            a.drain_timed_out = true;
            assert(self@.actors =~= v.put(
                root,
                ActorView { drain_timed_out: true, ..v.at(root) },
            ).actors);
            let ghost prior = *self;
            self.metrics.drain_timeouts = self.metrics.drain_timeouts.wrapping_add(1);
            proof {
                self.lemma_kept(prior);
            }
            self.note(at, DiagnosticCode::DrainTimeout, Some(root), None);
            let _ended = self.fence(at, root);
        } else if drained {
            let _ended = self.fence(at, root);
        }
    }

    fn list_drains(&self) -> (r: Vec<ActorRef>)
        requires
            self.steady(),
        ensures
            r@ == self@.drain_list(),
    {
        let count = self.drain_roots.len();
        let mut r: Vec<ActorRef> = Vec::new();
        let mut i: usize = 0;
        proof {
            self.drain_roots.lemma_listing();
        }
        while i < count
            invariant
                self.steady(),
                i <= count,
                count == self.drain_roots.listing().len(),
                self.drain_roots.listing() == ordered::sorted(self@.drain_roots.dom()),
                r@ == self@.drain_list().take(i as int),
            decreases count - i,
        {
            r.push(*self.drain_roots.value_at(i));
            i += 1;
            assert(r@ =~= self@.drain_list().take(i as int));
        }
        assert(self@.drain_list().take(i as int) =~= self@.drain_list());
        r
    }

    fn upkeep(&mut self, now: Instant, at: Instant)
        requires
            old(self).steady(),
        ensures
            final(self).steady(),
            final(self)@ == old(self)@.maintained(now, at),
    {
        self.expire_events(now, at);
        self.expire_publications(now);
        self.expire_operations(now, at);
        let ghost v = self@;
        let roots = self.list_drains();
        let mut i: usize = 0;
        assert(roots@.take(0) =~= Seq::<ActorRef>::empty());
        while i < roots.len()
            invariant
                i <= roots@.len(),
                self.steady(),
                self@ == v.drains_checked(now, at, roots@.take(i as int)),
            decreases roots@.len() - i,
        {
            assert(roots@.take(i + 1).drop_last() =~= roots@.take(i as int));
            self.check_drain(now, at, roots[i]);
            i += 1;
        }
        assert(roots@.take(i as int) =~= roots@);
    }

    /// The upkeep at a given time: what came due is dropped, and drains that
    /// are over end. Records are stamped with the World's own clock. Whether
    /// waiters should look again.
    pub fn maintain(&mut self, now: Instant) -> (changed: bool)
        requires
            old(self).inv(),
        ensures
            final(self).inv(),
            exists|at: Instant| #[trigger]
                old(self)@.clock.reads(at) && final(self)@ == old(self)@.maintained(now, at),
            changed == (final(self)@.stamp() != old(self)@.stamp()),
    {
        let expired: u64 = self.metrics.expired;
        let timed_out: u64 = self.metrics.operation_timed_out;
        let published: u64 = self.metrics.publication_expired;
        let drains: usize = self.drain_roots.len();
        let at = self.now();
        proof {
            super::turning::lemma_maintained(*self, now, at);
        }
        self.upkeep(now, at);
        expired != self.metrics.expired || timed_out != self.metrics.operation_timed_out
            || published != self.metrics.publication_expired || drains != self.drain_roots.len()
    }

    fn list_roots(&self, stopped_too: bool) -> (r: Vec<ActorRef>)
        ensures
            r@ == self@.roots(self@.actors.len(), stopped_too),
    {
        let mut r: Vec<ActorRef> = Vec::new();
        let mut i: usize = 0;
        assert(self.actors@.len() == self@.actors.len());
        while i < self.actors.len()
            invariant
                i <= self.actors@.len(),
                self.actors@.len() == self@.actors.len(),
                r@ == self@.roots(i as nat, stopped_too),
            decreases self.actors@.len() - i,
        {
            assert(self@.actors[i as int] == self.actors@[i as int]@);
            if self.actors[i].parent.is_none() && (stopped_too || self.actors[i].state
                != Lifecycle::Stopped) {
                r.push(self.actors[i].reference);
            }
            i += 1;
        }
        r
    }

    pub(super) fn close_now(&mut self, now: Instant) -> (report: StopReport)
        requires
            old(self).steady(),
        ensures
            final(self).steady(),
            final(self)@ == old(self)@.closing(now),
            report == final(self)@.report_since(old(self)@),
            final(self)@.same_roster(old(self)@),
    {
        let ghost v = self@;
        let before: u64 = self.metrics.discarded;
        let refs = self.list_roots(true);
        self.closed = true;
        self.routing_closed = true;
        self.routing_dirty = true;
        proof {
            self.lemma_kept(*old(self));
        }
        let ghost shut = self@;
        let mut i: usize = 0;
        assert(refs@.take(0) =~= Seq::<ActorRef>::empty());
        while i < refs.len()
            invariant
                i <= refs@.len(),
                self.steady(),
                self@ == shut.all_fenced(now, refs@.take(i as int)),
                self@.same_roster(v),
            decreases refs@.len() - i,
        {
            let ghost prior = self@;
            assert(refs@.take(i + 1).drop_last() =~= refs@.take(i as int));
            let _ended = self.fence(now, refs[i]);
            proof {
                fence::lemma_roster_chain(v, prior, self@);
            }
            i += 1;
        }
        assert(refs@.take(i as int) =~= refs@);
        let mut report = self.report_all();
        report.discarded = grown(self.metrics.discarded, before);
        report
    }

    /// Closes the World: everything is cut off.
    pub fn close(&mut self) -> (report: StopReport)
        requires
            old(self).inv(),
        ensures
            final(self).inv(),
            exists|now: Instant| #[trigger]
                old(self)@.clock.reads(now) && final(self)@ == old(self)@.closing(now),
            report == final(self)@.report_since(old(self)@),
    {
        let now = self.now();
        proof {
            self.lemma_orderly();
            super::turning::lemma_closing(self@, now, Set::empty());
        }
        self.close_now(now)
    }

    pub fn close_at(&mut self, now: Instant) -> (report: StopReport)
        requires
            old(self).inv(),
        ensures
            final(self).inv(),
            final(self)@ == old(self)@.closing(now),
            report == final(self)@.report_since(old(self)@),
    {
        proof {
            self.lemma_orderly();
            super::turning::lemma_closing(self@, now, Set::empty());
        }
        self.close_now(now)
    }

    /// Takes no more work for an actor and lets it finish what it has, up to a
    /// deadline.
    pub fn request_drain(&mut self, r: ActorRef, deadline: Instant) -> (result: Result<
        StopReport,
        Error,
    >)
        requires
            old(self).inv(),
        ensures
            final(self).inv(),
            exists|now: Instant| #[trigger]
                old(self)@.clock.reads(now) && (final(self)@, result) == old(self)@.draining_one(
                    now,
                    r,
                    deadline,
                ),
    {
        let now = self.now();
        self.request_drain_at(now, r, deadline)
    }

    pub fn request_drain_at(&mut self, now: Instant, r: ActorRef, deadline: Instant) -> (result: Result<
        StopReport,
        Error,
    >)
        requires
            old(self).inv(),
        ensures
            final(self).inv(),
            (final(self)@, result) == old(self)@.draining_one(now, r, deadline),
    {
        proof {
            self.lemma_orderly();
            super::turning::lemma_draining(self@, now, r, deadline);
        }
        match self.drain(now, r, deadline) {
            Ok(_) => {},
            Err(e) => return Err(e),
        }
        proof {
            super::turning::lemma_maintained(*self, now, now);
        }
        self.upkeep(now, now);
        self.report_on(r)
    }

    /// Takes no more work and lets every actor finish what it has, up to a
    /// deadline.
    pub fn drain_all(&mut self, deadline: Instant) -> (report: StopReport)
        requires
            old(self).inv(),
        ensures
            final(self).inv(),
            exists|now: Instant| #[trigger]
                old(self)@.clock.reads(now) && final(self)@ == old(self)@.draining_all(
                    now,
                    deadline,
                ),
            report == final(self)@.report_since(old(self)@),
    {
        let now = self.now();
        self.drain_all_at(now, deadline)
    }

    pub fn drain_all_at(&mut self, now: Instant, deadline: Instant) -> (report: StopReport)
        requires
            old(self).inv(),
        ensures
            final(self).inv(),
            final(self)@ == old(self)@.draining_all(now, deadline),
            report == final(self)@.report_since(old(self)@),
    {
        let before: u64 = self.metrics.discarded;
        let refs = self.list_roots(false);
        self.closed = true;
        proof {
            self.lemma_kept(*old(self));
            self.lemma_orderly();
            super::tidy::lemma_aside(old(self)@, self@, super::tidy::nothing_open());
            super::turning::lemma_all_draining(self@, now, refs@, deadline);
        }
        let ghost shut = self@;
        let mut i: usize = 0;
        assert(refs@.take(0) =~= Seq::<ActorRef>::empty());
        while i < refs.len()
            invariant
                i <= refs@.len(),
                self.steady(),
                self@ == shut.all_draining(now, refs@.take(i as int), deadline),
            decreases refs@.len() - i,
        {
            assert(refs@.take(i + 1).drop_last() =~= refs@.take(i as int));
            let _asked = self.drain(now, refs[i], deadline);
            i += 1;
        }
        assert(refs@.take(i as int) =~= refs@);
        proof {
            super::turning::lemma_maintained(*self, now, now);
        }
        self.upkeep(now, now);
        let mut report = self.report_all();
        report.discarded = grown(self.metrics.discarded, before);
        report
    }

    /// Python has no more hold on an actor.
    pub fn finish_python(&mut self, r: ActorRef) -> (result: Result<(), Error>)
        requires
            old(self).inv(),
        ensures
            final(self).inv(),
            if old(self)@.valid(r) {
                result is Ok && final(self)@ == old(self)@.python_finished(r)
            } else {
                result == Err::<(), Error>(old(self)@.stale(r)) && final(self)@ == old(self)@
            },
    {
        proof {
            if self@.valid(r) {
                super::turning::lemma_python_finished(self@, r);
            }
        }
        let ghost v = self@;
        let i = match self.locate(r) {
            Ok(i) => i,
            Err(e) => return Err(e),
        };
        let a = self.actor_mut(i);
        a.python_done = true;
        assert(self@.actors =~= v.put(r, ActorView { python_done: true, ..v.at(r) }).actors);
        self.finalize(r);
        Ok(())
    }

    /// Registers a native task, which keeps the actor from ending.
    pub fn track_task(&mut self, r: ActorRef) -> (result: Result<TaskLease, Error>)
        requires
            old(self).inv(),
        ensures
            final(self).inv(),
            match old(self)@.refuses_task(r) {
                Some(e) => result == Err::<TaskLease, Error>(e) && final(self)@ == old(self)@,
                None => {
                    &&& result matches Ok(lease) && lease.held_for() == r
                    &&& final(self)@ == old(self)@.with_task(r)
                },
            },
    {
        proof {
            if self@.refuses_task(r) is None {
                super::turning::lemma_with_task(self@, r);
            }
        }
        let ghost v = self@;
        let i = match self.locate(r) {
            Ok(i) => i,
            Err(e) => return Err(e),
        };
        if self.actors[i].state != Lifecycle::Starting && self.actors[i].state
            != Lifecycle::Active {
            return Err(Error::ActorStopped);
        }
        if self.actors[i].native_tasks == usize::MAX {
            return Err(Error::LimitExceeded);
        }
        let a = self.actor_mut(i);
        a.native_tasks = a.native_tasks + 1;
        assert(self@.actors =~= v.put(
            r,
            ActorView { native_tasks: (v.at(r).native_tasks + 1) as usize, ..v.at(r) },
        ).actors);
        self.mark(r);
        Ok(TaskLease { owner: r })
    }
}

impl TaskLease {
    /// The task came to its end.
    pub fn release(self, world: &mut World)
        requires
            old(world).inv(),
        ensures
            final(world).inv(),
            final(world)@ == old(world)@.task_ended(self.held_for()),
    {
        proof {
            super::turning::lemma_task_ended(world@, self.owner);
        }
        let ghost v = world@;
        let r = self.owner;
        match world.locate(r) {
            Ok(i) => {
                if world.actors[i].native_tasks > 0 {
                    let a = world.actor_mut(i);
                    a.native_tasks = a.native_tasks - 1;
                    assert(world@.actors =~= v.put(
                        r,
                        ActorView { native_tasks: (v.at(r).native_tasks - 1) as usize, ..v.at(r) },
                    ).actors);
                }
            },
            Err(_) => {},
        }
        world.finalize(r);
    }
}

proof fn lemma_quiesce_stop(
    v: WorldView,
    children: Seq<ActorRef>,
    root: ActorRef,
    deadline: Instant,
    n: int,
    limit: nat,
)
    requires
        0 <= n <= children.len(),
        v.all_quiesced(children.take(n), root, deadline, limit).1 is Err,
    ensures
        v.all_quiesced(children, root, deadline, limit) == v.all_quiesced(
            children.take(n),
            root,
            deadline,
            limit,
        ),
    decreases children.len() - n,
{
    if n < children.len() {
        assert(children.take(n + 1).drop_last() =~= children.take(n));
        lemma_quiesce_stop(v, children, root, deadline, n + 1, limit);
    } else {
        assert(children.take(n) =~= children);
    }
}

proof fn lemma_drained_prefix(v: WorldView, children: Seq<ActorRef>, n: int, limit: nat)
    requires
        0 <= n <= children.len(),
        v.all_drained(children, limit),
    ensures
        v.all_drained(children.take(n), limit),
    decreases children.len() - n,
{
    if n < children.len() {
        lemma_drained_prefix(v, children, n + 1, limit);
        assert(children.take(n + 1).drop_last() =~= children.take(n));
    } else {
        assert(children.take(n) =~= children);
    }
}

} // verus!
