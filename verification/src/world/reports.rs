//! Reports and snapshots, which change nothing.
use vstd::prelude::*;
use std::sync::Arc;
use super::{Actor, ActorView, World, WorldView};
use super::actors;
use super::actors::latest_of;
use crate::clock;
use crate::clock::Instant;
use crate::components::ComponentDescriptor;
use crate::diagnostics::share_failure;
use crate::failures::FailureRecord;
use crate::ordered::OrdSet;
use crate::types::{ActorRef, EndpointKind, Error, Lifecycle, Metrics};

verus! {

/// What is left of the work of a scope.
#[derive(Debug, PartialEq, Eq)]
pub struct StopReport {
    pub native_done: bool,
    pub python_done: bool,
    pub in_flight: usize,
    pub discarded: usize,
    pub timed_out: bool,
    pub queued: usize,
    pub delivery_in_flight: usize,
    pub control_in_flight: usize,
    pub native_tasks: usize,
    pub python_pending: usize,
    pub pending_notifications: usize,
    pub outstanding_operations: usize,
    pub retained_operations: usize,
    pub outstanding_publications: usize,
    pub retained_publications: usize,
    /// The failures in this scope, those of retired children among them.
    pub errors: u64,
    /// The most recent of them.
    pub last_error: Option<Arc<FailureRecord>>,
}

pub open spec fn empty_stop() -> StopReport {
    StopReport {
        native_done: false,
        python_done: false,
        in_flight: 0,
        discarded: 0,
        timed_out: false,
        queued: 0,
        delivery_in_flight: 0,
        control_in_flight: 0,
        native_tasks: 0,
        python_pending: 0,
        pending_notifications: 0,
        outstanding_operations: 0,
        retained_operations: 0,
        outstanding_publications: 0,
        retained_publications: 0,
        errors: 0,
        last_error: None,
    }
}

impl Default for StopReport {
    fn default() -> (r: Self)
        ensures
            r == empty_stop(),
    {
        StopReport {
            native_done: false,
            python_done: false,
            in_flight: 0,
            discarded: 0,
            timed_out: false,
            queued: 0,
            delivery_in_flight: 0,
            control_in_flight: 0,
            native_tasks: 0,
            python_pending: 0,
            pending_notifications: 0,
            outstanding_operations: 0,
            retained_operations: 0,
            outstanding_publications: 0,
            retained_publications: 0,
            errors: 0,
            last_error: None,
        }
    }
}

/// A sum that stays at the largest number.
pub open spec fn capped(a: usize, b: nat) -> usize {
    if a + b > usize::MAX {
        usize::MAX
    } else {
        (a + b) as usize
    }
}

pub open spec fn one_if(b: bool) -> nat {
    if b {
        1
    } else {
        0
    }
}

/// A report with one more actor in it.
pub open spec fn with_actor(report: StopReport, a: ActorView) -> StopReport {
    StopReport {
        queued: capped(capped(report.queued, a.queue.len()), a.staged.len()),
        delivery_in_flight: capped(report.delivery_in_flight, one_if(a.in_flight)),
        control_in_flight: capped(report.control_in_flight, one_if(a.control_in_flight)),
        native_tasks: capped(report.native_tasks, a.native_tasks as nat),
        python_pending: capped(report.python_pending, one_if(!a.python_done)),
        pending_notifications: capped(
            report.pending_notifications,
            one_if(a.notification is Some),
        ),
        errors: actors::capped_sum(report.errors, a.errors),
        last_error: actors::latest(report.last_error, a.last_error),
        timed_out: report.timed_out || a.drain_timed_out,
        ..report
    }
}

/// A report whose totals are drawn.
pub open spec fn totalled(report: StopReport) -> StopReport {
    let in_flight = capped(
        capped(report.delivery_in_flight, report.control_in_flight as nat),
        report.native_tasks as nat,
    );
    StopReport {
        in_flight,
        native_done: report.queued == 0 && in_flight == 0 && report.pending_notifications == 0
            && report.outstanding_operations == 0 && report.outstanding_publications == 0,
        python_done: report.python_pending == 0,
        ..report
    }
}

impl StopReport {
    fn add_actor(&mut self, a: &Actor)
        ensures
            *final(self) == with_actor(*old(self), a@),
    {
        self.queued = self.queued.saturating_add(a.queue.len()).saturating_add(a.staged.len());
        if a.in_flight {
            self.delivery_in_flight = self.delivery_in_flight.saturating_add(1);
        }
        if a.control_in_flight {
            self.control_in_flight = self.control_in_flight.saturating_add(1);
        }
        self.native_tasks = self.native_tasks.saturating_add(a.native_tasks);
        if !a.python_done {
            self.python_pending = self.python_pending.saturating_add(1);
        }
        if a.notification.is_some() {
            self.pending_notifications = self.pending_notifications.saturating_add(1);
        }
        self.errors = self.errors.saturating_add(a.errors);
        self.last_error = latest_of(&self.last_error, &a.last_error);
        self.timed_out = self.timed_out || a.drain_timed_out;
    }

    fn finish_counts(&mut self)
        ensures
            *final(self) == totalled(*old(self)),
    {
        self.in_flight = self.delivery_in_flight.saturating_add(
            self.control_in_flight,
        ).saturating_add(self.native_tasks);
        self.native_done = self.queued == 0 && self.in_flight == 0 && self.pending_notifications == 0
            && self.outstanding_operations == 0 && self.outstanding_publications == 0;
        self.python_done = self.python_pending == 0;
    }
}

impl WorldView {
    /// An actor and everything below it; the youngest child comes first.
    pub open spec fn tree(self, r: ActorRef) -> Result<Seq<ActorRef>, Error>
        decreases self.juniors(r), 1nat, 0nat,
    {
        if !self.valid(r) {
            Err(self.stale(r))
        } else {
            match self.trees(self.at(r).children, self.juniors(r)) {
                Ok(list) => Ok(seq![r] + list),
                Err(e) => Err(e),
            }
        }
    }

    pub open spec fn trees(self, children: Seq<ActorRef>, limit: nat) -> Result<Seq<ActorRef>, Error>
        decreases limit, 0nat, children.len(),
    {
        if children.len() == 0 {
            Ok(Seq::empty())
        } else {
            let c = children.last();
            if !self.valid(c) || self.juniors(c) >= limit {
                Err(self.stale(c))
            } else {
                match self.tree(c) {
                    Err(e) => Err(e),
                    Ok(first) => match self.trees(children.drop_last(), limit) {
                        Err(e) => Err(e),
                        Ok(rest) => Ok(first + rest),
                    },
                }
            }
        }
    }

    pub open spec fn counted(self, list: Seq<ActorRef>) -> StopReport
        decreases list.len(),
    {
        if list.len() == 0 {
            empty_stop()
        } else {
            with_actor(self.counted(list.drop_last()), self.at(list.last()))
        }
    }

    /// The report on a scope.
    pub open spec fn summary(self, list: Seq<ActorRef>) -> StopReport {
        let (asked, kept) = self.ops.scope_counts(list.to_set());
        let (waiting, told) = self.pubs.scope_counts(list.to_set());
        totalled(
            StopReport {
                outstanding_operations: asked as usize,
                retained_operations: kept as usize,
                outstanding_publications: waiting as usize,
                retained_publications: told as usize,
                ..self.counted(list)
            },
        )
    }

    pub open spec fn report(self, r: ActorRef) -> Result<StopReport, Error> {
        match self.tree(r) {
            Ok(list) => Ok(self.summary(list)),
            Err(e) => Err(e),
        }
    }

    pub open spec fn counted_slots(self, n: nat) -> StopReport
        decreases n,
    {
        if n == 0 {
            empty_stop()
        } else {
            with_actor(self.counted_slots((n - 1) as nat), self.actors[n - 1])
        }
    }

    /// The report on the whole World. What retired actors left is in it, whoever
    /// has their slots now.
    pub open spec fn world_report(self) -> StopReport {
        totalled(
            StopReport {
                errors: self.metrics.failures,
                last_error: self.last_error,
                timed_out: self.metrics.drain_timeouts != 0,
                outstanding_operations: self.ops.pending_ids().len() as usize,
                retained_operations: (self.ops.live_ids().len()
                    - self.ops.pending_ids().len()) as usize,
                outstanding_publications: self.pubs.entries.dom().len() as usize,
                retained_publications: (self.pubs.tickets.dom().len()
                    - self.pubs.entries.dom().len()) as usize,
                ..self.counted_slots(self.actors.len())
            },
        )
    }
}

/// What was discarded since a counter was read.
pub open spec fn since(counter: u64, before: u64) -> usize {
    if counter < before {
        0
    } else {
        (counter - before) as usize
    }
}

pub(super) fn grown(counter: u64, before: u64) -> (r: usize)
    ensures
        r == since(counter, before),
{
    counter.saturating_sub(before) as usize
}

impl World {
    /// Appends an actor and everything below it.
    fn collect_tree(&self, r: ActorRef, out: &mut Vec<ActorRef>) -> (result: Result<(), Error>)
        requires
            self.steady(),
        ensures
            match self@.tree(r) {
                Ok(list) => result is Ok && final(out)@ == old(out)@ + list,
                Err(e) => result == Err::<(), Error>(e),
            },
        decreases self@.juniors(r),
    {
        let i = match self.locate(r) {
            Ok(i) => i,
            Err(e) => return Err(e),
        };
        let ghost v = self@;
        let ghost children = v.at(r).children;
        let ghost limit = v.juniors(r);
        let ghost before = out@;
        out.push(r);
        let mut k: usize = self.actors[i].children.len();
        let ghost mut listed = Seq::<ActorRef>::empty();
        proof {
            assert(children == self.actors@[i as int].children@);
            assert(children.take(k as int) =~= children);
            assert(out@ =~= before + (seq![r] + listed));
        }
        while k > 0
            invariant
                self.steady(),
                v == self@,
                v.valid(r),
                limit == v.juniors(r),
                children == v.at(r).children,
                i < self.actors@.len(),
                children == self.actors@[i as int].children@,
                k <= children.len(),
                out@ == before + (seq![r] + listed),
                match v.trees(children.take(k as int), limit) {
                    Ok(rest) => v.trees(children, limit) == Ok::<Seq<ActorRef>, Error>(
                        listed + rest,
                    ),
                    Err(e) => v.trees(children, limit) == Err::<Seq<ActorRef>, Error>(e),
                },
                v.tree(r) == (match v.trees(children, limit) {
                    Ok(list) => Ok::<Seq<ActorRef>, Error>(seq![r] + list),
                    Err(e) => Err(e),
                }),
            decreases k,
        {
            k -= 1;
            let child: ActorRef = self.actors[i].children[k];
            let ghost so_far = out@;
            proof {
                super::fence::lemma_child_younger(v, r, k as int);
                assert(children.take(k + 1).drop_last() =~= children.take(k as int));
                assert(children.take(k + 1).last() == child);
            }
            match self.locate(child) {
                Ok(_) => {},
                Err(e) => return Err(e),
            }
            match self.collect_tree(child, out) {
                Ok(_) => {},
                Err(e) => return Err(e),
            }
            proof {
                let first = v.tree(child)->Ok_0;
                assert(out@ =~= before + (seq![r] + (listed + first)));
                match v.trees(children.take(k as int), limit) {
                    Ok(rest) => {
                        assert(listed + (first + rest) =~= (listed + first) + rest);
                    },
                    Err(_) => {},
                }
                listed = listed + first;
            }
        }
        proof {
            assert(children.take(0) =~= Seq::<ActorRef>::empty());
            assert(listed + Seq::<ActorRef>::empty() =~= listed);
        }
        Ok(())
    }

    fn summarize(&self, list: &Vec<ActorRef>) -> (report: StopReport)
        requires
            self.steady(),
            forall|k: int| 0 <= k < list@.len() ==> self@.valid(#[trigger] list@[k]),
        ensures
            report == self@.summary(list@),
    {
        let mut report = StopReport::default();
        let mut scope: OrdSet<ActorRef> = OrdSet::new();
        let mut k: usize = 0;
        proof {
            assert(list@.take(0) =~= Seq::<ActorRef>::empty());
            assert(list@.take(0).to_set() =~= Set::<ActorRef>::empty());
        }
        while k < list.len()
            invariant
                self.steady(),
                k <= list@.len(),
                forall|j: int| 0 <= j < list@.len() ==> self@.valid(#[trigger] list@[j]),
                scope.wf(),
                scope@ == list@.take(k as int).to_set(),
                report == self@.counted(list@.take(k as int)),
            decreases list@.len() - k,
        {
            let r: ActorRef = list[k];
            let i: usize = r.slot as usize;
            proof {
                assert(self@.valid(list@[k as int]));
                assert(self.actors@.len() == self@.actors.len());
                assert(self.actors@[i as int]@ == self@.at(r));
                assert(list@.take(k + 1).drop_last() =~= list@.take(k as int));
                assert(list@.take(k + 1) =~= list@.take(k as int).push(r));
                lemma_push_set(list@.take(k as int), r);
            }
            report.add_actor(&self.actors[i]);
            let _added = scope.insert(r);
            k += 1;
        }
        assert(list@.take(k as int) =~= list@);
        let (asked, kept) = self.operations.counts_for_scope(&scope);
        let (waiting, told) = self.publications.counts_for_scope(&scope);
        report.outstanding_operations = asked;
        report.retained_operations = kept;
        report.outstanding_publications = waiting;
        report.retained_publications = told;
        report.finish_counts();
        report
    }

    /// What is left of the work of an actor and everything below it. Nothing
    /// is discarded by asking.
    pub fn stop_report(&self, r: ActorRef) -> (result: Result<StopReport, Error>)
        requires
            self.inv(),
        ensures
            result == self@.report(r),
            result is Ok <==> self@.valid(r),
    {
        self.report_on(r)
    }

    pub(super) fn report_on(&self, r: ActorRef) -> (result: Result<StopReport, Error>)
        requires
            self.steady(),
        ensures
            result == self@.report(r),
            result is Ok <==> self@.valid(r),
    {
        proof {
            if self@.valid(r) {
                self.lemma_orderly();
                super::endings::lemma_tree(self@, r);
            }
        }
        let mut list: Vec<ActorRef> = Vec::new();
        match self.collect_tree(r, &mut list) {
            Ok(_) => {},
            Err(e) => return Err(e),
        }
        proof {
            let tree = self@.tree(r)->Ok_0;
            assert(list@ =~= tree);
            lemma_tree_valid(self@, r);
        }
        Ok(self.summarize(&list))
    }

    /// What is left of the work of the World.
    pub fn shutdown_report(&self) -> (report: StopReport)
        requires
            self.inv(),
        ensures
            report == self@.world_report(),
    {
        self.report_all()
    }

    pub(super) fn report_all(&self) -> (report: StopReport)
        requires
            self.steady(),
        ensures
            report == self@.world_report(),
    {
        let mut report = StopReport::default();
        let mut i: usize = 0;
        assert(self.actors@.len() == self@.actors.len());
        while i < self.actors.len()
            invariant
                i <= self.actors@.len(),
                self.actors@.len() == self@.actors.len(),
                report == self@.counted_slots(i as nat),
            decreases self.actors@.len() - i,
        {
            assert(self@.actors[i as int] == self.actors@[i as int]@);
            report.add_actor(&self.actors[i]);
            i += 1;
        }
        report.errors = self.metrics.failures;
        report.last_error = share_failure(&self.last_error);
        report.timed_out = self.metrics.drain_timeouts != 0;
        report.outstanding_operations = self.operations.pending_count();
        report.retained_operations = self.operations.retained_terminal_count();
        report.outstanding_publications = self.publications.pending();
        report.retained_publications = self.publications.retained();
        report.finish_counts();
        report
    }
}

proof fn lemma_push_set(s: Seq<ActorRef>, r: ActorRef)
    ensures
        s.push(r).to_set() == s.to_set().insert(r),
{
    assert forall|x: ActorRef| #[trigger] s.push(r).to_set().contains(x) <==> s.to_set().insert(
        r,
    ).contains(x) by {
        if s.push(r).contains(x) {
            let k = s.push(r).index_of(x);
            if k < s.len() {
                assert(s[k] == x);
                assert(s.contains(x));
            }
        }
        if s.contains(x) {
            let k = s.index_of(x);
            assert(s.push(r)[k] == x);
        }
        assert(s.push(r)[s.len() as int] == r);
    }
    assert(s.push(r).to_set() =~= s.to_set().insert(r));
}

/// Everything in a tree is alive.
pub proof fn lemma_tree_valid(v: WorldView, r: ActorRef)
    ensures
        v.tree(r) matches Ok(list) ==> forall|k: int|
            0 <= k < list.len() ==> v.valid(#[trigger] list[k]),
    decreases v.juniors(r), 1nat, 0nat,
{
    if v.valid(r) {
        lemma_trees_valid(v, v.at(r).children, v.juniors(r));
    }
}

proof fn lemma_trees_valid(v: WorldView, children: Seq<ActorRef>, limit: nat)
    ensures
        v.trees(children, limit) matches Ok(list) ==> forall|k: int|
            0 <= k < list.len() ==> v.valid(#[trigger] list[k]),
    decreases limit, 0nat, children.len(),
{
    if children.len() > 0 {
        let c = children.last();
        if v.valid(c) && v.juniors(c) < limit {
            lemma_tree_valid(v, c);
            lemma_trees_valid(v, children.drop_last(), limit);
        }
    }
}

/// What an actor holds.
#[derive(Debug)]
pub struct ActorSnapshot {
    pub reference: ActorRef,
    pub kind: EndpointKind,
    pub state: Lifecycle,
    pub queue_entries: usize,
    pub queue_bytes: usize,
    pub staged_entries: usize,
    pub staged_bytes: usize,
    pub component: Option<Arc<ComponentDescriptor>>,
    pub in_flight: bool,
    pub control_in_flight: bool,
    pub failure_pending: bool,
    pub native_tasks: usize,
    pub python_done: bool,
    pub parent: Option<ActorRef>,
    pub drain_deadline: Option<Instant>,
}

/// What a World holds.
#[derive(Debug)]
pub struct WorldSnapshot {
    pub actors: Vec<ActorSnapshot>,
    pub retained_payload_bytes: usize,
    pub subscriptions: usize,
    pub metrics: Metrics,
    pub operation_pending: usize,
    pub operation_retained: usize,
    pub publications_pending: usize,
    pub publications_retained: usize,
    pub routing_snapshot_entries: usize,
}

pub open spec fn actor_shown(a: ActorView) -> ActorSnapshot {
    ActorSnapshot {
        reference: a.reference,
        kind: a.kind,
        state: a.state,
        queue_entries: a.queue.len() as usize,
        queue_bytes: a.queue_bytes() as usize,
        staged_entries: a.staged.len() as usize,
        staged_bytes: a.staged_bytes() as usize,
        component: a.component,
        in_flight: a.in_flight,
        control_in_flight: a.control_in_flight,
        failure_pending: a.notification is Some,
        native_tasks: a.native_tasks,
        python_done: a.python_done,
        parent: a.parent,
        drain_deadline: a.drain_deadline,
    }
}

impl World {
    fn show_actor(&self, i: usize) -> (r: ActorSnapshot)
        requires
            self.steady(),
            i < self@.actors.len(),
        ensures
            r == actor_shown(self@.actors[i as int]),
    {
        proof {
            assert(self.actors@.len() == self@.actors.len());
            assert(self@.actors[i as int] == self.actors@[i as int]@);
            assert(self.actors@[i as int].wf());
        }
        let a = &self.actors[i];
        ActorSnapshot {
            reference: a.reference,
            kind: a.kind,
            state: a.state,
            queue_entries: a.queue.len(),
            queue_bytes: a.queue_bytes,
            staged_entries: a.staged.len(),
            staged_bytes: a.staged_bytes,
            component: match &a.component {
                Some(component) => Some(component.clone()),
                None => None,
            },
            in_flight: a.in_flight,
            control_in_flight: a.control_in_flight,
            failure_pending: a.notification.is_some(),
            native_tasks: a.native_tasks,
            python_done: a.python_done,
            parent: a.parent,
            drain_deadline: a.drain_deadline,
        }
    }

    /// What the World holds: every slot, in order, and the totals.
    pub fn snapshot(&self) -> (r: WorldSnapshot)
        requires
            self.inv(),
        ensures
            r.actors@ == self@.actors.map_values(|a: ActorView| actor_shown(a)),
            r.retained_payload_bytes == self@.budget.used(),
            r.subscriptions == self@.subs.dom().len(),
            r.metrics == self@.metrics,
            r.operation_pending == self@.ops.pending_ids().len(),
            r.operation_retained == self@.ops.live_ids().len() - self@.ops.pending_ids().len(),
            r.publications_pending == self@.pubs.entries.dom().len(),
            r.publications_retained == self@.pubs.tickets.dom().len()
                - self@.pubs.entries.dom().len(),
            r.routing_snapshot_entries == self@.pubs.snapshot_entries(),
    {
        let mut actors: Vec<ActorSnapshot> = Vec::new();
        let mut i: usize = 0;
        assert(self.actors@.len() == self@.actors.len());
        while i < self.actors.len()
            invariant
                self.steady(),
                i <= self.actors@.len(),
                self.actors@.len() == self@.actors.len(),
                actors@.len() == i,
                forall|k: int| 0 <= k < i ==> #[trigger] actors@[k] == actor_shown(self@.actors[k]),
            decreases self.actors@.len() - i,
        {
            actors.push(self.show_actor(i));
            i += 1;
        }
        assert(actors@ =~= self@.actors.map_values(|a: ActorView| actor_shown(a)));
        WorldSnapshot {
            actors,
            retained_payload_bytes: self.budget.used(),
            subscriptions: self.subs.active_len(),
            metrics: self.metrics,
            operation_pending: self.operations.pending_count(),
            operation_retained: self.operations.retained_terminal_count(),
            publications_pending: self.publications.pending(),
            publications_retained: self.publications.retained(),
            routing_snapshot_entries: self.publications.snapshot_entries(),
        }
    }

    pub fn state(&self, r: ActorRef) -> (result: Result<Lifecycle, Error>)
        requires
            self.inv(),
        ensures
            result == (if self@.valid(r) {
                Ok::<Lifecycle, Error>(self@.at(r).state)
            } else {
                Err(self@.stale(r))
            }),
    {
        match self.locate(r) {
            Ok(i) => Ok(self.actors[i].state),
            Err(e) => Err(e),
        }
    }

    /// The state in which an actor can run, given its owners.
    pub fn execution_state(&self, r: ActorRef) -> (result: Result<Lifecycle, Error>)
        requires
            self.inv(),
        ensures
            result == self@.execution(r),
    {
        self.execution(r)
    }

    /// How long the World has lived, in nanoseconds.
    pub fn elapsed_ns(&self) -> (r: u64)
        ensures
            exists|now: Instant| #[trigger]
                self@.clock.reads(now) && r == clock::span_ns(self@.epoch, now),
    {
        let now = self.now();
        self.instant_ns(now)
    }

    /// The age of the World at a given time, in nanoseconds.
    pub fn instant_ns(&self, instant: Instant) -> (r: u64)
        ensures
            r == clock::span_ns(self@.epoch, instant),
    {
        instant.since_ns(self.epoch)
    }
}

} // verus!
