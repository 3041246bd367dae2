//! Entries whose time has come, and entries that were put aside.
use vstd::prelude::*;
use super::{ActorView, World, WorldView};
use crate::clock;
use crate::clock::{is_due, Instant};
use crate::diagnostics::DiagnosticCode;
use crate::expiry;
use crate::expiry::ActorDeadlines;
use crate::held;
use crate::held::{Delivery, Staged};
use crate::ordered;
use crate::publications::PublicationOutcome;
use crate::types;
use crate::types::{ActorRef, Error, Lifecycle, Metrics};

verus! {

/// The deliveries of a mailbox that stay.
pub open spec fn alive_queue(queue: Seq<Delivery>, now: Instant) -> Seq<Delivery>
    decreases queue.len(),
{
    if queue.len() == 0 {
        Seq::empty()
    } else if clock::due(queue.last().envelope.deadline, now) {
        alive_queue(queue.drop_last(), now)
    } else {
        alive_queue(queue.drop_last(), now).push(queue.last())
    }
}

/// The deliveries of a mailbox whose time has come.
pub open spec fn dead_queue(queue: Seq<Delivery>, now: Instant) -> Seq<Delivery>
    decreases queue.len(),
{
    if queue.len() == 0 {
        Seq::empty()
    } else if clock::due(queue.last().envelope.deadline, now) {
        dead_queue(queue.drop_last(), now).push(queue.last())
    } else {
        dead_queue(queue.drop_last(), now)
    }
}

pub open spec fn alive_staged(staged: Seq<Staged>, now: Instant) -> Seq<Staged>
    decreases staged.len(),
{
    if staged.len() == 0 {
        Seq::empty()
    } else if clock::due(staged.last().stored.options.deadline, now) {
        alive_staged(staged.drop_last(), now)
    } else {
        alive_staged(staged.drop_last(), now).push(staged.last())
    }
}

pub open spec fn dead_staged(staged: Seq<Staged>, now: Instant) -> Seq<Staged>
    decreases staged.len(),
{
    if staged.len() == 0 {
        Seq::empty()
    } else if clock::due(staged.last().stored.options.deadline, now) {
        dead_staged(staged.drop_last(), now).push(staged.last())
    } else {
        dead_staged(staged.drop_last(), now)
    }
}

pub open spec fn staged_shares(staged: Seq<Staged>) -> Seq<u64> {
    staged.map_values(|s: Staged| s.stored.id)
}

pub open spec fn queued_shares(queue: Seq<Delivery>) -> Seq<u64> {
    queue.map_values(|d: Delivery| d.payload.id)
}

pub open spec fn staged_publications(staged: Seq<Staged>) -> Seq<u64> {
    staged.map_values(|s: Staged| s.publication)
}

impl WorldView {
    pub open spec fn deliveries_expired(self, now: Instant, at: Instant, dead: Seq<Delivery>) -> WorldView
        decreases dead.len(),
    {
        if dead.len() == 0 {
            self
        } else {
            self.deliveries_expired(now, at, dead.drop_last()).expiring(
                now,
                at,
                dead.last(),
            ).releasing(dead.last().payload.id)
        }
    }

    /// The same diagnostic, several times.
    pub open spec fn noted_times(
        self,
        now: Instant,
        code: DiagnosticCode,
        actor: Option<ActorRef>,
        n: nat,
    ) -> WorldView
        decreases n,
    {
        if n == 0 {
            self
        } else {
            self.noted_times(now, code, actor, (n - 1) as nat).noted(now, code, actor, None)
        }
    }

    /// After the entries of an actor whose time has come were dropped. What is
    /// due goes by one time, the records by another.
    pub open spec fn purged(self, now: Instant, at: Instant, r: ActorRef) -> WorldView {
        if !self.valid(r) {
            self
        } else {
            let a = self.at(r);
            let gone = dead_staged(a.staged, now);
            let left = self.put(
                r,
                ActorView {
                    queue: alive_queue(a.queue, now),
                    staged: alive_staged(a.staged, now),
                    ..a
                },
            );
            let v = left.deliveries_expired(now, at, dead_queue(a.queue, now)).releasing_all(
                staged_shares(gone),
            ).publications_cancelled(
                staged_publications(gone),
                PublicationOutcome::Expired,
            ).marked(r).refreshed(r);
            WorldView {
                metrics: Metrics {
                    expired: types::raised(v.metrics.expired, gone.len()),
                    cancelled: types::raised(v.metrics.cancelled, gone.len()),
                    discarded: types::raised(v.metrics.discarded, gone.len()),
                    ..v.metrics
                },
                ..v
            }.noted_times(at, DiagnosticCode::DeadlineExpired, Some(r), gone.len())
        }
    }

    pub open spec fn purged_all(self, now: Instant, at: Instant, owners: Seq<ActorRef>) -> WorldView
        decreases owners.len(),
    {
        if owners.len() == 0 {
            self
        } else {
            self.purged_all(now, at, owners.drop_last()).purged(now, at, owners.last())
        }
    }

    /// The actors that have an entry whose time has come.
    pub open spec fn overdue(self, now: Instant) -> Set<ActorRef> {
        Set::new(
            |r: ActorRef| self.valid(r) && clock::due(self.at(r).first_deadline(), now),
        )
    }

    /// After all entries whose time has come were dropped.
    pub open spec fn events_expired(self, now: Instant, at: Instant) -> WorldView {
        self.purged_all(now, at, ordered::sorted(self.overdue(now)))
    }

    pub open spec fn staging_slots(self) -> Set<u32> {
        Set::new(
            |s: u32| (s as int) < self.actors.len() && self.actors[s as int].staged.len() > 0,
        )
    }

    /// The actors that have put something aside, by slot.
    pub open spec fn staging(self) -> Seq<ActorRef> {
        ordered::sorted(self.staging_slots()).map_values(
            |s: u32| self.actors[s as int].reference,
        )
    }

    /// Those of some actors that run.
    pub open spec fn active_only(self, refs: Seq<ActorRef>) -> Seq<ActorRef>
        decreases refs.len(),
    {
        if refs.len() == 0 {
            Seq::empty()
        } else if self.execution(refs.last()) == Ok::<Lifecycle, Error>(Lifecycle::Active) {
            self.active_only(refs.drop_last()).push(refs.last())
        } else {
            self.active_only(refs.drop_last())
        }
    }

    pub open spec fn enqueued_all(self, ids: Seq<u64>) -> WorldView
        decreases ids.len(),
    {
        if ids.len() == 0 {
            self
        } else {
            self.enqueued_all(ids.drop_last()).enqueued(ids.last())
        }
    }

    /// After what an actor had put aside may be routed.
    pub open spec fn unstaged(self, r: ActorRef) -> WorldView {
        if !self.valid(r) {
            self
        } else {
            let staged = self.at(r).staged;
            self.put(r, ActorView { staged: Seq::empty(), ..self.at(r) }).releasing_all(
                staged_shares(staged),
            ).enqueued_all(staged_publications(staged)).marked(r)
        }
    }

    pub open spec fn unstaged_all(self, refs: Seq<ActorRef>) -> WorldView
        decreases refs.len(),
    {
        if refs.len() == 0 {
            self
        } else {
            self.unstaged_all(refs.drop_last()).unstaged(refs.last())
        }
    }

    /// After everything that was put aside by actors that run now may be routed.
    pub open spec fn flushed(self, now: Instant) -> WorldView {
        let v = self.events_expired(now, now);
        v.unstaged_all(v.active_only(v.staging()))
    }
}

proof fn lemma_alive_fits(queue: Seq<Delivery>, now: Instant)
    ensures
        alive_queue(queue, now).len() <= queue.len(),
        held::bytes_of(held::queue_costs(alive_queue(queue, now))) <= held::bytes_of(
            held::queue_costs(queue),
        ),
    decreases queue.len(),
{
    if queue.len() > 0 {
        let rest = queue.drop_last();
        lemma_alive_fits(rest, now);
        assert(held::queue_costs(queue).drop_last() =~= held::queue_costs(rest));
        let kept = alive_queue(rest, now);
        assert(held::queue_costs(kept.push(queue.last())) =~= held::queue_costs(kept).push(
            queue.last().payload.bytes,
        ));
        held::lemma_bytes_push(held::queue_costs(kept), queue.last().payload.bytes);
    }
}

proof fn lemma_alive_staged_fits(staged: Seq<Staged>, now: Instant)
    ensures
        alive_staged(staged, now).len() <= staged.len(),
        held::bytes_of(held::staged_costs(alive_staged(staged, now))) <= held::bytes_of(
            held::staged_costs(staged),
        ),
    decreases staged.len(),
{
    if staged.len() > 0 {
        let rest = staged.drop_last();
        lemma_alive_staged_fits(rest, now);
        assert(held::staged_costs(staged).drop_last() =~= held::staged_costs(rest));
        let kept = alive_staged(rest, now);
        assert(held::staged_costs(kept.push(staged.last())) =~= held::staged_costs(kept).push(
            staged.last().stored.bytes,
        ));
        held::lemma_bytes_push(held::staged_costs(kept), staged.last().stored.bytes);
    }
}

proof fn lemma_bytes_prefix(costs: Seq<usize>, n: int)
    requires
        0 <= n <= costs.len(),
    ensures
        held::bytes_of(costs.take(n)) <= held::bytes_of(costs),
    decreases costs.len(),
{
    if n < costs.len() {
        assert(costs.drop_last().take(n) =~= costs.take(n));
        lemma_bytes_prefix(costs.drop_last(), n);
    } else {
        assert(costs.take(n) =~= costs);
    }
}

/// Parts a mailbox into what stays and what has come due.
fn part_queue(queue: Vec<Delivery>, now: Instant) -> (r: (Vec<Delivery>, Vec<Delivery>))
    ensures
        r.0@ == alive_queue(queue@, now),
        r.1@ == dead_queue(queue@, now),
{
    let ghost all = queue@;
    let mut rest = queue;
    let mut alive: Vec<Delivery> = Vec::new();
    let mut dead: Vec<Delivery> = Vec::new();
    let ghost mut i: int = 0;
    assert(all.take(0) =~= Seq::<Delivery>::empty());
    assert(all.skip(0) =~= all);
    while rest.len() > 0
        invariant
            0 <= i <= all.len(),
            rest@ == all.skip(i),
            alive@ == alive_queue(all.take(i), now),
            dead@ == dead_queue(all.take(i), now),
        decreases rest@.len(),
    {
        let d = rest.remove(0);
        proof {
            assert(all.take(i + 1).drop_last() =~= all.take(i));
            assert(all.take(i + 1).last() == d);
            assert(rest@ =~= all.skip(i + 1));
            i = i + 1;
        }
        if is_due(d.envelope.deadline, now) {
            dead.push(d);
        } else {
            alive.push(d);
        }
    }
    assert(all.take(i) =~= all);
    (alive, dead)
}

fn part_staged(staged: Vec<Staged>, now: Instant) -> (r: (Vec<Staged>, Vec<Staged>))
    ensures
        r.0@ == alive_staged(staged@, now),
        r.1@ == dead_staged(staged@, now),
{
    let ghost all = staged@;
    let mut rest = staged;
    let mut alive: Vec<Staged> = Vec::new();
    let mut dead: Vec<Staged> = Vec::new();
    let ghost mut i: int = 0;
    assert(all.take(0) =~= Seq::<Staged>::empty());
    assert(all.skip(0) =~= all);
    while rest.len() > 0
        invariant
            0 <= i <= all.len(),
            rest@ == all.skip(i),
            alive@ == alive_staged(all.take(i), now),
            dead@ == dead_staged(all.take(i), now),
        decreases rest@.len(),
    {
        let s = rest.remove(0);
        proof {
            assert(all.take(i + 1).drop_last() =~= all.take(i));
            assert(all.take(i + 1).last() == s);
            assert(rest@ =~= all.skip(i + 1));
            i = i + 1;
        }
        if is_due(s.stored.options.deadline, now) {
            dead.push(s);
        } else {
            alive.push(s);
        }
    }
    assert(all.take(i) =~= all);
    (alive, dead)
}

/// The bytes of a mailbox.
fn queue_total(queue: &Vec<Delivery>) -> (n: usize)
    requires
        held::bytes_of(held::queue_costs(queue@)) <= usize::MAX,
    ensures
        n == held::bytes_of(held::queue_costs(queue@)),
{
    let ghost costs = held::queue_costs(queue@);
    let mut n: usize = 0;
    let mut i: usize = 0;
    assert(costs.take(0) =~= Seq::<usize>::empty());
    while i < queue.len()
        invariant
            i <= queue@.len(),
            costs == held::queue_costs(queue@),
            held::bytes_of(costs) <= usize::MAX,
            n == held::bytes_of(costs.take(i as int)),
        decreases queue@.len() - i,
    {
        proof {
            assert(costs.take(i + 1).drop_last() =~= costs.take(i as int));
            assert(costs.take(i + 1).last() == queue@[i as int].payload.bytes);
            lemma_bytes_prefix(costs, i + 1);
        }
        n = n + queue[i].payload.bytes;
        i += 1;
    }
    assert(costs.take(i as int) =~= costs);
    n
}

fn staged_total(staged: &Vec<Staged>) -> (n: usize)
    requires
        held::bytes_of(held::staged_costs(staged@)) <= usize::MAX,
    ensures
        n == held::bytes_of(held::staged_costs(staged@)),
{
    let ghost costs = held::staged_costs(staged@);
    let mut n: usize = 0;
    let mut i: usize = 0;
    assert(costs.take(0) =~= Seq::<usize>::empty());
    while i < staged.len()
        invariant
            i <= staged@.len(),
            costs == held::staged_costs(staged@),
            held::bytes_of(costs) <= usize::MAX,
            n == held::bytes_of(costs.take(i as int)),
        decreases staged@.len() - i,
    {
        proof {
            assert(costs.take(i + 1).drop_last() =~= costs.take(i as int));
            assert(costs.take(i + 1).last() == staged@[i as int].stored.bytes);
            lemma_bytes_prefix(costs, i + 1);
        }
        n = n + staged[i].stored.bytes;
        i += 1;
    }
    assert(costs.take(i as int) =~= costs);
    n
}

/// The deadlines of what an actor holds.
fn deadlines_of(queue: &Vec<Delivery>, staged: &Vec<Staged>) -> (r: ActorDeadlines)
    ensures
        r.wf(),
        r@ == expiry::deadline_bag(held::queue_deadlines(queue@)).add(
            expiry::deadline_bag(held::staged_deadlines(staged@)),
        ),
{
    let ghost first = held::queue_deadlines(queue@);
    let ghost second = held::staged_deadlines(staged@);
    let mut r = ActorDeadlines::new();
    let mut i: usize = 0;
    assert(first.take(0) =~= Seq::<Option<Instant>>::empty());
    while i < queue.len()
        invariant
            i <= queue@.len(),
            r.wf(),
            first == held::queue_deadlines(queue@),
            r@ == expiry::deadline_bag(first.take(i as int)),
        decreases queue@.len() - i,
    {
        proof {
            assert(first.take(i + 1).drop_last() =~= first.take(i as int));
            assert(first.take(i + 1).last() == queue@[i as int].envelope.deadline);
            expiry::lemma_bag_len(first.take(i as int));
        }
        r.add(queue[i].envelope.deadline);
        i += 1;
    }
    assert(first.take(i as int) =~= first);
    let mut k: usize = 0;
    let ghost bag = expiry::deadline_bag(first);
    assert(second.take(0) =~= Seq::<Option<Instant>>::empty());
    assert(bag.add(expiry::deadline_bag(second.take(0))) =~= bag);
    while k < staged.len()
        invariant
            k <= staged@.len(),
            i == queue.len(),
            r.wf(),
            first == held::queue_deadlines(queue@),
            second == held::staged_deadlines(staged@),
            bag == expiry::deadline_bag(first),
            r@ == bag.add(expiry::deadline_bag(second.take(k as int))),
        decreases staged@.len() - k,
    {
        proof {
            assert(second.take(k + 1).drop_last() =~= second.take(k as int));
            assert(second.take(k + 1).last() == staged@[k as int].stored.options.deadline);
            expiry::lemma_bag_len(first);
            expiry::lemma_bag_len(second.take(k as int));
            assert(first.len() == queue@.len());
        }
        r.add(staged[k].stored.options.deadline);
        proof {
            assert(bag.add(
                expiry::with_deadline(
                    expiry::deadline_bag(second.take(k as int)),
                    staged@[k as int].stored.options.deadline,
                ),
            ) =~= r@);
        }
        k += 1;
    }
    assert(second.take(k as int) =~= second);
    r
}

impl World {
    /// Takes everything that an actor holds, and leaves other entries.
    pub(super) fn swap_entries(&mut self, i: usize, queue: Vec<Delivery>, staged: Vec<Staged>) -> (r: (
        Vec<Delivery>,
        Vec<Staged>,
    ))
        requires
            old(self).steady(),
            i < old(self)@.actors.len(),
            (ActorView { queue: queue@, staged: staged@, ..old(self)@.actors[i as int] }).fits(
                old(self)@.cfg,
            ),
            super::is_ended(old(self)@.actors[i as int].state) ==> queue@.len() == 0 && staged@.len()
                == 0,
        ensures
            final(self).steady(),
            final(self)@ == (WorldView {
                actors: old(self)@.actors.update(
                    i as int,
                    (ActorView { queue: queue@, staged: staged@, ..old(self)@.actors[i as int] }),
                ),
                ..old(self)@
            }),
            r.0@ == old(self)@.actors[i as int].queue,
            r.1@ == old(self)@.actors[i as int].staged,
    {
        let ghost v = self@;
        let queue_bytes = queue_total(&queue);
        let staged_bytes = staged_total(&staged);
        let deadlines = deadlines_of(&queue, &staged);
        let mut old_queue = queue;
        let mut old_staged = staged;
        assert(self.actors@.len() == v.actors.len());
        let a = self.actor_mut(i);
        std::mem::swap(&mut a.queue, &mut old_queue);
        std::mem::swap(&mut a.staged, &mut old_staged);
        a.queue_bytes = queue_bytes;
        a.staged_bytes = staged_bytes;
        a.deadlines = deadlines;
        self.reindex(i);
        proof {
            let n = ActorView { queue: queue@, staged: staged@, ..v.actors[i as int] };
            assert(self@.actors =~= v.actors.update(i as int, n));
        }
        (old_queue, old_staged)
    }

    pub(super) fn note_times(&mut self, now: Instant, code: DiagnosticCode, actor: Option<ActorRef>, n: usize)
        requires
            old(self).steady(),
        ensures
            final(self).steady(),
            final(self)@ == old(self)@.noted_times(now, code, actor, n as nat),
    {
        let mut i: usize = 0;
        while i < n
            invariant
                i <= n,
                self.steady(),
                self@ == old(self)@.noted_times(now, code, actor, i as nat),
            decreases n - i,
        {
            self.note(now, code, actor, None);
            i += 1;
        }
    }

    fn expire_deliveries(&mut self, now: Instant, at: Instant, dead: &Vec<Delivery>)
        requires
            old(self).steady(),
        ensures
            final(self).steady(),
            final(self)@ == old(self)@.deliveries_expired(now, at, dead@),
    {
        let mut i: usize = 0;
        assert(dead@.take(0) =~= Seq::<Delivery>::empty());
        while i < dead.len()
            invariant
                i <= dead@.len(),
                self.steady(),
                self@ == old(self)@.deliveries_expired(now, at, dead@.take(i as int)),
            decreases dead@.len() - i,
        {
            assert(dead@.take(i + 1).drop_last() =~= dead@.take(i as int));
            self.expire_delivery(now, at, &dead[i]);
            self.release(dead[i].payload.id);
            i += 1;
        }
        assert(dead@.take(i as int) =~= dead@);
    }

    /// Takes the entries of an actor whose time has come out of its mailbox and
    /// of what was put aside.
    fn sort_out(&mut self, now: Instant, i: usize, r: ActorRef) -> (late: (
        Vec<Delivery>,
        Vec<Staged>,
    ))
        requires
            old(self).steady(),
            old(self)@.valid(r),
            i == r.slot,
        ensures
            final(self).steady(),
            final(self)@ == old(self)@.put(
                r,
                (ActorView {
                    queue: alive_queue(old(self)@.at(r).queue, now),
                    staged: alive_staged(old(self)@.at(r).staged, now),
                    ..old(self)@.at(r)
                }),
            ),
            late.0@ == dead_queue(old(self)@.at(r).queue, now),
            late.1@ == dead_staged(old(self)@.at(r).staged, now),
    {
        let ghost v = self@;
        let ghost a = v.at(r);
        proof {
            assert(self.actors@[i as int].wf());
            super::lemma_placed(v, i as int);
            lemma_alive_fits(a.queue, now);
            lemma_alive_staged_fits(a.staged, now);
            if super::is_ended(a.state) {
                super::living::lemma_bare(v, i as int);
            }
            assert(held::queue_costs(Seq::empty()) =~= Seq::<usize>::empty());
            assert(held::staged_costs(Seq::empty()) =~= Seq::<usize>::empty());
        }
        let (queue, staged) = self.swap_entries(i, Vec::new(), Vec::new());
        let (alive, dead) = part_queue(queue, now);
        let (kept, gone) = part_staged(staged, now);
        let (_none, _nothing) = self.swap_entries(i, alive, kept);
        proof {
            let left = v.put(r, ActorView { queue: alive@, staged: kept@, ..a });
            assert(self@.actors =~= left.actors);
            assert(self@ == left);
        }
        (dead, gone)
    }

    /// Counts and notes what was put aside and came due.
    fn count_late(&mut self, at: Instant, r: ActorRef, late: usize)
        requires
            old(self).steady(),
        ensures
            final(self).steady(),
            final(self)@ == (WorldView {
                metrics: Metrics {
                    expired: types::raised(old(self)@.metrics.expired, late as nat),
                    cancelled: types::raised(old(self)@.metrics.cancelled, late as nat),
                    discarded: types::raised(old(self)@.metrics.discarded, late as nat),
                    ..old(self)@.metrics
                },
                ..old(self)@
            }).noted_times(at, DiagnosticCode::DeadlineExpired, Some(r), late as nat),
    {
        let ghost prior = *self;
        let n: u64 = late as u64;
        self.metrics.expired = self.metrics.expired.wrapping_add(n);
        self.metrics.cancelled = self.metrics.cancelled.wrapping_add(n);
        self.metrics.discarded = self.metrics.discarded.wrapping_add(n);
        proof {
            self.lemma_kept(prior);
        }
        self.note_times(at, DiagnosticCode::DeadlineExpired, Some(r), late);
    }

    /// Drops the entries of an actor whose time has come.
    fn purge(&mut self, now: Instant, at: Instant, r: ActorRef)
        requires
            old(self).steady(),
        ensures
            final(self).steady(),
            final(self)@ == old(self)@.purged(now, at, r),
    {
        let i = match self.locate(r) {
            Ok(i) => i,
            Err(_) => return,
        };
        let (dead, gone) = self.sort_out(now, i, r);
        self.expire_deliveries(now, at, &dead);
        let shares = list_shares(&gone);
        let ids = list_publications(&gone);
        self.release_all(&shares);
        self.expire_staged(&ids);
        self.mark(r);
        self.refresh(r);
        self.count_late(at, r, gone.len());
    }

    fn expire_staged(&mut self, ids: &Vec<u64>)
        requires
            old(self).steady(),
        ensures
            final(self).steady(),
            final(self)@ == old(self)@.publications_cancelled(ids@, PublicationOutcome::Expired),
    {
        self.end_publications(ids, PublicationOutcome::Expired);
    }

    /// Drops all entries whose time has come.
    pub(super) fn expire_events(&mut self, now: Instant, at: Instant)
        requires
            old(self).steady(),
        ensures
            final(self).steady(),
            final(self)@ == old(self)@.events_expired(now, at),
    {
        let owners = self.event_deadlines.due(now);
        proof {
            reveal(World::exact_but);
            let index = self.event_deadlines@;
            assert forall|r: ActorRef| #[trigger] expiry::due_actors(index, now).contains(r)
                <==> self@.overdue(now).contains(r) by {
                assert(index.dom().contains(r) <==> self@.valid(r) && self@.at(
                    r,
                ).first_deadline() is Some);
            }
            assert(expiry::due_actors(index, now) =~= self@.overdue(now));
        }
        let mut i: usize = 0;
        assert(owners@.take(0) =~= Seq::<ActorRef>::empty());
        while i < owners.len()
            invariant
                i <= owners@.len(),
                self.steady(),
                self@ == old(self)@.purged_all(now, at, owners@.take(i as int)),
            decreases owners@.len() - i,
        {
            assert(owners@.take(i + 1).drop_last() =~= owners@.take(i as int));
            self.purge(now, at, owners[i]);
            i += 1;
        }
        assert(owners@.take(i as int) =~= owners@);
    }

    /// The actors that have put something aside and run now.
    fn ready_staging(&self) -> (r: Vec<ActorRef>)
        requires
            self.steady(),
        ensures
            r@ == self@.active_only(self@.staging()),
    {
        let ghost all = self@.staging();
        let count = self.staged_actors.len();
        let mut r: Vec<ActorRef> = Vec::new();
        let mut i: usize = 0;
        let ghost listing = self.staged_actors.listing();
        proof {
            self.staged_actors.lemma_listing();
            reveal(World::exact_but);
            assert forall|s: u32| #[trigger] self.staged_actors@.dom().contains(s)
                <==> self@.staging_slots().contains(s) by {}
            assert(self.staged_actors@.dom() =~= self@.staging_slots());
            assert(all.take(0) =~= Seq::<ActorRef>::empty());
        }
        while i < count
            invariant
                self.steady(),
                i <= count,
                count == listing.len(),
                listing == self.staged_actors.listing(),
                listing == ordered::sorted(self@.staging_slots()),
                all == self@.staging(),
                r@ == self@.active_only(all.take(i as int)),
            decreases count - i,
        {
            let source: ActorRef = *self.staged_actors.value_at(i);
            proof {
                reveal(World::exact_but);
                assert(all[i as int] == self@.actors[listing[i as int] as int].reference);
                assert(all.take(i + 1).drop_last() =~= all.take(i as int));
                assert(all.take(i + 1).last() == source);
            }
            match self.execution(source) {
                Ok(Lifecycle::Active) => {
                    r.push(source);
                },
                _ => {},
            }
            i += 1;
        }
        assert(all.take(i as int) =~= all);
        r
    }

    fn enqueue_all(&mut self, ids: &Vec<u64>)
        requires
            old(self).steady(),
        ensures
            final(self).steady(),
            final(self)@ == old(self)@.enqueued_all(ids@),
    {
        let mut i: usize = 0;
        assert(ids@.take(0) =~= Seq::<u64>::empty());
        while i < ids.len()
            invariant
                i <= ids@.len(),
                self.steady(),
                self@ == old(self)@.enqueued_all(ids@.take(i as int)),
            decreases ids@.len() - i,
        {
            assert(ids@.take(i + 1).drop_last() =~= ids@.take(i as int));
            self.enqueue(ids[i]);
            i += 1;
        }
        assert(ids@.take(i as int) =~= ids@);
    }

    /// Lets what an actor had put aside be routed.
    fn unstage(&mut self, r: ActorRef)
        requires
            old(self).steady(),
        ensures
            final(self).steady(),
            final(self)@ == old(self)@.unstaged(r),
    {
        let ghost v = self@;
        let i = match self.locate(r) {
            Ok(i) => i,
            Err(_) => return,
        };
        let ghost a = v.at(r);
        proof {
            assert(self.actors@[i as int].wf());
            super::lemma_placed(v, i as int);
            if super::is_ended(a.state) {
                super::living::lemma_bare(v, i as int);
            }
            assert(held::queue_costs(Seq::empty()) =~= Seq::<usize>::empty());
            assert(held::staged_costs(Seq::empty()) =~= Seq::<usize>::empty());
        }
        let (queue, staged) = self.swap_entries(i, Vec::new(), Vec::new());
        let (_none, _nothing) = self.swap_entries(i, queue, Vec::new());
        proof {
            let left = v.put(r, ActorView { staged: Seq::empty(), ..a });
            assert(self@.actors =~= left.actors);
            assert(self@ == left);
        }
        let shares = list_shares(&staged);
        let ids = list_publications(&staged);
        self.release_all(&shares);
        self.enqueue_all(&ids);
        self.mark(r);
    }

    /// Lets everything be routed that was put aside by actors that run now.
    pub(super) fn flush_staged(&mut self, now: Instant)
        requires
            old(self).steady(),
        ensures
            final(self).steady(),
            final(self)@ == old(self)@.flushed(now),
    {
        self.expire_events(now, now);
        let ghost v = self@;
        let ready = self.ready_staging();
        let mut i: usize = 0;
        assert(ready@.take(0) =~= Seq::<ActorRef>::empty());
        while i < ready.len()
            invariant
                i <= ready@.len(),
                self.steady(),
                self@ == v.unstaged_all(ready@.take(i as int)),
            decreases ready@.len() - i,
        {
            assert(ready@.take(i + 1).drop_last() =~= ready@.take(i as int));
            self.unstage(ready[i]);
            i += 1;
        }
        assert(ready@.take(i as int) =~= ready@);
    }
}

pub(super) fn list_shares(staged: &Vec<Staged>) -> (r: Vec<u64>)
    ensures
        r@ == staged_shares(staged@),
{
    let mut r: Vec<u64> = Vec::new();
    let mut i: usize = 0;
    while i < staged.len()
        invariant
            i <= staged@.len(),
            r@ == staged_shares(staged@.take(i as int)),
        decreases staged@.len() - i,
    {
        r.push(staged[i].stored.id);
        i += 1;
        assert(r@ =~= staged_shares(staged@.take(i as int)));
    }
    assert(staged@.take(i as int) =~= staged@);
    r
}

pub(super) fn list_queued(queue: &Vec<Delivery>) -> (r: Vec<u64>)
    ensures
        r@ == queued_shares(queue@),
{
    let mut r: Vec<u64> = Vec::new();
    let mut i: usize = 0;
    while i < queue.len()
        invariant
            i <= queue@.len(),
            r@ == queued_shares(queue@.take(i as int)),
        decreases queue@.len() - i,
    {
        r.push(queue[i].payload.id);
        i += 1;
        assert(r@ =~= queued_shares(queue@.take(i as int)));
    }
    assert(queue@.take(i as int) =~= queue@);
    r
}

fn list_publications(staged: &Vec<Staged>) -> (r: Vec<u64>)
    ensures
        r@ == staged_publications(staged@),
{
    let mut r: Vec<u64> = Vec::new();
    let mut i: usize = 0;
    while i < staged.len()
        invariant
            i <= staged@.len(),
            r@ == staged_publications(staged@.take(i as int)),
        decreases staged@.len() - i,
    {
        r.push(staged[i].publication);
        i += 1;
        assert(r@ =~= staged_publications(staged@.take(i as int)));
    }
    assert(staged@.take(i as int) =~= staged@);
    r
}

} // verus!
