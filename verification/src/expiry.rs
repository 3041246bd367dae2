//! Deadline bookkeeping: how often each deadline occurs among the entries of
//! one actor, and which actors have work that comes due.
use vstd::prelude::*;
use vstd::multiset::Multiset;
use crate::clock::Instant;
use crate::ordered;
use crate::ordered::{Key, OrdMap, OrdSet};
use crate::types::ActorRef;

verus! {

/// The deadlines of a list of entries; entries without one do not count.
pub open spec fn deadline_bag(deadlines: Seq<Option<Instant>>) -> Multiset<Instant>
    decreases deadlines.len(),
{
    if deadlines.len() == 0 {
        Multiset::empty()
    } else {
        with_deadline(deadline_bag(deadlines.drop_last()), deadlines.last())
    }
}

pub open spec fn with_deadline(bag: Multiset<Instant>, deadline: Option<Instant>) -> Multiset<Instant> {
    match deadline {
        Some(at) => bag.insert(at),
        None => bag,
    }
}

pub open spec fn without_deadline(bag: Multiset<Instant>, deadline: Option<Instant>) -> Multiset<
    Instant,
> {
    match deadline {
        Some(at) => bag.remove(at),
        None => bag,
    }
}

/// The least deadline of a bag.
pub open spec fn least(bag: Multiset<Instant>) -> Option<Instant> {
    if bag.len() == 0 {
        None
    } else {
        Some(choose|at: Instant| is_least(bag, at))
    }
}

pub open spec fn is_least(bag: Multiset<Instant>, at: Instant) -> bool {
    bag.contains(at) && forall|other: Instant| #[trigger]
        bag.contains(other) ==> at.nanos <= other.nanos
}

pub proof fn lemma_least(bag: Multiset<Instant>, at: Instant)
    requires
        is_least(bag, at),
    ensures
        least(bag) == Some(at),
{
    let other = choose|at: Instant| is_least(bag, at);
    assert(is_least(bag, other));
    if bag.len() == 0 {
        assert(bag.count(at) <= bag.len());
    }
}

pub proof fn lemma_bag_first(deadlines: Seq<Option<Instant>>)
    requires
        deadlines.len() > 0,
    ensures
        deadline_bag(deadlines) == with_deadline(
            deadline_bag(deadlines.drop_first()),
            deadlines[0],
        ),
    decreases deadlines.len(),
{
    if deadlines.len() == 1 {
        assert(deadlines.drop_last() =~= Seq::<Option<Instant>>::empty());
        assert(deadlines.drop_first() =~= Seq::<Option<Instant>>::empty());
    } else {
        lemma_bag_first(deadlines.drop_last());
        assert(deadlines.drop_last().drop_first() =~= deadlines.drop_first().drop_last());
        let rest = deadline_bag(deadlines.drop_first().drop_last());
        assert(with_deadline(with_deadline(rest, deadlines[0]), deadlines.last()) =~= with_deadline(
            with_deadline(rest, deadlines.last()),
            deadlines[0],
        ));
    }
}

pub proof fn lemma_bag_push(deadlines: Seq<Option<Instant>>, deadline: Option<Instant>)
    ensures
        deadline_bag(deadlines.push(deadline)) == with_deadline(deadline_bag(deadlines), deadline),
{
    assert(deadlines.push(deadline).drop_last() =~= deadlines);
}

pub proof fn lemma_bag_len(deadlines: Seq<Option<Instant>>)
    ensures
        deadline_bag(deadlines).len() <= deadlines.len(),
    decreases deadlines.len(),
{
    if deadlines.len() > 0 {
        lemma_bag_len(deadlines.drop_last());
    }
}

pub proof fn lemma_bag_contains(deadlines: Seq<Option<Instant>>, i: int)
    requires
        0 <= i < deadlines.len(),
        deadlines[i] is Some,
    ensures
        deadline_bag(deadlines).contains(deadlines[i]->0),
    decreases deadlines.len(),
{
    if i < deadlines.len() - 1 {
        lemma_bag_contains(deadlines.drop_last(), i);
    }
}

/// Exact counts of the deadlines of an actor's queued and staged entries.
pub struct ActorDeadlines {
    counts: OrdMap<Instant, u128>,
}

impl View for ActorDeadlines {
    type V = Multiset<Instant>;

    closed spec fn view(&self) -> Multiset<Instant> {
        Multiset::from_map(self.counts@.map_values(|n: u128| n as nat))
    }
}

impl ActorDeadlines {
    pub closed spec fn wf(self) -> bool {
        &&& self.counts.wf()
        &&& forall|at: Instant| #[trigger]
            self.counts@.dom().contains(at) ==> self.counts@[at] > 0
    }

    proof fn lemma_counts(self)
        requires
            self.wf(),
        ensures
            forall|at: Instant| #[trigger]
                self@.count(at) == (if self.counts@.dom().contains(at) {
                    self.counts@[at] as nat
                } else {
                    0
                }),
    {
        self.counts.lemma_listing();
        let m = self.counts@.map_values(|n: u128| n as nat);
        assert(m.dom() =~= self.counts@.dom());
        assert forall|at: Instant| #[trigger] self@.count(at) == (if self.counts@.dom().contains(at) {
            self.counts@[at] as nat
        } else {
            0
        }) by {
            if self.counts@.dom().contains(at) {
                assert(m.dom().contains(at));
                vstd::multiset::axiom_multiset_contained(m, at);
            } else {
                assert(!m.dom().contains(at));
                vstd::multiset::axiom_multiset_new_not_contained(m, at);
            }
        }
    }

    pub fn new() -> (r: Self)
        ensures
            r.wf(),
            r@ == Multiset::<Instant>::empty(),
    {
        let r = ActorDeadlines { counts: OrdMap::new() };
        proof {
            r.lemma_counts();
            assert(r@ =~= Multiset::<Instant>::empty());
        }
        r
    }

    pub fn add(&mut self, deadline: Option<Instant>)
        requires
            old(self).wf(),
            old(self)@.len() < u128::MAX,
        ensures
            final(self).wf(),
            final(self)@ == with_deadline(old(self)@, deadline),
    {
        let at = match deadline {
            Some(at) => at,
            None => return,
        };
        proof {
            self.lemma_counts();
            vstd::multiset::axiom_count_le_len(self@, at);
        }
        let count: u128 = match self.counts.get(&at) {
            Some(n) => *n,
            None => 0,
        };
        let _prior = self.counts.insert(at, count + 1);
        proof {
            self.lemma_counts();
            assert(self@ =~= old(self)@.insert(at));
        }
    }

    /// Takes one occurrence away.
    pub fn remove(&mut self, deadline: Option<Instant>)
        requires
            old(self).wf(),
        ensures
            final(self).wf(),
            final(self)@ == without_deadline(old(self)@, deadline),
    {
        let at = match deadline {
            Some(at) => at,
            None => return,
        };
        proof {
            self.lemma_counts();
        }
        let count: u128 = match self.counts.get(&at) {
            Some(n) => *n,
            None => 0,
        };
        if count > 1 {
            let _prior = self.counts.insert(at, count - 1);
        } else {
            let _gone = self.counts.remove(&at);
        }
        proof {
            self.lemma_counts();
            assert(self@ =~= old(self)@.remove(at));
        }
    }

    pub fn clear(&mut self)
        ensures
            final(self).wf(),
            final(self)@ == Multiset::<Instant>::empty(),
    {
        *self = ActorDeadlines::new();
    }

    /// The least deadline.
    pub fn first(&self) -> (r: Option<Instant>)
        requires
            self.wf(),
        ensures
            r == least(self@),
    {
        proof {
            self.lemma_counts();
            self.counts.lemma_listing();
        }
        if self.counts.len() == 0 {
            proof {
                assert forall|at: Instant| self@.count(at) == 0 by {
                    assert(!self.counts.listing().contains(at));
                    assert(!self.counts@.dom().contains(at));
                }
                assert(self@ =~= Multiset::<Instant>::empty());
            }
            None
        } else {
            let at = self.counts.key_at(0);
            proof {
                let listing = self.counts.listing();
                assert forall|other: Instant| #[trigger] self@.contains(other) implies at.nanos
                    <= other.nanos by {
                    assert(self@.count(other) > 0);
                    assert(self.counts@.dom().contains(other));
                    assert(listing.contains(other));
                    let i = listing.index_of(other);
                    assert(listing[i] == other);
                    if i > 0 {
                        assert(listing[0].nanos < listing[i].nanos);
                    }
                }
                assert(self@.contains(at)) by {
                    assert(self@.count(at) > 0);
                }
                lemma_least(self@, at);
            }
            Some(at)
        }
    }

    /// How many different deadlines there are.
    pub fn len(&self) -> (r: usize)
        requires
            self.wf(),
        ensures
            r == self@.dom().len(),
    {
        proof {
            self.lemma_counts();
            assert(self@.dom() =~= self.counts@.dom());
        }
        self.counts.len()
    }
}

/// An actor in the order in which its work comes due.
#[derive(Clone, Copy, Debug, PartialEq, Eq, Structural)]
pub struct DueActor {
    pub at: Instant,
    pub actor: ActorRef,
}

impl Key for DueActor {
    open spec fn lt(a: Self, b: Self) -> bool {
        a.at.nanos < b.at.nanos || (a.at.nanos == b.at.nanos && ActorRef::lt(a.actor, b.actor))
    }

    proof fn lt_irreflexive(a: Self) {
    }

    proof fn lt_transitive(a: Self, b: Self, c: Self) {
    }

    proof fn lt_total(a: Self, b: Self) {
    }

    fn less(&self, other: &Self) -> (r: bool) {
        self.at.nanos < other.at.nanos || (self.at.nanos == other.at.nanos && self.actor.less(
            &other.actor,
        ))
    }
}

/// At most one deadline per actor, findable by time.
pub struct DeadlineIndex {
    actors: OrdMap<ActorRef, Instant>,
    ordered: OrdSet<DueActor>,
}

impl View for DeadlineIndex {
    type V = Map<ActorRef, Instant>;

    closed spec fn view(&self) -> Map<ActorRef, Instant> {
        self.actors@
    }
}

/// The index with an actor's deadline replaced or taken out.
pub open spec fn index_set(
    index: Map<ActorRef, Instant>,
    actor: ActorRef,
    deadline: Option<Instant>,
) -> Map<ActorRef, Instant> {
    match deadline {
        Some(at) => index.insert(actor, at),
        None => index.remove(actor),
    }
}

/// The actors whose deadline has come.
pub open spec fn due_actors(index: Map<ActorRef, Instant>, now: Instant) -> Set<ActorRef> {
    index.dom().filter(|a: ActorRef| index[a].nanos <= now.nanos)
}

impl DeadlineIndex {
    pub closed spec fn wf(self) -> bool {
        &&& self.actors.wf()
        &&& self.ordered.wf()
        &&& forall|d: DueActor| #[trigger]
            self.ordered@.contains(d) <==> self.actors@.dom().contains(d.actor)
                && self.actors@[d.actor] == d.at
    }

    pub fn new() -> (r: Self)
        ensures
            r.wf(),
            r@ == Map::<ActorRef, Instant>::empty(),
    {
        DeadlineIndex { actors: OrdMap::new(), ordered: OrdSet::new() }
    }

    pub fn set(&mut self, actor: ActorRef, deadline: Option<Instant>)
        requires
            old(self).wf(),
        ensures
            final(self).wf(),
            final(self)@ == index_set(old(self)@, actor, deadline),
    {
        self.remove(actor);
        let at = match deadline {
            Some(at) => at,
            None => return,
        };
        let _none = self.actors.insert(actor, at);
        let _added = self.ordered.insert(DueActor { at, actor });
        assert(self@ =~= old(self)@.insert(actor, at));
    }

    pub fn remove(&mut self, actor: ActorRef)
        requires
            old(self).wf(),
        ensures
            final(self).wf(),
            final(self)@ == old(self)@.remove(actor),
    {
        let at = match self.actors.remove(&actor) {
            Some(at) => at,
            None => {
                assert(self@ =~= old(self)@.remove(actor));
                return;
            },
        };
        let _removed = self.ordered.remove(&DueActor { at, actor });
    }

    /// The actors whose deadline has come, by slot and generation.
    pub fn due(&self, now: Instant) -> (r: Vec<ActorRef>)
        requires
            self.wf(),
        ensures
            r@ == ordered::sorted(due_actors(self@, now)),
            ordered::ascending(r@),
            r@.to_set() == due_actors(self@, now),
    {
        let mut found: OrdSet<ActorRef> = OrdSet::new();
        let count = self.ordered.len();
        let mut i: usize = 0;
        let ghost listing = self.ordered.listing();
        proof {
            self.ordered.lemma_listing();
        }
        while i < count && self.ordered.at(i).at.nanos <= now.nanos
            invariant
                self.wf(),
                found.wf(),
                listing == self.ordered.listing(),
                count == listing.len(),
                count == self.ordered@.len(),
                listing.to_set() == self.ordered@,
                ordered::ascending(listing),
                i <= count,
                found@.subset_of(due_actors(self@, now)),
                forall|j: int| 0 <= j < i ==> found@.contains((#[trigger] listing[j]).actor),
            decreases count - i,
        {
            let head = self.ordered.at(i);
            let ghost before = found@;
            proof {
                assert(listing.contains(head));
                assert(listing.to_set().contains(head));
            }
            let _added = found.insert(head.actor);
            i += 1;
        }
        proof {
            assert forall|a: ActorRef| due_actors(self@, now).contains(a) implies found@.contains(a) by {
                let d = DueActor { at: self@[a], actor: a };
                assert(self.ordered@.contains(d));
                assert(listing.to_set().contains(d));
                let j = listing.index_of(d);
                assert(listing[j] == d);
                if j >= i {
                    if j > i {
                        assert(DueActor::lt(listing[i as int], listing[j]));
                    }
                    assert(false);
                }
            }
            assert(found@ =~= due_actors(self@, now));
        }
        found.to_vec()
    }

    /// Takes out the actors whose deadline has come, by slot and generation.
    pub fn take_due(&mut self, now: Instant) -> (r: Vec<ActorRef>)
        requires
            old(self).wf(),
        ensures
            final(self).wf(),
            r@ == ordered::sorted(due_actors(old(self)@, now)),
            ordered::ascending(r@),
            r@.to_set() == due_actors(old(self)@, now),
            final(self)@ == old(self)@.remove_keys(due_actors(old(self)@, now)),
    {
        let taken = self.due(now);
        let ghost before = self@;
        let mut i: usize = 0;
        proof {
            assert(before.remove_keys(taken@.take(0).to_set()) =~= before);
        }
        while i < taken.len()
            invariant
                self.wf(),
                i <= taken@.len(),
                self@ == before.remove_keys(taken@.take(i as int).to_set()),
            decreases taken@.len() - i,
        {
            let actor: ActorRef = taken[i];
            proof {
                let more = taken@.take(i + 1);
                assert(more =~= taken@.take(i as int).push(actor));
                assert forall|a: ActorRef| #[trigger] more.to_set().contains(a) <==> taken@.take(
                    i as int,
                ).to_set().contains(a) || a == actor by {
                    if more.contains(a) {
                        let k = more.index_of(a);
                        if k < i {
                            assert(taken@.take(i as int)[k] == a);
                        }
                    }
                    if taken@.take(i as int).contains(a) {
                        let k = taken@.take(i as int).index_of(a);
                        assert(more[k] == a);
                    }
                    assert(more[i as int] == actor);
                }
                assert(before.remove_keys(taken@.take(i as int).to_set()).remove(actor)
                    =~= before.remove_keys(more.to_set()));
            }
            self.remove(actor);
            i += 1;
        }
        assert(taken@.take(i as int) =~= taken@);
        taken
    }

    pub fn len(&self) -> (r: usize)
        requires
            self.wf(),
        ensures
            r == self@.dom().len(),
    {
        self.actors.len()
    }
}

/// Setting an actor's deadline leaves every other actor's alone.
pub proof fn index_set_is_local(
    index: Map<ActorRef, Instant>,
    actor: ActorRef,
    deadline: Option<Instant>,
    other: ActorRef,
)
    requires
        other != actor,
    ensures
        index_set(index, actor, deadline).dom().contains(other) == index.dom().contains(other),
        index.dom().contains(other) ==> index_set(index, actor, deadline)[other] == index[other],
{
}

/// The first deadline is one of those that are kept, and none of them is earlier.
pub proof fn the_first_deadline_is_kept(bag: Multiset<Instant>, at: Instant)
    requires
        bag.contains(at),
        forall|other: Instant| #[trigger] bag.contains(other) ==> at.nanos <= other.nanos,
    ensures
        least(bag) == Some(at),
        least(with_deadline(bag, None)) == Some(at),
{
    lemma_least(bag, at);
}

/// A deadline that is kept counts until it is taken out again.
pub proof fn a_deadline_is_taken_out_again(bag: Multiset<Instant>, at: Instant, other: Instant)
    ensures
        with_deadline(bag, Some(at)).count(at) == bag.count(at) + 1,
        other != at ==> with_deadline(bag, Some(at)).count(other) == bag.count(other),
        without_deadline(with_deadline(bag, Some(at)), Some(at)) == bag,
        with_deadline(bag, None) == bag,
        without_deadline(bag, None) == bag,
{
    assert(without_deadline(with_deadline(bag, Some(at)), Some(at)) =~= bag);
}

/// An actor is due once its time has been reached.
pub proof fn an_actor_is_due_at_its_time(
    index: Map<ActorRef, Instant>,
    actor: ActorRef,
    at: Instant,
    now: Instant,
)
    ensures
        due_actors(index_set(index, actor, Some(at)), now).contains(actor) <==> at.nanos
            <= now.nanos,
        !due_actors(index_set(index, actor, None), now).contains(actor),
{
}

} // verus!
