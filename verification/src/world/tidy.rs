//! What a World keeps besides its tables: readiness hints, counts of waiting
//! failures, drains and the payload budget are those that the actors and the
//! tables imply.
use vstd::prelude::*;
use vstd::multiset::Multiset;
use super::{ActorView, World, WorldView};
use crate::buffers::BudgetView;
use crate::held::{Delivery, Staged, Stored};
use crate::operations::{EntryView, OpsView, OutcomeView};
use crate::publications::PublicationView;
use crate::sums;
use crate::tally;
use crate::types::{ActorRef, EndpointKind, Lifecycle};

verus! {

/// What is in between while an operation is under way: slots whose hints are
/// not up to date, slots whose drain is not entered, and payloads in hand.
pub struct Slack {
    pub stale: Set<int>,
    pub loose: Set<int>,
    pub hand: Multiset<(u64, usize)>,
}

/// Some hints are not up to date, and some payloads are in hand.
pub open spec fn between(stale: Set<int>, hand: Multiset<(u64, usize)>) -> Slack {
    Slack { stale, loose: Set::empty(), hand }
}

/// Nothing is in between.
pub open spec fn nothing_open() -> Slack {
    Slack { stale: Set::empty(), loose: Set::empty(), hand: Multiset::empty() }
}

/// What pays for a stored payload, and how much.
pub open spec fn key_of(stored: Stored) -> (u64, usize) {
    (stored.id, stored.bytes)
}

pub open spec fn one_if(b: bool) -> nat {
    if b {
        1
    } else {
        0
    }
}

pub open spec fn delivery_at(key: (u64, usize)) -> spec_fn(Delivery) -> nat {
    |d: Delivery| one_if(key_of(*d.payload) == key)
}

pub open spec fn staged_at(key: (u64, usize)) -> spec_fn(Staged) -> nat {
    |s: Staged| one_if(key_of(*s.stored) == key)
}

/// How often an actor holds a payload.
pub open spec fn held_in(a: ActorView, key: (u64, usize)) -> nat {
    tally::tally(a.queue, delivery_at(key)) + tally::tally(a.staged, staged_at(key))
}

pub open spec fn actor_at(key: (u64, usize)) -> spec_fn(ActorView) -> nat {
    |a: ActorView| held_in(a, key)
}

/// What an operation holds.
pub open spec fn entry_key(e: EntryView) -> Option<(u64, usize)> {
    match e {
        EntryView::Pending(p) => match p.context {
            Some(held) => Some(key_of(*held.kept())),
            None => None,
        },
        EntryView::Terminal { outcome: OutcomeView::Completed(held), .. } => Some(
            key_of(*held.kept()),
        ),
        _ => None,
    }
}

pub open spec fn slot_at(key: (u64, usize)) -> spec_fn(Option<EntryView>) -> nat {
    |slot: Option<EntryView>|
        one_if(slot is Some && entry_key(slot->0) == Some(key))
}

pub open spec fn publication_at(key: (u64, usize)) -> spec_fn(PublicationView) -> nat {
    |p: PublicationView| one_if(key_of(p.stored) == key)
}

impl BudgetView {
    /// How many holders inside the World the budget counts for a payload.
    pub open spec fn counts(self, key: (u64, usize)) -> int {
        if self.shares.dom().contains(key.0) && self.shares[key.0].bytes == key.1 {
            self.inside(key.0)
        } else {
            0
        }
    }
}

impl WorldView {
    /// In how many places of the World a payload is held: mailboxes, entries
    /// put aside, publications and operations.
    pub open spec fn places(self, key: (u64, usize)) -> nat {
        tally::tally(self.actors, actor_at(key)) + sums::sum_over(
            self.pubs.entries,
            publication_at(key),
        ) + tally::tally(self.ops.slots, slot_at(key))
    }

    /// The budget counts for each payload the places that hold it, and those in
    /// hand.
    #[verifier::opaque]
    pub open spec fn owing(self, hand: Multiset<(u64, usize)>) -> bool {
        &&& self.budget.tidy()
        &&& self.pubs.entries.dom().finite()
        &&& self.ops.dropped == Seq::<u64>::empty()
        &&& forall|key: (u64, usize)| #[trigger]
            self.budget.counts(key) == self.places(key) + hand.count(key)
    }

    /// Slots, orders and references agree.
    #[verifier::opaque]
    pub open spec fn rows(self) -> bool {
        &&& forall|i: int|
            0 <= i < self.actors.len() ==> (#[trigger] self.actors[i]).reference.slot == i
                && self.actors[i].reference.world == self.id && self.actors[i].ready_order
                < self.next_ready_order
        &&& forall|i: int, j: int|
            0 <= i < j < self.actors.len() ==> (#[trigger] self.actors[i]).ready_order != (
            #[trigger] self.actors[j]).ready_order
    }

    /// What has not ended is listed by an owner that has not ended, and what an
    /// owner lists belongs to it and is listed once.
    #[verifier::opaque]
    pub open spec fn family(self) -> bool {
        &&& forall|i: int|
            0 <= i < self.actors.len() && !super::is_ended((#[trigger] self.actors[i]).state)
                && self.actors[i].parent is Some ==> self.raises(
                self.actors[i].parent->0,
                self.actors[i].reference,
            )
        &&& forall|i: int, k: int|
            0 <= i < self.actors.len() && 0 <= k < self.actors[i].children.len() ==> self.valid(
                #[trigger] self.actors[i].children[k],
            ) && self.at(self.actors[i].children[k]).parent == Some(self.actors[i].reference)
        &&& forall|i: int|
            0 <= i < self.actors.len() ==> (#[trigger] self.actors[i]).children.no_duplicates()
    }

    pub open spec fn raises(self, owner: ActorRef, child: ActorRef) -> bool {
        &&& self.valid(owner)
        &&& !super::is_ended(self.at(owner).state)
        &&& self.at(owner).children.contains(child)
        &&& self.order(owner) < self.order(child)
    }

    /// Whether a phase holds the hint of an actor exactly if it should.
    pub open spec fn hint_ok(self, map: Map<u64, ActorRef>, a: ActorView, due: bool) -> bool {
        &&& map.dom().contains(a.ready_order) <==> due
        &&& due ==> map[a.ready_order] == a.reference
    }

    /// Whether the hints of an actor are those that it implies.
    pub open spec fn row_hinted(self, a: ActorView) -> bool {
        let python = a.kind == EndpointKind::Python;
        let r = a.reference;
        &&& self.hint_ok(
            self.python_ready.start,
            a,
            python && !a.python_done && a.state == Lifecycle::Starting,
        )
        &&& self.hint_ok(
            self.python_ready.failure,
            a,
            python && self.executable(r) && a.pending_failures > 0,
        )
        &&& self.hint_ok(
            self.python_ready.delivery,
            a,
            python && self.executable(r) && a.queue.len() > 0,
        )
        &&& self.hint_ok(
            self.python_ready.cleanup,
            a,
            python && !a.python_done && super::is_ended(a.state),
        )
    }

    /// Whether an order is that of an actor.
    pub open spec fn ordered_here(self, order: u64) -> bool {
        exists|i: int| 0 <= i < self.actors.len() && (#[trigger] self.actors[i]).ready_order == order
    }

    /// The hints are those that the actors imply, but for some slots.
    #[verifier::opaque]
    pub open spec fn hinted(self, stale: Set<int>) -> bool {
        &&& forall|i: int|
            0 <= i < self.actors.len() && (!stale.contains(i) || self.actors[i].kind
                != EndpointKind::Python) ==> self.row_hinted(#[trigger] self.actors[i])
        &&& forall|o: u64| #[trigger]
            self.python_ready.start.dom().contains(o) ==> self.ordered_here(o)
        &&& forall|o: u64| #[trigger]
            self.python_ready.failure.dom().contains(o) ==> self.ordered_here(o)
        &&& forall|o: u64| #[trigger]
            self.python_ready.delivery.dom().contains(o) ==> self.ordered_here(o)
        &&& forall|o: u64| #[trigger]
            self.python_ready.cleanup.dom().contains(o) ==> self.ordered_here(o)
    }

    /// The children of an actor whose failure waits to be told.
    pub open spec fn waiting(self, r: ActorRef) -> Set<int> {
        Set::new(
            |j: int|
                0 <= j < self.actors.len() && self.actors[j].parent == Some(r)
                    && self.actors[j].notification is Some,
        )
    }

    /// An actor expects as many failures as its children have waiting, and what
    /// has stopped has none and is done.
    #[verifier::opaque]
    pub open spec fn expecting(self) -> bool {
        &&& forall|i: int|
            0 <= i < self.actors.len() ==> (#[trigger] self.actors[i]).pending_failures
                == self.waiting(self.actors[i].reference).len()
        &&& forall|i: int|
            0 <= i < self.actors.len() && (#[trigger] self.actors[i]).state == Lifecycle::Stopped
                ==> self.actors[i].notification is None && self.actors[i].python_done
        &&& forall|i: int|
            0 <= i < self.actors.len() && (#[trigger] self.actors[i]).notification is Some
                ==> self.actors[i].parent is Some
        &&& forall|i: int|
            0 <= i < self.actors.len() ==> (#[trigger] self.actors[i]).parent != Some(
                self.actors[i].reference,
            )
    }

    /// Whether a slot holds an actor that drains on its own account.
    pub open spec fn drains_here(self, s: int) -> bool {
        &&& 0 <= s < self.actors.len()
        &&& self.actors[s].state == Lifecycle::Quiescing
        &&& self.actors[s].drain_root == Some(self.actors[s].reference)
    }

    /// The drains that are on are those of the actors that drain on their own
    /// account, but for some slots.
    #[verifier::opaque]
    pub open spec fn drains(self, loose: Set<int>) -> bool {
        &&& forall|s: u32|
            !loose.contains(s as int) ==> (#[trigger] self.drain_roots.dom().contains(s)
                <==> self.drains_here(s as int))
        &&& forall|s: u32| #[trigger]
            self.drain_roots.dom().contains(s) ==> (s as int) < self.actors.len()
                && self.drain_roots[s] == self.actors[s as int].reference
    }

    /// Whether the hints, the counts, the drains and the budget are those that
    /// the actors and the tables imply, but for what is in between.
    pub open spec fn neat(self, open: Slack) -> bool {
        &&& self.rows()
        &&& self.family()
        &&& self.hinted(open.stale)
        &&& self.expecting()
        &&& self.drains(open.loose)
        &&& self.owing(open.hand)
    }

    /// The same, but for the budget.
    pub open spec fn kept_up(self, stale: Set<int>, loose: Set<int>) -> bool {
        &&& self.rows()
        &&& self.family()
        &&& self.hinted(stale)
        &&& self.expecting()
        &&& self.drains(loose)
    }
}

/// How a state bears on what runs below it.
pub open spec fn bearing(state: Lifecycle) -> int {
    match state {
        Lifecycle::Starting => 0,
        Lifecycle::Active => 1,
        Lifecycle::Quiescing => 2,
        _ => 3,
    }
}

/// Whether two states of a slot call for the same hints.
pub open spec fn same_work(a: ActorView, b: ActorView) -> bool {
    &&& a.python_done == b.python_done
    &&& a.in_flight == b.in_flight
    &&& a.control_in_flight == b.control_in_flight
    &&& a.pending_failures > 0 <==> b.pending_failures > 0
    &&& a.queue.len() > 0 <==> b.queue.len() > 0
}

/// Whether actors keep their places, their owners and how they bear on others.
pub open spec fn same_standing(v: WorldView, n: WorldView) -> bool {
    &&& n.same_roster(v)
    &&& forall|i: int|
        0 <= i < v.actors.len() ==> bearing((#[trigger] n.actors[i]).state) == bearing(
            v.actors[i].state,
        )
}

pub(super) proof fn lemma_runs_alike(
    v: WorldView,
    n: WorldView,
    r: ActorRef,
    starting: bool,
    quiescing: bool,
)
    requires
        same_standing(v, n),
    ensures
        n.execution_from(r, starting, quiescing) == v.execution_from(r, starting, quiescing),
    decreases v.order(r),
{
    super::actors::lemma_same_roster(v, n, r);
    if v.valid(r) {
        let i = r.slot as int;
        assert(bearing(n.actors[i].state) == bearing(v.actors[i].state));
        let state = v.at(r).state;
        match v.at(r).parent {
            Some(p) => {
                super::actors::lemma_same_roster(v, n, p);
                if v.valid(p) && v.order(p) < v.order(r) {
                    lemma_runs_alike(
                        v,
                        n,
                        p,
                        starting || state == Lifecycle::Starting,
                        quiescing || state == Lifecycle::Quiescing,
                    );
                }
            },
            None => {},
        }
    }
}

/// Hints stay right where the actors keep their standing, but for slots whose
/// work changed.
pub(super) proof fn lemma_hints_kept(v: WorldView, n: WorldView, stale: Set<int>, touched: Set<int>)
    requires
        v.hinted(stale),
        v.rows(),
        same_standing(v, n),
        n.python_ready == v.python_ready,
        forall|i: int|
            0 <= i < v.actors.len() && !touched.contains(i) ==> same_work(
                #[trigger] n.actors[i],
                v.actors[i],
            ),
    ensures
        n.hinted(stale.union(touched)),
{
    reveal(WorldView::hinted);
    reveal(WorldView::rows);
    assert forall|i: int|
        0 <= i < n.actors.len() && (!stale.union(touched).contains(i) || n.actors[i].kind
            != EndpointKind::Python) implies n.row_hinted(#[trigger] n.actors[i]) by {
        let r = v.actors[i].reference;
        assert(n.actors[i].reference == r && n.actors[i].kind == v.actors[i].kind);
        assert(v.row_hinted(v.actors[i]));
        assert(bearing(n.actors[i].state) == bearing(v.actors[i].state));
        lemma_runs_alike(v, n, r, false, false);
        if !touched.contains(i) {
            assert(same_work(n.actors[i], v.actors[i]));
        }
    }
    assert forall|o: u64| v.ordered_here(o) implies #[trigger] n.ordered_here(o) by {
        let i = choose|i: int|
            0 <= i < v.actors.len() && (#[trigger] v.actors[i]).ready_order == o;
        assert(n.actors[i].ready_order == o);
    }
    assert forall|o: u64| #[trigger] n.python_ready.start.dom().contains(o) implies n.ordered_here(
        o,
    ) by {
        assert(v.ordered_here(o));
    }
    assert forall|o: u64| #[trigger]
        n.python_ready.failure.dom().contains(o) implies n.ordered_here(o) by {
        assert(v.ordered_here(o));
    }
    assert forall|o: u64| #[trigger]
        n.python_ready.delivery.dom().contains(o) implies n.ordered_here(o) by {
        assert(v.ordered_here(o));
    }
    assert forall|o: u64| #[trigger]
        n.python_ready.cleanup.dom().contains(o) implies n.ordered_here(o) by {
        assert(v.ordered_here(o));
    }
}

/// Bringing the hints of an actor up to date makes them right.
pub(super) proof fn lemma_hints_refreshed(v: WorldView, r: ActorRef, stale: Set<int>)
    requires
        v.hinted(stale),
        v.rows(),
        v.valid(r),
    ensures
        v.refreshed(r).hinted(stale.remove(r.slot as int)),
{
    reveal(WorldView::hinted);
    reveal(WorldView::rows);
    let n = v.refreshed(r);
    let s = r.slot as int;
    assert(v.actors[s].reference == r);
    assert forall|x: ActorRef| #[trigger] n.executable(x) == v.executable(x) by {
        assert(same_standing(v, n));
        lemma_runs_alike(v, n, x, false, false);
    }
    assert forall|i: int|
        0 <= i < n.actors.len() && (!stale.remove(s).contains(i) || n.actors[i].kind
            != EndpointKind::Python) implies n.row_hinted(#[trigger] n.actors[i]) by {
        assert(n.executable(n.actors[i].reference) == v.executable(v.actors[i].reference));
        if i == s {
            if v.actors[i].kind != EndpointKind::Python {
                assert(v.row_hinted(v.actors[i]));
            }
        } else {
            assert(v.row_hinted(v.actors[i]));
            assert(v.actors[i].ready_order != v.actors[s].ready_order);
        }
    }
    assert forall|o: u64| v.ordered_here(o) implies #[trigger] n.ordered_here(o) by {
        let i = choose|i: int|
            0 <= i < v.actors.len() && (#[trigger] v.actors[i]).ready_order == o;
        assert(n.actors[i].ready_order == o);
    }
    assert(v.ordered_here(v.actors[s].ready_order));
    assert forall|o: u64| #[trigger] n.python_ready.start.dom().contains(o) implies n.ordered_here(
        o,
    ) by {
        assert(v.python_ready.start.dom().contains(o) || o == v.actors[s].ready_order);
        assert(v.ordered_here(o));
    }
    assert forall|o: u64| #[trigger]
        n.python_ready.failure.dom().contains(o) implies n.ordered_here(o) by {
        assert(v.python_ready.failure.dom().contains(o) || o == v.actors[s].ready_order);
        assert(v.ordered_here(o));
    }
    assert forall|o: u64| #[trigger]
        n.python_ready.delivery.dom().contains(o) implies n.ordered_here(o) by {
        assert(v.python_ready.delivery.dom().contains(o) || o == v.actors[s].ready_order);
        assert(v.ordered_here(o));
    }
    assert forall|o: u64| #[trigger]
        n.python_ready.cleanup.dom().contains(o) implies n.ordered_here(o) by {
        assert(v.python_ready.cleanup.dom().contains(o) || o == v.actors[s].ready_order);
        assert(v.ordered_here(o));
    }
}

/// Whether what concerns owners and failures is the same in two states.
pub open spec fn same_notices(v: WorldView, n: WorldView) -> bool {
    forall|i: int|
        0 <= i < v.actors.len() ==> {
            &&& (#[trigger] n.actors[i]).notification is Some <==> v.actors[i].notification is Some
            &&& n.actors[i].pending_failures == v.actors[i].pending_failures
            &&& n.actors[i].state == Lifecycle::Stopped ==> v.actors[i].state == Lifecycle::Stopped
                || n.actors[i].python_done && n.actors[i].notification is None
            &&& v.actors[i].python_done ==> n.actors[i].python_done
        }
}

pub(super) proof fn lemma_counted_kept(v: WorldView, n: WorldView)
    requires
        v.expecting(),
        n.same_roster(v),
        same_notices(v, n),
    ensures
        n.expecting(),
{
    reveal(WorldView::expecting);
    assert forall|i: int| 0 <= i < n.actors.len() implies (#[trigger] n.actors[i]).pending_failures
        == n.waiting(n.actors[i].reference).len() by {
        let r = v.actors[i].reference;
        assert(n.actors[i].reference == r);
        assert(n.waiting(r) =~= v.waiting(r)) by {
            assert forall|j: int| n.waiting(r).contains(j) <==> v.waiting(r).contains(j) by {
                if 0 <= j < v.actors.len() {
                    assert(n.actors[j].parent == v.actors[j].parent);
                }
            }
        }
        assert(v.actors[i].pending_failures == v.waiting(r).len());
    }
    assert forall|i: int|
        0 <= i < n.actors.len() && (#[trigger] n.actors[i]).state
            == Lifecycle::Stopped implies n.actors[i].notification is None
        && n.actors[i].python_done by {
        if v.actors[i].state == Lifecycle::Stopped {
            assert(v.actors[i].notification is None);
        }
    }
    assert forall|i: int|
        0 <= i < n.actors.len() && (#[trigger] n.actors[i]).notification
            is Some implies n.actors[i].parent is Some by {
        assert(v.actors[i].notification is Some);
    }
    assert forall|i: int| 0 <= i < n.actors.len() implies (#[trigger] n.actors[i]).parent != Some(
        n.actors[i].reference,
    ) by {
        assert(v.actors[i].parent != Some(v.actors[i].reference));
    }
}

pub(super) proof fn lemma_rows_kept(v: WorldView, n: WorldView)
    requires
        v.rows(),
        n.same_roster(v),
    ensures
        n.rows(),
{
    reveal(WorldView::rows);
    assert forall|i: int|
        0 <= i < n.actors.len() implies (#[trigger] n.actors[i]).reference.slot == i
        && n.actors[i].reference.world == n.id && n.actors[i].ready_order
        < n.next_ready_order by {
        assert(v.actors[i].reference.slot == i);
    }
    assert forall|i: int, j: int| 0 <= i < j < n.actors.len() implies (
    #[trigger] n.actors[i]).ready_order != (#[trigger] n.actors[j]).ready_order by {
        assert(v.actors[i].ready_order != v.actors[j].ready_order);
    }
}

/// Whether nobody ends, and nobody that has not ended leaves a list.
pub open spec fn same_family(v: WorldView, n: WorldView) -> bool {
    forall|i: int|
        0 <= i < v.actors.len() ==> {
            &&& super::is_ended((#[trigger] n.actors[i]).state) == super::is_ended(
                v.actors[i].state,
            )
            &&& n.actors[i].children == v.actors[i].children || fewer_children(v, n, i)
        }
}

/// Whether an actor lists fewer children, and those that left have ended.
pub open spec fn fewer_children(v: WorldView, n: WorldView, i: int) -> bool {
    &&& n.actors[i].children.no_duplicates()
    &&& forall|k: int|
        0 <= k < n.actors[i].children.len() ==> v.actors[i].children.contains(
            #[trigger] n.actors[i].children[k],
        )
    &&& forall|c: ActorRef| #[trigger]
        v.actors[i].children.contains(c) && n.valid(c) && !super::is_ended(n.at(c).state)
            ==> n.actors[i].children.contains(c)
}

pub(super) proof fn lemma_family_kept(v: WorldView, n: WorldView)
    requires
        v.family(),
        v.rows(),
        n.same_roster(v),
        same_family(v, n),
    ensures
        n.family(),
{
    reveal(WorldView::family);
    reveal(WorldView::rows);
    assert forall|i: int|
        0 <= i < n.actors.len() && !super::is_ended((#[trigger] n.actors[i]).state)
            && n.actors[i].parent is Some implies n.raises(
        n.actors[i].parent->0,
        n.actors[i].reference,
    ) by {
        let p = v.actors[i].parent->0;
        let c = v.actors[i].reference;
        assert(n.actors[i].parent == v.actors[i].parent && n.actors[i].reference == c);
        assert(super::is_ended(n.actors[i].state) == super::is_ended(v.actors[i].state));
        assert(v.raises(p, c));
        super::actors::lemma_same_roster(v, n, p);
        super::actors::lemma_same_roster(v, n, c);
        assert(c.slot == i);
        assert(n.valid(c));
        let j = p.slot as int;
        assert(super::is_ended(n.actors[j].state) == super::is_ended(v.actors[j].state));
        assert(v.actors[j].children.contains(c));
    }
    assert forall|i: int, k: int|
        0 <= i < n.actors.len() && 0 <= k < n.actors[i].children.len() implies n.valid(
        #[trigger] n.actors[i].children[k],
    ) && n.at(n.actors[i].children[k]).parent == Some(n.actors[i].reference) by {
        let c = n.actors[i].children[k];
        assert(super::is_ended(n.actors[i].state) == super::is_ended(v.actors[i].state));
        assert(v.actors[i].children.contains(c));
        let j = v.actors[i].children.index_of(c);
        assert(v.valid(v.actors[i].children[j]));
        super::actors::lemma_same_roster(v, n, c);
        assert(n.actors[i].reference == v.actors[i].reference);
    }
    assert forall|i: int| 0 <= i < n.actors.len() implies (
    #[trigger] n.actors[i]).children.no_duplicates() by {
        assert(super::is_ended(n.actors[i].state) == super::is_ended(v.actors[i].state));
        assert(v.actors[i].children.no_duplicates());
    }
}

pub(super) proof fn lemma_drains_kept(v: WorldView, n: WorldView, loose: Set<int>, touched: Set<int>)
    requires
        v.drains(loose),
        n.same_roster(v),
        n.drain_roots == v.drain_roots,
        forall|i: int|
            0 <= i < v.actors.len() && !touched.contains(i) ==> (n.drains_here(i)
                <==> #[trigger] v.drains_here(i)),
    ensures
        n.drains(loose.union(touched)),
{
    reveal(WorldView::drains);
    assert forall|s: u32| !loose.union(touched).contains(s as int) implies (
    #[trigger] n.drain_roots.dom().contains(s) <==> n.drains_here(s as int)) by {
        assert(v.drain_roots.dom().contains(s) <==> v.drains_here(s as int));
    }
    assert forall|s: u32| #[trigger] n.drain_roots.dom().contains(s) implies (s as int)
        < n.actors.len() && n.drain_roots[s] == n.actors[s as int].reference by {
        assert(v.drain_roots[s] == v.actors[s as int].reference);
        assert(n.actors[s as int].reference == v.actors[s as int].reference);
    }
}

/// Whether a World has the same actors, hints and drains in two states.
pub open spec fn same_actors(v: WorldView, n: WorldView) -> bool {
    &&& n.id == v.id
    &&& n.cfg == v.cfg
    &&& n.actors == v.actors
    &&& n.next_ready_order == v.next_ready_order
    &&& n.python_ready == v.python_ready
    &&& n.drain_roots == v.drain_roots
}

pub(super) proof fn lemma_kept_up(v: WorldView, n: WorldView, stale: Set<int>, loose: Set<int>)
    requires
        v.kept_up(stale, loose),
        same_actors(v, n),
    ensures
        n.kept_up(stale, loose),
{
    lemma_rows_kept(v, n);
    lemma_family_kept(v, n);
    lemma_counted_kept(v, n);
    lemma_hints_kept(v, n, stale, Set::empty());
    assert(stale.union(Set::empty()) =~= stale);
    lemma_drains_kept(v, n, loose, Set::empty());
    assert(loose.union(Set::empty()) =~= loose);
}


/// Whether a World holds the same payloads in two states.
pub open spec fn same_holdings(v: WorldView, n: WorldView) -> bool {
    &&& n.budget == v.budget
    &&& n.pubs.entries == v.pubs.entries
    &&& n.ops.slots == v.ops.slots
    &&& n.ops.dropped == v.ops.dropped
    &&& n.actors.len() == v.actors.len()
    &&& forall|i: int|
        0 <= i < v.actors.len() ==> (#[trigger] n.actors[i]).queue == v.actors[i].queue
            && n.actors[i].staged == v.actors[i].staged
}

pub(super) proof fn lemma_owing_kept(v: WorldView, n: WorldView, hand: Multiset<(u64, usize)>)
    requires
        v.owing(hand),
        same_holdings(v, n),
    ensures
        n.owing(hand),
{
    reveal(WorldView::owing);
    assert forall|key: (u64, usize)| #[trigger] n.budget.counts(key) == n.places(key) + hand.count(
        key,
    ) by {
        assert forall|i: int| 0 <= i < n.actors.len() implies actor_at(key)(
            #[trigger] n.actors[i],
        ) == actor_at(key)(v.actors[i]) by {}
        tally::lemma_alike(n.actors, v.actors, actor_at(key));
        assert(v.budget.counts(key) == v.places(key) + hand.count(key));
    }
}

/// A holder of a payload in hand lets go of it.
pub(super) proof fn lemma_owing_released(
    v: WorldView,
    hand: Multiset<(u64, usize)>,
    key: (u64, usize),
)
    requires
        v.owing(hand),
        hand.count(key) > 0,
    ensures
        v.releasing(key.0).owing(hand.remove(key)),
{
    reveal(WorldView::owing);
    let n = v.releasing(key.0);
    assert(v.budget.counts(key) == v.places(key) + hand.count(key));
    assert forall|k: (u64, usize)| #[trigger] n.budget.counts(k) == n.places(k) + hand.remove(
        key,
    ).count(k) by {
        assert(v.budget.counts(k) == v.places(k) + hand.count(k));
        assert(n.places(k) == v.places(k));
    }
}

/// A payload in hand goes out on loan.
pub(super) proof fn lemma_owing_lent(
    v: WorldView,
    hand: Multiset<(u64, usize)>,
    key: (u64, usize),
)
    requires
        v.owing(hand),
        hand.count(key) > 0,
    ensures
        v.lending(key.0).owing(hand.remove(key)),
{
    reveal(WorldView::owing);
    let n = v.lending(key.0);
    assert(v.budget.counts(key) == v.places(key) + hand.count(key));
    assert forall|k: (u64, usize)| #[trigger] n.budget.counts(k) == n.places(k) + hand.remove(
        key,
    ).count(k) by {
        assert(v.budget.counts(k) == v.places(k) + hand.count(k));
        assert(n.places(k) == v.places(k));
    }
}

/// A loan that comes back, or goes out once more, changes no place.
pub(super) proof fn lemma_owing_out(
    v: WorldView,
    n: WorldView,
    hand: Multiset<(u64, usize)>,
    id: u64,
)
    requires
        v.owing(hand),
        n == v.returning(id) || n == (WorldView { budget: v.budget.shared_out(id), ..v }),
    ensures
        n.owing(hand),
{
    reveal(WorldView::owing);
    assert forall|k: (u64, usize)| #[trigger] n.budget.counts(k) == n.places(k) + hand.count(k) by {
        assert(v.budget.counts(k) == v.places(k) + hand.count(k));
        assert(n.places(k) == v.places(k));
    }
}

/// One more holder of a payload, in hand.
pub(super) proof fn lemma_owing_shared(
    v: WorldView,
    hand: Multiset<(u64, usize)>,
    key: (u64, usize),
)
    requires
        v.owing(hand),
        v.budget.roomy(key.0),
        v.budget.shares[key.0].bytes == key.1,
    ensures
        v.sharing(key.0).owing(hand.insert(key)),
{
    reveal(WorldView::owing);
    let n = v.sharing(key.0);
    assert forall|k: (u64, usize)| #[trigger] n.budget.counts(k) == n.places(k) + hand.insert(
        key,
    ).count(k) by {
        assert(v.budget.counts(k) == v.places(k) + hand.count(k));
        assert(n.places(k) == v.places(k));
    }
}

/// A payload that is stored is in hand.
pub(super) proof fn lemma_owing_stored(v: WorldView, hand: Multiset<(u64, usize)>, bytes: usize)
    requires
        v.owing(hand),
        v.budget.admits(bytes),
    ensures
        (WorldView { budget: v.budget.reserved(bytes), ..v }).owing(
            hand.insert((v.budget.next, bytes)),
        ),
{
    reveal(WorldView::owing);
    let n = WorldView { budget: v.budget.reserved(bytes), ..v };
    let key = (v.budget.next, bytes);
    assert forall|k: (u64, usize)| #[trigger] n.budget.counts(k) == n.places(k) + hand.insert(
        key,
    ).count(k) by {
        assert(v.budget.counts(k) == v.places(k) + hand.count(k));
        assert(n.places(k) == v.places(k));
    }
}

/// A budget that differs in scratch bytes alone counts the same.
pub(super) proof fn lemma_owing_scratch(v: WorldView, n: WorldView, hand: Multiset<(u64, usize)>)
    requires
        v.owing(hand),
        n == (WorldView { budget: n.budget, ..v }),
        n.budget.shares == v.budget.shares,
        n.budget.tidy(),
    ensures
        n.owing(hand),
{
    reveal(WorldView::owing);
    assert forall|k: (u64, usize)| #[trigger] n.budget.counts(k) == n.places(k) + hand.count(k) by {
        assert(v.budget.counts(k) == v.places(k) + hand.count(k));
        assert(n.places(k) == v.places(k));
    }
}

/// An actor that changes what it holds: what it drops comes into the hand, and
/// what it takes leaves it.
pub(super) proof fn lemma_owing_put(
    v: WorldView,
    r: ActorRef,
    b: ActorView,
    hand: Multiset<(u64, usize)>,
    after: Multiset<(u64, usize)>,
)
    requires
        v.owing(hand),
        (r.slot as int) < v.actors.len(),
        forall|key: (u64, usize)| #[trigger]
            hand.count(key) + held_in(v.at(r), key) == after.count(key) + held_in(b, key),
    ensures
        v.put(r, b).owing(after),
{
    reveal(WorldView::owing);
    let n = v.put(r, b);
    assert forall|key: (u64, usize)| #[trigger] n.budget.counts(key) == n.places(key) + after.count(
        key,
    ) by {
        assert(v.budget.counts(key) == v.places(key) + hand.count(key));
        tally::lemma_update(v.actors, actor_at(key), r.slot as int, b);
        assert(hand.count(key) + held_in(v.at(r), key) == after.count(key) + held_in(b, key));
        assert(actor_at(key)(v.actors[r.slot as int]) == held_in(v.at(r), key));
        assert(actor_at(key)(b) == held_in(b, key));
    }
}

pub(super) proof fn lemma_owing_put_same(
    v: WorldView,
    r: ActorRef,
    b: ActorView,
    hand: Multiset<(u64, usize)>,
)
    requires
        v.owing(hand),
        (r.slot as int) < v.actors.len(),
        b.queue == v.at(r).queue,
        b.staged == v.at(r).staged,
    ensures
        v.put(r, b).owing(hand),
{
    lemma_owing_put(v, r, b, hand, hand);
}

/// A publication that joins takes its payload from the hand.
pub(super) proof fn lemma_owing_entered(
    v: WorldView,
    n: WorldView,
    id: u64,
    p: PublicationView,
    hand: Multiset<(u64, usize)>,
)
    requires
        v.owing(hand),
        !v.pubs.entries.dom().contains(id),
        n.pubs.entries == v.pubs.entries.insert(id, p),
        n.budget == v.budget,
        n.ops == v.ops,
        n.actors == v.actors,
        hand.count(key_of(p.stored)) > 0,
    ensures
        n.owing(hand.remove(key_of(p.stored))),
{
    reveal(WorldView::owing);
    let key = key_of(p.stored);
    assert forall|k: (u64, usize)| #[trigger] n.budget.counts(k) == n.places(k) + hand.remove(
        key,
    ).count(k) by {
        assert(v.budget.counts(k) == v.places(k) + hand.count(k));
        sums::lemma_sum_insert(v.pubs.entries, publication_at(k), id, p);
        assert(publication_at(k)(p) == one_if(key == k));
    }
}

/// A publication that leaves hands its payload over.
pub(super) proof fn lemma_owing_left(
    v: WorldView,
    n: WorldView,
    id: u64,
    hand: Multiset<(u64, usize)>,
)
    requires
        v.owing(hand),
        v.pubs.entries.dom().contains(id),
        n.pubs.entries == v.pubs.entries.remove(id),
        n.budget == v.budget,
        n.ops == v.ops,
        n.actors == v.actors,
    ensures
        n.owing(hand.insert(key_of(v.pubs.entries[id].stored))),
{
    reveal(WorldView::owing);
    let key = key_of(v.pubs.entries[id].stored);
    assert forall|k: (u64, usize)| #[trigger] n.budget.counts(k) == n.places(k) + hand.insert(
        key,
    ).count(k) by {
        assert(v.budget.counts(k) == v.places(k) + hand.count(k));
        sums::lemma_sum_remove(v.pubs.entries, publication_at(k), id);
        assert(publication_at(k)(v.pubs.entries[id]) == one_if(key == k));
    }
}

/// A publication that changes but keeps its payload.
pub(super) proof fn lemma_owing_replaced(
    v: WorldView,
    n: WorldView,
    id: u64,
    p: PublicationView,
    hand: Multiset<(u64, usize)>,
)
    requires
        v.owing(hand),
        v.pubs.entries.dom().contains(id),
        p.stored == v.pubs.entries[id].stored,
        n.pubs.entries == v.pubs.entries.insert(id, p),
        n.budget == v.budget,
        n.ops == v.ops,
        n.actors == v.actors,
    ensures
        n.owing(hand),
{
    reveal(WorldView::owing);
    assert forall|k: (u64, usize)| #[trigger] n.budget.counts(k) == n.places(k) + hand.count(k) by {
        assert(v.budget.counts(k) == v.places(k) + hand.count(k));
        sums::lemma_sum_insert(v.pubs.entries, publication_at(k), id, p);
        assert(publication_at(k)(p) == publication_at(k)(v.pubs.entries[id]));
    }
    assert(n.pubs.entries.dom() =~= v.pubs.entries.dom());
}

/// A payload that is held somewhere has its share, of its size.
pub(super) proof fn lemma_held_has_share(
    v: WorldView,
    key: (u64, usize),
    hand: Multiset<(u64, usize)>,
)
    requires
        v.owing(hand),
        v.places(key) + hand.count(key) > 0,
    ensures
        v.budget.shares.dom().contains(key.0),
        v.budget.shares[key.0].bytes == key.1,
        v.budget.shares[key.0].holders >= v.places(key) + hand.count(key),
{
    reveal(WorldView::owing);
    assert(v.budget.counts(key) == v.places(key) + hand.count(key));
}

pub open spec fn share_ids(drops: Seq<(u64, usize)>) -> Seq<u64> {
    drops.map_values(|key: (u64, usize)| key.0)
}

pub open spec fn drop_at(key: (u64, usize)) -> spec_fn((u64, usize)) -> nat {
    |k: (u64, usize)| one_if(k == key)
}

/// What is in hand is given back, one after the other.
pub(super) proof fn lemma_owing_released_all(
    v: WorldView,
    drops: Seq<(u64, usize)>,
    hand: Multiset<(u64, usize)>,
    after: Multiset<(u64, usize)>,
)
    requires
        v.owing(hand),
        forall|key: (u64, usize)| #[trigger]
            hand.count(key) == after.count(key) + tally::tally(drops, drop_at(key)),
    ensures
        v.releasing_all(share_ids(drops)).owing(after),
    decreases drops.len(),
{
    if drops.len() == 0 {
        assert(hand =~= after);
    } else {
        let rest = drops.drop_last();
        let last = drops.last();
        let mid = after.insert(last);
        assert forall|key: (u64, usize)| #[trigger]
            hand.count(key) == mid.count(key) + tally::tally(rest, drop_at(key)) by {
            assert(hand.count(key) == after.count(key) + tally::tally(drops, drop_at(key)));
            assert(drop_at(key)(last) == one_if(last == key));
        }
        lemma_owing_released_all(v, rest, hand, mid);
        assert(share_ids(drops).drop_last() =~= share_ids(rest));
        let m = v.releasing_all(share_ids(rest));
        lemma_owing_released(m, mid, last);
        assert(mid.remove(last) =~= after);
    }
}

/// How an operation table changed: what came in from the hand, and what it let
/// go of.
#[verifier::opaque]
pub open spec fn balanced(
    a: OpsView,
    b: OpsView,
    taken: Multiset<(u64, usize)>,
    drops: Seq<(u64, usize)>,
) -> bool {
    &&& b.dropped == a.dropped + share_ids(drops)
    &&& forall|key: (u64, usize)| #![trigger taken.count(key)]
        tally::tally(a.slots, slot_at(key)) + taken.count(key) == tally::tally(
            b.slots,
            slot_at(key),
        ) + tally::tally(drops, drop_at(key))
}

pub(super) proof fn lemma_owing_ops(
    v: WorldView,
    ops: OpsView,
    taken: Multiset<(u64, usize)>,
    drops: Seq<(u64, usize)>,
    hand: Multiset<(u64, usize)>,
)
    requires
        v.owing(hand.add(taken)),
        balanced(v.ops, ops, taken, drops),
    ensures
        v.with_ops(ops).owing(hand),
{
    reveal(balanced);
    assert(v.ops.dropped == Seq::<u64>::empty()) by {
        reveal(WorldView::owing);
    }
    let m = WorldView { ops: OpsView { dropped: Seq::empty(), ..ops }, ..v };
    let sum = drops_bag(drops);
    lemma_drops_bag(drops);
    assert(m.owing(hand.add(sum))) by {
        reveal(WorldView::owing);
        assert forall|key: (u64, usize)| #[trigger] m.budget.counts(key) == m.places(key)
            + hand.add(sum).count(key) by {
            assert(v.budget.counts(key) == v.places(key) + hand.add(taken).count(key));
            assert(sum.count(key) == tally::tally(drops, drop_at(key)));
            assert(taken.count(key) >= 0);
        }
    }
    assert forall|key: (u64, usize)| #[trigger]
        hand.add(sum).count(key) == hand.count(key) + tally::tally(drops, drop_at(key)) by {
        assert(sum.count(key) == tally::tally(drops, drop_at(key)));
    }
    lemma_owing_released_all(m, drops, hand.add(sum), hand);
    assert(ops.dropped =~= share_ids(drops));
}

pub open spec fn drops_bag(drops: Seq<(u64, usize)>) -> Multiset<(u64, usize)>
    decreases drops.len(),
{
    if drops.len() == 0 {
        Multiset::empty()
    } else {
        drops_bag(drops.drop_last()).insert(drops.last())
    }
}

pub(super) proof fn lemma_drops_bag(drops: Seq<(u64, usize)>)
    ensures
        forall|key: (u64, usize)| #[trigger]
            drops_bag(drops).count(key) == tally::tally(drops, drop_at(key)),
    decreases drops.len(),
{
    if drops.len() > 0 {
        lemma_drops_bag(drops.drop_last());
        assert forall|key: (u64, usize)| #[trigger]
            drops_bag(drops).count(key) == tally::tally(drops, drop_at(key)) by {
            assert(drop_at(key)(drops.last()) == one_if(drops.last() == key));
            assert(drops_bag(drops.drop_last()).count(key) == tally::tally(
                drops.drop_last(),
                drop_at(key),
            ));
        }
    }
}

pub open spec fn keys_in(key: Option<(u64, usize)>) -> Seq<(u64, usize)> {
    match key {
        Some(key) => seq![key],
        None => Seq::empty(),
    }
}

pub open spec fn bag_in(key: Option<(u64, usize)>) -> Multiset<(u64, usize)> {
    match key {
        Some(key) => Multiset::singleton(key),
        None => Multiset::empty(),
    }
}

pub open spec fn outcome_key(outcome: OutcomeView) -> Option<(u64, usize)> {
    match outcome {
        OutcomeView::Completed(held) => Some(key_of(*held.kept())),
        _ => None,
    }
}

proof fn lemma_keys_in(key: Option<(u64, usize)>)
    ensures
        forall|k: (u64, usize)| #[trigger]
            tally::tally(keys_in(key), drop_at(k)) == one_if(key == Some(k)),
        forall|k: (u64, usize)| #[trigger] bag_in(key).count(k) == one_if(key == Some(k)),
{
    assert forall|k: (u64, usize)| #[trigger]
        tally::tally(keys_in(key), drop_at(k)) == one_if(key == Some(k)) by {
        if key is Some {
            let s = keys_in(key);
            assert(s.drop_last() =~= Seq::<(u64, usize)>::empty());
            assert(tally::tally(s.drop_last(), drop_at(k)) == 0);
            assert(drop_at(k)(s.last()) == one_if(key->0 == k));
        }
    }
}

/// One slot that changes: the table takes what the new entry holds, and lets go
/// of what the old one held.
pub(super) proof fn lemma_balanced_slot(
    a: OpsView,
    b: OpsView,
    i: int,
    entry: Option<EntryView>,
    taken: Option<(u64, usize)>,
    dropped: Option<(u64, usize)>,
)
    requires
        0 <= i < a.slots.len(),
        b.slots == a.slots.update(i, entry),
        b.dropped == a.dropped + share_ids(keys_in(dropped)),
        forall|key: (u64, usize)| #![trigger slot_at(key)]
            slot_at(key)(a.slots[i]) + one_if(taken == Some(key)) == slot_at(key)(entry) + one_if(
                dropped == Some(key),
            ),
    ensures
        balanced(a, b, bag_in(taken), keys_in(dropped)),
{
    reveal(balanced);
    lemma_keys_in(taken);
    lemma_keys_in(dropped);
    assert forall|key: (u64, usize)| #![trigger bag_in(taken).count(key)]
        tally::tally(a.slots, slot_at(key)) + bag_in(taken).count(key) == tally::tally(
            b.slots,
            slot_at(key),
        ) + tally::tally(keys_in(dropped), drop_at(key)) by {
        tally::lemma_update(a.slots, slot_at(key), i, entry);
        assert(slot_at(key)(a.slots[i]) + one_if(taken == Some(key)) == slot_at(key)(entry)
            + one_if(dropped == Some(key)));
    }
}

pub(super) proof fn lemma_balanced_none(a: OpsView)
    ensures
        balanced(a, a, Multiset::empty(), Seq::empty()),
{
    reveal(balanced);
    assert(a.dropped + share_ids(Seq::<(u64, usize)>::empty()) =~= a.dropped);
}

/// What a completion takes in and lets go of.
pub(super) proof fn lemma_completed_balanced(
    a: OpsView,
    id: crate::operations::OperationId,
    outcome: OutcomeView,
) -> (drops: Seq<(u64, usize)>)
    requires
        outcome matches OutcomeView::Completed(held) ==> held.of_world() == a.world,
    ensures
        balanced(a, a.completed(id, outcome), bag_in(outcome_key(outcome)), drops),
{
    let b = a.completed(id, outcome);
    let i = id.slot as int;
    if a.has(id) && a.entry(id) is Pending {
        let p = a.entry(id)->Pending_0;
        let dropped = entry_key(a.entry(id));
        let entry = Some(
            EntryView::Terminal {
                owner: p.owner,
                outcome: crate::operations::settled(outcome),
            },
        );
        assert(b.dropped =~= a.dropped + share_ids(keys_in(dropped))) by {
            if dropped is Some {
                assert(share_ids(keys_in(dropped)) =~= seq![(dropped->0).0]);
            }
        }
        lemma_balanced_slot(a, b, i, entry, outcome_key(outcome), dropped);
        keys_in(dropped)
    } else {
        let dropped = outcome_key(outcome);
        assert(b.dropped =~= a.dropped + share_ids(keys_in(dropped))) by {
            if dropped is Some {
                assert(share_ids(keys_in(dropped)) =~= seq![(dropped->0).0]);
            }
        }
        assert(balanced(a, b, bag_in(dropped), keys_in(dropped))) by {
            reveal(balanced);
            lemma_keys_in(dropped);
        }
        keys_in(dropped)
    }
}

pub(super) proof fn lemma_balanced_twice(
    a: OpsView,
    b: OpsView,
    c: OpsView,
    first: Seq<(u64, usize)>,
    second: Seq<(u64, usize)>,
)
    requires
        balanced(a, b, Multiset::empty(), first),
        balanced(b, c, Multiset::empty(), second),
    ensures
        balanced(a, c, Multiset::empty(), first + second),
{
    reveal(balanced);
    assert(share_ids(first + second) =~= share_ids(first) + share_ids(second));
    assert(c.dropped =~= a.dropped + share_ids(first + second));
    assert forall|key: (u64, usize)| #![trigger Multiset::<(u64, usize)>::empty().count(key)]
        tally::tally(a.slots, slot_at(key)) + Multiset::<(u64, usize)>::empty().count(key)
            == tally::tally(c.slots, slot_at(key)) + tally::tally(first + second, drop_at(key)) by {
        lemma_tally_join(first, second, drop_at(key));
    }
}

proof fn lemma_tally_join<T>(a: Seq<T>, b: Seq<T>, f: spec_fn(T) -> nat)
    ensures
        tally::tally(a + b, f) == tally::tally(a, f) + tally::tally(b, f),
    decreases b.len(),
{
    if b.len() == 0 {
        assert(a + b =~= a);
    } else {
        assert((a + b).drop_last() =~= a + b.drop_last());
        lemma_tally_join(a, b.drop_last(), f);
    }
}

/// Runs of completions that hand over nothing.
pub(super) proof fn lemma_completed_all_balanced(
    a: OpsView,
    ids: Seq<crate::operations::OperationId>,
    outcome: OutcomeView,
) -> (drops: Seq<(u64, usize)>)
    requires
        !(outcome is Completed),
    ensures
        balanced(a, a.completed_all(ids, outcome), Multiset::empty(), drops),
    decreases ids.len(),
{
    if ids.len() == 0 {
        lemma_balanced_none(a);
        Seq::empty()
    } else {
        let first = lemma_completed_all_balanced(a, ids.drop_last(), outcome);
        let m = a.completed_all(ids.drop_last(), outcome);
        let second = lemma_completed_balanced(m, ids.last(), outcome);
        lemma_balanced_twice(a, m, m.completed(ids.last(), outcome), first, second);
        first + second
    }
}

pub(super) proof fn lemma_vacated_balanced(
    a: OpsView,
    b: OpsView,
    id: crate::operations::OperationId,
)
    requires
        a.has(id),
        b == a.vacated(id).dropping(
            match entry_key(a.entry(id)) {
                Some(key) => Some(key.0),
                None => None,
            },
        ),
    ensures
        balanced(a, b, Multiset::empty(), keys_in(entry_key(a.entry(id)))),
{
    let dropped = entry_key(a.entry(id));
    assert(b.dropped =~= a.dropped + share_ids(keys_in(dropped))) by {
        if dropped is Some {
            assert(share_ids(keys_in(dropped)) =~= seq![(dropped->0).0]);
        }
    }
    lemma_balanced_slot(a, b, id.slot as int, None, None, dropped);
}

pub(super) proof fn lemma_retired_balanced(a: OpsView, id: crate::operations::OperationId) -> (drops:
    Seq<(u64, usize)>)
    ensures
        balanced(a, a.retired(id), Multiset::empty(), drops),
{
    let first = lemma_completed_balanced(a, id, OutcomeView::OwnerStopped);
    let done = a.completed(id, OutcomeView::OwnerStopped);
    if done.has(id) && done.entry(id) is Terminal {
        lemma_vacated_balanced(done, a.retired(id), id);
        lemma_balanced_twice(a, done, a.retired(id), first, keys_in(entry_key(done.entry(id))));
        first + keys_in(entry_key(done.entry(id)))
    } else {
        first
    }
}

pub(super) proof fn lemma_retired_all_balanced(
    a: OpsView,
    ids: Seq<crate::operations::OperationId>,
) -> (drops: Seq<(u64, usize)>)
    ensures
        balanced(a, a.retired_all(ids), Multiset::empty(), drops),
    decreases ids.len(),
{
    if ids.len() == 0 {
        lemma_balanced_none(a);
        Seq::empty()
    } else {
        let first = lemma_retired_all_balanced(a, ids.drop_last());
        let m = a.retired_all(ids.drop_last());
        let second = lemma_retired_balanced(m, ids.last());
        lemma_balanced_twice(a, m, m.retired(ids.last()), first, second);
        first + second
    }
}


/// Steps that leave actors and holdings alone.
pub(super) proof fn lemma_aside(v: WorldView, n: WorldView, open: Slack)
    requires
        v.neat(open),
        same_actors(v, n),
        n.budget == v.budget,
        n.pubs.entries == v.pubs.entries,
        n.ops == v.ops,
    ensures
        n.neat(open),
{
    lemma_kept_up(v, n, open.stale, open.loose);
    lemma_owing_kept(v, n, open.hand);
}

pub(super) proof fn lemma_hints_weaker(v: WorldView, a: Set<int>, b: Set<int>)
    requires
        v.hinted(a),
        a.subset_of(b),
    ensures
        v.hinted(b),
{
    reveal(WorldView::hinted);
}

pub(super) proof fn lemma_drains_weaker(v: WorldView, a: Set<int>, b: Set<int>)
    requires
        v.drains(a),
        a.subset_of(b),
    ensures
        v.drains(b),
{
    reveal(WorldView::drains);
}

/// Whether a slot changed in ways that bear on nobody else.
pub open spec fn same_row(a: ActorView, b: ActorView) -> bool {
    &&& b.reference == a.reference
    &&& b.ready_order == a.ready_order
    &&& b.kind == a.kind
    &&& b.parent == a.parent
    &&& bearing(b.state) == bearing(a.state)
    &&& b.notification is Some <==> a.notification is Some
    &&& b.pending_failures == a.pending_failures
    &&& b.state == Lifecycle::Stopped ==> a.state == Lifecycle::Stopped || b.python_done
        && b.notification is None
    &&& a.python_done ==> b.python_done
    &&& a.state == Lifecycle::Quiescing ==> (b.drain_root == Some(b.reference) <==> a.drain_root
        == Some(a.reference))
}

/// A slot that changes on its own keeps the rest up.
pub(super) proof fn lemma_put_row(
    v: WorldView,
    r: ActorRef,
    b: ActorView,
    stale: Set<int>,
    loose: Set<int>,
)
    requires
        v.kept_up(stale, loose),
        (r.slot as int) < v.actors.len(),
        same_row(v.at(r), b),
        b.children == v.at(r).children || fewer_children(v, v.put(r, b), r.slot as int),
    ensures
        v.put(r, b).same_roster(v),
        v.put(r, b).kept_up(stale.insert(r.slot as int), loose),
        same_work(v.at(r), b) ==> v.put(r, b).kept_up(stale, loose),
{
    let n = v.put(r, b);
    let s = r.slot as int;
    lemma_rows_kept(v, n);
    assert(same_family(v, n));
    lemma_family_kept(v, n);
    lemma_counted_kept(v, n);
    assert(same_standing(v, n));
    let touched = Set::<int>::empty().insert(s);
    lemma_hints_kept(v, n, stale, touched);
    assert(stale.union(touched) =~= stale.insert(s));
    if same_work(v.at(r), b) {
        lemma_hints_kept(v, n, stale, Set::empty());
        assert(stale.union(Set::empty()) =~= stale);
    }
    lemma_drains_kept(v, n, loose, Set::empty());
    assert(loose.union(Set::empty()) =~= loose);
}

pub(super) proof fn lemma_refreshed(v: WorldView, r: ActorRef, stale: Set<int>, loose: Set<int>)
    requires
        v.kept_up(stale, loose),
        v.valid(r),
    ensures
        v.refreshed(r).kept_up(stale.remove(r.slot as int), loose),
        v.refreshed(r).same_roster(v),
        same_holdings(v, v.refreshed(r)),
        v.refreshed(r).actors == v.actors,
{
    let n = v.refreshed(r);
    lemma_hints_refreshed(v, r, stale);
    lemma_rows_kept(v, n);
    lemma_family_kept(v, n);
    lemma_counted_kept(v, n);
    lemma_drains_kept(v, n, loose, Set::empty());
    assert(loose.union(Set::empty()) =~= loose);
}

/// Refreshing a stale reference changes nothing.
pub(super) proof fn lemma_refreshed_any(v: WorldView, r: ActorRef, stale: Set<int>, loose: Set<int>)
    requires
        v.kept_up(stale, loose),
    ensures
        v.refreshed(r).kept_up(stale, loose),
        same_holdings(v, v.refreshed(r)),
        v.refreshed(r).actors == v.actors,
{
    if v.valid(r) {
        lemma_refreshed(v, r, stale, loose);
        lemma_hints_weaker(v.refreshed(r), stale.remove(r.slot as int), stale);
    }
}

proof fn lemma_filter_distinct(s: Seq<ActorRef>, r: ActorRef)
    requires
        s.no_duplicates(),
    ensures
        super::actors::without_child(s, r).no_duplicates(),
        forall|k: int|
            0 <= k < super::actors::without_child(s, r).len() ==> s.contains(
                #[trigger] super::actors::without_child(s, r)[k],
            ),
        forall|c: ActorRef| #[trigger]
            s.contains(c) && c != r ==> super::actors::without_child(s, r).contains(c),
    decreases s.len(),
{
    reveal(Seq::filter);
    if s.len() > 0 {
        let rest = s.drop_last();
        lemma_filter_distinct(rest, r);
        let less = super::actors::without_child(rest, r);
        let all = super::actors::without_child(s, r);
        let last = s.last();
        assert(all == if last != r {
            less.push(last)
        } else {
            less
        });
        assert(!rest.contains(last)) by {
            if rest.contains(last) {
                let k = rest.index_of(last);
                assert(s[k] == s[s.len() - 1]);
            }
        }
        assert forall|k: int| 0 <= k < all.len() implies s.contains(#[trigger] all[k]) by {
            if k < less.len() {
                assert(all[k] == less[k]);
                let j = rest.index_of(less[k]);
                assert(s[j] == less[k]);
            } else {
                assert(s[s.len() - 1] == all[k]);
            }
        }
        assert(all.no_duplicates()) by {
            assert forall|a: int, b: int| 0 <= a < all.len() && 0 <= b < all.len() && a
                != b implies all[a] != all[b] by {
                if a < less.len() && b < less.len() {
                    assert(less[a] != less[b]);
                } else if a < less.len() {
                    assert(rest.contains(less[a]));
                } else {
                    assert(rest.contains(less[b]));
                }
            }
        }
        assert forall|c: ActorRef| #[trigger] s.contains(c) && c != r implies all.contains(c) by {
            let j = s.index_of(c);
            if j < rest.len() {
                assert(rest[j] == c);
                assert(less.contains(c));
                let k = less.index_of(c);
                assert(all[k] == c);
            } else {
                assert(all[all.len() - 1] == c);
            }
        }
    }
}

/// What looking at an actor that may have stopped leaves alone.
pub open spec fn only_retired(v: WorldView, n: WorldView) -> bool {
    &&& n.same_roster(v)
    &&& forall|i: int|
        0 <= i < v.actors.len() ==> {
            &&& (#[trigger] n.actors[i]).notification == v.actors[i].notification
            &&& n.actors[i].pending_failures == v.actors[i].pending_failures
            &&& super::is_ended(n.actors[i].state) == super::is_ended(v.actors[i].state)
        }
}

/// Looking at an actor that may have stopped keeps everything up, and brings its
/// own hints up to date.
pub(super) proof fn lemma_finalized(
    v: WorldView,
    r: ActorRef,
    stale: Set<int>,
    loose: Set<int>,
    hand: Multiset<(u64, usize)>,
)
    requires
        v.kept_up(stale, loose),
        v.owing(hand),
    ensures
        v.finalized(r).kept_up(
            if v.valid(r) {
                stale.remove(r.slot as int)
            } else {
                stale
            },
            loose,
        ),
        v.finalized(r).owing(hand),
        only_retired(v, v.finalized(r)),
    decreases v.order(r),
{
    reveal(WorldView::finalized);
    let fixed = v.refreshed(r);
    let seen = fixed.marked(r);
    if !v.valid(r) {
        lemma_kept_up(v, seen, stale, loose);
        lemma_owing_kept(v, seen, hand);
    } else {
        let s = r.slot as int;
        let less = stale.remove(s);
        lemma_refreshed(v, r, stale, loose);
        lemma_kept_up(fixed, seen, less, loose);
        lemma_owing_kept(v, seen, hand);
        if seen.can_retire(r) {
            let stopped = seen.retired(r);
            let b = ActorView { state: Lifecycle::Stopped, ..seen.at(r) };
            let filed = WorldView { free: seen.free.push(r.slot), ..seen };
            lemma_kept_up(seen, filed, less, loose);
            lemma_owing_kept(seen, filed, hand);
            lemma_put_row(filed, r, b, less, loose);
            lemma_owing_put_same(filed, r, b, hand);
            assert(stopped == filed.put(r, b));
            lemma_refreshed(stopped, r, less.insert(s), loose);
            assert(less.insert(s).remove(s) =~= less);
            let gone = stopped.refreshed(r);
            lemma_owing_kept(stopped, gone, hand);
            let ops = gone.ops.owner_retired(r);
            let drops = lemma_retired_all_balanced(
                gone.ops,
                crate::ordered::sorted(gone.ops.owned(r)),
            );
            assert(hand.add(Multiset::empty()) =~= hand);
            lemma_owing_ops(gone, ops, Multiset::empty(), drops, hand);
            super::actors::lemma_with_ops(gone, ops);
            let settled = gone.with_ops(ops);
            lemma_kept_up(gone, settled, less, loose);
            assert(only_retired(v, settled)) by {
                assert forall|i: int| 0 <= i < v.actors.len() implies {
                    &&& (#[trigger] settled.actors[i]).notification == v.actors[i].notification
                    &&& settled.actors[i].pending_failures == v.actors[i].pending_failures
                    &&& super::is_ended(settled.actors[i].state) == super::is_ended(
                        v.actors[i].state,
                    )
                } by {
                    assert(settled.actors[i] == stopped.actors[i]);
                }
                lemma_roster_step(v, seen, stopped);
                lemma_roster_step(v, stopped, settled);
            }
            match v.at(r).parent {
                Some(p) => {
                    if settled.valid(p) {
                        lemma_bereaved(settled, p, r, less, loose, hand);
                    }
                    let told = if settled.valid(p) {
                        settled.bereaved(p, r)
                    } else {
                        settled
                    };
                    assert(only_retired(v, told)) by {
                        lemma_roster_step(v, settled, told);
                        assert forall|i: int| 0 <= i < v.actors.len() implies {
                            &&& (#[trigger] told.actors[i]).notification
                                == v.actors[i].notification
                            &&& told.actors[i].pending_failures == v.actors[i].pending_failures
                            &&& super::is_ended(told.actors[i].state) == super::is_ended(
                                v.actors[i].state,
                            )
                        } by {
                            assert(settled.actors[i].notification == v.actors[i].notification);
                        }
                    }
                    if told.order(p) < v.order(r) {
                        lemma_finalized(told, p, less, loose, hand);
                        let n = told.finalized(p);
                        if told.valid(p) {
                            lemma_hints_weaker(n, less.remove(p.slot as int), less);
                        }
                        lemma_roster_step(v, told, n);
                        assert forall|i: int| 0 <= i < v.actors.len() implies {
                            &&& (#[trigger] n.actors[i]).notification == v.actors[i].notification
                            &&& n.actors[i].pending_failures == v.actors[i].pending_failures
                            &&& super::is_ended(n.actors[i].state) == super::is_ended(
                                v.actors[i].state,
                            )
                        } by {
                            assert(told.actors[i].notification == v.actors[i].notification);
                        }
                    }
                },
                None => {},
            }
        }
    }
}

proof fn lemma_roster_step(a: WorldView, b: WorldView, c: WorldView)
    requires
        b.same_roster(a),
        c.same_roster(b),
    ensures
        c.same_roster(a),
{
    super::fence::lemma_roster_chain(a, b, c);
}

/// An owner that takes over what a stopped child leaves.
proof fn lemma_bereaved(
    v: WorldView,
    p: ActorRef,
    r: ActorRef,
    stale: Set<int>,
    loose: Set<int>,
    hand: Multiset<(u64, usize)>,
)
    requires
        v.kept_up(stale, loose),
        v.owing(hand),
        v.valid(p),
        v.valid(r),
        super::is_ended(v.at(r).state),
    ensures
        v.bereaved(p, r).kept_up(stale, loose),
        v.bereaved(p, r).owing(hand),
        v.bereaved(p, r).same_roster(v),
{
    let n = v.bereaved(p, r);
    let b = n.at(p);
    let s = p.slot as int;
    assert(v.actors[s].children.no_duplicates()) by {
        reveal(WorldView::family);
    }
    lemma_filter_distinct(v.at(p).children, r);
    assert(fewer_children(v, n, s)) by {
        assert forall|c: ActorRef| #[trigger]
            v.actors[s].children.contains(c) && n.valid(c) && !super::is_ended(
                n.at(c).state,
            ) implies n.actors[s].children.contains(c) by {
            if c == r {
                assert(n.at(r).state == v.at(r).state);
            }
        }
    }
    assert(n == v.put(p, b));
    lemma_put_row(v, p, b, stale, loose);
    lemma_owing_put_same(v, p, b, hand);
}

/// Publications that end give back what they held.
pub(super) proof fn lemma_cancelled(
    v: WorldView,
    ids: Seq<u64>,
    outcome: crate::publications::PublicationOutcome,
    hand: Multiset<(u64, usize)>,
)
    requires
        v.owing(hand),
    ensures
        v.publications_cancelled(ids, outcome).owing(hand),
        same_actors(v, v.publications_cancelled(ids, outcome)),
        v.publications_cancelled(ids, outcome).ops == v.ops,
    decreases ids.len(),
{
    if ids.len() > 0 {
        lemma_cancelled(v, ids.drop_last(), outcome, hand);
        let m = v.publications_cancelled(ids.drop_last(), outcome);
        let id = ids.last();
        if m.pubs.entries.dom().contains(id) {
            lemma_ended(m, id, m.pubs.entries[id], outcome, hand);
        }
    }
}

/// A publication that ends gives back what it held.
pub(super) proof fn lemma_ended(
    v: WorldView,
    id: u64,
    p: PublicationView,
    outcome: crate::publications::PublicationOutcome,
    hand: Multiset<(u64, usize)>,
)
    requires
        v.owing(hand),
        v.pubs.entries.dom().contains(id),
        p.stored == v.pubs.entries[id].stored,
    ensures
        v.publication_ended(id, p, outcome).owing(hand),
        same_actors(v, v.publication_ended(id, p, outcome)),
        v.publication_ended(id, p, outcome).ops == v.ops,
{
    let key = key_of(p.stored);
    let pubs = v.pubs.finished(id, p, outcome);
    let m = WorldView {
        pubs,
        metrics: super::publishing::outcome_counted(
            crate::types::Metrics {
                rejected: crate::types::raised(v.metrics.rejected, p.untried() as nat),
                ..v.metrics
            },
            outcome,
        ),
        routing_dirty: v.routing_dirty || pubs.ready.len() > 0,
        ..v
    };
    assert(pubs.entries == v.pubs.entries.remove(id));
    lemma_owing_left(v, m, id, hand);
    lemma_owing_released(m, hand.insert(key), key);
    assert(hand.insert(key).remove(key) =~= hand);
    let n = v.publication_ended(id, p, outcome);
    lemma_owing_kept(m.releasing(key.0), n, hand);
}


/// A failure that a child had waiting is gone, and its owner expects one less.
pub(super) proof fn lemma_notice_gone(
    v: WorldView,
    sup: ActorRef,
    source: ActorRef,
    b: ActorView,
    stale: Set<int>,
    loose: Set<int>,
    hand: Multiset<(u64, usize)>,
)
    requires
        v.kept_up(stale, loose),
        v.owing(hand),
        v.valid(sup),
        v.valid(source),
        v.at(source).parent == Some(sup),
        v.at(source).notification is Some,
        ({
            let m = v.put(source, ActorView { notification: None, ..v.at(source) });
            &&& same_row(
                ActorView { pending_failures: b.pending_failures, ..m.at(sup) },
                b,
            )
            &&& b.state == m.at(sup).state
            &&& b.children == m.at(sup).children
            &&& b.pending_failures == super::fence::less_one(m.at(sup).pending_failures)
            &&& b.queue == m.at(sup).queue
            &&& b.staged == m.at(sup).staged
        }),
    ensures
        ({
            let m = v.put(source, ActorView { notification: None, ..v.at(source) });
            &&& m.put(sup, b).kept_up(stale.insert(sup.slot as int), loose)
            &&& m.put(sup, b).owing(hand)
            &&& m.put(sup, b).same_roster(v)
        }),
{
    let m = v.put(source, ActorView { notification: None, ..v.at(source) });
    let n = m.put(sup, b);
    let i = source.slot as int;
    let j = sup.slot as int;
    lemma_owing_put_same(v, source, m.at(source), hand);
    lemma_owing_put_same(m, sup, b, hand);
    assert(i != j) by {
        reveal(WorldView::expecting);
        reveal(WorldView::rows);
        assert(v.actors[j].reference == sup);
        assert(v.actors[i].reference == source);
    }
    lemma_rows_kept(v, n);
    lemma_family_kept(v, n);
    let touched = Set::<int>::empty().insert(j);
    lemma_hints_kept(v, n, stale, touched);
    assert(stale.union(touched) =~= stale.insert(j));
    lemma_drains_kept(v, n, loose, Set::empty());
    assert(loose.union(Set::empty()) =~= loose);
    lemma_counted_less(v, n, sup, source);
}

proof fn lemma_counted_less(v: WorldView, n: WorldView, sup: ActorRef, source: ActorRef)
    requires
        v.rows(),
        v.expecting(),
        n.same_roster(v),
        v.valid(sup),
        v.valid(source),
        sup.slot != source.slot,
        v.at(source).parent == Some(sup),
        v.at(source).notification is Some,
        n.at(source).notification is None,
        n.at(source).pending_failures == v.at(source).pending_failures,
        n.at(source).state == v.at(source).state,
        n.at(source).python_done == v.at(source).python_done,
        n.at(sup).pending_failures == super::fence::less_one(v.at(sup).pending_failures),
        n.at(sup).notification is Some <==> v.at(sup).notification is Some,
        n.at(sup).state == v.at(sup).state,
        v.at(sup).python_done ==> n.at(sup).python_done,
        forall|i: int|
            0 <= i < v.actors.len() && i != sup.slot && i != source.slot ==> #[trigger] n.actors[i]
                == v.actors[i],
    ensures
        n.expecting(),
{
    reveal(WorldView::expecting);
    reveal(WorldView::rows);
    let s = source.slot as int;
    let j = sup.slot as int;
    assert(v.actors[j].reference == sup);
    assert forall|i: int| 0 <= i < n.actors.len() implies (#[trigger] n.actors[i]).pending_failures
        == n.waiting(n.actors[i].reference).len() by {
        let r = v.actors[i].reference;
        assert(n.actors[i].reference == r);
        assert(v.actors[i].pending_failures == v.waiting(r).len());
        lemma_waiting_finite(v, r);
        if i == j {
            assert(v.waiting(r).contains(s));
            assert(n.waiting(r) =~= v.waiting(r).remove(s)) by {
                assert forall|k: int| n.waiting(r).contains(k) <==> v.waiting(r).remove(s).contains(
                    k,
                ) by {
                    if 0 <= k < v.actors.len() {
                        assert(n.actors[k].parent == v.actors[k].parent);
                    }
                }
            }
        } else {
            assert(n.waiting(r) =~= v.waiting(r)) by {
                assert forall|k: int| n.waiting(r).contains(k) <==> v.waiting(r).contains(k) by {
                    if 0 <= k < v.actors.len() {
                        assert(n.actors[k].parent == v.actors[k].parent);
                        if k == s {
                            assert(r != sup);
                        }
                    }
                }
            }
            if i != s {
                assert(n.actors[i] == v.actors[i]);
            }
        }
    }
    assert forall|i: int| 0 <= i < n.actors.len() implies (#[trigger] n.actors[i]).parent
        == v.actors[i].parent && n.actors[i].reference == v.actors[i].reference && (
    n.actors[i].notification is Some ==> v.actors[i].notification is Some) && n.actors[i].state
        == v.actors[i].state && (v.actors[i].python_done ==> n.actors[i].python_done) by {
        if i != s && i != j {
            assert(n.actors[i] == v.actors[i]);
        }
    }
}

pub(super) proof fn lemma_waiting_finite(v: WorldView, r: ActorRef)
    ensures
        v.waiting(r).finite(),
        v.waiting(r).len() <= v.actors.len(),
{
    let all = vstd::set_lib::set_int_range(0, v.actors.len() as int);
    vstd::set_lib::lemma_int_range(0, v.actors.len() as int);
    assert(v.waiting(r).subset_of(all));
    vstd::set_lib::lemma_len_subset(v.waiting(r), all);
}

/// Whether a child has a failure that waits for its owner.
pub open spec fn reports_to(v: WorldView, source: ActorRef, sup: ActorRef) -> bool {
    &&& v.valid(source)
    &&& v.at(source).parent == Some(sup)
    &&& v.at(source).notification is Some
}

proof fn lemma_notices_dropped(
    v: WorldView,
    sup: ActorRef,
    sources: Seq<ActorRef>,
    stale: Set<int>,
    loose: Set<int>,
    hand: Multiset<(u64, usize)>,
)
    requires
        v.kept_up(stale, loose),
        v.owing(hand),
        v.valid(sup),
        sources.no_duplicates(),
        forall|k: int| 0 <= k < sources.len() ==> reports_to(v, #[trigger] sources[k], sup),
    ensures
        v.notices_dropped(sup, sources).kept_up(stale.insert(sup.slot as int), loose),
        v.notices_dropped(sup, sources).owing(hand),
        v.notices_dropped(sup, sources).same_roster(v),
        forall|x: ActorRef|
            v.valid(x) && !sources.contains(x) ==> #[trigger] v.notices_dropped(sup, sources).at(
                x,
            ).notification == v.at(x).notification,
    decreases sources.len(),
{
    let wide = stale.insert(sup.slot as int);
    if sources.len() == 0 {
        lemma_hints_weaker(v, stale, wide);
    } else {
        let rest = sources.drop_last();
        let source = sources[sources.len() - 1];
        assert forall|k: int| 0 <= k < rest.len() implies reports_to(v, #[trigger] rest[k], sup) by {
            assert(rest[k] == sources[k]);
        }
        lemma_notices_dropped(v, sup, rest, stale, loose, hand);
        let m = v.notices_dropped(sup, rest);
        assert(reports_to(v, source, sup));
        assert(!rest.contains(source)) by {
            if rest.contains(source) {
                let k = rest.index_of(source);
                assert(sources[k] == sources[sources.len() - 1]);
            }
        }
        assert(m.at(source).notification == v.at(source).notification);
        super::actors::lemma_same_roster(v, m, source);
        super::actors::lemma_same_roster(v, m, sup);
        let q = m.put(source, ActorView { notification: None, ..m.at(source) });
        let b = ActorView {
            pending_failures: super::fence::less_one(q.at(sup).pending_failures),
            ..q.at(sup)
        };
        lemma_notice_gone(m, sup, source, b, wide, loose, hand);
        assert(wide.insert(sup.slot as int) =~= wide);
        let w = q.put(sup, b);
        let t = WorldView {
            metrics: crate::types::Metrics {
                notifications_discarded: crate::types::bumped(w.metrics.notifications_discarded),
                ..w.metrics
            },
            ..w
        };
        lemma_kept_up(w, t, wide, loose);
        lemma_owing_kept(w, t, hand);
        lemma_finalized(t, source, wide, loose, hand);
        let n = t.finalized(source);
        super::actors::lemma_same_roster(m, w, source);
        lemma_hints_weaker(n, wide.remove(source.slot as int), wide);
        lemma_roster_step(v, m, w);
        lemma_roster_step(v, w, n);
        assert forall|x: ActorRef| v.valid(x) && !sources.contains(x) implies #[trigger] n.at(
            x,
        ).notification == v.at(x).notification by {
            super::actors::lemma_same_roster(v, m, x);
            assert(!rest.contains(x)) by {
                if rest.contains(x) {
                    let k = rest.index_of(x);
                    assert(sources[k] == x);
                }
            }
            assert(sources[sources.len() - 1] == source);
            assert(x != source);
            assert(m.at(x).notification == v.at(x).notification);
            assert(x.slot != source.slot) by {
                reveal(WorldView::rows);
                assert(m.actors[x.slot as int].reference.slot == x.slot);
            }
            assert(n.actors[x.slot as int].notification == t.actors[x.slot as int].notification);
        }
    }
}

proof fn lemma_reporting(v: WorldView, children: Seq<ActorRef>, sup: ActorRef)
    requires
        children.no_duplicates(),
        forall|k: int|
            0 <= k < children.len() ==> v.valid(#[trigger] children[k]) && v.at(children[k]).parent
                == Some(sup),
    ensures
        v.reporting(children).no_duplicates(),
        forall|k: int|
            0 <= k < v.reporting(children).len() ==> reports_to(
                v,
                #[trigger] v.reporting(children)[k],
                sup,
            ) && children.contains(v.reporting(children)[k]),
    decreases children.len(),
{
    if children.len() > 0 {
        let rest = children.drop_last();
        assert forall|k: int| 0 <= k < rest.len() implies v.valid(#[trigger] rest[k]) && v.at(
            rest[k],
        ).parent == Some(sup) by {
            assert(rest[k] == children[k]);
        }
        lemma_reporting(v, rest, sup);
        let less = v.reporting(rest);
        let all = v.reporting(children);
        let last = children[children.len() - 1];
        assert(!rest.contains(last)) by {
            if rest.contains(last) {
                let k = rest.index_of(last);
                assert(children[k] == last);
            }
        }
        assert(v.valid(last) && v.at(last).parent == Some(sup));
        assert forall|k: int| 0 <= k < all.len() implies reports_to(v, #[trigger] all[k], sup)
            && children.contains(all[k]) by {
            if k < less.len() {
                assert(all[k] == less[k]);
                let j = rest.index_of(less[k]);
                assert(children[j] == less[k]);
            }
        }
        assert forall|a: int, b: int| 0 <= a < all.len() && 0 <= b < all.len() && a != b implies all[a]
            != all[b] by {
            if a < less.len() && b < less.len() {
                assert(less[a] != less[b]);
            } else if a < less.len() {
                assert(rest.contains(less[a]));
            } else if b < less.len() {
                assert(rest.contains(less[b]));
            }
        }
    }
}

pub(super) proof fn lemma_notices_discarded(
    v: WorldView,
    sup: ActorRef,
    stale: Set<int>,
    loose: Set<int>,
    hand: Multiset<(u64, usize)>,
)
    requires
        v.kept_up(stale, loose),
        v.owing(hand),
    ensures
        v.notices_discarded(sup).kept_up(stale, loose),
        v.notices_discarded(sup).owing(hand),
{
    if v.valid(sup) {
        let s = sup.slot as int;
        let children = v.at(sup).children;
        assert(v.actors[s].reference == sup) by {
            reveal(WorldView::rows);
        }
        assert forall|k: int| 0 <= k < children.len() implies v.valid(#[trigger] children[k])
            && v.at(children[k]).parent == Some(sup) by {
            reveal(WorldView::family);
            assert(v.valid(v.actors[s].children[k]));
        }
        assert(children.no_duplicates()) by {
            reveal(WorldView::family);
            assert(v.actors[s].children.no_duplicates());
        }
        lemma_reporting(v, children, sup);
        let sources = v.reporting(children);
        lemma_notices_dropped(v, sup, sources, stale, loose, hand);
        let m = v.notices_dropped(sup, sources);
        let t = if sources.len() > 0 {
            m.marked(sup)
        } else {
            m
        };
        lemma_kept_up(m, t, stale.insert(s), loose);
        lemma_owing_kept(m, t, hand);
        super::actors::lemma_same_roster(v, m, sup);
        lemma_refreshed(t, sup, stale.insert(s), loose);
        let n = t.refreshed(sup);
        lemma_owing_kept(t, n, hand);
        lemma_hints_weaker(n, stale.insert(s).remove(s), stale);
    }
}

/// Ending the operations of an actor gives back what they held.
pub(super) proof fn lemma_ops_fenced(
    v: WorldView,
    now: crate::clock::Instant,
    r: ActorRef,
    hand: Multiset<(u64, usize)>,
)
    requires
        v.owing(hand),
    ensures
        v.ops_fenced(now, r).owing(hand),
        same_actors(v, v.ops_fenced(now, r)),
{
    let ends = v.ops.ends_of(crate::ordered::sorted(v.ops.pending_touching(r)));
    let asked = v.ops.wins(
        crate::ordered::sorted(v.ops.owned(r)),
        OutcomeView::OwnerStopped,
    );
    let mid = v.ops.owner_cancelled(r);
    let answered = mid.wins(
        crate::ordered::sorted(mid.targeted(r)),
        OutcomeView::TargetStopped,
    );
    let first = lemma_completed_all_balanced(
        v.ops,
        crate::ordered::sorted(v.ops.owned(r)),
        OutcomeView::OwnerStopped,
    );
    let second = lemma_completed_all_balanced(
        mid,
        crate::ordered::sorted(mid.targeted(r)),
        OutcomeView::TargetStopped,
    );
    let ops = mid.target_stopped(r);
    lemma_balanced_twice(v.ops, mid, ops, first, second);
    assert(hand.add(Multiset::empty()) =~= hand);
    lemma_owing_ops(v, ops, Multiset::empty(), first + second, hand);
    super::actors::lemma_with_ops(v, ops);
    let a = v.with_ops(ops);
    super::endings::lemma_ends_marked(a, ends);
    let b = a.marked_ends(ends);
    let counted = WorldView {
        metrics: crate::types::Metrics {
            operation_cancelled: crate::types::raised(
                crate::types::raised(b.metrics.operation_cancelled, asked),
                answered,
            ),
            ..b.metrics
        },
        ..b
    };
    super::endings::lemma_times_noted(
        counted,
        now,
        crate::diagnostics::DiagnosticCode::Cancelled,
        Some(r),
        asked,
    );
    let c = counted.noted_times(
        now,
        crate::diagnostics::DiagnosticCode::Cancelled,
        Some(r),
        asked,
    );
    super::endings::lemma_times_noted(
        c,
        now,
        crate::diagnostics::DiagnosticCode::Cancelled,
        Some(r),
        answered,
    );
    lemma_owing_kept(a, v.ops_fenced(now, r), hand);
}

/// Nobody that lives is below an actor whose children have all ended.
pub(super) proof fn lemma_childless(v: WorldView, r: ActorRef, x: ActorRef)
    requires
        v.rows(),
        v.family(),
        v.valid(r),
        forall|k: int|
            0 <= k < v.at(r).children.len() ==> super::is_ended(
                v.at(#[trigger] v.at(r).children[k]).state,
            ),
        v.valid(x),
        !super::is_ended(v.at(x).state),
        x != r,
    ensures
        !v.lineage(x).contains(r),
    decreases v.order(x),
{
    reveal(WorldView::family);
    reveal(WorldView::rows);
    let i = x.slot as int;
    assert(v.actors[i].reference == x);
    match v.at(x).parent {
        Some(p) => {
            assert(v.raises(p, x));
            assert(v.actors[p.slot as int].reference == p) by {
                assert(v.actors[p.slot as int].reference.slot == p.slot);
            }
            if p == r {
                let k = v.at(r).children.index_of(x);
                assert(super::is_ended(v.at(v.at(r).children[k]).state));
            } else {
                lemma_childless(v, r, p);
                assert(v.lineage(x) == seq![x] + v.lineage(p));
                if v.lineage(x).contains(r) {
                    let k = v.lineage(x).index_of(r);
                    assert(k > 0);
                    assert(v.lineage(p)[k - 1] == r);
                }
            }
        },
        None => {
            assert(v.lineage(x) =~= seq![x]);
        },
    }
}

/// What runs does not depend on actors that are not above it.
pub(super) proof fn lemma_runs_apart(
    v: WorldView,
    n: WorldView,
    r: ActorRef,
    x: ActorRef,
    starting: bool,
    quiescing: bool,
)
    requires
        v.rows(),
        n.same_roster(v),
        v.valid(r),
        !v.lineage(x).contains(r),
        forall|i: int|
            0 <= i < v.actors.len() && i != r.slot ==> bearing((#[trigger] n.actors[i]).state)
                == bearing(v.actors[i].state),
    ensures
        n.execution_from(x, starting, quiescing) == v.execution_from(x, starting, quiescing),
    decreases v.order(x),
{
    super::actors::lemma_same_roster(v, n, x);
    if v.valid(x) {
        let i = x.slot as int;
        assert(v.lineage(x)[0] == x);
        assert(x != r);
        assert(x.slot != r.slot) by {
            reveal(WorldView::rows);
            assert(v.actors[i].reference.slot == i);
            assert(v.actors[i].reference == x);
        }
        assert(bearing(n.actors[i].state) == bearing(v.actors[i].state));
        let state = v.at(x).state;
        match v.at(x).parent {
            Some(p) => {
                super::actors::lemma_same_roster(v, n, p);
                if v.valid(p) && v.order(p) < v.order(x) {
                    assert(!v.lineage(p).contains(r)) by {
                        if v.lineage(p).contains(r) {
                            let k = v.lineage(p).index_of(r);
                            assert(v.lineage(x)[k + 1] == r);
                        }
                    }
                    lemma_runs_apart(
                        v,
                        n,
                        r,
                        p,
                        starting || state == Lifecycle::Starting,
                        quiescing || state == Lifecycle::Quiescing,
                    );
                }
            },
            None => {},
        }
    }
}

/// The slots of what lives at or below an actor.
pub open spec fn live_below(v: WorldView, r: ActorRef) -> Set<int> {
    Set::new(
        |i: int|
            0 <= i < v.actors.len() && !super::is_ended(v.actors[i].state) && v.lineage(
                v.actors[i].reference,
            ).contains(r),
    )
}

/// Hints stay right where one actor changes its standing, but for what lives at
/// or below it.
pub(super) proof fn lemma_hints_turned(v: WorldView, n: WorldView, r: ActorRef, stale: Set<int>)
    requires
        v.hinted(stale),
        v.rows(),
        v.valid(r),
        n.same_roster(v),
        n.python_ready == v.python_ready,
        forall|i: int|
            0 <= i < v.actors.len() && i != r.slot ==> bearing((#[trigger] n.actors[i]).state)
                == bearing(v.actors[i].state) && same_work(n.actors[i], v.actors[i]),
    ensures
        n.hinted(stale.union(live_below(v, r)).insert(r.slot as int)),
{
    reveal(WorldView::hinted);
    reveal(WorldView::rows);
    let wide = stale.union(live_below(v, r)).insert(r.slot as int);
    assert forall|i: int|
        0 <= i < n.actors.len() && (!wide.contains(i) || n.actors[i].kind
            != EndpointKind::Python) implies n.row_hinted(#[trigger] n.actors[i]) by {
        let x = v.actors[i].reference;
        assert(n.actors[i].reference == x && n.actors[i].kind == v.actors[i].kind);
        assert(v.row_hinted(v.actors[i]));
        if i != r.slot {
            assert(same_work(n.actors[i], v.actors[i]));
            if n.actors[i].kind == EndpointKind::Python {
                if super::is_ended(v.actors[i].state) {
                    assert(v.valid(x) && n.valid(x));
                } else {
                    assert(!v.lineage(x).contains(r));
                    lemma_runs_apart(v, n, r, x, false, false);
                }
            }
        }
    }
    assert forall|o: u64| v.ordered_here(o) implies #[trigger] n.ordered_here(o) by {
        let i = choose|i: int|
            0 <= i < v.actors.len() && (#[trigger] v.actors[i]).ready_order == o;
        assert(n.actors[i].ready_order == o);
    }
    assert forall|o: u64| #[trigger] n.python_ready.start.dom().contains(o) implies n.ordered_here(
        o,
    ) by {
        assert(v.ordered_here(o));
    }
    assert forall|o: u64| #[trigger]
        n.python_ready.failure.dom().contains(o) implies n.ordered_here(o) by {
        assert(v.ordered_here(o));
    }
    assert forall|o: u64| #[trigger]
        n.python_ready.delivery.dom().contains(o) implies n.ordered_here(o) by {
        assert(v.ordered_here(o));
    }
    assert forall|o: u64| #[trigger]
        n.python_ready.cleanup.dom().contains(o) implies n.ordered_here(o) by {
        assert(v.ordered_here(o));
    }
}


/// What an actor holds, as payloads in hand.
pub(super) proof fn lemma_bags(queue: Seq<Delivery>, staged: Seq<Staged>)
    ensures
        forall|key: (u64, usize)| #[trigger]
            tally::tally(delivery_keys(queue), drop_at(key)) == tally::tally(
                queue,
                delivery_at(key),
            ),
        forall|key: (u64, usize)| #[trigger]
            tally::tally(staged_keys(staged), drop_at(key)) == tally::tally(staged, staged_at(key)),
        share_ids(delivery_keys(queue)) == super::expiring::queued_shares(queue),
        share_ids(staged_keys(staged)) == super::expiring::staged_shares(staged),
    decreases queue.len() + staged.len(),
{
    assert(share_ids(delivery_keys(queue)) =~= super::expiring::queued_shares(queue));
    assert(share_ids(staged_keys(staged)) =~= super::expiring::staged_shares(staged));
    if queue.len() > 0 {
        lemma_bags(queue.drop_last(), staged);
        assert(delivery_keys(queue).drop_last() =~= delivery_keys(queue.drop_last()));
        assert forall|key: (u64, usize)| #[trigger]
            tally::tally(delivery_keys(queue), drop_at(key)) == tally::tally(
                queue,
                delivery_at(key),
            ) by {
            assert(tally::tally(delivery_keys(queue.drop_last()), drop_at(key)) == tally::tally(
                queue.drop_last(),
                delivery_at(key),
            ));
            assert(drop_at(key)(delivery_keys(queue).last()) == delivery_at(key)(queue.last()));
        }
    } else if staged.len() > 0 {
        lemma_bags(queue, staged.drop_last());
        assert(staged_keys(staged).drop_last() =~= staged_keys(staged.drop_last()));
        assert forall|key: (u64, usize)| #[trigger]
            tally::tally(staged_keys(staged), drop_at(key)) == tally::tally(
                staged,
                staged_at(key),
            ) by {
            assert(tally::tally(staged_keys(staged.drop_last()), drop_at(key)) == tally::tally(
                staged.drop_last(),
                staged_at(key),
            ));
            assert(drop_at(key)(staged_keys(staged).last()) == staged_at(key)(staged.last()));
        }
    }
}

pub open spec fn delivery_keys(queue: Seq<Delivery>) -> Seq<(u64, usize)> {
    queue.map_values(|d: Delivery| key_of(*d.payload))
}

pub open spec fn staged_keys(staged: Seq<Staged>) -> Seq<(u64, usize)> {
    staged.map_values(|s: Staged| key_of(*s.stored))
}

/// Payloads that an actor drops are given back, those put aside first.
pub(super) proof fn lemma_emptied(
    v: WorldView,
    r: ActorRef,
    b: ActorView,
    queue: Seq<Delivery>,
    staged: Seq<Staged>,
    hand: Multiset<(u64, usize)>,
)
    requires
        v.owing(hand),
        (r.slot as int) < v.actors.len(),
        forall|key: (u64, usize)| #[trigger]
            held_in(v.at(r), key) == held_in(b, key) + tally::tally(queue, delivery_at(key))
                + tally::tally(staged, staged_at(key)),
    ensures
        v.put(r, b).owing(hand.add(drops_bag(delivery_keys(queue))).add(drops_bag(staged_keys(staged)))),
        v.put(r, b).releasing_all(super::expiring::staged_shares(staged)).owing(
            hand.add(drops_bag(delivery_keys(queue))),
        ),
        v.put(r, b).releasing_all(super::expiring::staged_shares(staged)).releasing_all(
            super::expiring::queued_shares(queue),
        ).owing(hand),
{
    lemma_bags(queue, staged);
    lemma_drops_bag(delivery_keys(queue));
    lemma_drops_bag(staged_keys(staged));
    let one = hand.add(drops_bag(delivery_keys(queue)));
    let all = one.add(drops_bag(staged_keys(staged)));
    assert forall|key: (u64, usize)| #[trigger]
        hand.count(key) + held_in(v.at(r), key) == all.count(key) + held_in(b, key) by {
        assert(held_in(v.at(r), key) == held_in(b, key) + tally::tally(queue, delivery_at(key))
            + tally::tally(staged, staged_at(key)));
        assert(drops_bag(delivery_keys(queue)).count(key) == tally::tally(
            delivery_keys(queue),
            drop_at(key),
        ));
        assert(drops_bag(staged_keys(staged)).count(key) == tally::tally(
            staged_keys(staged),
            drop_at(key),
        ));
    }
    lemma_owing_put(v, r, b, hand, all);
    assert forall|key: (u64, usize)| #[trigger]
        all.count(key) == one.count(key) + tally::tally(staged_keys(staged), drop_at(key)) by {
        assert(drops_bag(staged_keys(staged)).count(key) == tally::tally(
            staged_keys(staged),
            drop_at(key),
        ));
    }
    lemma_owing_released_all(v.put(r, b), staged_keys(staged), all, one);
    let m = v.put(r, b).releasing_all(super::expiring::staged_shares(staged));
    assert forall|key: (u64, usize)| #[trigger]
        one.count(key) == hand.count(key) + tally::tally(delivery_keys(queue), drop_at(key)) by {
        assert(drops_bag(delivery_keys(queue)).count(key) == tally::tally(
            delivery_keys(queue),
            drop_at(key),
        ));
    }
    lemma_owing_released_all(m, delivery_keys(queue), one, hand);
}

/// An actor that loses its entries and stops, once nothing below it lives.
proof fn lemma_stripped(
    v: WorldView,
    r: ActorRef,
    stale: Set<int>,
    loose: Set<int>,
    hand: Multiset<(u64, usize)>,
)
    requires
        v.kept_up(stale, loose.insert(r.slot as int)),
        v.owing(hand),
        v.valid(r),
        v.at(r).state != Lifecycle::Stopped,
        !v.drain_roots.dom().contains(r.slot),
        forall|k: int|
            0 <= k < v.at(r).children.len() ==> super::is_ended(
                v.at(#[trigger] v.at(r).children[k]).state,
            ),
    ensures
        v.stripped(r).kept_up(stale.insert(r.slot as int), loose),
        v.stripped(r).owing(hand),
        v.stripped(r).ops == v.ops,
        v.stripped(r).valid(r),
{
    let s = r.slot as int;
    let a = v.at(r);
    assert(v.actors[s].reference == r) by {
        reveal(WorldView::rows);
    }
    let b = ActorView {
        state: Lifecycle::Stopping,
        queue: Seq::empty(),
        staged: Seq::empty(),
        ..a
    };
    let m = v.put(r, b);
    lemma_rows_kept(v, m);
    assert(m.family()) by {
        reveal(WorldView::family);
        reveal(WorldView::rows);
        assert forall|i: int|
            0 <= i < m.actors.len() && !super::is_ended((#[trigger] m.actors[i]).state)
                && m.actors[i].parent is Some implies m.raises(
            m.actors[i].parent->0,
            m.actors[i].reference,
        ) by {
            let p = v.actors[i].parent->0;
            let c = v.actors[i].reference;
            assert(v.raises(p, c));
            assert(c.slot == i);
            if p.slot == s {
                let k = v.at(r).children.index_of(c);
                assert(super::is_ended(v.at(v.at(r).children[k]).state));
            }
            assert(m.valid(p) && m.order(p) == v.order(p) && m.order(c) == v.order(c));
        }
        assert forall|i: int, k: int|
            0 <= i < m.actors.len() && 0 <= k < m.actors[i].children.len() implies m.valid(
            #[trigger] m.actors[i].children[k],
        ) && m.at(m.actors[i].children[k]).parent == Some(m.actors[i].reference) by {
            assert(v.valid(v.actors[i].children[k]));
        }
        assert forall|i: int| 0 <= i < m.actors.len() implies (
        #[trigger] m.actors[i]).children.no_duplicates() by {
            assert(v.actors[i].children.no_duplicates());
        }
    }
    lemma_counted_kept(v, m);
    lemma_hints_turned(v, m, r, stale);
    assert forall|i: int| live_below(v, r).contains(i) implies i == s by {
        if i != s {
            let x = v.actors[i].reference;
            assert(v.valid(x) && x.slot == i) by {
                reveal(WorldView::rows);
            }
            lemma_childless(v, r, x);
        }
    }
    lemma_hints_weaker(
        m,
        stale.union(live_below(v, r)).insert(s),
        stale.insert(s),
    );
    assert(m.drains(loose)) by {
        reveal(WorldView::drains);
        assert forall|q: u32| !loose.contains(q as int) implies (
        #[trigger] m.drain_roots.dom().contains(q) <==> m.drains_here(q as int)) by {
            if q as int != s {
                assert(v.drain_roots.dom().contains(q) <==> v.drains_here(q as int));
            }
        }
        assert forall|q: u32| #[trigger] m.drain_roots.dom().contains(q) implies (q as int)
            < m.actors.len() && m.drain_roots[q] == m.actors[q as int].reference by {
            assert(v.drain_roots[q] == v.actors[q as int].reference);
        }
    }
    assert forall|key: (u64, usize)| #[trigger]
        held_in(v.at(r), key) == held_in(b, key) + tally::tally(a.queue, delivery_at(key))
            + tally::tally(a.staged, staged_at(key)) by {}
    lemma_emptied(v, r, b, a.queue, a.staged, hand);
    let shares = super::expiring::staged_shares(a.staged);
    super::actors::lemma_releasing_all(m, shares);
    super::actors::lemma_releasing_all(
        m.releasing_all(shares),
        super::expiring::queued_shares(a.queue),
    );
    let w = m.releasing_all(shares).releasing_all(super::expiring::queued_shares(a.queue));
    let n = v.stripped(r);
    lemma_kept_up(m, n, stale.insert(s), loose);
    lemma_owing_kept(w, n, hand);
}

/// The first part of a fence keeps everything up, but for the drain of the
/// actor itself.
proof fn lemma_severed(
    v: WorldView,
    r: ActorRef,
    stale: Set<int>,
    loose: Set<int>,
    hand: Multiset<(u64, usize)>,
)
    requires
        v.kept_up(stale, loose),
        v.owing(hand),
    ensures
        v.severed(r).kept_up(stale, loose.insert(r.slot as int)),
        v.severed(r).owing(hand),
        v.severed(r).ops == v.ops,
{
    let ids = crate::ordered::sorted(v.pubs.of_source(r));
    lemma_cancelled(v, ids, crate::publications::PublicationOutcome::Cancelled, hand);
    let a = v.source_silenced(r);
    lemma_kept_up(v, a, stale, loose);
    let b = WorldView { drain_roots: a.drain_roots.remove(r.slot), ..a };
    let n = v.severed(r);
    lemma_rows_kept(a, n);
    lemma_family_kept(a, n);
    lemma_counted_kept(a, n);
    lemma_hints_kept(a, n, stale, Set::empty());
    assert(stale.union(Set::empty()) =~= stale);
    assert(n.drains(loose.insert(r.slot as int))) by {
        reveal(WorldView::drains);
        assert forall|q: u32| !loose.insert(r.slot as int).contains(q as int) implies (
        #[trigger] n.drain_roots.dom().contains(q) <==> n.drains_here(q as int)) by {
            assert(q != r.slot);
            assert(a.drain_roots.dom().contains(q) <==> a.drains_here(q as int));
        }
        assert forall|q: u32| #[trigger] n.drain_roots.dom().contains(q) implies (q as int)
            < n.actors.len() && n.drain_roots[q] == n.actors[q as int].reference by {
            assert(a.drain_roots.dom().contains(q));
        }
    }
    lemma_owing_kept(a, n, hand);
}

/// A fence keeps everything up.
pub(super) proof fn lemma_fenced(
    v: WorldView,
    now: crate::clock::Instant,
    r: ActorRef,
    stale: Set<int>,
    loose: Set<int>,
    hand: Multiset<(u64, usize)>,
)
    requires
        super::endings::orderly(v),
        v.kept_up(stale, loose),
        v.owing(hand),
        v.valid(r),
    ensures
        v.fenced(now, r).0.kept_up(stale, loose),
        v.fenced(now, r).0.owing(hand),
    decreases v.juniors(r), 2nat, 0nat,
{
    let s = r.slot as int;
    let limit = v.juniors(r);
    let away = loose.insert(s);
    lemma_quieted(v, now, r, stale, loose, hand);
    let d = v.severed(r).service_detached(now, r, limit).notices_discarded(r).ops_fenced(now, r);
    lemma_children_fenced(d, now, d.at(r).children, limit, stale, away, hand);
    let w = d.children_fenced(now, d.at(r).children, limit).0;
    super::endings::lemma_before_halt(v, now, r);
    super::endings::lemma_lost_roster(v, w);
    super::actors::lemma_same_roster(v, w, r);
    if d.children_fenced(now, d.at(r).children, limit).1 is Ok {
        if w.at(r).state == Lifecycle::Stopped {
            lemma_drain_gone(w, r, loose);
        } else {
            lemma_halted(w, r, stale, loose, hand);
        }
    } else {
        super::endings::lemma_everyone(v);
        super::endings::lemma_fenced(v, now, r, Set::full());
    }
}

proof fn lemma_halted(
    w: WorldView,
    r: ActorRef,
    stale: Set<int>,
    loose: Set<int>,
    hand: Multiset<(u64, usize)>,
)
    requires
        w.kept_up(stale, loose.insert(r.slot as int)),
        w.owing(hand),
        w.valid(r),
        w.at(r).state != Lifecycle::Stopped,
        !w.drain_roots.dom().contains(r.slot),
        forall|k: int|
            0 <= k < w.at(r).children.len() ==> super::is_ended(
                w.at(#[trigger] w.at(r).children[k]).state,
            ),
    ensures
        w.halted(r).kept_up(stale, loose),
        w.halted(r).owing(hand),
{
    let s = r.slot as int;
    let ids = crate::ordered::sorted(crate::routing::touching(w.subs, r));
    super::endings::lemma_routes_alone(w, ids);
    let e = w.routes_dropped(ids);
    lemma_kept_up(w, e, stale, loose.insert(s));
    lemma_owing_kept(w, e, hand);
    assert forall|k: int| 0 <= k < e.at(r).children.len() implies super::is_ended(
        e.at(#[trigger] e.at(r).children[k]).state,
    ) by {
        assert(super::is_ended(w.at(w.at(r).children[k]).state));
    }
    lemma_stripped(e, r, stale, loose, hand);
    let f = e.stripped(r);
    lemma_finalized(f, r, stale.insert(s), loose, hand);
    lemma_hints_weaker(w.halted(r), stale.insert(s).remove(s), stale);
}

/// The part of a fence before what lies below keeps everything up, but for the
/// drain of the actor itself.
proof fn lemma_quieted(
    v: WorldView,
    now: crate::clock::Instant,
    r: ActorRef,
    stale: Set<int>,
    loose: Set<int>,
    hand: Multiset<(u64, usize)>,
)
    requires
        super::endings::orderly(v),
        v.kept_up(stale, loose),
        v.owing(hand),
        v.valid(r),
    ensures
        ({
            let d = v.severed(r).service_detached(now, r, v.juniors(r)).notices_discarded(
                r,
            ).ops_fenced(now, r);
            &&& super::endings::orderly(d)
            &&& d.kept_up(stale, loose.insert(r.slot as int))
            &&& d.owing(hand)
        }),
    decreases v.juniors(r), 1nat, 1nat,
{
    let s = r.slot as int;
    let limit = v.juniors(r);
    let away = loose.insert(s);
    super::endings::lemma_tables(v);
    let a = v.severed(r);
    lemma_severed(v, r, stale, loose, hand);
    super::endings::lemma_severed(v, r);
    super::endings::lemma_orderly(v, a);
    lemma_service_detached(a, now, r, limit, stale, away, hand);
    let b = a.service_detached(now, r, limit);
    super::endings::lemma_detached(a, now, r, limit);
    super::endings::lemma_orderly(a, b);
    super::endings::lemma_tables(b);
    lemma_notices_discarded(b, r, stale, away, hand);
    super::endings::lemma_notices_discarded(b, r);
    let c = b.notices_discarded(r);
    super::endings::lemma_orderly(b, c);
    super::endings::lemma_tables(c);
    lemma_ops_fenced(c, now, r, hand);
    super::endings::lemma_ops_fenced(c, now, r);
    let d = c.ops_fenced(now, r);
    lemma_kept_up(c, d, stale, away);
    super::endings::lemma_orderly(c, d);
}

/// A slot that does not drain and has no entry needs no exception.
proof fn lemma_drain_gone(v: WorldView, r: ActorRef, loose: Set<int>)
    requires
        v.drains(loose.insert(r.slot as int)),
        v.at(r).state == Lifecycle::Stopped,
        !v.drain_roots.dom().contains(r.slot),
    ensures
        v.drains(loose),
{
    reveal(WorldView::drains);
    assert forall|q: u32| !loose.contains(q as int) implies (#[trigger] v.drain_roots.dom().contains(
        q,
    ) <==> v.drains_here(q as int)) by {
        if q != r.slot {
            assert(!loose.insert(r.slot as int).contains(q as int));
        }
    }
}

proof fn lemma_service_detached(
    v: WorldView,
    now: crate::clock::Instant,
    r: ActorRef,
    limit: nat,
    stale: Set<int>,
    loose: Set<int>,
    hand: Multiset<(u64, usize)>,
)
    requires
        super::endings::orderly(v),
        v.kept_up(stale, loose),
        v.owing(hand),
    ensures
        v.service_detached(now, r, limit).kept_up(stale, loose),
        v.service_detached(now, r, limit).owing(hand),
    decreases limit, 1nat, 0nat,
{
    if v.services.records.dom().contains(r) {
        let scopes = crate::ordered::sorted(v.services.scopes_of(r));
        let m = WorldView { services: v.services.unregistered(r), ..v };
        lemma_kept_up(v, m, stale, loose);
        lemma_owing_kept(v, m, hand);
        super::endings::lemma_unregistered(v, r);
        super::endings::lemma_orderly(v, m);
        lemma_scopes_fenced(m, now, r, scopes, limit, stale, loose, hand);
    }
}

proof fn lemma_scopes_fenced(
    v: WorldView,
    now: crate::clock::Instant,
    service: ActorRef,
    scopes: Seq<ActorRef>,
    limit: nat,
    stale: Set<int>,
    loose: Set<int>,
    hand: Multiset<(u64, usize)>,
)
    requires
        super::endings::orderly(v),
        v.kept_up(stale, loose),
        v.owing(hand),
    ensures
        v.scopes_fenced(now, service, scopes, limit).kept_up(stale, loose),
        v.scopes_fenced(now, service, scopes, limit).owing(hand),
        super::endings::orderly(v.scopes_fenced(now, service, scopes, limit)),
    decreases limit, 0nat, scopes.len(),
{
    if scopes.len() > 0 {
        let rest = scopes.drop_last();
        lemma_scopes_fenced(v, now, service, rest, limit, stale, loose, hand);
        let m = v.scopes_fenced(now, service, rest, limit);
        let scope = scopes.last();
        let k = m.lease_revoked(service, scope);
        lemma_kept_up(m, k, stale, loose);
        lemma_owing_kept(m, k, hand);
        super::endings::lemma_lease_revoked(m, service, scope);
        super::endings::lemma_orderly(m, k);
        if k.valid(scope) && k.juniors(scope) < limit {
            lemma_fenced(k, now, scope, stale, loose, hand);
            super::endings::lemma_everyone(k);
            super::endings::lemma_fenced(k, now, scope, Set::full());
            super::endings::lemma_orderly(k, k.fenced(now, scope).0);
        }
    }
}

proof fn lemma_children_fenced(
    v: WorldView,
    now: crate::clock::Instant,
    children: Seq<ActorRef>,
    limit: nat,
    stale: Set<int>,
    loose: Set<int>,
    hand: Multiset<(u64, usize)>,
)
    requires
        super::endings::orderly(v),
        v.kept_up(stale, loose),
        v.owing(hand),
    ensures
        v.children_fenced(now, children, limit).0.kept_up(stale, loose),
        v.children_fenced(now, children, limit).0.owing(hand),
        super::endings::orderly(v.children_fenced(now, children, limit).0),
    decreases limit, 0nat, children.len(),
{
    if children.len() > 0 {
        let rest = children.drop_last();
        lemma_children_fenced(v, now, rest, limit, stale, loose, hand);
        let (m, result) = v.children_fenced(now, rest, limit);
        let child = children.last();
        if result is Ok && m.valid(child) && m.juniors(child) < limit {
            lemma_fenced(m, now, child, stale, loose, hand);
            super::endings::lemma_everyone(m);
            super::endings::lemma_fenced(m, now, child, Set::full());
            super::endings::lemma_orderly(m, m.fenced(now, child).0);
        }
    }
}


} // verus!
