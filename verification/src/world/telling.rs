//! Where an actor was cut off, no failure waits to be told, nor anywhere below.
use vstd::prelude::*;
use super::endings;
use super::WorldView;
use crate::clock::Instant;
use crate::types::{ActorRef, Lifecycle};

verus! {

/// Whether nothing that an actor lists has a failure waiting.
#[verifier::opaque]
spec fn told(n: WorldView, x: ActorRef) -> bool {
    forall|k: int|
        0 <= k < n.at(x).children.len() ==> n.at(#[trigger] n.at(x).children[k]).notification
            is None
}

/// Whether a set holds what its actors list, and none of that has a failure
/// waiting.
#[verifier::opaque]
pub open spec fn at_rest(n: WorldView, within: Set<ActorRef>) -> bool {
    forall|x: ActorRef, k: int|
        within.contains(x) && n.valid(x) && 0 <= k < n.at(x).children.len() ==> within.contains(
            #[trigger] n.at(x).children[k],
        ) && n.at(n.at(x).children[k]).notification is None
}

/// What is still listed was listed before, and no failure came to wait.
proof fn lemma_child_was(v: WorldView, n: WorldView, x: ActorRef, k: int) -> (j: int)
    requires
        endings::orderly(v),
        endings::only_lost(v, n),
        n.valid(x),
        0 <= k < n.at(x).children.len(),
    ensures
        v.valid(x),
        0 <= j < v.at(x).children.len(),
        v.at(x).children[j] == n.at(x).children[k],
        v.at(v.at(x).children[j]).notification is None ==> n.at(
            n.at(x).children[k],
        ).notification is None,
{
    endings::lemma_lost_roster(v, n);
    super::actors::lemma_same_roster(v, n, x);
    endings::lemma_seat(v, x);
    reveal(endings::only_lost);
    let i = x.slot as int;
    let c = n.actors[i].children[k];
    assert(v.actors[i].children.contains(c));
    let j = v.at(x).children.index_of(c);
    assert(v.at(x).children[j] == c);
    assert(v.valid(c));
    assert(n.actors[c.slot as int].notification is Some ==> v.actors[c.slot as int].notification
        is Some);
    j
}

proof fn lemma_told_kept(v: WorldView, n: WorldView, x: ActorRef)
    requires
        endings::orderly(v),
        endings::only_lost(v, n),
        n.valid(x),
        told(v, x),
    ensures
        told(n, x),
{
    reveal(told);
    assert forall|k: int| 0 <= k < n.at(x).children.len() implies n.at(
        #[trigger] n.at(x).children[k],
    ).notification is None by {
        let j = lemma_child_was(v, n, x, k);
        assert(v.at(v.at(x).children[j]).notification is None);
    }
}

proof fn lemma_rest_kept(v: WorldView, n: WorldView, within: Set<ActorRef>)
    requires
        endings::orderly(v),
        endings::only_lost(v, n),
        at_rest(v, within),
    ensures
        at_rest(n, within),
{
    reveal(at_rest);
    assert forall|x: ActorRef, k: int|
        within.contains(x) && n.valid(x) && 0 <= k < n.at(x).children.len() implies within.contains(
        #[trigger] n.at(x).children[k],
    ) && n.at(n.at(x).children[k]).notification is None by {
        let j = lemma_child_was(v, n, x, k);
        assert(within.contains(v.at(x).children[j]));
    }
}

proof fn lemma_rest_joined(n: WorldView, a: Set<ActorRef>, b: Set<ActorRef>)
    requires
        at_rest(n, a),
        at_rest(n, b),
    ensures
        at_rest(n, a.union(b)),
{
    reveal(at_rest);
}

/// The children whose failures wait are all reported.
proof fn lemma_reported(v: WorldView, children: Seq<ActorRef>, k: int)
    requires
        0 <= k < children.len(),
        v.valid(children[k]),
        v.at(children[k]).notification is Some,
    ensures
        v.reporting(children).contains(children[k]),
    decreases children.len(),
{
    let rest = children.drop_last();
    if k < rest.len() {
        assert(rest[k] == children[k]);
        lemma_reported(v, rest, k);
        let j = v.reporting(rest).index_of(children[k]);
        assert(v.reporting(children)[j] == children[k]);
    } else {
        assert(children.last() == children[k]);
        let all = v.reporting(children);
        assert(all[all.len() - 1] == children[k]);
    }
}

/// Once the waiting failures of an actor's children were dropped, none waits.
proof fn lemma_told(v: WorldView, r: ActorRef)
    requires
        endings::orderly(v),
        v.valid(r),
    ensures
        endings::only_lost(v, v.notices_discarded(r)),
        told(v.notices_discarded(r), r),
{
    reveal(told);
    endings::lemma_tables(v);
    endings::lemma_notices_discarded(v, r);
    let n = v.notices_discarded(r);
    endings::lemma_lost_roster(v, n);
    super::actors::lemma_same_roster(v, n, r);
    endings::lemma_seat(v, r);
    let children = v.at(r).children;
    let sources = v.reporting(children);
    endings::lemma_reporting_valid(v, children);
    endings::lemma_notices_dropped(v, r, sources);
    let m = v.notices_dropped(r, sources);
    assert(n.actors == m.actors);
    assert forall|k: int| 0 <= k < n.at(r).children.len() implies n.at(
        #[trigger] n.at(r).children[k],
    ).notification is None by {
        let j = lemma_child_was(v, n, r, k);
        assert(v.valid(children[j]));
        if v.at(children[j]).notification is Some {
            lemma_reported(v, children, j);
            let s = sources.index_of(children[j]);
            assert(m.at(sources[s]).notification is None);
        }
    }
}

/// What a fence does before it turns to the children.
#[verifier::opaque]
spec fn hushed(v: WorldView, now: Instant, r: ActorRef) -> WorldView {
    v.severed(r).service_detached(now, r, v.juniors(r)).notices_discarded(r).ops_fenced(now, r)
}

proof fn lemma_hushed(v: WorldView, now: Instant, r: ActorRef)
    requires
        endings::orderly(v),
        v.valid(r),
    ensures
        endings::only_lost(v, hushed(v, now, r)),
        told(hushed(v, now, r), r),
{
    reveal(hushed);
    endings::lemma_tables(v);
    let a = v.severed(r);
    endings::lemma_severed(v, r);
    endings::lemma_orderly(v, a);
    let b = a.service_detached(now, r, v.juniors(r));
    endings::lemma_detached(a, now, r, v.juniors(r));
    endings::lemma_lost_twice(v, a, b);
    endings::lemma_orderly(v, b);
    endings::lemma_lost_roster(v, b);
    super::actors::lemma_same_roster(v, b, r);
    let c = b.notices_discarded(r);
    lemma_told(b, r);
    endings::lemma_lost_twice(v, b, c);
    endings::lemma_orderly(v, c);
    let q = c.ops_fenced(now, r);
    endings::lemma_ops_fenced(c, now, r);
    endings::lemma_lost_twice(v, c, q);
    endings::lemma_lost_roster(v, q);
    super::actors::lemma_same_roster(v, q, r);
    lemma_told_kept(c, q, r);
}

/// What a fence does before it halts the actor itself.
#[verifier::opaque]
spec fn cleared(v: WorldView, now: Instant, r: ActorRef) -> (WorldView, bool) {
    let q = hushed(v, now, r);
    let (w, below) = q.children_fenced(now, q.at(r).children, v.juniors(r));
    (w, below is Ok)
}

/// How a fence ends.
proof fn lemma_fence_ends(v: WorldView, now: Instant, r: ActorRef)
    requires
        v.valid(r),
    ensures
        ({
            let (w, done) = cleared(v, now, r);
            v.fenced(now, r).0 == if done && w.at(r).state != Lifecycle::Stopped {
                w.halted(r)
            } else {
                w
            }
        }),
{
    reveal(hushed);
    reveal(cleared);
}

proof fn lemma_cleared(v: WorldView, now: Instant, r: ActorRef) -> (within: Set<ActorRef>)
    requires
        endings::orderly(v),
        v.valid(r),
    ensures
        endings::only_lost(v, cleared(v, now, r).0),
        within.contains(r),
        at_rest(cleared(v, now, r).0, within),
    decreases v.juniors(r), 1nat, 0nat,
{
    reveal(cleared);
    let q = hushed(v, now, r);
    lemma_hushed(v, now, r);
    endings::lemma_orderly(v, q);
    endings::lemma_lost_roster(v, q);
    super::actors::lemma_same_roster(v, q, r);
    super::fence::lemma_roster_age(v, q, r);
    endings::lemma_seat(v, r);
    endings::lemma_seat(q, r);
    let kids = q.at(r).children;
    let below = lemma_children_rest(q, now, kids, v.juniors(r));
    let w = q.children_fenced(now, kids, v.juniors(r)).0;
    endings::lemma_lost_twice(v, q, w);
    endings::lemma_lost_roster(q, w);
    super::actors::lemma_same_roster(q, w, r);
    lemma_told_kept(q, w, r);
    let within = below.insert(r);
    assert(at_rest(w, within)) by {
        reveal(at_rest);
        reveal(told);
        assert forall|x: ActorRef, k: int|
            within.contains(x) && w.valid(x) && 0 <= k
                < w.at(x).children.len() implies within.contains(#[trigger] w.at(x).children[k])
            && w.at(w.at(x).children[k]).notification is None by {
            if x == r {
                let j = lemma_child_was(q, w, r, k);
                assert(below.contains(kids[j]));
            } else {
                assert(below.contains(x));
            }
        }
    }
    within
}

/// Cutting an actor off leaves no failure waiting at or below it.
proof fn lemma_fence_rest(v: WorldView, now: Instant, r: ActorRef) -> (within: Set<ActorRef>)
    requires
        endings::orderly(v),
        v.valid(r),
    ensures
        within.contains(r),
        at_rest(v.fenced(now, r).0, within),
    decreases v.juniors(r), 2nat, 0nat,
{
    let w = cleared(v, now, r).0;
    let within = lemma_cleared(v, now, r);
    lemma_fence_ends(v, now, r);
    endings::lemma_orderly(v, w);
    endings::lemma_tables(w);
    endings::lemma_lost_roster(v, w);
    super::actors::lemma_same_roster(v, w, r);
    endings::lemma_seat(w, r);
    if v.fenced(now, r).0 != w {
        endings::lemma_halted(w, r, Set::full());
        lemma_rest_kept(w, w.halted(r), within);
    }
    within
}

proof fn lemma_children_rest(v: WorldView, now: Instant, children: Seq<ActorRef>, limit: nat) -> (within:
    Set<ActorRef>)
    requires
        endings::orderly(v),
        forall|k: int|
            0 <= k < children.len() ==> v.valid(#[trigger] children[k]) && v.juniors(children[k])
                < limit,
    ensures
        endings::only_lost(v, v.children_fenced(now, children, limit).0),
        v.children_fenced(now, children, limit).1 is Ok,
        forall|k: int| 0 <= k < children.len() ==> within.contains(#[trigger] children[k]),
        at_rest(v.children_fenced(now, children, limit).0, within),
    decreases limit, 0nat, children.len(),
{
    if children.len() == 0 {
        reveal(at_rest);
        endings::lemma_nothing_lost(v);
        Set::empty()
    } else {
        let rest = children.drop_last();
        assert forall|k: int| 0 <= k < rest.len() implies v.valid(#[trigger] rest[k])
            && v.juniors(rest[k]) < limit by {
            assert(rest[k] == children[k]);
        }
        let before = lemma_children_rest(v, now, rest, limit);
        let m = v.children_fenced(now, rest, limit).0;
        let child = children[children.len() - 1];
        endings::lemma_orderly(v, m);
        endings::lemma_lost_roster(v, m);
        super::actors::lemma_same_roster(v, m, child);
        super::fence::lemma_roster_age(v, m, child);
        let n = m.fenced(now, child).0;
        endings::lemma_everyone(m);
        endings::lemma_fenced(m, now, child, Set::full());
        endings::lemma_lost_twice(v, m, n);
        let last = lemma_fence_rest(m, now, child);
        lemma_rest_kept(m, n, before);
        lemma_rest_joined(n, before, last);
        let within = before.union(last);
        assert forall|k: int| 0 <= k < children.len() implies within.contains(
            #[trigger] children[k],
        ) by {
            if k < rest.len() {
                assert(before.contains(rest[k]));
            }
        }
        within
    }
}

/// Cutting off actors one after the other leaves no failure waiting at or below
/// any of them.
pub(super) proof fn lemma_all_rest(v: WorldView, now: Instant, refs: Seq<ActorRef>) -> (within: Set<
    ActorRef,
>)
    requires
        endings::orderly(v),
        forall|k: int| 0 <= k < refs.len() ==> v.valid(#[trigger] refs[k]),
    ensures
        endings::only_lost(v, v.all_fenced(now, refs)),
        forall|k: int| 0 <= k < refs.len() ==> within.contains(#[trigger] refs[k]),
        at_rest(v.all_fenced(now, refs), within),
    decreases refs.len(),
{
    if refs.len() == 0 {
        reveal(at_rest);
        endings::lemma_nothing_lost(v);
        Set::empty()
    } else {
        let rest = refs.drop_last();
        assert forall|k: int| 0 <= k < rest.len() implies v.valid(#[trigger] rest[k]) by {
            assert(rest[k] == refs[k]);
        }
        let before = lemma_all_rest(v, now, rest);
        let m = v.all_fenced(now, rest);
        let r = refs[refs.len() - 1];
        endings::lemma_orderly(v, m);
        endings::lemma_lost_roster(v, m);
        super::actors::lemma_same_roster(v, m, r);
        let n = m.fenced(now, r).0;
        endings::lemma_everyone(m);
        endings::lemma_fenced(m, now, r, Set::full());
        endings::lemma_lost_twice(v, m, n);
        let last = lemma_fence_rest(m, now, r);
        lemma_rest_kept(m, n, before);
        lemma_rest_joined(n, before, last);
        let within = before.union(last);
        assert forall|k: int| 0 <= k < refs.len() implies within.contains(#[trigger] refs[k]) by {
            if k < rest.len() {
                assert(before.contains(rest[k]));
            }
        }
        within
    }
}

/// Where every actor without an owner is at rest, so is all that has not
/// stopped.
pub(super) proof fn lemma_no_notice(v: WorldView, within: Set<ActorRef>, r: ActorRef)
    requires
        v.kin(),
        endings::orderly(v),
        at_rest(v, within),
        forall|i: int|
            0 <= i < v.actors.len() && (#[trigger] v.actors[i]).parent is None ==> within.contains(
                v.actors[i].reference,
            ),
        v.valid(r),
        v.at(r).state != Lifecycle::Stopped,
    ensures
        within.contains(r),
        v.at(r).parent is Some ==> v.at(r).notification is None,
    decreases v.order(r),
{
    reveal(WorldView::kin);
    reveal(at_rest);
    endings::lemma_seat(v, r);
    let a = v.actors[r.slot as int];
    match a.parent {
        Some(p) => {
            assert(v.owning(p, a.reference));
            endings::lemma_seat(v, p);
            let j = v.at(p).children.index_of(r);
            assert(v.at(p).children[j] == r);
            lemma_no_notice(v, within, p);
            assert(within.contains(v.at(p).children[j]));
        },
        None => {},
    }
}

} // verus!
