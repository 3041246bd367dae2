//! Turns in the life of actors keep a World in line: start, drain, failure and
//! end.
use vstd::prelude::*;
use super::endings;
use super::keeping;
use super::tidy;
use super::{ActorView, World, WorldView};
use crate::clock::Instant;
use crate::diagnostics::DiagnosticCode;
use crate::failures::{FailureAction, FailureDetails, FailureRecord};
use crate::operations::OperationId;
use crate::types::{ActorRef, Lifecycle};
use std::sync::Arc;

verus! {

/// Stopping keeps a World in line.
#[verifier::spinoff_prover]
pub(super) proof fn lemma_stopping(v: WorldView, now: Instant, r: ActorRef, stale: Set<int>)
    requires
        endings::orderly(v),
        v.neat(tidy::between(stale, keeping::none_held())),
    ensures
        v.stopping(now, r).0.neat(tidy::between(stale, keeping::none_held())),
        v.stopping(now, r).0.same_roster(v),
        endings::orderly(v.stopping(now, r).0),
        v.valid(r) ==> v.stopping(now, r).1 is Ok,
{
    if v.valid(r) {
        tidy::lemma_fenced(v, now, r, stale, Set::empty(), keeping::none_held());
        endings::lemma_everyone(v);
        endings::lemma_fenced(v, now, r, Set::full());
        let n = v.fenced(now, r).0;
        endings::lemma_orderly(v, n);
        endings::lemma_lost_roster(v, n);
        super::actors::lemma_same_roster(v, n, r);
        endings::lemma_tree(n, r);
    }
}

#[verifier::spinoff_prover]
proof fn lemma_all_fenced(v: WorldView, now: Instant, refs: Seq<ActorRef>, stale: Set<int>)
    requires
        endings::orderly(v),
        v.neat(tidy::between(stale, keeping::none_held())),
    ensures
        v.all_fenced(now, refs).neat(tidy::between(stale, keeping::none_held())),
        v.all_fenced(now, refs).same_roster(v),
        endings::orderly(v.all_fenced(now, refs)),
    decreases refs.len(),
{
    if refs.len() > 0 {
        lemma_all_fenced(v, now, refs.drop_last(), stale);
        let m = v.all_fenced(now, refs.drop_last());
        lemma_stopping(m, now, refs.last(), stale);
        super::fence::lemma_roster_chain(v, m, m.fenced(now, refs.last()).0);
    }
}

/// Closing keeps a World in line.
#[verifier::spinoff_prover]
pub(super) proof fn lemma_closing(v: WorldView, now: Instant, stale: Set<int>)
    requires
        endings::orderly(v),
        v.neat(tidy::between(stale, keeping::none_held())),
    ensures
        v.closing(now).neat(tidy::between(stale, keeping::none_held())),
        v.closing(now).same_roster(v),
        endings::orderly(v.closing(now)),
{
    let m = WorldView { closed: true, routing_closed: true, routing_dirty: true, ..v };
    tidy::lemma_aside(v, m, tidy::between(stale, keeping::none_held()));
    assert(endings::orderly(m)) by {
        lemma_orderly_alike(v, m);
    }
    lemma_all_fenced(m, now, v.roots(v.actors.len(), true), stale);
    super::fence::lemma_roster_chain(v, m, v.closing(now));
}

/// Order rests on the roster, the lists and the tables.
#[verifier::spinoff_prover]
pub(super) proof fn lemma_orderly_alike(v: WorldView, n: WorldView)
    requires
        endings::orderly(v),
        n.same_roster(v),
        n.subs == v.subs,
        n.services == v.services,
        n.pubs.entries == v.pubs.entries,
        n.ops.slots.len() == v.ops.slots.len(),
        n.ops.generations.len() == v.ops.generations.len(),
        forall|i: int|
            0 <= i < v.actors.len() ==> (#[trigger] n.actors[i]).children == v.actors[i].children,
    ensures
        endings::orderly(n),
{
    reveal(endings::orderly);
    assert forall|x: ActorRef| #[trigger] n.valid(x) == v.valid(x) && n.order(x) == v.order(x) by {
        super::actors::lemma_same_roster(v, n, x);
    }
    assert forall|i: int| 0 <= i < n.actors.len() implies (#[trigger] n.actors[i]).ready_order
        < n.next_ready_order && n.actors[i].reference.world == n.id && n.actors[i].reference.slot
        == i by {
        assert(v.actors[i].reference.slot == i);
    }
    assert forall|i: int, k: int|
        0 <= i < n.actors.len() && 0 <= k < n.actors[i].children.len() implies n.valid(
        #[trigger] n.actors[i].children[k],
    ) && n.order(n.actors[i].children[k]) > n.actors[i].ready_order by {
        assert(n.actors[i].children == v.actors[i].children);
        let c = v.actors[i].children[k];
        assert(v.valid(c));
        assert(n.valid(c) == v.valid(c));
    }
    assert forall|s: ActorRef| #[trigger]
        n.services.leases.dom().contains(s) && n.valid(s) && n.valid(
            n.services.leases[s].service,
        ) implies n.order(n.services.leases[s].service) < n.order(s) by {
        assert(v.services.leases.dom().contains(s));
        assert(n.valid(n.services.leases[s].service) == v.valid(v.services.leases[s].service));
    }
}

/// Whether who owns whom and who has ended is the same in two states.
pub open spec fn alike(v: WorldView, n: WorldView) -> bool {
    &&& n.same_roster(v)
    &&& forall|i: int|
        0 <= i < v.actors.len() ==> (#[trigger] n.actors[i]).children == v.actors[i].children
            && super::is_ended(n.actors[i].state) == super::is_ended(v.actors[i].state)
}

#[verifier::spinoff_prover]
proof fn lemma_lineage_alike(v: WorldView, n: WorldView, x: ActorRef)
    requires
        n.same_roster(v),
    ensures
        n.lineage(x) == v.lineage(x),
    decreases v.order(x),
{
    super::actors::lemma_same_roster(v, n, x);
    if v.valid(x) {
        match v.at(x).parent {
            Some(p) => {
                super::actors::lemma_same_roster(v, n, p);
                if v.order(p) < v.order(x) {
                    lemma_lineage_alike(v, n, p);
                }
            },
            None => {},
        }
    }
}

#[verifier::spinoff_prover]
proof fn lemma_below_alike(v: WorldView, n: WorldView, r: ActorRef)
    requires
        alike(v, n),
    ensures
        tidy::live_below(n, r) == tidy::live_below(v, r),
{
    assert forall|i: int| tidy::live_below(n, r).contains(i) <==> tidy::live_below(v, r).contains(
        i,
    ) by {
        if 0 <= i < v.actors.len() {
            assert(n.actors[i].reference == v.actors[i].reference);
            lemma_lineage_alike(v, n, v.actors[i].reference);
        }
    }
    assert(tidy::live_below(n, r) =~= tidy::live_below(v, r));
}

#[verifier::spinoff_prover]
proof fn lemma_alike_twice(a: WorldView, b: WorldView, c: WorldView)
    requires
        alike(a, b),
        alike(b, c),
    ensures
        alike(a, c),
{
    super::fence::lemma_roster_chain(a, b, c);
    assert forall|i: int| 0 <= i < a.actors.len() implies (#[trigger] c.actors[i]).children
        == a.actors[i].children && super::is_ended(c.actors[i].state) == super::is_ended(
        a.actors[i].state,
    ) by {
        assert(b.actors[i].children == a.actors[i].children);
    }
}

/// Whatever lives has owners that live, each listed by the next.
#[verifier::spinoff_prover]
proof fn lemma_line_lives(v: WorldView, r: ActorRef, x: ActorRef)
    requires
        v.rows(),
        v.family(),
        v.valid(x),
        !super::is_ended(v.at(x).state),
        v.lineage(x).contains(r),
    ensures
        v.valid(r),
        !super::is_ended(v.at(r).state),
        v.order(r) <= v.order(x),
        x != r ==> exists|k: int|
            0 <= k < v.at(r).children.len() && v.lineage(x).contains(
                #[trigger] v.at(r).children[k],
            ),
    decreases v.order(x),
{
    reveal(WorldView::family);
    reveal(WorldView::rows);
    let i = x.slot as int;
    assert(v.actors[i].reference == x) by {
        assert(v.actors[i].reference.slot == i);
    }
    if x != r {
        match v.at(x).parent {
            Some(p) => {
                assert(v.raises(p, x));
                assert(v.lineage(x) == seq![x] + v.lineage(p));
                assert(v.lineage(x)[0] == x);
                if p == r {
                    let k = v.at(r).children.index_of(x);
                    assert(v.lineage(x).contains(v.at(r).children[k]));
                } else {
                    assert(v.lineage(p).contains(r)) by {
                        let j = v.lineage(x).index_of(r);
                        assert(j > 0);
                        assert(v.lineage(p)[j - 1] == r);
                    }
                    lemma_line_lives(v, r, p);
                    let k = choose|k: int|
                        0 <= k < v.at(r).children.len() && v.lineage(p).contains(
                            #[trigger] v.at(r).children[k],
                        );
                    let c = v.at(r).children[k];
                    let j = v.lineage(p).index_of(c);
                    assert(v.lineage(x)[j + 1] == c);
                }
            },
            None => {
                assert(v.lineage(x) =~= seq![x]);
            },
        }
    }
}

/// The slots of what lives at or below one of some actors.
pub open spec fn live_below_any(v: WorldView, refs: Seq<ActorRef>) -> Set<int> {
    Set::new(
        |i: int| exists|k: int| 0 <= k < refs.len() && tidy::live_below(v, #[trigger] refs[k]).contains(i),
    )
}

/// What lives below an actor lives below one of its children.
#[verifier::spinoff_prover]
proof fn lemma_below_children(v: WorldView, r: ActorRef)
    requires
        v.rows(),
        v.family(),
        v.valid(r),
    ensures
        forall|i: int| #[trigger]
            tidy::live_below(v, r).contains(i) ==> i == r.slot || live_below_any(
                v,
                v.at(r).children,
            ).contains(i),
{
    assert forall|i: int| #[trigger] tidy::live_below(v, r).contains(i) implies i == r.slot
        || live_below_any(v, v.at(r).children).contains(i) by {
        let x = v.actors[i].reference;
        assert(v.valid(x) && x.slot == i) by {
            reveal(WorldView::rows);
            assert(v.actors[i].reference.slot == i);
        }
        if x != r {
            lemma_line_lives(v, r, x);
            let k = choose|k: int|
                0 <= k < v.at(r).children.len() && v.lineage(x).contains(
                    #[trigger] v.at(r).children[k],
                );
            assert(tidy::live_below(v, v.at(r).children[k]).contains(i));
        }
    }
}

/// Nobody lives below what has ended.
#[verifier::spinoff_prover]
proof fn lemma_none_below(v: WorldView, r: ActorRef)
    requires
        v.rows(),
        v.family(),
        v.valid(r),
        super::is_ended(v.at(r).state),
    ensures
        tidy::live_below(v, r) == Set::<int>::empty(),
{
    assert forall|i: int| !tidy::live_below(v, r).contains(i) by {
        if tidy::live_below(v, r).contains(i) {
            let x = v.actors[i].reference;
            assert(v.valid(x) && x.slot == i) by {
                reveal(WorldView::rows);
                assert(v.actors[i].reference.slot == i);
            }
            lemma_line_lives(v, r, x);
        }
    }
    assert(tidy::live_below(v, r) =~= Set::<int>::empty());
}

/// Bringing the hints of a tree up to date makes them right.
#[verifier::spinoff_prover]
proof fn lemma_subtree_refreshed(v: WorldView, r: ActorRef, stale: Set<int>)
    requires
        endings::orderly(v),
        v.kept_up(stale, Set::empty()),
        v.valid(r),
    ensures
        v.subtree_refreshed(r).kept_up(stale.difference(tidy::live_below(v, r)), Set::empty()),
        v.subtree_refreshed(r) == (WorldView {
            python_ready: v.subtree_refreshed(r).python_ready,
            ..v
        }),
    decreases v.juniors(r), 1nat, 0nat,
{
    let s = r.slot as int;
    let m = v.refreshed(r);
    tidy::lemma_refreshed(v, r, stale, Set::empty());
    lemma_orderly_alike(v, m);
    endings::lemma_seat(v, r);
    let children = v.at(r).children;
    lemma_subtrees_refreshed(m, children, v.juniors(r), stale.remove(s));
    let n = v.subtree_refreshed(r);
    lemma_below_children(v, r);
    assert(alike(v, m));
    assert(stale.remove(s).difference(live_below_any(m, children)).subset_of(
        stale.difference(tidy::live_below(v, r)),
    )) by {
        assert forall|i: int| live_below_any(v, children).contains(i) implies live_below_any(
            m,
            children,
        ).contains(i) by {
            let k = choose|k: int|
                0 <= k < children.len() && tidy::live_below(v, #[trigger] children[k]).contains(i);
            lemma_below_alike(v, m, children[k]);
            assert(tidy::live_below(m, children[k]).contains(i));
        }
    }
    tidy::lemma_hints_weaker(
        n,
        stale.remove(s).difference(live_below_any(m, children)),
        stale.difference(tidy::live_below(v, r)),
    );
}

#[verifier::spinoff_prover]
proof fn lemma_subtrees_refreshed(
    v: WorldView,
    children: Seq<ActorRef>,
    limit: nat,
    stale: Set<int>,
)
    requires
        endings::orderly(v),
        v.kept_up(stale, Set::empty()),
        forall|k: int|
            0 <= k < children.len() ==> v.valid(#[trigger] children[k]) && v.juniors(children[k])
                < limit,
    ensures
        v.subtrees_refreshed(children, limit).kept_up(
            stale.difference(live_below_any(v, children)),
            Set::empty(),
        ),
        v.subtrees_refreshed(children, limit) == (WorldView {
            python_ready: v.subtrees_refreshed(children, limit).python_ready,
            ..v
        }),
    decreases limit, 0nat, children.len(),
{
    let n = v.subtrees_refreshed(children, limit);
    if children.len() == 0 {
        assert(stale.difference(live_below_any(v, children)) =~= stale);
    } else {
        let rest = children.drop_last();
        let c = children[children.len() - 1];
        assert forall|k: int| 0 <= k < rest.len() implies v.valid(#[trigger] rest[k]) && v.juniors(
            rest[k],
        ) < limit by {
            assert(rest[k] == children[k]);
        }
        lemma_subtrees_refreshed(v, rest, limit, stale);
        let m = v.subtrees_refreshed(rest, limit);
        assert(v.valid(c) && v.juniors(c) < limit);
        assert(m.valid(c) && m.juniors(c) == v.juniors(c));
        lemma_orderly_alike(v, m);
        assert(alike(v, m));
        lemma_below_alike(v, m, c);
        let less = stale.difference(live_below_any(v, rest));
        lemma_subtree_refreshed(m, c, less);
        assert(less.difference(tidy::live_below(m, c)).subset_of(
            stale.difference(live_below_any(v, children)),
        )) by {
            assert forall|i: int| live_below_any(v, children).contains(i) implies live_below_any(
                v,
                rest,
            ).contains(i) || tidy::live_below(v, c).contains(i) by {
                let k = choose|k: int|
                    0 <= k < children.len() && tidy::live_below(v, #[trigger] children[k]).contains(
                        i,
                    );
                if k < rest.len() {
                    assert(rest[k] == children[k]);
                    assert(tidy::live_below(v, rest[k]).contains(i));
                }
            }
        }
        tidy::lemma_hints_weaker(
            n,
            less.difference(tidy::live_below(m, c)),
            stale.difference(live_below_any(v, children)),
        );
    }
}

#[verifier::spinoff_prover]
pub(super) proof fn lemma_subtree_marked(v: WorldView, r: ActorRef)
    ensures
        v.subtree_marked(r) == (WorldView { activity: v.subtree_marked(r).activity, ..v }),
    decreases v.juniors(r), 1nat, 0nat,
{
    if v.valid(r) {
        lemma_subtrees_marked(v.marked(r), v.at(r).children, v.juniors(r));
    }
}

#[verifier::spinoff_prover]
proof fn lemma_subtrees_marked(v: WorldView, children: Seq<ActorRef>, limit: nat)
    ensures
        v.subtrees_marked(children, limit) == (WorldView {
            activity: v.subtrees_marked(children, limit).activity,
            ..v
        }),
    decreases limit, 0nat, children.len(),
{
    if children.len() > 0 {
        lemma_subtrees_marked(v, children.drop_last(), limit);
        let m = v.subtrees_marked(children.drop_last(), limit);
        let c = children.last();
        if m.valid(c) && m.juniors(c) < limit {
            lemma_subtree_marked(m, c);
        }
    }
}

/// A start keeps a World in line.
#[verifier::spinoff_prover]
pub(super) proof fn lemma_started_up(v: WorldView, now: Instant, r: ActorRef)
    requires
        endings::orderly(v),
        v.neat(tidy::nothing_open()),
        v.refuses_start(r) is None,
    ensures
        v.started_up(now, r).neat(tidy::nothing_open()),
{
    let s = r.slot as int;
    let b = ActorView { state: Lifecycle::Active, ..v.at(r) };
    let m = v.put(r, b);
    assert(alike(v, m));
    tidy::lemma_rows_kept(v, m);
    tidy::lemma_family_kept(v, m);
    tidy::lemma_counted_kept(v, m);
    tidy::lemma_hints_turned(v, m, r, Set::empty());
    tidy::lemma_drains_kept(v, m, Set::empty(), Set::empty());
    assert(Set::<int>::empty().union(Set::empty()) =~= Set::empty());
    tidy::lemma_owing_put_same(v, r, b, keeping::none_held());
    let wide = Set::<int>::empty().union(tidy::live_below(v, r)).insert(s);
    super::actors::lemma_same_roster(v, m, r);
    lemma_orderly_alike(v, m);
    lemma_subtree_refreshed(m, r, wide);
    lemma_below_alike(v, m, r);
    assert(tidy::live_below(v, r).contains(s)) by {
        assert(v.actors[s].reference == r) by {
            reveal(WorldView::rows);
            assert(v.actors[s].reference.slot == s);
        }
        assert(v.lineage(r)[0] == r);
    }
    assert(wide.difference(tidy::live_below(m, r)) =~= Set::empty());
    let f = m.subtree_refreshed(r);
    tidy::lemma_owing_kept(m, f, keeping::none_held());
    lemma_subtree_marked(f, r);
    tidy::lemma_aside(f, f.subtree_marked(r), tidy::nothing_open());
    keeping::lemma_flushed(f.subtree_marked(r), now);
}

/// One actor begins to drain.
pub open spec fn hushing(v: WorldView, r: ActorRef, root: ActorRef) -> WorldView {
    let a = v.at(r);
    let m = v.put(
        r,
        ActorView {
            state: Lifecycle::Quiescing,
            publication_cutoff: match a.publication_cutoff {
                Some(cutoff) => Some(cutoff),
                None => Some(v.pubs.last_issued()),
            },
            drain_root: Some(root),
            drain_deadline: None,
            ..a
        },
    );
    WorldView { drain_roots: m.drain_roots.remove(r.slot), ..m }
}

#[verifier::spinoff_prover]
proof fn lemma_hushing(v: WorldView, r: ActorRef, root: ActorRef, stale: Set<int>, loose: Set<int>)
    requires
        v.kept_up(stale, loose),
        v.valid(r),
        !super::is_ended(v.at(r).state),
        loose.contains(root.slot as int),
        v.owing(keeping::none_held()),
    ensures
        hushing(v, r, root).kept_up(
            stale.union(tidy::live_below(v, r)).insert(r.slot as int),
            loose,
        ),
        alike(v, hushing(v, r, root)),
        hushing(v, r, root).owing(keeping::none_held()),
{
    let n = hushing(v, r, root);
    let s = r.slot as int;
    assert(v.actors[s].reference == r) by {
        reveal(WorldView::rows);
        assert(v.actors[s].reference.slot == s);
    }
    assert(n.same_roster(v));
    tidy::lemma_rows_kept(v, n);
    tidy::lemma_family_kept(v, n);
    tidy::lemma_counted_kept(v, n);
    tidy::lemma_hints_turned(v, n, r, stale);
    assert(n.drains(loose)) by {
        reveal(WorldView::drains);
        assert forall|q: u32| !loose.contains(q as int) implies (
        #[trigger] n.drain_roots.dom().contains(q) <==> n.drains_here(q as int)) by {
            assert(v.drain_roots.dom().contains(q) <==> v.drains_here(q as int));
            if q as int == s {
                assert(root != r);
            }
        }
        assert forall|q: u32| #[trigger] n.drain_roots.dom().contains(q) implies (q as int)
            < n.actors.len() && n.drain_roots[q] == n.actors[q as int].reference by {
            assert(v.drain_roots.dom().contains(q));
        }
    }
    tidy::lemma_owing_kept(v, n, keeping::none_held());
}

/// What draining leaves alone.
pub open spec fn beside(v: WorldView, n: WorldView) -> bool {
    &&& alike(v, n)
    &&& n.subs == v.subs
    &&& n.services == v.services
    &&& n.pubs == v.pubs
    &&& n.ops == v.ops
    &&& n.budget == v.budget
}

/// Beginning to drain keeps a World in line, but for the drain of the root.
#[verifier::spinoff_prover]
proof fn lemma_quiesced(
    v: WorldView,
    r: ActorRef,
    root: ActorRef,
    deadline: Instant,
    stale: Set<int>,
    loose: Set<int>,
)
    requires
        endings::orderly(v),
        v.kept_up(stale, loose),
        v.owing(keeping::none_held()),
        v.valid(r),
        loose.contains(root.slot as int),
    ensures
        v.quiesced(r, root, deadline).1 is Ok,
        v.quiesced(r, root, deadline).0.kept_up(
            stale.difference(tidy::live_below(v, r)),
            loose,
        ),
        v.quiesced(r, root, deadline).0.owing(keeping::none_held()),
        beside(v, v.quiesced(r, root, deadline).0),
        !super::is_ended(v.at(r).state) ==> v.quiesced(r, root, deadline).0.at(r).state
            == Lifecycle::Quiescing && v.quiesced(r, root, deadline).0.at(r).drain_root == Some(
            root,
        ),
        forall|i: int|
            0 <= i < v.actors.len() && v.juniors(v.actors[i].reference) > v.juniors(r)
                ==> #[trigger] v.quiesced(r, root, deadline).0.actors[i] == v.actors[i],
    decreases v.juniors(r), 1nat, 0nat,
{
    if super::is_ended(v.at(r).state) {
        lemma_none_below(v, r);
        assert(stale.difference(tidy::live_below(v, r)) =~= stale);
    } else {
        let s = r.slot as int;
        let a = v.at(r);
        let limit = v.juniors(r);
        let shared = match a.drain_deadline {
            Some(previous) => crate::clock::earlier(deadline, previous),
            None => deadline,
        };
        let m = hushing(v, r, root);
        let wide = stale.union(tidy::live_below(v, r)).insert(s);
        lemma_hushing(v, r, root, stale, loose);
        lemma_orderly_alike(v, m);
        endings::lemma_seat(v, r);
        assert forall|x: ActorRef| #[trigger] m.valid(x) == v.valid(x) && m.juniors(x)
            == v.juniors(x) by {
            super::actors::lemma_same_roster(v, m, x);
        }
        assert forall|k: int| 0 <= k < a.children.len() implies m.valid(#[trigger] a.children[k])
            && m.juniors(a.children[k]) < limit by {
            assert(v.valid(v.at(r).children[k]));
            assert(m.valid(a.children[k]) == v.valid(a.children[k]));
        }
        lemma_all_quiesced(m, a.children, root, shared, limit, wide, loose);
        let (w, result) = m.all_quiesced(a.children, root, shared, limit);
        lemma_alike_twice(v, m, w);
        super::actors::lemma_same_roster(v, w, r);
        let less = wide.difference(live_below_any(m, a.children));
        tidy::lemma_refreshed(w, r, less, loose);
        let f = w.refreshed(r);
        let n = f.marked(r);
        tidy::lemma_kept_up(f, n, less.remove(s), loose);
        tidy::lemma_owing_kept(w, n, keeping::none_held());
        assert(less.remove(s).subset_of(stale.difference(tidy::live_below(v, r)))) by {
            lemma_below_children(v, r);
            assert forall|i: int| live_below_any(v, a.children).contains(i) implies live_below_any(
                m,
                a.children,
            ).contains(i) by {
                let k = choose|k: int|
                    0 <= k < a.children.len() && tidy::live_below(
                        v,
                        #[trigger] a.children[k],
                    ).contains(i);
                lemma_below_alike(v, m, a.children[k]);
                assert(tidy::live_below(m, a.children[k]).contains(i));
            }
        }
        tidy::lemma_hints_weaker(n, less.remove(s), stale.difference(tidy::live_below(v, r)));
        assert(m.juniors(m.actors[s].reference) == limit) by {
            endings::lemma_seat(v, r);
        }
        assert(w.actors[s] == m.actors[s]);
        assert forall|i: int|
            0 <= i < v.actors.len() && v.juniors(v.actors[i].reference)
                > v.juniors(r) implies #[trigger] n.actors[i] == v.actors[i] by {
            assert(i != s);
            assert(m.actors[i] == v.actors[i]);
            assert(m.juniors(m.actors[i].reference) > limit);
            assert(w.actors[i] == m.actors[i]);
        }
    }
}

#[verifier::spinoff_prover]
proof fn lemma_all_quiesced(
    v: WorldView,
    children: Seq<ActorRef>,
    root: ActorRef,
    deadline: Instant,
    limit: nat,
    stale: Set<int>,
    loose: Set<int>,
)
    requires
        endings::orderly(v),
        v.kept_up(stale, loose),
        v.owing(keeping::none_held()),
        loose.contains(root.slot as int),
        forall|k: int|
            0 <= k < children.len() ==> v.valid(#[trigger] children[k]) && v.juniors(children[k])
                < limit,
    ensures
        v.all_quiesced(children, root, deadline, limit).1 is Ok,
        v.all_quiesced(children, root, deadline, limit).0.kept_up(
            stale.difference(live_below_any(v, children)),
            loose,
        ),
        v.all_quiesced(children, root, deadline, limit).0.owing(keeping::none_held()),
        beside(v, v.all_quiesced(children, root, deadline, limit).0),
        forall|i: int|
            0 <= i < v.actors.len() && v.juniors(v.actors[i].reference) >= limit
                ==> #[trigger] v.all_quiesced(children, root, deadline, limit).0.actors[i]
                == v.actors[i],
    decreases limit, 0nat, children.len(),
{
    if children.len() == 0 {
        assert(stale.difference(live_below_any(v, children)) =~= stale);
    } else {
        let rest = children.drop_last();
        let c = children[children.len() - 1];
        assert forall|k: int| 0 <= k < rest.len() implies v.valid(#[trigger] rest[k]) && v.juniors(
            rest[k],
        ) < limit by {
            assert(rest[k] == children[k]);
        }
        lemma_all_quiesced(v, rest, root, deadline, limit, stale, loose);
        let (m, result) = v.all_quiesced(rest, root, deadline, limit);
        let at = result->Ok_0;
        assert(v.valid(c) && v.juniors(c) < limit);
        super::actors::lemma_same_roster(v, m, c);
        lemma_orderly_alike(v, m);
        lemma_below_alike(v, m, c);
        let less = stale.difference(live_below_any(v, rest));
        lemma_quiesced(m, c, root, at, less, loose);
        let n = m.quiesced(c, root, at).0;
        lemma_alike_twice(v, m, n);
        assert(less.difference(tidy::live_below(m, c)).subset_of(
            stale.difference(live_below_any(v, children)),
        )) by {
            assert forall|i: int| live_below_any(v, children).contains(i) implies live_below_any(
                v,
                rest,
            ).contains(i) || tidy::live_below(v, c).contains(i) by {
                let k = choose|k: int|
                    0 <= k < children.len() && tidy::live_below(v, #[trigger] children[k]).contains(
                        i,
                    );
                if k < rest.len() {
                    assert(rest[k] == children[k]);
                    assert(tidy::live_below(v, rest[k]).contains(i));
                }
            }
        }
        tidy::lemma_hints_weaker(
            n,
            less.difference(tidy::live_below(m, c)),
            stale.difference(live_below_any(v, children)),
        );
        assert forall|i: int|
            0 <= i < v.actors.len() && v.juniors(v.actors[i].reference)
                >= limit implies #[trigger] n.actors[i] == v.actors[i] by {
            assert(m.actors[i] == v.actors[i]);
            super::actors::lemma_same_roster(v, m, v.actors[i].reference);
        }
    }
}

/// A drain that begins keeps a World in line.
#[verifier::spinoff_prover]
proof fn lemma_drain_begun(v: WorldView, r: ActorRef, deadline: Instant)
    requires
        endings::orderly(v),
        v.neat(tidy::nothing_open()),
        v.valid(r),
        !super::is_ended(v.at(r).state),
    ensures
        v.drain_begun(r, deadline).1 is Ok,
        v.drain_begun(r, deadline).0.neat(tidy::nothing_open()),
        endings::orderly(v.drain_begun(r, deadline).0),
        v.drain_begun(r, deadline).0.same_roster(v),
{
    let s = r.slot as int;
    let loose = Set::<int>::empty().insert(s);
    tidy::lemma_drains_weaker(v, Set::empty(), loose);
    lemma_quiesced(v, r, r, deadline, Set::empty(), loose);
    let (m, result) = v.quiesced(r, r, deadline);
    assert(Set::<int>::empty().difference(tidy::live_below(v, r)) =~= Set::empty());
    super::actors::lemma_same_roster(v, m, r);
    assert(m.actors[s].reference == r) by {
        reveal(WorldView::rows);
        assert(m.actors[s].reference.slot == s);
    }
    let k = WorldView { drain_roots: m.drain_roots.insert(r.slot, r), ..m };
    assert(k.same_roster(m));
    tidy::lemma_rows_kept(m, k);
    tidy::lemma_family_kept(m, k);
    tidy::lemma_counted_kept(m, k);
    tidy::lemma_hints_kept(m, k, Set::empty(), Set::empty());
    assert(Set::<int>::empty().union(Set::empty()) =~= Set::empty());
    assert(k.drains(Set::empty())) by {
        reveal(WorldView::drains);
        assert forall|q: u32| !Set::<int>::empty().contains(q as int) implies (
        #[trigger] k.drain_roots.dom().contains(q) <==> k.drains_here(q as int)) by {
            if q != r.slot {
                assert(!loose.contains(q as int));
                assert(m.drain_roots.dom().contains(q) <==> m.drains_here(q as int));
            }
        }
        assert forall|q: u32| #[trigger] k.drain_roots.dom().contains(q) implies (q as int)
            < k.actors.len() && k.drain_roots[q] == k.actors[q as int].reference by {
            if q != r.slot {
                assert(m.drain_roots.dom().contains(q));
            }
        }
    }
    tidy::lemma_owing_kept(m, k, keeping::none_held());
    let b = ActorView { drain_deadline: Some(result->Ok_0), ..m.at(r) };
    keeping::lemma_put_own(k, r, b, tidy::nothing_open());
    let n = v.drain_begun(r, deadline).0;
    assert(n == k.put(r, b));
    super::fence::lemma_roster_chain(v, m, n);
    lemma_orderly_alike(v, n);
}

/// A request to drain keeps a World in line.
#[verifier::spinoff_prover]
pub(super) proof fn lemma_draining(v: WorldView, now: Instant, r: ActorRef, deadline: Instant)
    requires
        endings::orderly(v),
        v.neat(tidy::nothing_open()),
    ensures
        v.draining(now, r, deadline).0.neat(tidy::nothing_open()),
        endings::orderly(v.draining(now, r, deadline).0),
{
    if v.valid(r) {
        match v.at(r).state {
            Lifecycle::Stopping | Lifecycle::Stopped => {},
            Lifecycle::Starting => {
                lemma_stopping(v, now, r, Set::empty());
            },
            Lifecycle::Quiescing => {
                let root = match v.at(r).drain_root {
                    Some(root) => root,
                    None => r,
                };
                if v.valid(root) {
                    let b = ActorView {
                        drain_deadline: crate::clock::earliest(
                            v.at(root).drain_deadline,
                            Some(deadline),
                        ),
                        ..v.at(root)
                    };
                    keeping::lemma_put_own(v, root, b, tidy::nothing_open());
                    let n = v.put(root, b);
                    tidy::lemma_aside(n, n.marked(root), tidy::nothing_open());
                    lemma_orderly_alike(v, n.marked(root));
                }
            },
            Lifecycle::Active => {
                lemma_drain_begun(v, r, deadline);
            },
        }
    }
}

#[verifier::spinoff_prover]
pub(super) proof fn lemma_all_draining(
    v: WorldView,
    now: Instant,
    refs: Seq<ActorRef>,
    deadline: Instant,
)
    requires
        endings::orderly(v),
        v.neat(tidy::nothing_open()),
    ensures
        v.all_draining(now, refs, deadline).neat(tidy::nothing_open()),
        endings::orderly(v.all_draining(now, refs, deadline)),
    decreases refs.len(),
{
    if refs.len() > 0 {
        lemma_all_draining(v, now, refs.drop_last(), deadline);
        lemma_draining(
            v.all_draining(now, refs.drop_last(), deadline),
            now,
            refs.last(),
            deadline,
        );
    }
}

#[verifier::spinoff_prover]
proof fn lemma_drains_checked(v: WorldView, now: Instant, at: Instant, roots: Seq<ActorRef>)
    requires
        endings::orderly(v),
        v.neat(tidy::nothing_open()),
    ensures
        v.drains_checked(now, at, roots).neat(tidy::nothing_open()),
        endings::orderly(v.drains_checked(now, at, roots)),
    decreases roots.len(),
{
    if roots.len() > 0 {
        lemma_drains_checked(v, now, at, roots.drop_last());
        let m = v.drains_checked(now, at, roots.drop_last());
        let root = roots.last();
        super::upkeep::lemma_drain_checked(m, now, at, root);
        endings::lemma_orderly(m, m.drain_checked(now, at, root));
        if m.drain_roots.dom().contains(root.slot) && m.drain_roots[root.slot] == root {
            let late = m.valid(root) && crate::clock::due(m.at(root).drain_deadline, now);
            if late && !m.drained(root) {
                let b = ActorView { drain_timed_out: true, ..m.at(root) };
                keeping::lemma_put_own(m, root, b, tidy::nothing_open());
                let put = m.put(root, b);
                let k = WorldView {
                    metrics: crate::types::Metrics {
                        drain_timeouts: crate::types::bumped(put.metrics.drain_timeouts),
                        ..put.metrics
                    },
                    ..put
                }.noted(at, DiagnosticCode::DrainTimeout, Some(root), None);
                tidy::lemma_aside(put, k, tidy::nothing_open());
                lemma_orderly_alike(m, k);
                lemma_stopping(k, at, root, Set::empty());
            } else if m.drained(root) {
                lemma_stopping(m, at, root, Set::empty());
            }
        }
    }
}

/// Upkeep keeps a World in line.
#[verifier::spinoff_prover]
pub(super) proof fn lemma_maintained(world: World, now: Instant, at: Instant)
    requires
        world.steady(),
        world@.neat(tidy::nothing_open()),
    ensures
        world@.maintained(now, at).neat(tidy::nothing_open()),
{
    keeping::lemma_lapsed(world@, now, at);
    super::upkeep::lemma_timely(world, now, at);
    let m = world@.lapsed(now, at);
    lemma_drains_checked(m, now, at, m.drain_list());
}

/// A failure that waits for the owner of an actor: the owner expects one more.
#[verifier::spinoff_prover]
proof fn lemma_notice_added(
    v: WorldView,
    r: ActorRef,
    p: ActorRef,
    a: ActorView,
)
    requires
        v.neat(tidy::nothing_open()),
        v.valid(r),
        v.valid(p),
        v.at(r).parent == Some(p),
        v.at(r).notification is None,
        v.at(r).state != Lifecycle::Stopped,
        v.actors.len() <= usize::MAX,
        a.notification is Some,
        tidy::same_row(v.at(r), (ActorView { notification: None, ..a })),
        tidy::same_work(v.at(r), a),
        a.state == v.at(r).state,
        a.children == v.at(r).children,
        a.queue == v.at(r).queue,
        a.staged == v.at(r).staged,
    ensures
        ({
            let m = v.put(r, a);
            let n = m.put(
                p,
                ActorView {
                    pending_failures: super::reports::capped(m.at(p).pending_failures, 1),
                    ..m.at(p)
                },
            );
            &&& n.neat(
                tidy::between(Set::empty().insert(p.slot as int), keeping::none_held()),
            )
            &&& alike(v, n)
        }),
{
    let m = v.put(r, a);
    let b = ActorView {
        pending_failures: super::reports::capped(m.at(p).pending_failures, 1),
        ..m.at(p)
    };
    let n = m.put(p, b);
    let i = r.slot as int;
    let j = p.slot as int;
    assert(i != j) by {
        reveal(WorldView::expecting);
        reveal(WorldView::rows);
        assert(v.actors[j].reference.slot == j);
        assert(v.actors[i].reference.slot == i);
        assert(v.actors[j].reference == p);
        assert(v.actors[i].reference == r);
        assert(v.actors[i].parent != Some(v.actors[i].reference));
    }
    tidy::lemma_owing_put_same(v, r, a, keeping::none_held());
    tidy::lemma_owing_put_same(m, p, b, keeping::none_held());
    tidy::lemma_rows_kept(v, n);
    tidy::lemma_family_kept(v, n);
    let touched = Set::<int>::empty().insert(j);
    tidy::lemma_hints_kept(v, n, Set::empty(), touched);
    assert(Set::<int>::empty().union(touched) =~= touched);
    tidy::lemma_drains_kept(v, n, Set::empty(), Set::empty());
    assert(Set::<int>::empty().union(Set::empty()) =~= Set::empty());
    lemma_counted_more(v, n, p, r);
}

#[verifier::spinoff_prover]
proof fn lemma_counted_more(v: WorldView, n: WorldView, sup: ActorRef, source: ActorRef)
    requires
        v.rows(),
        v.expecting(),
        n.same_roster(v),
        v.valid(sup),
        v.valid(source),
        sup.slot != source.slot,
        v.at(source).parent == Some(sup),
        v.at(source).notification is None,
        v.at(source).state != Lifecycle::Stopped,
        v.actors.len() <= usize::MAX,
        n.at(source).notification is Some,
        n.at(source).pending_failures == v.at(source).pending_failures,
        n.at(source).state == v.at(source).state,
        n.at(sup).pending_failures == super::reports::capped(v.at(sup).pending_failures, 1),
        n.at(sup).notification == v.at(sup).notification,
        n.at(sup).state == v.at(sup).state,
        n.at(sup).python_done == v.at(sup).python_done,
        forall|i: int|
            0 <= i < v.actors.len() && i != sup.slot && i != source.slot ==> #[trigger] n.actors[i]
                == v.actors[i],
    ensures
        n.expecting(),
{
    reveal(WorldView::expecting);
    reveal(WorldView::rows);
    let s = source.slot as int;
    let j = sup.slot as int;
    assert(v.actors[j].reference == sup) by {
        assert(v.actors[j].reference.slot == j);
    }
    assert forall|i: int| 0 <= i < n.actors.len() implies (#[trigger] n.actors[i]).pending_failures
        == n.waiting(n.actors[i].reference).len() by {
        let r = v.actors[i].reference;
        assert(n.actors[i].reference == r);
        assert(v.actors[i].pending_failures == v.waiting(r).len());
        tidy::lemma_waiting_finite(v, r);
        tidy::lemma_waiting_finite(n, r);
        if i == j {
            assert(!v.waiting(r).contains(s));
            assert(n.waiting(r) =~= v.waiting(r).insert(s)) by {
                assert forall|k: int| n.waiting(r).contains(k) <==> v.waiting(r).insert(s).contains(
                    k,
                ) by {
                    if 0 <= k < v.actors.len() {
                        assert(n.actors[k].parent == v.actors[k].parent);
                    }
                }
            }
        } else {
            assert(n.waiting(r) =~= v.waiting(r)) by {
                assert forall|k: int| n.waiting(r).contains(k) <==> v.waiting(r).contains(k) by {
                    if 0 <= k < v.actors.len() {
                        assert(n.actors[k].parent == v.actors[k].parent);
                        if k == s {
                            assert(r != sup);
                        }
                    }
                }
            }
            if i != s {
                assert(n.actors[i] == v.actors[i]);
            }
        }
    }
    assert forall|i: int| 0 <= i < n.actors.len() implies (#[trigger] n.actors[i]).parent
        == v.actors[i].parent && n.actors[i].reference == v.actors[i].reference
        && n.actors[i].state == v.actors[i].state && (i != s ==> n.actors[i].notification
        == v.actors[i].notification && n.actors[i].python_done == v.actors[i].python_done) by {
        if i != s && i != j {
            assert(n.actors[i] == v.actors[i]);
        }
    }
}

/// What a failure leaves on an actor.
#[verifier::spinoff_prover]
proof fn lemma_failure_kept(v: WorldView, r: ActorRef, record: Arc<FailureRecord>, told: bool)
    requires
        v.neat(tidy::nothing_open()),
        v.valid(r),
        v.at(r).state != Lifecycle::Stopped,
        v.actors.len() <= usize::MAX,
        told ==> v.at(r).parent is Some && v.valid(v.at(r).parent->0),
    ensures
        v.failure_kept(r, record, told).neat(
            tidy::between(
                if v.at(r).parent is Some {
                    Set::empty().insert(v.at(r).parent->0.slot as int)
                } else {
                    Set::empty()
                },
                keeping::none_held(),
            ),
        ),
        !told ==> v.failure_kept(r, record, told).neat(tidy::nothing_open()),
        alike(v, v.failure_kept(r, record, told)),
        v.failure_kept(r, record, told) == (WorldView {
            actors: v.failure_kept(r, record, told).actors,
            metrics: v.failure_kept(r, record, told).metrics,
            ..v
        }),
{
    let a = v.at(r);
    let n = v.failure_kept(r, record, told);
    let kept = ActorView {
        reported_failure: record.event_id,
        errors: super::supervision::one_more(a.errors),
        last_error: Some(record),
        ..a
    };
    let owner = if a.parent is Some {
        Set::<int>::empty().insert(a.parent->0.slot as int)
    } else {
        Set::empty()
    };
    if !told {
        keeping::lemma_put_own(v, r, kept, tidy::nothing_open());
        tidy::lemma_hints_weaker(n, Set::empty(), owner);
    } else {
        match a.notification {
            Some(waiting) => {
                let m = WorldView { metrics: n.metrics, ..v };
                tidy::lemma_aside(v, m, tidy::nothing_open());
                keeping::lemma_put_own(m, r, n.at(r), tidy::nothing_open());
                assert(n == m.put(r, n.at(r)));
                tidy::lemma_hints_weaker(n, Set::empty(), owner);
            },
            None => {
                let b = ActorView {
                    notification: Some(
                        super::Notification { failure: record, coalesced: 0 },
                    ),
                    ..kept
                };
                lemma_notice_added(v, r, a.parent->0, b);
            },
        }
    }
}

/// What a failure decides about actors keeps a World in line.
#[verifier::spinoff_prover]
proof fn lemma_acted(
    v: WorldView,
    now: Instant,
    r: ActorRef,
    action: FailureAction,
    stale: Set<int>,
)
    requires
        endings::orderly(v),
        v.neat(tidy::between(stale, keeping::none_held())),
    ensures
        v.acted(now, r, action).0.neat(tidy::between(stale, keeping::none_held())),
        v.acted(now, r, action).0.same_roster(v),
        v.valid(r) ==> v.acted(now, r, action).1 is Ok,
{
    match action {
        FailureAction::Continue => {},
        FailureAction::StopWorld => {
            lemma_closing(v, now, stale);
        },
        FailureAction::StopActor => {
            lemma_stopping(v, now, r, stale);
        },
    }
}

/// A failure that is reported keeps a World in line.
#[verifier::spinoff_prover]
pub(super) proof fn lemma_failing(
    v: WorldView,
    now: Instant,
    r: ActorRef,
    event_id: Option<u64>,
    schema: Option<u32>,
    operation: Option<OperationId>,
    details: FailureDetails,
    action: FailureAction,
)
    requires
        endings::orderly(v),
        v.neat(tidy::nothing_open()),
        v.actors.len() <= usize::MAX,
    ensures
        v.failing(now, r, event_id, schema, operation, details, action).0.neat(
            tidy::nothing_open(),
        ),
{
    if v.refuses_failure(r, operation) is None {
        let open = tidy::nothing_open();
        let record = v.failure_record(now, r, event_id, schema, operation, details, action);
        let told = v.tells_owner(r, details.failed_in());
        let a = v.failure_counted(now, record);
        tidy::lemma_aside(v, a, open);
        let b = a.failure_settled(now, operation);
        if operation is Some {
            let id = operation->0;
            keeping::lemma_timing_out(a, now, now, id, None, Set::empty(), keeping::none_held());
            keeping::lemma_failing_op(a.timing_out(now, now, id, None), id, Set::empty());
        }
        assert(b.neat(open) && tidy::same_actors(a, b));
        lemma_failure_kept(b, r, record, told);
        let c = b.failure_kept(r, record, told);
        let d = c.marked(r);
        let parent = v.at(r).parent;
        let owner = if parent is Some {
            Set::<int>::empty().insert(parent->0.slot as int)
        } else {
            Set::empty()
        };
        let stale = if told {
            owner
        } else {
            Set::empty()
        };
        assert(c.neat(tidy::between(stale, keeping::none_held())));
        tidy::lemma_aside(c, d, tidy::between(stale, keeping::none_held()));
        lemma_orderly_alike(v, d);
        lemma_acted(d, now, r, action, stale);
        let n = d.acted(now, r, action).0;
        super::fence::lemma_roster_chain(v, d, n);
        if parent is Some {
            let p = parent->0;
            if told {
                super::actors::lemma_same_roster(v, n, p);
                keeping::lemma_fresh(n, p, keeping::none_held());
            } else {
                tidy::lemma_refreshed_any(n, p, Set::empty(), Set::empty());
                tidy::lemma_owing_kept(n, n.refreshed(p), keeping::none_held());
            }
        }
    }
}

/// The failure that is told first is that of a child.
#[verifier::spinoff_prover]
proof fn lemma_first_report(v: WorldView, children: Seq<ActorRef>)
    ensures
        v.first_report(children) matches Some(c) ==> children.contains(c) && v.valid(c) && v.at(
            c,
        ).notification is Some,
    decreases children.len(),
{
    if children.len() > 0 {
        lemma_first_report(v, children.drop_last());
        let rest = children.drop_last();
        match v.first_report(children) {
            Some(c) => {
                if rest.contains(c) {
                    let k = rest.index_of(c);
                    assert(children[k] == c);
                } else {
                    assert(children[children.len() - 1] == c);
                }
            },
            None => {},
        }
    }
}

/// A failure that is handed to an owner keeps a World in line.
#[verifier::spinoff_prover]
pub(super) proof fn lemma_failure_claimed(v: WorldView, supervisor: ActorRef, source: ActorRef)
    requires
        v.neat(tidy::nothing_open()),
        v.valid(supervisor),
        v.first_report(v.at(supervisor).children) == Some(source),
    ensures
        v.failure_claimed(supervisor, source).neat(tidy::nothing_open()),
{
    let s = supervisor.slot as int;
    let children = v.at(supervisor).children;
    lemma_first_report(v, children);
    assert(v.at(source).parent == Some(supervisor)) by {
        reveal(WorldView::family);
        reveal(WorldView::rows);
        assert(v.actors[s].reference.slot == s);
        let k = children.index_of(source);
        assert(v.valid(v.actors[s].children[k]));
    }
    let m = v.put(source, ActorView { notification: None, ..v.at(source) });
    let b = ActorView {
        pending_failures: super::fence::less_one(m.at(supervisor).pending_failures),
        control_in_flight: true,
        ..m.at(supervisor)
    };
    tidy::lemma_notice_gone(
        v,
        supervisor,
        source,
        b,
        Set::empty(),
        Set::empty(),
        keeping::none_held(),
    );
    let w = m.put(supervisor, b);
    super::actors::lemma_same_roster(v, w, supervisor);
    let own = Set::<int>::empty().insert(s);
    tidy::lemma_aside(w, w.marked(supervisor), tidy::between(own, keeping::none_held()));
    keeping::lemma_fresh(w.marked(supervisor), supervisor, keeping::none_held());
    let f = w.marked(supervisor).refreshed(supervisor);
    let t = WorldView {
        metrics: crate::types::Metrics {
            notifications_delivered: crate::types::bumped(f.metrics.notifications_delivered),
            ..f.metrics
        },
        ..f
    };
    tidy::lemma_aside(f, t, tidy::nothing_open());
    keeping::lemma_looked_at(t, source);
}

/// An actor whose callback came back.
#[verifier::spinoff_prover]
pub(super) proof fn lemma_control_freed(v: WorldView, r: ActorRef)
    requires
        v.neat(tidy::nothing_open()),
    ensures
        v.control_freed(r).finalized(r).neat(tidy::nothing_open()),
        v.control_freed(r).neat(tidy::between(keeping::own_slot(v, r), keeping::none_held())),
        keeping::own_slot(v.control_freed(r), r) == keeping::own_slot(v, r),
{
    let m = v.control_freed(r);
    if v.valid(r) {
        keeping::lemma_put_own(
            v,
            r,
            ActorView { control_in_flight: false, ..v.at(r) },
            tidy::nothing_open(),
        );
    }
    keeping::lemma_concluded(m, r);
}

#[verifier::spinoff_prover]
pub(super) proof fn lemma_failure_handled(
    v: WorldView,
    now: Instant,
    supervisor: ActorRef,
    actor: ActorRef,
    action: Option<FailureAction>,
)
    requires
        endings::orderly(v),
        v.neat(tidy::nothing_open()),
    ensures
        v.failure_handled(now, supervisor, actor, action).0.neat(tidy::nothing_open()),
{
    if action is Some {
        lemma_acted(v, now, actor, action->0, Set::empty());
        lemma_control_freed(v.acted(now, actor, action->0).0, supervisor);
    }
    lemma_control_freed(v, supervisor);
}

#[verifier::spinoff_prover]
pub(super) proof fn lemma_failure_abandoned(v: WorldView, supervisor: ActorRef)
    requires
        v.neat(tidy::nothing_open()),
    ensures
        v.failure_abandoned(supervisor).neat(tidy::nothing_open()),
{
    lemma_control_freed(v, supervisor);
    let m = v.control_freed(supervisor);
    let t = WorldView {
        metrics: crate::types::Metrics {
            notifications_discarded: crate::types::bumped(m.metrics.notifications_discarded),
            ..m.metrics
        },
        ..m
    };
    tidy::lemma_aside(
        m,
        t,
        tidy::between(keeping::own_slot(v, supervisor), keeping::none_held()),
    );
    keeping::lemma_concluded(t, supervisor);
}

/// A hook that is claimed keeps a World in line.
#[verifier::spinoff_prover]
pub(super) proof fn lemma_hooked(v: WorldView, owner: ActorRef)
    requires
        v.neat(tidy::nothing_open()),
        v.valid(owner),
    ensures
        v.hooked(owner).neat(tidy::nothing_open()),
{
    let b = ActorView { control_in_flight: true, ..v.at(owner) };
    keeping::lemma_put_own(v, owner, b, tidy::nothing_open());
    let m = v.put(owner, b);
    let own = Set::<int>::empty().insert(owner.slot as int);
    tidy::lemma_aside(m, m.marked(owner), tidy::between(own, keeping::none_held()));
    keeping::lemma_fresh(m.marked(owner), owner, keeping::none_held());
}

#[verifier::spinoff_prover]
pub(super) proof fn lemma_python_finished(v: WorldView, r: ActorRef)
    requires
        v.neat(tidy::nothing_open()),
        v.valid(r),
    ensures
        v.python_finished(r).neat(tidy::nothing_open()),
{
    let b = ActorView { python_done: true, ..v.at(r) };
    keeping::lemma_put_own(v, r, b, tidy::nothing_open());
    keeping::lemma_concluded(v.put(r, b), r);
}

#[verifier::spinoff_prover]
pub(super) proof fn lemma_with_task(v: WorldView, r: ActorRef)
    requires
        v.neat(tidy::nothing_open()),
        v.valid(r),
    ensures
        v.with_task(r).neat(tidy::nothing_open()),
{
    let b = ActorView { native_tasks: (v.at(r).native_tasks + 1) as usize, ..v.at(r) };
    keeping::lemma_put_own(v, r, b, tidy::nothing_open());
    tidy::lemma_aside(v.put(r, b), v.with_task(r), tidy::nothing_open());
}

#[verifier::spinoff_prover]
pub(super) proof fn lemma_task_ended(v: WorldView, owner: ActorRef)
    requires
        v.neat(tidy::nothing_open()),
    ensures
        v.task_ended(owner).neat(tidy::nothing_open()),
{
    if v.valid(owner) && v.at(owner).native_tasks > 0 {
        let b = ActorView {
            native_tasks: (v.at(owner).native_tasks - 1) as usize,
            ..v.at(owner)
        };
        keeping::lemma_put_own(v, owner, b, tidy::nothing_open());
        keeping::lemma_looked_at(v.put(owner, b), owner);
    } else {
        keeping::lemma_looked_at(v, owner);
    }
}

#[verifier::spinoff_prover]
pub(super) proof fn lemma_with_component(
    v: WorldView,
    owner: ActorRef,
    d: crate::components::ComponentDescriptor,
)
    requires
        v.neat(tidy::nothing_open()),
        v.valid(owner),
    ensures
        v.with_component(owner, d).neat(tidy::nothing_open()),
{
    let n = v.with_component(owner, d);
    let m = WorldView { interfaces: n.interfaces, ..v };
    tidy::lemma_aside(v, m, tidy::nothing_open());
    keeping::lemma_put_own(m, owner, n.at(owner), tidy::nothing_open());
    assert(n == m.put(owner, n.at(owner)));
}

} // verus!
