//! What joins a World keeps it in line: actors, leases and publications.
use vstd::prelude::*;
use super::keeping;
use super::tidy;
use super::{ActorView, World, WorldView};
use crate::clock::Instant;
use crate::envelope::MessageOptions;
use crate::held::{Delivery, Staged, Stored};
use crate::payload::Payload;
use crate::publications::PublicationView;
use crate::tally;
use crate::types::{ActorRef, EndpointKind, Lifecycle};
use std::sync::Arc;

verus! {
/// Where a new actor sits, and what it leaves alone.
pub(super) proof fn lemma_seat_shape(v: WorldView, kind: EndpointKind, parent: Option<ActorRef>)
    requires
        v.sound(),
        v.refuses_actor(parent) is None,
    ensures
        ({
            let n = v.seated(kind, parent);
            let r = v.next_ref();
            let s = r.slot as int;
            &&& s <= v.actors.len()
            &&& n.actors.len() == (if s < v.actors.len() {
                v.actors.len()
            } else {
                v.actors.len() + 1
            })
            &&& n.actors[s] == super::actors::fresh_actor(r, v.next_ready_order, kind, parent)
            &&& r.world == v.id
            &&& n.id == v.id
            &&& n.next_ready_order == v.next_ready_order + 1
            &&& s < v.actors.len() ==> v.actors[s].state == Lifecycle::Stopped
                && r.generation > v.actors[s].reference.generation
            &&& parent is Some ==> v.valid(parent->0) && parent->0.slot != s
                && !super::is_ended(v.at(parent->0).state)
            &&& forall|i: int|
                0 <= i < v.actors.len() && i != s ==> #[trigger] n.actors[i] == (if parent is Some
                    && parent->0.slot == i {
                    ActorView {
                        children: v.actors[i].children.push(r),
                        ..v.actors[i]
                    }
                } else {
                    v.actors[i]
                })
            &&& n.valid(r)
        }),
{
    reveal(WorldView::sound);
    let n = v.seated(kind, parent);
    let r = v.next_ref();
    let s = r.slot as int;
    if v.free.len() > 0 {
        let k = v.free.len() - 1;
        assert((v.free[k] as int) < v.actors.len());
        assert(v.placed(s, v.actors[s]));
    } else {
        assert(v.live() == v.actors.len());
        assert(v.actors.len() < u32::MAX);
    }
    if parent is Some {
        let p = parent->0;
        assert(v.placed(p.slot as int, v.actors[p.slot as int]));
        assert(p.slot != s);
    }
}

/// Who is listed is not in a slot that is free.
proof fn lemma_listed_apart(v: WorldView, kind: EndpointKind, parent: Option<ActorRef>, i: int, k: int)
    requires
        v.sound(),
        v.kin(),
        v.refuses_actor(parent) is None,
        0 <= i < v.actors.len(),
        0 <= k < v.actors[i].children.len(),
    ensures
        v.actors[i].children[k].slot != v.next_ref().slot,
        v.actors[i].children[k] != v.next_ref(),
        v.valid(v.actors[i].children[k]),
{
    reveal(WorldView::kin);
    lemma_seat_shape(v, kind, parent);
    let c = v.actors[i].children[k];
    assert(v.owned(c, v.actors[i].reference));
}

/// A new actor finds the roster and the lists in line.
proof fn lemma_seated_family(v: WorldView, kind: EndpointKind, parent: Option<ActorRef>)
    requires
        v.sound(),
        v.kin(),
        v.rows(),
        v.family(),
        v.refuses_actor(parent) is None,
    ensures
        v.seated(kind, parent).rows(),
        v.seated(kind, parent).family(),
{
    let n = v.seated(kind, parent);
    let r = v.next_ref();
    let s = r.slot as int;
    lemma_seat_shape(v, kind, parent);
    assert(n.rows()) by {
        reveal(WorldView::rows);
        assert forall|i: int|
            0 <= i < n.actors.len() implies (#[trigger] n.actors[i]).reference.slot == i
            && n.actors[i].reference.world == n.id && n.actors[i].ready_order
            < n.next_ready_order by {
            if i != s {
                assert(v.actors[i].reference.slot == i);
            }
        }
        assert forall|i: int, j: int| 0 <= i < j < n.actors.len() implies (
        #[trigger] n.actors[i]).ready_order != (#[trigger] n.actors[j]).ready_order by {
            if i != s && j != s {
                assert(v.actors[i].ready_order != v.actors[j].ready_order);
            } else if i != s {
                assert(v.actors[i].ready_order < v.next_ready_order);
            } else {
                assert(v.actors[j].ready_order < v.next_ready_order);
            }
        }
    }
    assert(n.family()) by {
        reveal(WorldView::family);
        reveal(WorldView::rows);
        assert forall|i: int|
            0 <= i < n.actors.len() && !super::is_ended((#[trigger] n.actors[i]).state)
                && n.actors[i].parent is Some implies n.raises(
            n.actors[i].parent->0,
            n.actors[i].reference,
        ) by {
            if i == s {
                let p = parent->0;
                let j = p.slot as int;
                assert(n.actors[j].children == v.actors[j].children.push(r));
                assert(n.actors[j].children[v.actors[j].children.len() as int] == r);
                assert(v.actors[j].ready_order < v.next_ready_order);
            } else {
                let p = v.actors[i].parent->0;
                let c = v.actors[i].reference;
                assert(v.raises(p, c));
                assert(v.actors[i].reference.slot == i);
                let j = p.slot as int;
                assert(j != s);
                let k = v.actors[j].children.index_of(c);
                assert(n.actors[j].children[k] == c);
            }
        }
        assert forall|i: int, k: int|
            0 <= i < n.actors.len() && 0 <= k < n.actors[i].children.len() implies n.valid(
            #[trigger] n.actors[i].children[k],
        ) && n.at(n.actors[i].children[k]).parent == Some(n.actors[i].reference) by {
            if i != s {
                if k < v.actors[i].children.len() {
                    let c = v.actors[i].children[k];
                    assert(v.valid(c) && v.at(c).parent == Some(v.actors[i].reference));
                    lemma_listed_apart(v, kind, parent, i, k);
                    assert(n.actors[i].children[k] == c);
                } else {
                    assert(n.actors[i].children[k] == r);
                    assert(v.actors[i].reference == parent->0);
                }
            }
        }
        assert forall|i: int| 0 <= i < n.actors.len() implies (
        #[trigger] n.actors[i]).children.no_duplicates() by {
            if i != s {
                let list = v.actors[i].children;
                assert(list.no_duplicates());
                if parent is Some && parent->0.slot == i {
                    assert forall|a: int, b: int|
                        0 <= a < n.actors[i].children.len() && 0 <= b < n.actors[i].children.len()
                            && a != b implies n.actors[i].children[a] != n.actors[i].children[b] by {
                        if a < list.len() && b < list.len() {
                            assert(list[a] != list[b]);
                        } else if a < list.len() {
                            lemma_listed_apart(v, kind, parent, i, a);
                        } else {
                            lemma_listed_apart(v, kind, parent, i, b);
                        }
                    }
                }
            }
        }
    }
}

/// What runs does not depend on a new actor.
proof fn lemma_runs_beside(
    v: WorldView,
    kind: EndpointKind,
    parent: Option<ActorRef>,
    x: ActorRef,
    starting: bool,
    quiescing: bool,
)
    requires
        v.sound(),
        v.rows(),
        v.family(),
        v.refuses_actor(parent) is None,
        v.valid(x),
        !super::is_ended(v.at(x).state),
    ensures
        v.seated(kind, parent).execution_from(x, starting, quiescing) == v.execution_from(
            x,
            starting,
            quiescing,
        ),
    decreases v.order(x),
{
    reveal(WorldView::family);
    reveal(WorldView::rows);
    let n = v.seated(kind, parent);
    let i = x.slot as int;
    lemma_seat_shape(v, kind, parent);
    assert(v.actors[i].reference == x) by {
        assert(v.actors[i].reference.slot == i);
    }
    assert(i != v.next_ref().slot);
    assert(n.actors[i].state == v.actors[i].state && n.actors[i].parent == v.actors[i].parent);
    if v.at(x).parent is Some {
        let p = v.at(x).parent->0;
        assert(v.raises(p, x));
        let j = p.slot as int;
        assert(j != v.next_ref().slot);
        assert(n.actors[j].reference == v.actors[j].reference);
        let state = v.at(x).state;
        lemma_runs_beside(
            v,
            kind,
            parent,
            p,
            starting || state == Lifecycle::Starting,
            quiescing || state == Lifecycle::Quiescing,
        );
    }
}

/// A new actor has no hints yet, and leaves those of others alone.
proof fn lemma_seated_hints(v: WorldView, kind: EndpointKind, parent: Option<ActorRef>)
    requires
        v.sound(),
        v.rows(),
        v.family(),
        v.hinted(Set::empty()),
        v.expecting(),
        v.refuses_actor(parent) is None,
    ensures
        v.seated(kind, parent).hinted(Set::empty().insert(v.next_ref().slot as int)),
{
    reveal(WorldView::hinted);
    let n = v.seated(kind, parent);
    let r = v.next_ref();
    let s = r.slot as int;
    lemma_seat_shape(v, kind, parent);
    assert(!v.ordered_here(v.next_ready_order)) by {
        reveal(WorldView::rows);
    }
    assert(n.python_ready == v.python_ready);
    if s < v.actors.len() {
        assert(v.row_hinted(v.actors[s]));
        assert(v.actors[s].python_done) by {
            reveal(WorldView::expecting);
        }
        assert(!v.executable(v.actors[s].reference)) by {
            reveal(WorldView::rows);
            assert(v.actors[s].reference.slot == s);
        }
    }
    assert forall|i: int|
        0 <= i < n.actors.len() && (!Set::empty().insert(s).contains(i) || n.actors[i].kind
            != EndpointKind::Python) implies n.row_hinted(#[trigger] n.actors[i]) by {
        if i == s {
            assert(!v.python_ready.start.dom().contains(v.next_ready_order));
            assert(!v.python_ready.failure.dom().contains(v.next_ready_order));
            assert(!v.python_ready.delivery.dom().contains(v.next_ready_order));
            assert(!v.python_ready.cleanup.dom().contains(v.next_ready_order));
        } else {
            let x = v.actors[i].reference;
            assert(v.row_hinted(v.actors[i]));
            assert(v.valid(x) && x.slot == i && n.valid(x)) by {
                reveal(WorldView::rows);
                assert(v.actors[i].reference.slot == i);
            }
            if !super::is_ended(v.actors[i].state) {
                lemma_runs_beside(v, kind, parent, x, false, false);
            }
            assert(n.executable(x) == v.executable(x));
        }
    }
    assert forall|o: u64| v.ordered_here(o) && (s < v.actors.len() ==> o
        != v.actors[s].ready_order) implies #[trigger] n.ordered_here(o) by {
        let i = choose|i: int|
            0 <= i < v.actors.len() && (#[trigger] v.actors[i]).ready_order == o;
        assert(n.actors[i].ready_order == o);
    }
    assert forall|o: u64| #[trigger] n.python_ready.start.dom().contains(o) implies n.ordered_here(
        o,
    ) by {
        assert(v.ordered_here(o));
    }
    assert forall|o: u64| #[trigger]
        n.python_ready.failure.dom().contains(o) implies n.ordered_here(o) by {
        assert(v.ordered_here(o));
    }
    assert forall|o: u64| #[trigger]
        n.python_ready.delivery.dom().contains(o) implies n.ordered_here(o) by {
        assert(v.ordered_here(o));
    }
    assert forall|o: u64| #[trigger]
        n.python_ready.cleanup.dom().contains(o) implies n.ordered_here(o) by {
        assert(v.ordered_here(o));
    }
}

/// Nobody waits for a new actor, and it drains nothing.
proof fn lemma_seated_counts(v: WorldView, kind: EndpointKind, parent: Option<ActorRef>)
    requires
        v.sound(),
        v.rows(),
        v.expecting(),
        v.drains(Set::empty()),
        v.refuses_actor(parent) is None,
    ensures
        v.seated(kind, parent).expecting(),
        v.seated(kind, parent).drains(Set::empty()),
{
    let n = v.seated(kind, parent);
    let r = v.next_ref();
    let s = r.slot as int;
    lemma_seat_shape(v, kind, parent);
    assert forall|j: int| 0 <= j < v.actors.len() implies (#[trigger] v.actors[j]).parent != Some(
        r,
    ) by {
        reveal(WorldView::sound);
        assert(v.placed(j, v.actors[j]));
    }
    assert(n.expecting()) by {
        reveal(WorldView::expecting);
        assert forall|i: int| 0 <= i < n.actors.len() implies (
        #[trigger] n.actors[i]).pending_failures == n.waiting(n.actors[i].reference).len() by {
            if i == s {
                assert(n.waiting(r) =~= Set::<int>::empty()) by {
                    assert forall|j: int| !n.waiting(r).contains(j) by {
                        if 0 <= j < n.actors.len() && j != s {
                            assert(n.actors[j].parent == v.actors[j].parent);
                        }
                        if j == s && parent is Some {
                            assert(parent->0 != r);
                        }
                    }
                }
            } else {
                let x = v.actors[i].reference;
                assert(n.actors[i].reference == x);
                assert(v.actors[i].pending_failures == v.waiting(x).len());
                assert(n.waiting(x) =~= v.waiting(x)) by {
                    assert forall|j: int| n.waiting(x).contains(j) <==> v.waiting(x).contains(j) by {
                        if 0 <= j < v.actors.len() && j != s {
                            assert(n.actors[j].parent == v.actors[j].parent);
                        }
                        if j == s && s < v.actors.len() {
                            assert(v.actors[s].notification is None);
                        }
                    }
                }
            }
        }
        assert forall|i: int|
            0 <= i < n.actors.len() && (#[trigger] n.actors[i]).state
                == Lifecycle::Stopped implies n.actors[i].notification is None
            && n.actors[i].python_done by {
            assert(i != s);
            assert(v.actors[i].state == Lifecycle::Stopped);
        }
        assert forall|i: int|
            0 <= i < n.actors.len() && (#[trigger] n.actors[i]).notification
                is Some implies n.actors[i].parent is Some by {
            assert(i != s);
            assert(v.actors[i].notification is Some);
        }
        assert forall|i: int| 0 <= i < n.actors.len() implies (#[trigger] n.actors[i]).parent
            != Some(n.actors[i].reference) by {
            if i != s {
                assert(v.actors[i].parent != Some(v.actors[i].reference));
            } else if parent is Some {
                assert(parent->0 != r);
            }
        }
    }
    assert(n.drains(Set::empty())) by {
        reveal(WorldView::drains);
        assert forall|q: u32| !Set::<int>::empty().contains(q as int) implies (
        #[trigger] n.drain_roots.dom().contains(q) <==> n.drains_here(q as int)) by {
            assert(v.drain_roots.dom().contains(q) <==> v.drains_here(q as int));
            if q as int != s && (q as int) < v.actors.len() {
                assert(n.actors[q as int].state == v.actors[q as int].state);
            }
        }
        assert forall|q: u32| #[trigger] n.drain_roots.dom().contains(q) implies (q as int)
            < n.actors.len() && n.drain_roots[q] == n.actors[q as int].reference by {
            assert(v.drain_roots.dom().contains(q) <==> v.drains_here(q as int));
            assert(v.drain_roots[q] == v.actors[q as int].reference);
        }
    }
}

/// A new actor holds nothing.
proof fn lemma_seated_owing(v: WorldView, kind: EndpointKind, parent: Option<ActorRef>)
    requires
        v.sound(),
        v.living(),
        v.owing(keeping::none_held()),
        v.refuses_actor(parent) is None,
    ensures
        v.seated(kind, parent).owing(keeping::none_held()),
{
    let n = v.seated(kind, parent);
    let r = v.next_ref();
    let s = r.slot as int;
    lemma_seat_shape(v, kind, parent);
    reveal(WorldView::owing);
    let fresh = super::actors::fresh_actor(r, v.next_ready_order, kind, parent);
    assert forall|key: (u64, usize)| #[trigger] n.budget.counts(key) == n.places(key)
        + keeping::none_held().count(key) by {
        assert(v.budget.counts(key) == v.places(key) + keeping::none_held().count(key));
        let f = tidy::actor_at(key);
        assert(f(fresh) == 0);
        if s < v.actors.len() {
            super::living::lemma_bare(v, s);
            assert(f(v.actors[s]) == 0) by {
                assert(v.actors[s].queue =~= Seq::<Delivery>::empty());
                assert(v.actors[s].staged =~= Seq::<Staged>::empty());
            }
            assert forall|i: int| 0 <= i < n.actors.len() implies f(#[trigger] n.actors[i]) == f(
                v.actors[i],
            ) by {}
            tally::lemma_alike(n.actors, v.actors, f);
        } else {
            let m = v.actors.push(fresh);
            tally::lemma_push(v.actors, f, fresh);
            assert forall|i: int| 0 <= i < n.actors.len() implies f(#[trigger] n.actors[i]) == f(
                m[i],
            ) by {}
            tally::lemma_alike(n.actors, m, f);
        }
    }
}

/// A new actor keeps a World in line.
pub(super) proof fn lemma_allocated(v: WorldView, kind: EndpointKind, parent: Option<ActorRef>)
    requires
        v.neat(tidy::nothing_open()),
        v.sound(),
        v.kin(),
        v.living(),
        v.refuses_actor(parent) is None,
    ensures
        v.allocated(kind, parent).neat(tidy::nothing_open()),
        v.allocated(kind, parent).valid(v.next_ref()),
        v.allocated(kind, parent).at(v.next_ref()) == super::actors::fresh_actor(
            v.next_ref(),
            v.next_ready_order,
            kind,
            parent,
        ),
{
    let n = v.seated(kind, parent);
    let r = v.next_ref();
    lemma_seat_shape(v, kind, parent);
    lemma_seated_family(v, kind, parent);
    lemma_seated_hints(v, kind, parent);
    lemma_seated_counts(v, kind, parent);
    lemma_seated_owing(v, kind, parent);
    keeping::lemma_fresh(n, r, keeping::none_held());
    tidy::lemma_aside(n.refreshed(r), v.allocated(kind, parent), tidy::nothing_open());
}

/// A lease keeps a World in line: its scope starts to run at once.
pub(super) proof fn lemma_leased(v: WorldView, lease: crate::services::ServiceLease)
    requires
        v.neat(tidy::nothing_open()),
        v.sound(),
        v.kin(),
        v.living(),
        v.refuses_actor(Some(lease.owner)) is None,
        lease.scope == v.next_ref(),
    ensures
        v.with_lease(lease).neat(tidy::nothing_open()),
{
    let r = lease.scope;
    let s = r.slot as int;
    lemma_allocated(v, EndpointKind::Native, Some(lease.owner));
    let m = v.allocated(EndpointKind::Native, Some(lease.owner));
    let b = ActorView { state: Lifecycle::Active, ..m.at(r) };
    let n = m.put(r, b);
    assert(n.same_roster(m));
    tidy::lemma_rows_kept(m, n);
    tidy::lemma_family_kept(m, n);
    tidy::lemma_counted_kept(m, n);
    tidy::lemma_hints_turned(m, n, r, Set::empty());
    assert(n.hinted(Set::empty())) by {
        assert forall|i: int| tidy::live_below(m, r).contains(i) implies i == s by {
            if i != s {
                let x = m.actors[i].reference;
                assert(m.valid(x) && x.slot == i) by {
                    reveal(WorldView::rows);
                    assert(m.actors[i].reference.slot == i);
                }
                tidy::lemma_childless(m, r, x);
            }
        }
        reveal(WorldView::hinted);
    }
    tidy::lemma_drains_kept(m, n, Set::empty(), Set::empty());
    assert(Set::<int>::empty().union(Set::empty()) =~= Set::empty());
    tidy::lemma_owing_put_same(m, r, b, keeping::none_held());
    assert(n.refreshed(r) == n);
    tidy::lemma_aside(n, v.with_lease(lease), tidy::nothing_open());
}

/// A publication that joins keeps a World in line.
pub(super) proof fn lemma_publishing(
    v: WorldView,
    now: Instant,
    source: ActorRef,
    p: Payload,
    charge: usize,
    completion: Option<ActorRef>,
    port: Option<u16>,
    options: MessageOptions,
)
    requires
        v.neat(tidy::nothing_open()),
        v.pubs.consistent(),
    ensures
        v.publishing(now, source, p, charge, completion, port, options).0.neat(
            tidy::nothing_open(),
        ),
{
    let open = tidy::nothing_open();
    let m = v.publication_submitted();
    tidy::lemma_aside(v, m, open);
    match m.refuses_publication(now, source, p, completion, port, options) {
        Some(e) => {
            tidy::lemma_aside(m, m.publication_refused(now, e, source), open);
        },
        None => {
            let full = super::publishing::from_source(source, options);
            lemma_submission(m, source, port, p, charge, full, completion is Some);
            let (n, result) = m.submission(source, port, p, charge, full, completion is Some);
            if result is Err {
                tidy::lemma_aside(n, n.publication_refused(now, result->Err_0, source), open);
            }
        },
    }
}

proof fn lemma_submission(
    v: WorldView,
    source: ActorRef,
    port: Option<u16>,
    p: Payload,
    charge: usize,
    options: MessageOptions,
    completion: bool,
)
    requires
        v.neat(tidy::nothing_open()),
        v.pubs.consistent(),
    ensures
        v.submission(source, port, p, charge, options, completion).0.neat(tidy::nothing_open()),
{
    let open = tidy::nothing_open();
    let dispatcher = match port {
        Some(index) => Some(crate::components::PortRef { owner: source, index }),
        None => None,
    };
    let staged = v.execution(source) == Ok::<Lifecycle, crate::types::Error>(Lifecycle::Starting);
    if v.pubs.refuses(source) is None {
        let id = v.pubs.next_id;
        let m = WorldView { pubs: v.pubs.reserved(source, staged), ..v };
        tidy::lemma_aside(v, m, open);
        let back = WorldView { pubs: m.pubs.ticket_released(id), ..m };
        tidy::lemma_aside(m, back, open);
        if m.refuses_payload(p, charge, options) is None {
            let stored = m.stored_next(p, charge, options, dispatcher);
            let key = (stored.id, stored.bytes);
            keeping::lemma_one_held(key);
            keeping::lemma_storing(m, p, charge, options, Set::empty());
            keeping::lemma_storing(back, p, charge, options, Set::empty());
            keeping::lemma_releasing(back.storing(charge, options), key, Set::empty());
            let kept = m.storing(charge, options);
            let placed = if staged {
                kept.staged(source, port->0, stored, id)
            } else {
                kept
            };
            if staged {
                assert(kept.valid(source));
                lemma_staged(kept, source, port->0, stored, id);
            }
            assert(!placed.pubs.entries.dom().contains(id)) by {
                if v.pubs.entries.dom().contains(id) {
                    assert(v.pubs.tickets.dom().contains(id));
                }
            }
            lemma_entered(placed, id, source, port, stored, staged, completion);
        }
    }
}

/// An entry that is put aside counts for its publication too.
proof fn lemma_staged(
    v: WorldView,
    source: ActorRef,
    port: u16,
    stored: Arc<Stored>,
    id: u64,
)
    requires
        v.neat(tidy::between(Set::empty(), keeping::one_held(tidy::key_of(*stored)))),
        v.valid(source),
        v.budget.roomy(stored.id),
        v.budget.shares[stored.id].bytes == stored.bytes,
    ensures
        v.staged(source, port, stored, id).neat(
            tidy::between(Set::empty(), keeping::one_held(tidy::key_of(*stored))),
        ),
{
    let key = (stored.id, stored.bytes);
    let a = v.at(source);
    let entry = Staged { port, stored, publication: id };
    let b = ActorView { staged: a.staged.push(entry), ..a };
    keeping::lemma_one_held(key);
    tidy::lemma_put_row(v, source, b, Set::empty(), Set::empty());
    assert forall|k: (u64, usize)| #[trigger]
        keeping::one_held(key).count(k) + tidy::held_in(a, k) == keeping::none_held().count(k) + tidy::held_in(
            b,
            k,
        ) by {
        tally::lemma_push(a.staged, tidy::staged_at(k), entry);
        assert(tidy::staged_at(k)(entry) == tidy::one_if(key == k));
    }
    tidy::lemma_owing_put(v, source, b, keeping::one_held(key), keeping::none_held());
    keeping::lemma_sharing(v.put(source, b), key, Set::empty());
}

proof fn lemma_entered(
    v: WorldView,
    id: u64,
    source: ActorRef,
    port: Option<u16>,
    stored: Arc<Stored>,
    staged: bool,
    completion: bool,
)
    requires
        v.neat(tidy::between(Set::empty(), keeping::one_held(tidy::key_of(*stored)))),
        !v.pubs.entries.dom().contains(id),
    ensures
        v.entered(id, source, port, stored, staged, completion).neat(tidy::nothing_open()),
{
    let key = (stored.id, stored.bytes);
    keeping::lemma_one_held(key);
    let n = v.entered(id, source, port, stored, staged, completion);
    let p = n.pubs.entries[id];
    assert(n.pubs.entries == v.pubs.entries.insert(id, p));
    tidy::lemma_owing_entered(v, n, id, p, keeping::one_held(key));
    tidy::lemma_kept_up(v, n, Set::empty(), Set::empty());
}

/// One destination of a turn keeps a World in line.
proof fn lemma_turn_step(
    v: WorldView,
    now: Instant,
    id: u64,
    p: PublicationView,
    turn: super::router::Turn,
)
    requires
        v.neat(tidy::nothing_open()),
        v.pubs.entries.dom().contains(id),
        v.pubs.entries[id] == p,
    ensures
        v.turn_step(now, id, p, turn).0.neat(tidy::nothing_open()),
        v.turn_step(now, id, p, turn).0.pubs == v.pubs,
{
    let open = tidy::nothing_open();
    if !crate::clock::due(p.stored.options.deadline, now) {
        let (route, target) = turn.routes->0[turn.cursor as int];
        let stored = Arc::new(p.stored);
        let key = (p.stored.id, p.stored.bytes);
        keeping::lemma_one_held(key);
        let (n, result) = v.relaying(now, id, route, target, stored, p.completion);
        if v.refuses_destination(id, route, target, p.completion) is None && v.budget.roomy(
            stored.id,
        ) {
            lemma_published_has_share(v, id);
            keeping::lemma_sharing(v, key, Set::empty());
            let k = v.sharing(stored.id);
            keeping::lemma_admission(
                k,
                now,
                target,
                stored,
                Some(route),
                true,
                None,
                Set::empty(),
                keeping::one_held(key),
            );
            let (w, told) = k.admission(now, target, stored, Some(route), true, None);
            if told is Err {
                keeping::lemma_releasing(w, key, Set::empty());
            }
        }
        if result is Err {
            tidy::lemma_aside(n, n.rejected(now, result->Err_0, target), open);
        }
    }
}

/// What a publication holds has its share.
proof fn lemma_published_has_share(v: WorldView, id: u64)
    requires
        v.neat(tidy::nothing_open()),
        v.pubs.entries.dom().contains(id),
    ensures
        v.budget.shares.dom().contains(v.pubs.entries[id].stored.id),
        v.budget.shares[v.pubs.entries[id].stored.id].bytes == v.pubs.entries[id].stored.bytes,
{
    let p = v.pubs.entries[id];
    let key = (p.stored.id, p.stored.bytes);
    assert(v.pubs.entries.dom().finite()) by {
        reveal(WorldView::owing);
    }
    crate::sums::lemma_sum_remove(v.pubs.entries, tidy::publication_at(key), id);
    assert(tidy::publication_at(key)(p) == 1);
    tidy::lemma_held_has_share(v, key, keeping::none_held());
}

proof fn lemma_turn_steps(
    v: WorldView,
    id: u64,
    p: PublicationView,
    turn: super::router::Turn,
    times: Seq<Instant>,
)
    requires
        v.neat(tidy::nothing_open()),
        v.pubs.entries.dom().contains(id),
        v.pubs.entries[id] == p,
    ensures
        v.turn_steps(id, p, turn, times).0.neat(tidy::nothing_open()),
        v.turn_steps(id, p, turn, times).0.pubs == v.pubs,
    decreases times.len(),
{
    if times.len() > 0 {
        lemma_turn_steps(v, id, p, turn, times.drop_last());
        let (m, t) = v.turn_steps(id, p, turn, times.drop_last());
        if m.turn_goes_on(t) {
            lemma_turn_step(m, times.last(), id, p, t);
        }
    }
}

/// A turn of the router keeps a World in line.
pub(super) proof fn lemma_routing_turn(v: WorldView, now: Instant, times: Seq<Instant>)
    requires
        v.neat(tidy::nothing_open()),
        v.pubs.entries.dom().contains(v.pubs.head(v.pubs.ready[0])),
    ensures
        v.routing_turn(now, times).0.neat(tidy::nothing_open()),
{
    let id = v.pubs.head(v.pubs.ready[0]);
    let p = v.pubs.entries[id];
    lemma_turn_steps(v, id, p, v.turn_begun(now, p), times);
    let (m, turn) = v.turn_steps(id, p, v.turn_begun(now, p), times);
    let last = p.advanced_to(turn.routes, turn.cursor, turn.report);
    match super::router::turn_outcome(turn) {
        Some(outcome) => {
            tidy::lemma_ended(m, id, last, outcome, keeping::none_held());
            tidy::lemma_kept_up(
                m,
                m.publication_ended(id, last, outcome),
                Set::empty(),
                Set::empty(),
            );
        },
        None => {
            let n = WorldView { pubs: m.pubs.advanced(id, last), ..m };
            assert(n.pubs.entries == m.pubs.entries.insert(id, last));
            tidy::lemma_owing_replaced(m, n, id, last, keeping::none_held());
            tidy::lemma_kept_up(m, n, Set::empty(), Set::empty());
        },
    }
}

} // verus!
