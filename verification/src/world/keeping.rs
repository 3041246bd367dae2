//! Every step of a World keeps its hints, counts, drains and budget in line.
use vstd::prelude::*;
use vstd::multiset::Multiset;
use super::tidy;
use super::tidy::Slack;
use super::{ActorView, World, WorldView};
use crate::clock::Instant;
use crate::diagnostics::DiagnosticCode;
use crate::envelope::MessageOptions;
use crate::held::{Delivery, HeldPayload, Staged, Stored};
use crate::operations::{EntryView, OperationId, OpsView, OutcomeView};
use crate::payload::Payload;
use crate::publications::PublicationView;
use crate::tally;
use crate::types::ActorRef;
use std::sync::Arc;

verus! {

/// Nothing is in hand.
pub open spec fn none_held() -> Multiset<(u64, usize)> {
    Multiset::empty()
}

/// One payload is in hand.
pub open spec fn one_held(key: (u64, usize)) -> Multiset<(u64, usize)> {
    Multiset::empty().insert(key)
}

pub(super) proof fn lemma_one_held(key: (u64, usize))
    ensures
        one_held(key).count(key) == 1,
        one_held(key).remove(key) == none_held(),
        none_held().insert(key) == one_held(key),
        none_held().add(tidy::bag_in(Some(key))) == one_held(key),
        none_held().add(none_held()) == none_held(),
{
    assert(one_held(key).remove(key) =~= none_held());
    assert(none_held().add(tidy::bag_in(Some(key))) =~= one_held(key));
    assert(none_held().add(none_held()) =~= none_held());
}

/// An actor whose own work changes stays in line once its hints follow.
pub(super) proof fn lemma_worked(v: WorldView, r: ActorRef, b: ActorView, stale: Set<int>)
    requires
        v.kept_up(stale, Set::empty()),
        v.valid(r),
        tidy::same_row(v.at(r), b),
        b.children == v.at(r).children,
    ensures
        v.put(r, b).refreshed(r).kept_up(stale, Set::empty()),
        v.put(r, b).refreshed(r).actors == v.put(r, b).actors,
        tidy::same_holdings(v.put(r, b), v.put(r, b).refreshed(r)),
        v.put(r, b).refreshed(r).valid(r),
{
    let s = r.slot as int;
    let m = v.put(r, b);
    tidy::lemma_put_row(v, r, b, stale, Set::empty());
    super::actors::lemma_same_roster(v, m, r);
    tidy::lemma_refreshed(m, r, stale.insert(s), Set::empty());
    tidy::lemma_hints_weaker(m.refreshed(r), stale.insert(s).remove(s), stale);
}

/// A payload in hand that joins a mailbox.
proof fn lemma_delivered(
    v: WorldView,
    r: ActorRef,
    d: Delivery,
    stale: Set<int>,
    hand: Multiset<(u64, usize)>,
)
    requires
        v.neat(tidy::between(stale, hand)),
        v.valid(r),
        hand.count(tidy::key_of(*d.payload)) > 0,
    ensures
        v.delivered(r, d).neat(tidy::between(stale, hand.remove(tidy::key_of(*d.payload)))),
{
    let key = (d.payload.id, d.payload.bytes);
    let b = ActorView { queue: v.at(r).queue.push(d), ..v.at(r) };
    lemma_worked(v, r, b, stale);
    let after = hand.remove(key);
    assert forall|k: (u64, usize)| #[trigger]
        hand.count(k) + tidy::held_in(v.at(r), k) == after.count(k) + tidy::held_in(b, k) by {
        tally::lemma_push(v.at(r).queue, tidy::delivery_at(k), d);
        assert(tidy::delivery_at(k)(d) == tidy::one_if(key == k));
    }
    tidy::lemma_owing_put(v, r, b, hand, after);
    let m = v.put(r, b);
    tidy::lemma_owing_kept(m, m.refreshed(r), after);
    tidy::lemma_aside(m.refreshed(r), v.delivered(r, d), tidy::between(stale, after));
}

/// An entry that is refused stays in hand.
pub(super) proof fn lemma_admission(
    v: WorldView,
    now: Instant,
    r: ActorRef,
    stored: Arc<Stored>,
    sub: Option<u64>,
    completion: bool,
    operation: Option<OperationId>,
    stale: Set<int>,
    hand: Multiset<(u64, usize)>,
)
    requires
        v.neat(tidy::between(stale, hand)),
        hand.count(tidy::key_of(*stored)) > 0,
    ensures
        ({
            let (n, result) = v.admission(now, r, stored, sub, completion, operation);
            &&& result is Ok ==> n.neat(
                tidy::between(stale, hand.remove(tidy::key_of(*stored))),
            )
            &&& result is Err ==> n.neat(tidy::between(stale, hand))
            &&& n.budget == v.budget
            &&& n.ops == v.ops
            &&& n.pubs == v.pubs
            &&& n.same_roster(v)
            &&& result is Ok ==> n.valid(r) && n.at(r).queue.len() > 0 && n.at(
                r,
            ).queue.last().payload == stored
        }),
{
    if v.next_event < u64::MAX {
        let id = v.next_event;
        let m = WorldView { next_event: (id + 1) as u64, ..v };
        tidy::lemma_aside(v, m, tidy::between(stale, hand));
        let (n, result) = v.admission(now, r, stored, sub, completion, operation);
        if result is Ok {
            let made = m.envelope_for(r, stored, sub, id, now)->Ok_0;
            let envelope = if operation is Some && made.correlation_id is None {
                crate::envelope::Envelope { correlation_id: Some(id), ..made }
            } else {
                made
            };
            let d = Delivery {
                event_id: id,
                envelope,
                payload: stored,
                subscription: sub,
                operation,
            };
            lemma_delivered(m, r, d, stale, hand);
            assert(n == m.delivered(r, d));
            assert(n.at(r).queue == m.at(r).queue.push(d));
        }
    }
}

/// A payload that is stored is in hand.
pub(super) proof fn lemma_storing(
    v: WorldView,
    p: Payload,
    charge: usize,
    options: MessageOptions,
    stale: Set<int>,
)
    requires
        v.neat(tidy::between(stale, none_held())),
        v.refuses_payload(p, charge, options) is None,
    ensures
        v.storing(charge, options).neat(
            tidy::between(
                stale,
                one_held((v.budget.next, WorldView::cost(charge, options) as usize)),
            ),
        ),
        v.storing(charge, options).budget.roomy(v.budget.next),
        v.storing(charge, options).budget.shares[v.budget.next].bytes == WorldView::cost(
            charge,
            options,
        ) as usize,
{
    let bytes = WorldView::cost(charge, options) as usize;
    tidy::lemma_owing_stored(v, none_held(), bytes);
    let n = v.storing(charge, options);
    tidy::lemma_kept_up(v, n, stale, Set::empty());
}

/// A payload that goes out of hand is given back.
pub(super) proof fn lemma_releasing(v: WorldView, key: (u64, usize), stale: Set<int>)
    requires
        v.neat(tidy::between(stale, one_held(key))),
    ensures
        v.releasing(key.0).neat(tidy::between(stale, none_held())),
{
    lemma_one_held(key);
    tidy::lemma_owing_released(v, one_held(key), key);
    tidy::lemma_kept_up(v, v.releasing(key.0), stale, Set::empty());
}

/// A payload in hand that goes out on loan.
pub(super) proof fn lemma_lending(v: WorldView, key: (u64, usize), stale: Set<int>)
    requires
        v.neat(tidy::between(stale, one_held(key))),
    ensures
        v.lending(key.0).neat(tidy::between(stale, none_held())),
{
    lemma_one_held(key);
    tidy::lemma_owing_lent(v, one_held(key), key);
    tidy::lemma_kept_up(v, v.lending(key.0), stale, Set::empty());
}

/// Loans that come back, or go out once more.
pub(super) proof fn lemma_out(v: WorldView, n: WorldView, id: u64, open: Slack)
    requires
        v.neat(open),
        n == v.returning(id) || n == (WorldView { budget: v.budget.shared_out(id), ..v }),
    ensures
        n.neat(open),
{
    tidy::lemma_owing_out(v, n, open.hand, id);
    tidy::lemma_kept_up(v, n, open.stale, open.loose);
}

/// One more holder of a payload that has its share.
pub(super) proof fn lemma_sharing(v: WorldView, key: (u64, usize), stale: Set<int>)
    requires
        v.neat(tidy::between(stale, none_held())),
        v.budget.roomy(key.0),
        v.budget.shares[key.0].bytes == key.1,
    ensures
        v.sharing(key.0).neat(tidy::between(stale, one_held(key))),
{
    tidy::lemma_owing_shared(v, none_held(), key);
    tidy::lemma_kept_up(v, v.sharing(key.0), stale, Set::empty());
}

/// Sending keeps a World in line.
pub(super) proof fn lemma_sending(
    v: WorldView,
    now: Instant,
    r: ActorRef,
    p: Payload,
    charge: usize,
    options: MessageOptions,
)
    requires
        v.neat(tidy::nothing_open()),
    ensures
        v.sending(now, r, p, charge, options).0.neat(tidy::nothing_open()),
{
    let open = tidy::nothing_open();
    let m = v.submitting();
    tidy::lemma_aside(v, m, open);
    match m.refuses_payload(p, charge, options) {
        Some(e) => {
            tidy::lemma_aside(m, m.rejected(now, e, r), open);
        },
        None => {
            let stored = m.stored_next(p, charge, options, None);
            let key = (stored.id, stored.bytes);
            lemma_one_held(key);
            lemma_storing(m, p, charge, options, Set::empty());
            let k = m.storing(charge, options);
            lemma_admission(k, now, r, stored, None, false, None, Set::empty(), one_held(key));
            let (n, result) = k.admission(now, r, stored, None, false, None);
            if result is Err {
                lemma_releasing(n, key, Set::empty());
                let w = n.releasing(stored.id);
                tidy::lemma_aside(w, w.rejected(now, result->Err_0, r), open);
            }
        },
    }
}

proof fn lemma_forwarding(v: WorldView, now: Instant, r: ActorRef, held: HeldPayload)
    requires
        v.neat(tidy::nothing_open()),
    ensures
        v.forwarding(now, r, held).0.neat(tidy::nothing_open()),
{
    let open = tidy::nothing_open();
    let key = (held.share(), held.cost());
    lemma_one_held(key);
    tidy::lemma_aside(v, v.rejected(now, crate::types::Error::StaleReference, r), open);
    tidy::lemma_aside(v, v.rejected(now, crate::types::Error::LimitExceeded, r), open);
    if v.lends(held) && v.budget.roomy(held.share()) {
        lemma_sharing(v, key, Set::empty());
        let k = v.sharing(held.share());
        lemma_admission(
            k,
            now,
            r,
            held.kept(),
            None,
            false,
            None,
            Set::empty(),
            one_held(key),
        );
        let (n, result) = k.admission(now, r, held.kept(), None, false, None);
        if result is Err {
            lemma_releasing(n, key, Set::empty());
            let w = n.releasing(held.share());
            tidy::lemma_aside(w, w.rejected(now, result->Err_0, r), open);
        }
    }
}

pub(super) proof fn lemma_sending_held(v: WorldView, now: Instant, r: ActorRef, held: HeldPayload)
    requires
        v.neat(tidy::nothing_open()),
    ensures
        v.sending_held(now, r, held).0.neat(tidy::nothing_open()),
{
    let open = tidy::nothing_open();
    let m = v.submitting();
    tidy::lemma_aside(v, m, open);
    tidy::lemma_aside(m, m.rejected(now, crate::types::Error::CrossWorld, r), open);
    lemma_forwarding(m, now, r, held);
}

pub(super) proof fn lemma_sending_held_from(
    v: WorldView,
    now: Instant,
    owner: ActorRef,
    target: ActorRef,
    held: HeldPayload,
)
    requires
        v.neat(tidy::nothing_open()),
    ensures
        v.sending_held_from(now, owner, target, held).0.neat(tidy::nothing_open()),
{
    let open = tidy::nothing_open();
    let m = v.submitting();
    tidy::lemma_aside(v, m, open);
    tidy::lemma_aside(m, m.rejected(now, crate::types::Error::CrossWorld, target), open);
    tidy::lemma_aside(m, m.rejected(now, m.stale(owner), owner), open);
    tidy::lemma_aside(m, m.rejected(now, crate::types::Error::ActorStopped, owner), open);
    lemma_forwarding(m, now, target, held);
}

pub(super) proof fn lemma_holding(
    v: WorldView,
    now: Instant,
    p: Payload,
    charge: usize,
    options: MessageOptions,
)
    requires
        v.neat(tidy::nothing_open()),
    ensures
        v.holding(now, p, charge, options).0.neat(tidy::nothing_open()),
{
    if v.refuses_payload(p, charge, options) is None {
        let key = (v.budget.next, WorldView::cost(charge, options) as usize);
        lemma_storing(v, p, charge, options, Set::empty());
        lemma_lending(v.storing(charge, options), key, Set::empty());
    }
}

pub(super) proof fn lemma_sharing_result(v: WorldView, id: OperationId)
    requires
        v.neat(tidy::nothing_open()),
    ensures
        v.sharing_result(id).0.neat(tidy::nothing_open()),
{
    let n = v.sharing_result(id).0;
    if v.ops.has(id) {
        match v.ops.entry(id) {
            EntryView::Terminal { outcome: OutcomeView::Completed(held), .. } => {
                if v.budget.roomy(held.share()) {
                    lemma_out(v, n, held.share(), tidy::nothing_open());
                }
            },
            _ => {},
        }
    }
}

/// A completion takes over what its outcome holds and gives back what the
/// operation held.
pub(super) proof fn lemma_op_completed(
    v: WorldView,
    id: OperationId,
    outcome: OutcomeView,
    stale: Set<int>,
    hand: Multiset<(u64, usize)>,
)
    requires
        v.neat(tidy::between(stale, hand.add(tidy::bag_in(tidy::outcome_key(outcome))))),
        outcome matches OutcomeView::Completed(held) ==> held.of_world() == v.ops.world,
    ensures
        v.op_completed(id, outcome).neat(tidy::between(stale, hand)),
        tidy::same_actors(v, v.op_completed(id, outcome)),
        v.op_completed(id, outcome).pubs == v.pubs,
        v.op_completed(id, outcome).subs == v.subs,
        v.op_completed(id, outcome).services == v.services,
        v.op_completed(id, outcome).ops.slots.len() == v.ops.slots.len(),
        v.op_completed(id, outcome).ops.generations == v.ops.generations,
{
    let ops = v.ops.completed(id, outcome);
    let drops = tidy::lemma_completed_balanced(v.ops, id, outcome);
    tidy::lemma_owing_ops(v, ops, tidy::bag_in(tidy::outcome_key(outcome)), drops, hand);
    super::actors::lemma_with_ops(v, ops);
    let done = v.with_ops(ops);
    tidy::lemma_kept_up(v, done, stale, Set::empty());
    tidy::lemma_aside(done, v.op_completed(id, outcome), tidy::between(stale, hand));
}

/// The same for an outcome that holds nothing.
pub(super) proof fn lemma_op_ended(
    v: WorldView,
    id: OperationId,
    outcome: OutcomeView,
    stale: Set<int>,
    hand: Multiset<(u64, usize)>,
)
    requires
        v.neat(tidy::between(stale, hand)),
        !(outcome is Completed),
    ensures
        v.op_completed(id, outcome).neat(tidy::between(stale, hand)),
        tidy::same_actors(v, v.op_completed(id, outcome)),
        v.op_completed(id, outcome).pubs == v.pubs,
        v.op_completed(id, outcome).subs == v.subs,
        v.op_completed(id, outcome).services == v.services,
        v.op_completed(id, outcome).ops.slots.len() == v.ops.slots.len(),
        v.op_completed(id, outcome).ops.generations == v.ops.generations,
{
    assert(hand.add(tidy::bag_in(tidy::outcome_key(outcome))) =~= hand);
    lemma_op_completed(v, id, outcome, stale, hand);
}

pub(super) proof fn lemma_timing_out(
    v: WorldView,
    now: Instant,
    at: Instant,
    id: OperationId,
    actor: Option<ActorRef>,
    stale: Set<int>,
    hand: Multiset<(u64, usize)>,
)
    requires
        v.neat(tidy::between(stale, hand)),
    ensures
        v.timing_out(now, at, id, actor).neat(tidy::between(stale, hand)),
        tidy::same_actors(v, v.timing_out(now, at, id, actor)),
        v.timing_out(now, at, id, actor).pubs == v.pubs,
        v.timing_out(now, at, id, actor).subs == v.subs,
        v.timing_out(now, at, id, actor).services == v.services,
        v.timing_out(now, at, id, actor).ops.slots.len() == v.ops.slots.len(),
        v.timing_out(now, at, id, actor).ops.generations == v.ops.generations,
{
    if v.op_is_due(now, id) {
        lemma_op_ended(v, id, OutcomeView::TimedOut, stale, hand);
        let m = v.op_completed(id, OutcomeView::TimedOut);
        tidy::lemma_aside(m, m.op_timed_out(at, id, actor), tidy::between(stale, hand));
    }
}

/// A slot that was free holds an operation without a payload.
proof fn lemma_reserved_balanced(a: OpsView, owner: ActorRef, target: ActorRef, deadline: Instant)
    requires
        a.slotted(),
        a.refuses(owner, target) is None,
    ensures
        tidy::balanced(
            a,
            a.reserved(owner, target, deadline),
            Multiset::empty(),
            Seq::empty(),
        ),
        a.reserved(owner, target, deadline).has(a.next_id()),
        a.reserved(owner, target, deadline).entry(a.next_id()) matches EntryView::Pending(p)
            && p.context is None,
{
    reveal(tidy::balanced);
    let b = a.reserved(owner, target, deadline);
    let entry = Some(
        EntryView::Pending(
            crate::operations::PendingOperation { owner, target, deadline, context: None },
        ),
    );
    assert(tidy::share_ids(Seq::<(u64, usize)>::empty()) =~= Seq::<u64>::empty());
    assert(a.dropped + Seq::<u64>::empty() =~= a.dropped);
    assert forall|key: (u64, usize)| #![trigger Multiset::<(u64, usize)>::empty().count(key)]
        tally::tally(a.slots, tidy::slot_at(key)) + Multiset::<(u64, usize)>::empty().count(key)
            == tally::tally(b.slots, tidy::slot_at(key)) + tally::tally(
            Seq::<(u64, usize)>::empty(),
            tidy::drop_at(key),
        ) by {
        assert(tidy::slot_at(key)(entry) == 0);
        if a.free.len() > 0 {
            let i = a.free[a.free.len() - 1] as int;
            assert(a.slots[i] is None);
            assert(tidy::slot_at(key)(a.slots[i]) == 0);
            tally::lemma_update(a.slots, tidy::slot_at(key), i, entry);
        } else {
            tally::lemma_push(a.slots, tidy::slot_at(key), entry);
        }
    }
    if a.free.len() > 0 {
        assert((a.free[a.free.len() - 1] as int) < a.slots.len());
    }
}

/// An operation that was never submitted leaves its slot.
proof fn lemma_withdrawn(v: WorldView, id: OperationId)
    requires
        v.neat(tidy::nothing_open()),
    ensures
        v.with_ops(v.ops.released(id)).neat(tidy::nothing_open()),
{
    let a = v.ops;
    let b = a.released(id);
    if a.has(id) && a.entry(id) is Pending {
        tidy::lemma_vacated_balanced(a, b, id);
        lemma_ops_turned(v, b, tidy::keys_in(tidy::entry_key(a.entry(id))), Set::empty());
    } else {
        tidy::lemma_balanced_none(a);
        lemma_ops_turned(v, b, Seq::empty(), Set::empty());
    }
}

/// Operations that change without taking anything from the hand.
proof fn lemma_ops_turned(v: WorldView, ops: OpsView, drops: Seq<(u64, usize)>, stale: Set<int>)
    requires
        v.neat(tidy::between(stale, none_held())),
        tidy::balanced(v.ops, ops, Multiset::empty(), drops),
    ensures
        v.with_ops(ops).neat(tidy::between(stale, none_held())),
{
    assert(none_held().add(none_held()) =~= none_held());
    tidy::lemma_owing_ops(v, ops, Multiset::empty(), drops, none_held());
    super::actors::lemma_with_ops(v, ops);
    tidy::lemma_kept_up(v, v.with_ops(ops), stale, Set::empty());
}

/// A request keeps a World in line.
pub(super) proof fn lemma_requesting(
    v: WorldView,
    now: Instant,
    owner: ActorRef,
    target: ActorRef,
    p: Payload,
    charge: usize,
    deadline: Instant,
    options: MessageOptions,
    port: Option<crate::components::PortRef>,
)
    requires
        v.neat(tidy::nothing_open()),
        v.ops.slotted(),
    ensures
        v.requesting(now, owner, target, p, charge, deadline, options, port).0.neat(
            tidy::nothing_open(),
        ),
{
    let open = tidy::nothing_open();
    let m = v.submitting();
    tidy::lemma_aside(v, m, open);
    match (m.execution(owner), m.execution(target)) {
        (Err(e), _) => {
            tidy::lemma_aside(m, m.rejected(now, e, owner), open);
        },
        (_, Err(e)) => {
            tidy::lemma_aside(m, m.rejected(now, e, target), open);
        },
        _ => {
            tidy::lemma_aside(
                m,
                m.rejected(now, crate::types::Error::ActorNotReady, target),
                open,
            );
            lemma_asking(
                m,
                now,
                owner,
                target,
                p,
                charge,
                super::requests::request_options(owner, deadline, options),
                port,
            );
        },
    }
}

proof fn lemma_asking(
    v: WorldView,
    now: Instant,
    owner: ActorRef,
    target: ActorRef,
    p: Payload,
    charge: usize,
    options: MessageOptions,
    port: Option<crate::components::PortRef>,
)
    requires
        v.neat(tidy::nothing_open()),
        v.ops.slotted(),
    ensures
        v.asking(now, owner, target, p, charge, options, port).0.neat(tidy::nothing_open()),
{
    let open = tidy::nothing_open();
    match v.ops.refuses(owner, target) {
        Some(e) => {
            tidy::lemma_aside(v, v.rejected(now, e, owner), open);
        },
        None => {
            let id = v.ops.next_id();
            let ops = v.ops.reserved(owner, target, options.deadline->0);
            lemma_reserved_balanced(v.ops, owner, target, options.deadline->0);
            lemma_ops_turned(v, ops, Seq::empty(), Set::empty());
            super::actors::lemma_with_ops(v, ops);
            let m = v.with_ops(ops);
            match m.refuses_payload(p, charge, options) {
                Some(e) => {
                    lemma_withdrawn(m, id);
                    let w = m.with_ops(m.ops.released(id));
                    tidy::lemma_aside(w, w.rejected(now, e, target), open);
                },
                None => {
                    let stored = m.stored_next(p, charge, options, None);
                    let key = (stored.id, stored.bytes);
                    lemma_one_held(key);
                    lemma_storing(m, p, charge, options, Set::empty());
                    let k = m.storing(charge, options);
                    lemma_admission(
                        k,
                        now,
                        target,
                        stored,
                        None,
                        false,
                        Some(id),
                        Set::empty(),
                        one_held(key),
                    );
                    let (n, result) = k.admission(
                        now,
                        target,
                        stored,
                        None,
                        false,
                        Some(id),
                    );
                    match result {
                        Err(e) => {
                            lemma_releasing(n, key, Set::empty());
                            let back = n.releasing(stored.id);
                            lemma_withdrawn(back, id);
                            let w = back.with_ops(back.ops.released(id));
                            tidy::lemma_aside(w, w.rejected(now, e, target), open);
                        },
                        Ok(_) => {
                            lemma_asked(n, owner, target, id, stored, port);
                        },
                    }
                },
            }
        },
    }
}

/// An entry whose port is set keeps its payload.
pub(super) proof fn lemma_redirected(v: WorldView, r: ActorRef, port: crate::components::PortRef)
    requires
        v.neat(tidy::nothing_open()),
        v.valid(r),
        v.at(r).queue.len() > 0,
    ensures
        v.redirected(r, port).neat(tidy::nothing_open()),
        v.redirected(r, port).at(r).queue.last().payload == v.at(r).queue.last().payload,
{
    let a = v.at(r);
    let n = v.redirected(r, port);
    let b = n.at(r);
    tidy::lemma_put_row(v, r, b, Set::empty(), Set::empty());
    assert forall|k: (u64, usize)| #[trigger]
        none_held().count(k) + tidy::held_in(v.at(r), k) == none_held().count(k) + tidy::held_in(
            b,
            k,
        ) by {
        assert forall|i: int| 0 <= i < b.queue.len() implies tidy::delivery_at(k)(
            #[trigger] b.queue[i],
        ) == tidy::delivery_at(k)(a.queue[i]) by {}
        tally::lemma_alike(b.queue, a.queue, tidy::delivery_at(k));
    }
    tidy::lemma_owing_put(v, r, b, none_held(), none_held());
}

proof fn lemma_asked(
    v: WorldView,
    owner: ActorRef,
    target: ActorRef,
    id: OperationId,
    stored: Arc<Stored>,
    port: Option<crate::components::PortRef>,
)
    requires
        v.neat(tidy::nothing_open()),
        v.valid(target),
        v.at(target).queue.len() > 0,
        v.budget.roomy(stored.id),
        v.budget.shares[stored.id].bytes == stored.bytes,
        v.ops.has(id),
        v.ops.entry(id) matches EntryView::Pending(p) && p.context is None,
    ensures
        v.asked(owner, target, id, stored, port).neat(tidy::nothing_open()),
{
    let open = tidy::nothing_open();
    let key = (stored.id, stored.bytes);
    lemma_one_held(key);
    let m = match port {
        Some(port) => v.redirected(target, port),
        None => v,
    };
    if port is Some {
        lemma_redirected(v, target, port->0);
    }
    let context = HeldPayload::made(
        stored,
        v.id,
        Some(Arc::new(m.at(target).queue.last().envelope)),
    );
    HeldPayload::lemma_made(stored, v.id, Some(Arc::new(m.at(target).queue.last().envelope)));
    lemma_sharing(m, key, Set::empty());
    let kept = m.sharing(stored.id);
    let ops = kept.ops.with_context(id, context);
    let i = id.slot as int;
    assert(tidy::share_ids(tidy::keys_in(None)) =~= Seq::<u64>::empty());
    assert(ops.dropped =~= kept.ops.dropped + tidy::share_ids(tidy::keys_in(None)));
    tidy::lemma_balanced_slot(kept.ops, ops, i, ops.slots[i], Some(key), None);
    tidy::lemma_owing_ops(kept, ops, tidy::bag_in(Some(key)), tidy::keys_in(None), none_held());
    super::actors::lemma_with_ops(kept, ops);
    let done = kept.with_ops(ops);
    tidy::lemma_kept_up(kept, done, Set::empty(), Set::empty());
    tidy::lemma_aside(done, done.marked(owner), open);
}

/// An answer keeps a World in line.
pub(super) proof fn lemma_answering(
    v: WorldView,
    now: Instant,
    later: Instant,
    id: OperationId,
    target: ActorRef,
    p: Payload,
    charge: usize,
    options: Option<MessageOptions>,
)
    requires
        v.neat(tidy::nothing_open()),
        v.ops.world == v.id,
    ensures
        v.answering(now, later, id, target, p, charge, options).0.neat(tidy::nothing_open()),
{
    let open = tidy::nothing_open();
    lemma_timing_out(v, now, now, id, Some(target), Set::empty(), none_held());
    let m = v.timing_out(now, now, id, Some(target));
    tidy::lemma_aside(m, m.late_result(now, id, target), open);
    assert(m.ops.world == v.ops.world) by {
        if v.op_is_due(now, id) {
            super::actors::lemma_with_ops(v, v.ops.completed(id, OutcomeView::TimedOut));
        }
    }
    if m.ops.has(id) {
        match m.ops.entry(id) {
            EntryView::Terminal { .. } => {},
            EntryView::Pending(request) => {
                lemma_settling(
                    m,
                    now,
                    later,
                    id,
                    target,
                    p,
                    charge,
                    request.owner,
                    super::requests::answer_options(request, target, options),
                );
            },
        }
    }
}

proof fn lemma_settling(
    v: WorldView,
    now: Instant,
    later: Instant,
    id: OperationId,
    target: ActorRef,
    p: Payload,
    charge: usize,
    owner: ActorRef,
    options: MessageOptions,
)
    requires
        v.neat(tidy::nothing_open()),
        v.ops.world == v.id,
    ensures
        v.settling(now, later, id, target, p, charge, owner, options).0.neat(
            tidy::nothing_open(),
        ),
{
    let open = tidy::nothing_open();
    if crate::clock::due(options.deadline, now) {
        lemma_op_ended(v, id, OutcomeView::TimedOut, Set::empty(), none_held());
        let m = v.op_completed(id, OutcomeView::TimedOut);
        tidy::lemma_aside(m, m.op_timed_out(now, id, Some(target)), open);
    } else if v.refuses_payload(p, charge, options) is Some {
        let outcome = super::requests::result_too_large();
        lemma_op_ended(v, id, outcome, Set::empty(), none_held());
        let m = v.op_completed(id, outcome);
        tidy::lemma_aside(m, m.op_counted(), open);
    } else {
        let stored = v.stored_next(p, charge, options, None);
        let key = (stored.id, stored.bytes);
        lemma_one_held(key);
        lemma_storing(v, p, charge, options, Set::empty());
        let k = v.storing(charge, options);
        if k.next_event == u64::MAX {
            lemma_releasing(k, key, Set::empty());
        } else {
            let event = k.next_event;
            let n = WorldView { next_event: (event + 1) as u64, ..k };
            tidy::lemma_aside(k, n, tidy::between(Set::empty(), one_held(key)));
            match n.envelope_for(owner, stored, None, event, later) {
                Err(_) => {
                    lemma_releasing(n, key, Set::empty());
                },
                Ok(envelope) => {
                    if crate::clock::due(options.deadline, later) {
                        lemma_releasing(n, key, Set::empty());
                        let w = n.releasing(stored.id);
                        lemma_op_ended(w, id, OutcomeView::TimedOut, Set::empty(), none_held());
                        let m = w.op_completed(id, OutcomeView::TimedOut);
                        tidy::lemma_aside(m, m.op_timed_out(later, id, Some(target)), open);
                    } else {
                        let held = HeldPayload::made(stored, v.id, Some(Arc::new(envelope)));
                        HeldPayload::lemma_made(stored, v.id, Some(Arc::new(envelope)));
                        let outcome = OutcomeView::Completed(held);
                        lemma_op_completed(n, id, outcome, Set::empty(), none_held());
                        let m = n.op_completed(id, outcome);
                        tidy::lemma_aside(m, m.op_counted(), open);
                    }
                },
            }
        }
    }
}

pub(super) proof fn lemma_cancelling_op(v: WorldView, id: OperationId)
    requires
        v.neat(tidy::nothing_open()),
    ensures
        v.cancelling_op(id).0.neat(tidy::nothing_open()),
{
    lemma_op_ended(v, id, OutcomeView::Cancelled, Set::empty(), none_held());
    let m = v.op_completed(id, OutcomeView::Cancelled);
    tidy::lemma_aside(m, m.op_cancellation_counted(), tidy::nothing_open());
}

/// An outcome that is taken goes out on loan.
pub(super) proof fn lemma_taking_op(v: WorldView, id: OperationId)
    requires
        v.neat(tidy::nothing_open()),
    ensures
        v.taking_op(id).neat(tidy::nothing_open()),
{
    if v.ops.has(id) && v.ops.entry(id) is Terminal {
        let ops = v.ops.taken(id);
        let taken = tidy::entry_key(v.ops.entry(id));
        let hand = tidy::bag_in(taken);
        super::actors::lemma_with_ops(v, ops);
        let m = v.with_ops(ops);
        let n = m.marked(v.ops.entry(id).owner());
        assert(m.owing(hand)) by {
            reveal(WorldView::owing);
            assert(m.budget == v.budget);
            assert forall|key: (u64, usize)| #[trigger] m.budget.counts(key) == m.places(key)
                + hand.count(key) by {
                assert(v.budget.counts(key) == v.places(key) + none_held().count(key));
                tally::lemma_update(v.ops.slots, tidy::slot_at(key), id.slot as int, None);
                assert(tidy::slot_at(key)(v.ops.slots[id.slot as int]) == tidy::one_if(
                    taken == Some(key),
                ));
                assert(tidy::slot_at(key)(None) == 0);
            }
        }
        tidy::lemma_kept_up(v, m, Set::empty(), Set::empty());
        tidy::lemma_aside(m, n, tidy::between(Set::empty(), hand));
        if taken is Some {
            lemma_one_held(taken->0);
            assert(hand =~= one_held(taken->0));
            lemma_lending(n, taken->0, Set::empty());
        } else {
            assert(hand =~= none_held());
        }
    }
}

/// The slot of an actor, where there is one.
pub open spec fn own_slot(v: WorldView, r: ActorRef) -> Set<int> {
    if v.valid(r) {
        Set::empty().insert(r.slot as int)
    } else {
        Set::empty()
    }
}

/// An actor changes what only its own hints depend on.
pub(super) proof fn lemma_put_own(v: WorldView, r: ActorRef, b: ActorView, open: Slack)
    requires
        v.neat(open),
        v.valid(r),
        tidy::same_row(v.at(r), b),
        b.children == v.at(r).children,
        b.queue == v.at(r).queue,
        b.staged == v.at(r).staged,
    ensures
        v.put(r, b).neat((Slack { stale: open.stale.insert(r.slot as int), ..open })),
        tidy::same_work(v.at(r), b) ==> v.put(r, b).neat(open),
        v.put(r, b).same_roster(v),
        v.put(r, b).valid(r),
{
    tidy::lemma_put_row(v, r, b, open.stale, open.loose);
    tidy::lemma_owing_put_same(v, r, b, open.hand);
    super::actors::lemma_same_roster(v, v.put(r, b), r);
}

/// The hints of an actor are brought up to date.
pub(super) proof fn lemma_fresh(v: WorldView, r: ActorRef, hand: Multiset<(u64, usize)>)
    requires
        v.neat(tidy::between(Set::empty().insert(r.slot as int), hand)),
        v.valid(r),
    ensures
        v.refreshed(r).neat(tidy::between(Set::empty(), hand)),
{
    let s = r.slot as int;
    tidy::lemma_refreshed(v, r, Set::empty().insert(s), Set::empty());
    assert(Set::<int>::empty().insert(s).remove(s) =~= Set::empty());
    tidy::lemma_owing_kept(v, v.refreshed(r), hand);
}

/// Looking at an actor that may have stopped leaves nothing of it open.
pub(super) proof fn lemma_concluded(v: WorldView, r: ActorRef)
    requires
        v.neat(tidy::between(own_slot(v, r), none_held())),
    ensures
        v.finalized(r).neat(tidy::nothing_open()),
{
    let own = own_slot(v, r);
    tidy::lemma_finalized(v, r, own, Set::empty(), none_held());
    assert(own.remove(r.slot as int) =~= Set::empty());
}

/// Looking at an actor keeps a World in line.
pub(super) proof fn lemma_looked_at(v: WorldView, r: ActorRef)
    requires
        v.neat(tidy::nothing_open()),
    ensures
        v.finalized(r).neat(tidy::nothing_open()),
{
    tidy::lemma_finalized(v, r, Set::empty(), Set::empty(), none_held());
    assert(Set::<int>::empty().remove(r.slot as int) =~= Set::empty());
}

/// The first entry of a mailbox comes into the hand.
proof fn lemma_unqueued(v: WorldView, r: ActorRef)
    requires
        v.neat(tidy::nothing_open()),
        v.valid(r),
        v.at(r).queue.len() > 0,
    ensures
        v.unqueued(r).neat(
            tidy::between(Set::empty(), one_held(tidy::key_of(*v.at(r).queue[0].payload))),
        ),
        v.unqueued(r).same_roster(v),
        v.unqueued(r).valid(r),
{
    let a = v.at(r);
    let key = (a.queue[0].payload.id, a.queue[0].payload.bytes);
    let b = ActorView { queue: a.queue.drop_first(), ..a };
    lemma_worked(v, r, b, Set::empty());
    assert forall|k: (u64, usize)| #[trigger]
        none_held().count(k) + tidy::held_in(a, k) == one_held(key).count(k) + tidy::held_in(
            b,
            k,
        ) by {
        tally::lemma_first(a.queue, tidy::delivery_at(k));
        assert(tidy::delivery_at(k)(a.queue[0]) == tidy::one_if(key == k));
    }
    tidy::lemma_owing_put(v, r, b, none_held(), one_held(key));
    let m = v.put(r, b);
    tidy::lemma_owing_kept(m, m.refreshed(r), one_held(key));
    tidy::lemma_aside(
        m.refreshed(r),
        v.unqueued(r),
        tidy::between(Set::empty(), one_held(key)),
    );
}

/// An entry whose time has passed.
proof fn lemma_expiring(
    v: WorldView,
    now: Instant,
    at: Instant,
    d: Delivery,
    stale: Set<int>,
    hand: Multiset<(u64, usize)>,
)
    requires
        v.neat(tidy::between(stale, hand)),
    ensures
        v.expiring(now, at, d).neat(tidy::between(stale, hand)),
        tidy::same_actors(v, v.expiring(now, at, d)),
        v.expiring(now, at, d).pubs == v.pubs,
{
    let told = WorldView {
        metrics: crate::types::Metrics {
            expired: crate::types::bumped(v.metrics.expired),
            cancelled: crate::types::bumped(v.metrics.cancelled),
            discarded: crate::types::bumped(v.metrics.discarded),
            ..v.metrics
        },
        history: crate::diagnostics::recorded(
            v.history,
            at,
            DiagnosticCode::DeadlineExpired,
            Some(d.envelope.destination),
            d.operation,
            None,
            Some(d.envelope),
        ),
        ..v
    };
    tidy::lemma_aside(v, told, tidy::between(stale, hand));
    if d.operation is Some {
        lemma_timing_out(
            told,
            now,
            at,
            d.operation->0,
            Some(d.envelope.destination),
            stale,
            hand,
        );
    }
}

/// One step of a claim keeps a World in line.
proof fn lemma_claim_step(v: WorldView, now: Instant, r: ActorRef)
    requires
        v.neat(tidy::nothing_open()),
        v.valid(r),
    ensures
        v.claim_step(now, r).0.neat(tidy::nothing_open()),
        v.claim_step(now, r).0.valid(r),
{
    reveal(WorldView::claim_step);
    if v.at(r).queue.len() > 0 {
        let d = v.at(r).queue[0];
        let key = (d.payload.id, d.payload.bytes);
        lemma_unqueued(v, r);
        let m = v.unqueued(r);
        let open = tidy::between(Set::empty(), one_held(key));
        if crate::clock::due(d.envelope.deadline, now) {
            lemma_expiring(m, now, now, d, Set::empty(), one_held(key));
            lemma_releasing(m.expiring(now, now, d), key, Set::empty());
        } else {
            let n = match d.operation {
                Some(id) => m.timing_out(now, now, id, Some(r)),
                None => m,
            };
            if d.operation is Some {
                lemma_timing_out(
                    m,
                    now,
                    now,
                    d.operation->0,
                    Some(r),
                    Set::empty(),
                    one_held(key),
                );
            }
            assert(n.neat(open) && n.valid(r));
            let w = n.cancellation_counted();
            tidy::lemma_aside(n, w, open);
            lemma_releasing(w, key, Set::empty());
            let b = ActorView { in_flight: true, ..n.at(r) };
            lemma_worked(n, r, b, Set::empty());
            tidy::lemma_owing_put_same(n, r, b, one_held(key));
            let f = n.put(r, b).refreshed(r);
            tidy::lemma_owing_kept(n.put(r, b), f, one_held(key));
            tidy::lemma_aside(f, n.started(r), open);
            lemma_lending(n.started(r), key, Set::empty());
        }
    }
}

pub(super) proof fn lemma_claim_steps(v: WorldView, r: ActorRef, times: Seq<Instant>)
    requires
        v.neat(tidy::nothing_open()),
        v.valid(r),
    ensures
        v.claim_steps(r, times).0.neat(tidy::nothing_open()),
        v.claim_steps(r, times).0.valid(r),
    decreases times.len(),
{
    if times.len() > 0 {
        lemma_claim_steps(v, r, times.drop_last());
        let (m, end) = v.claim_steps(r, times.drop_last());
        if end is None {
            lemma_claim_step(m, times.last(), r);
        }
    }
}

/// A delivery comes back and its holder is free.
proof fn lemma_landed(v: WorldView, r: ActorRef, share: u64)
    requires
        v.neat(tidy::nothing_open()),
    ensures
        v.returning(share).landed(r).neat(tidy::between(own_slot(v, r), none_held())),
        own_slot(v.returning(share).landed(r), r) == own_slot(v, r),
{
    let m = v.returning(share);
    lemma_out(v, m, share, tidy::nothing_open());
    if v.valid(r) {
        lemma_put_own(
            m,
            r,
            ActorView { in_flight: false, ..m.at(r) },
            tidy::nothing_open(),
        );
    }
}

pub(super) proof fn lemma_failing_op(v: WorldView, id: OperationId, stale: Set<int>)
    requires
        v.neat(tidy::between(stale, none_held())),
    ensures
        v.failing_op(id).neat(tidy::between(stale, none_held())),
        tidy::same_actors(v, v.failing_op(id)),
        v.failing_op(id).pubs == v.pubs,
        v.failing_op(id).subs == v.subs,
        v.failing_op(id).services == v.services,
        v.failing_op(id).ops.slots.len() == v.ops.slots.len(),
        v.failing_op(id).ops.generations == v.ops.generations,
{
    let outcome = super::requests::handler_failed();
    lemma_op_ended(v, id, outcome, stale, none_held());
    let m = v.op_completed(id, outcome);
    tidy::lemma_aside(m, m.op_counted(), tidy::between(stale, none_held()));
}

pub(super) proof fn lemma_finishing(
    v: WorldView,
    now: Instant,
    r: ActorRef,
    d: Delivery,
    success: bool,
)
    requires
        v.neat(tidy::nothing_open()),
    ensures
        v.finishing(now, r, d, success).neat(tidy::nothing_open()),
{
    let own = own_slot(v, r);
    let open = tidy::between(own, none_held());
    lemma_landed(v, r, d.payload.id);
    let m = v.returning(d.payload.id).landed(r);
    if success {
        let n = WorldView {
            metrics: crate::types::Metrics {
                completed: crate::types::bumped(m.metrics.completed),
                ..m.metrics
            },
            ..m
        };
        tidy::lemma_aside(m, n, open);
        lemma_concluded(n, r);
    } else {
        let n = WorldView {
            metrics: crate::types::Metrics {
                failed: crate::types::bumped(m.metrics.failed),
                ..m.metrics
            },
            ..m
        };
        tidy::lemma_aside(m, n, open);
        let told = if !n.valid(r) || n.at(r).reported_failure != Some(d.event_id) {
            n.noted(now, DiagnosticCode::HandlerFailed, Some(r), d.operation)
        } else {
            n
        };
        tidy::lemma_aside(n, told, open);
        match d.operation {
            Some(id) => {
                lemma_failing_op(told, id, own);
                lemma_concluded(told.failing_op(id), r);
            },
            None => {
                lemma_concluded(told, r);
            },
        }
    }
}

pub(super) proof fn lemma_abandoning(v: WorldView, now: Instant, r: ActorRef, d: Delivery)
    requires
        v.neat(tidy::nothing_open()),
    ensures
        v.abandoning(now, r, d).neat(tidy::nothing_open()),
{
    let own = own_slot(v, r);
    let open = tidy::between(own, none_held());
    lemma_landed(v, r, d.payload.id);
    let m = v.returning(d.payload.id).landed(r);
    let n = m.cancellation_counted();
    tidy::lemma_aside(m, n, open);
    match d.operation {
        Some(id) => {
            lemma_op_ended(n, id, OutcomeView::Cancelled, own, none_held());
            let w = n.op_completed(id, OutcomeView::Cancelled);
            let t = w.op_cancellation_counted().noted(
                now,
                DiagnosticCode::Cancelled,
                Some(r),
                Some(id),
            );
            tidy::lemma_aside(w, t, open);
            lemma_concluded(w, r);
            lemma_concluded(t, r);
        },
        None => {
            lemma_concluded(n, r);
        },
    }
}

/// Entries that are late are given back, and their operations end.
proof fn lemma_deliveries_expired(
    v: WorldView,
    now: Instant,
    at: Instant,
    dead: Seq<Delivery>,
    stale: Set<int>,
    hand: Multiset<(u64, usize)>,
)
    requires
        v.neat(tidy::between(stale, hand.add(tidy::drops_bag(tidy::delivery_keys(dead))))),
    ensures
        v.deliveries_expired(now, at, dead).neat(tidy::between(stale, hand)),
        tidy::same_actors(v, v.deliveries_expired(now, at, dead)),
        v.deliveries_expired(now, at, dead).pubs == v.pubs,
    decreases dead.len(),
{
    let keys = tidy::delivery_keys(dead);
    if dead.len() == 0 {
        assert(hand.add(tidy::drops_bag(keys)) =~= hand);
    } else {
        let rest = dead.drop_last();
        let d = dead.last();
        let key = (d.payload.id, d.payload.bytes);
        let wide = hand.insert(key);
        assert(keys.drop_last() =~= tidy::delivery_keys(rest));
        assert(keys.last() == key);
        assert(hand.add(tidy::drops_bag(keys)) =~= wide.add(
            tidy::drops_bag(tidy::delivery_keys(rest)),
        ));
        lemma_deliveries_expired(v, now, at, rest, stale, wide);
        let m = v.deliveries_expired(now, at, rest);
        lemma_expiring(m, now, at, d, stale, wide);
        let n = m.expiring(now, at, d);
        tidy::lemma_owing_released(n, wide, key);
        assert(wide.remove(key) =~= hand);
        tidy::lemma_kept_up(n, n.releasing(key.0), stale, Set::empty());
    }
}

/// What stays of a mailbox and what goes make up what was there.
proof fn lemma_split_queue(queue: Seq<Delivery>, now: Instant, f: spec_fn(Delivery) -> nat)
    ensures
        tally::tally(queue, f) == tally::tally(super::expiring::alive_queue(queue, now), f)
            + tally::tally(super::expiring::dead_queue(queue, now), f),
    decreases queue.len(),
{
    if queue.len() > 0 {
        let rest = queue.drop_last();
        lemma_split_queue(rest, now, f);
        tally::lemma_push(super::expiring::alive_queue(rest, now), f, queue.last());
        tally::lemma_push(super::expiring::dead_queue(rest, now), f, queue.last());
    }
}

proof fn lemma_split_staged(staged: Seq<Staged>, now: Instant, f: spec_fn(Staged) -> nat)
    ensures
        tally::tally(staged, f) == tally::tally(super::expiring::alive_staged(staged, now), f)
            + tally::tally(super::expiring::dead_staged(staged, now), f),
    decreases staged.len(),
{
    if staged.len() > 0 {
        let rest = staged.drop_last();
        lemma_split_staged(rest, now, f);
        tally::lemma_push(super::expiring::alive_staged(rest, now), f, staged.last());
        tally::lemma_push(super::expiring::dead_staged(rest, now), f, staged.last());
    }
}

/// The late entries of an actor come into the hand.
proof fn lemma_alive_left(v: WorldView, now: Instant, r: ActorRef)
    requires
        v.neat(tidy::nothing_open()),
        v.valid(r),
    ensures
        ({
            let a = v.at(r);
            let dead = super::expiring::dead_queue(a.queue, now);
            let gone = super::expiring::dead_staged(a.staged, now);
            let b = ActorView {
                queue: super::expiring::alive_queue(a.queue, now),
                staged: super::expiring::alive_staged(a.staged, now),
                ..a
            };
            &&& v.put(r, b).neat(
                tidy::between(
                    Set::empty().insert(r.slot as int),
                    tidy::drops_bag(tidy::staged_keys(gone)).add(
                        tidy::drops_bag(tidy::delivery_keys(dead)),
                    ),
                ),
            )
            &&& v.put(r, b).valid(r)
        }),
{
    let a = v.at(r);
    let dead = super::expiring::dead_queue(a.queue, now);
    let gone = super::expiring::dead_staged(a.staged, now);
    let b = ActorView {
        queue: super::expiring::alive_queue(a.queue, now),
        staged: super::expiring::alive_staged(a.staged, now),
        ..a
    };
    let all = tidy::drops_bag(tidy::staged_keys(gone)).add(
        tidy::drops_bag(tidy::delivery_keys(dead)),
    );
    tidy::lemma_bags(dead, gone);
    tidy::lemma_drops_bag(tidy::delivery_keys(dead));
    tidy::lemma_drops_bag(tidy::staged_keys(gone));
    assert forall|k: (u64, usize)| #[trigger]
        none_held().count(k) + tidy::held_in(a, k) == all.count(k) + tidy::held_in(b, k) by {
        lemma_split_queue(a.queue, now, tidy::delivery_at(k));
        lemma_split_staged(a.staged, now, tidy::staged_at(k));
        assert(tidy::drops_bag(tidy::delivery_keys(dead)).count(k) == tally::tally(
            tidy::delivery_keys(dead),
            tidy::drop_at(k),
        ));
        assert(tidy::drops_bag(tidy::staged_keys(gone)).count(k) == tally::tally(
            tidy::staged_keys(gone),
            tidy::drop_at(k),
        ));
    }
    tidy::lemma_owing_put(v, r, b, none_held(), all);
    tidy::lemma_put_row(v, r, b, Set::empty(), Set::empty());
    super::actors::lemma_same_roster(v, v.put(r, b), r);
}

/// Payloads in hand are given back one after the other.
proof fn lemma_given_back(v: WorldView, keys: Seq<(u64, usize)>, stale: Set<int>)
    requires
        v.neat(tidy::between(stale, tidy::drops_bag(keys))),
    ensures
        v.releasing_all(tidy::share_ids(keys)).neat(tidy::between(stale, none_held())),
{
    tidy::lemma_drops_bag(keys);
    assert forall|key: (u64, usize)| #[trigger]
        tidy::drops_bag(keys).count(key) == none_held().count(key) + tally::tally(
            keys,
            tidy::drop_at(key),
        ) by {}
    tidy::lemma_owing_released_all(v, keys, tidy::drops_bag(keys), none_held());
    super::actors::lemma_releasing_all(v, tidy::share_ids(keys));
    tidy::lemma_kept_up(v, v.releasing_all(tidy::share_ids(keys)), stale, Set::empty());
}

/// Publications that end keep a World in line.
pub(super) proof fn lemma_cancelled(
    v: WorldView,
    ids: Seq<u64>,
    outcome: crate::publications::PublicationOutcome,
    open: Slack,
)
    requires
        v.neat(open),
    ensures
        v.publications_cancelled(ids, outcome).neat(open),
{
    tidy::lemma_cancelled(v, ids, outcome, open.hand);
    tidy::lemma_kept_up(v, v.publications_cancelled(ids, outcome), open.stale, open.loose);
}

/// Dropping what is late of an actor keeps a World in line.
proof fn lemma_purged(v: WorldView, now: Instant, at: Instant, r: ActorRef)
    requires
        v.neat(tidy::nothing_open()),
    ensures
        v.purged(now, at, r).neat(tidy::nothing_open()),
{
    if v.valid(r) {
        let s = Set::<int>::empty().insert(r.slot as int);
        let a = v.at(r);
        let dead = super::expiring::dead_queue(a.queue, now);
        let gone = super::expiring::dead_staged(a.staged, now);
        let b = ActorView {
            queue: super::expiring::alive_queue(a.queue, now),
            staged: super::expiring::alive_staged(a.staged, now),
            ..a
        };
        lemma_alive_left(v, now, r);
        let left = v.put(r, b);
        let aside = tidy::drops_bag(tidy::staged_keys(gone));
        lemma_deliveries_expired(left, now, at, dead, s, aside);
        let w = left.deliveries_expired(now, at, dead);
        lemma_given_back(w, tidy::staged_keys(gone), s);
        tidy::lemma_bags(dead, gone);
        let shares = super::expiring::staged_shares(gone);
        let x = w.releasing_all(shares);
        super::actors::lemma_releasing_all(w, shares);
        let ids = super::expiring::staged_publications(gone);
        lemma_cancelled(
            x,
            ids,
            crate::publications::PublicationOutcome::Expired,
            tidy::between(s, none_held()),
        );
        let y = x.publications_cancelled(ids, crate::publications::PublicationOutcome::Expired);
        tidy::lemma_cancelled(
            x,
            ids,
            crate::publications::PublicationOutcome::Expired,
            none_held(),
        );
        let z = y.marked(r);
        tidy::lemma_aside(y, z, tidy::between(s, none_held()));
        assert(z.valid(r));
        lemma_fresh(z, r, none_held());
        let f = z.refreshed(r);
        let g = WorldView {
            metrics: crate::types::Metrics {
                expired: crate::types::raised(f.metrics.expired, gone.len()),
                cancelled: crate::types::raised(f.metrics.cancelled, gone.len()),
                discarded: crate::types::raised(f.metrics.discarded, gone.len()),
                ..f.metrics
            },
            ..f
        };
        super::endings::lemma_times_noted(
            g,
            at,
            DiagnosticCode::DeadlineExpired,
            Some(r),
            gone.len(),
        );
        tidy::lemma_aside(f, v.purged(now, at, r), tidy::nothing_open());
    }
}

proof fn lemma_purged_all(v: WorldView, now: Instant, at: Instant, owners: Seq<ActorRef>)
    requires
        v.neat(tidy::nothing_open()),
    ensures
        v.purged_all(now, at, owners).neat(tidy::nothing_open()),
    decreases owners.len(),
{
    if owners.len() > 0 {
        lemma_purged_all(v, now, at, owners.drop_last());
        lemma_purged(v.purged_all(now, at, owners.drop_last()), now, at, owners.last());
    }
}

/// Publications that may be routed keep their payloads.
proof fn lemma_enqueued_all(v: WorldView, ids: Seq<u64>)
    requires
        v.neat(tidy::nothing_open()),
    ensures
        v.enqueued_all(ids).neat(tidy::nothing_open()),
    decreases ids.len(),
{
    if ids.len() > 0 {
        lemma_enqueued_all(v, ids.drop_last());
        let m = v.enqueued_all(ids.drop_last());
        let id = ids.last();
        if m.pubs.entries.dom().contains(id) {
            let p = PublicationView { staged: false, ..m.pubs.entries[id] };
            let n = m.enqueued(id);
            tidy::lemma_owing_replaced(m, n, id, p, none_held());
            tidy::lemma_kept_up(m, n, Set::empty(), Set::empty());
        }
    }
}

proof fn lemma_unstaged(v: WorldView, r: ActorRef)
    requires
        v.neat(tidy::nothing_open()),
    ensures
        v.unstaged(r).neat(tidy::nothing_open()),
{
    if v.valid(r) {
        let a = v.at(r);
        let b = ActorView { staged: Seq::empty(), ..a };
        let none = Seq::<Delivery>::empty();
        let keys = tidy::staged_keys(a.staged);
        tidy::lemma_bags(none, a.staged);
        tidy::lemma_drops_bag(keys);
        assert forall|k: (u64, usize)| #[trigger]
            none_held().count(k) + tidy::held_in(a, k) == tidy::drops_bag(keys).count(k)
                + tidy::held_in(b, k) by {
            assert(tidy::drops_bag(keys).count(k) == tally::tally(keys, tidy::drop_at(k)));
        }
        tidy::lemma_owing_put(v, r, b, none_held(), tidy::drops_bag(keys));
        tidy::lemma_put_row(v, r, b, Set::empty(), Set::empty());
        let m = v.put(r, b);
        lemma_given_back(m, keys, Set::empty());
        let w = m.releasing_all(super::expiring::staged_shares(a.staged));
        let ids = super::expiring::staged_publications(a.staged);
        lemma_enqueued_all(w, ids);
        tidy::lemma_aside(w.enqueued_all(ids), v.unstaged(r), tidy::nothing_open());
    }
}

proof fn lemma_unstaged_all(v: WorldView, refs: Seq<ActorRef>)
    requires
        v.neat(tidy::nothing_open()),
    ensures
        v.unstaged_all(refs).neat(tidy::nothing_open()),
    decreases refs.len(),
{
    if refs.len() > 0 {
        lemma_unstaged_all(v, refs.drop_last());
        lemma_unstaged(v.unstaged_all(refs.drop_last()), refs.last());
    }
}

pub(super) proof fn lemma_flushed(v: WorldView, now: Instant)
    requires
        v.neat(tidy::nothing_open()),
    ensures
        v.flushed(now).neat(tidy::nothing_open()),
{
    lemma_purged_all(v, now, now, crate::ordered::sorted(v.overdue(now)));
    let m = v.events_expired(now, now);
    lemma_unstaged_all(m, m.active_only(m.staging()));
}

proof fn lemma_timeouts_noted(v: WorldView, at: Instant, ids: Seq<OperationId>)
    ensures
        v.timeouts_noted(at, ids) == (WorldView { history: v.timeouts_noted(at, ids).history, ..v }),
    decreases ids.len(),
{
    if ids.len() > 0 {
        lemma_timeouts_noted(v, at, ids.drop_last());
    }
}

/// Dropping what is late keeps a World in line.
pub(super) proof fn lemma_lapsed(v: WorldView, now: Instant, at: Instant)
    requires
        v.neat(tidy::nothing_open()),
    ensures
        v.lapsed(now, at).neat(tidy::nothing_open()),
{
    let open = tidy::nothing_open();
    lemma_purged_all(v, now, at, crate::ordered::sorted(v.overdue(now)));
    let a = v.events_expired(now, at);
    lemma_cancelled(
        a,
        a.pubs.due_order(now),
        crate::publications::PublicationOutcome::Expired,
        open,
    );
    let b = a.publications_expired(now);
    let ids = crate::ordered::sorted(b.ops.due(now));
    let ops = b.ops.expired(now);
    let drops = tidy::lemma_completed_all_balanced(b.ops, ids, OutcomeView::TimedOut);
    lemma_ops_turned(b, ops, drops, Set::empty());
    let c = b.with_ops(ops);
    let ends = b.ops.ends_of(ids);
    super::endings::lemma_ends_marked(c, ends);
    let d = c.marked_ends(ends);
    let e = WorldView {
        metrics: crate::types::Metrics {
            operation_timed_out: crate::types::raised(d.metrics.operation_timed_out, ids.len()),
            ..d.metrics
        },
        ..d
    };
    lemma_timeouts_noted(e, at, ids);
    tidy::lemma_aside(c, v.lapsed(now, at), open);
}

/// Sending to a port keeps a World in line.
pub(super) proof fn lemma_sending_port(
    v: WorldView,
    now: Instant,
    port: crate::components::PortRef,
    p: Payload,
    charge: usize,
    options: MessageOptions,
)
    requires
        v.neat(tidy::nothing_open()),
    ensures
        v.sending_port(now, port, p, charge, options).0.neat(tidy::nothing_open()),
{
    let open = tidy::nothing_open();
    let m = v.submitting();
    tidy::lemma_aside(v, m, open);
    match m.refuses_port_message(port, p, charge, options) {
        Some(e) => {
            tidy::lemma_aside(m, m.rejected(now, e, port.owner), open);
        },
        None => {
            let r = port.owner;
            let stored = m.stored_next(p, charge, options, None);
            let key = (stored.id, stored.bytes);
            lemma_one_held(key);
            lemma_storing(m, p, charge, options, Set::empty());
            let k = m.storing(charge, options);
            lemma_admission(k, now, r, stored, None, false, None, Set::empty(), one_held(key));
            let (n, result) = k.admission(now, r, stored, None, false, None);
            match result {
                Ok(_) => {
                    lemma_redirected(n, r, port);
                },
                Err(e) => {
                    lemma_releasing(n, key, Set::empty());
                    let w = n.releasing(stored.id);
                    tidy::lemma_aside(w, w.rejected(now, e, r), open);
                },
            }
        },
    }
}

/// An empty World is in line.
pub(super) proof fn lemma_blank(v: WorldView)
    requires
        v.actors.len() == 0,
        v.python_ready.start == Map::<u64, ActorRef>::empty(),
        v.python_ready.failure == Map::<u64, ActorRef>::empty(),
        v.python_ready.delivery == Map::<u64, ActorRef>::empty(),
        v.python_ready.cleanup == Map::<u64, ActorRef>::empty(),
        v.drain_roots == Map::<u32, ActorRef>::empty(),
        v.budget.tidy(),
        v.budget.shares == Map::<u64, crate::buffers::Share>::empty(),
        v.pubs.entries == Map::<u64, PublicationView>::empty(),
        v.ops.slots.len() == 0,
        v.ops.dropped == Seq::<u64>::empty(),
    ensures
        v.neat(tidy::nothing_open()),
{
    reveal(WorldView::rows);
    reveal(WorldView::family);
    reveal(WorldView::hinted);
    reveal(WorldView::expecting);
    reveal(WorldView::drains);
    assert(v.owing(none_held())) by {
        reveal(WorldView::owing);
        assert forall|key: (u64, usize)| #[trigger] v.budget.counts(key) == v.places(key)
            + none_held().count(key) by {
            crate::sums::lemma_sum_empty::<PublicationView>(tidy::publication_at(key));
        }
    }
}

} // verus!
