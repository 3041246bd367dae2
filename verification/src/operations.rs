//! Requests between actors: each has one terminal outcome, whatever races for it.
use vstd::prelude::*;
use crate::clock::Instant;
use crate::held::HeldPayload;
use crate::ordered;
use crate::ordered::{Key, MultiIndex, OrdSet};
use crate::text;
use crate::text::bounded;
use crate::types::{ActorRef, Error};

verus! {

/// One generation of one operation slot of one World.
#[derive(Clone, Copy, Debug, PartialEq, Eq, Hash, Structural)]
pub struct OperationId {
    pub world: u64,
    pub slot: u32,
    pub generation: u64,
}

/// Ordered by slot, then generation, then World.
impl Key for OperationId {
    open spec fn lt(a: Self, b: Self) -> bool {
        a.slot < b.slot || (a.slot == b.slot && (a.generation < b.generation || (a.generation
            == b.generation && a.world < b.world)))
    }

    proof fn lt_irreflexive(a: Self) {
    }

    proof fn lt_transitive(a: Self, b: Self, c: Self) {
    }

    proof fn lt_total(a: Self, b: Self) {
    }

    fn less(&self, other: &Self) -> (r: bool) {
        self.slot < other.slot || (self.slot == other.slot && (self.generation < other.generation
            || (self.generation == other.generation && self.world < other.world)))
    }
}

/// The two ends of an operation.
#[derive(Clone, Copy, Debug, PartialEq, Eq, Structural)]
pub struct OperationOwner {
    pub owner: ActorRef,
    pub target: ActorRef,
}

pub struct PendingOperation {
    pub owner: ActorRef,
    pub target: ActorRef,
    pub deadline: Instant,
    pub context: Option<HeldPayload>,
}

#[derive(Clone, Copy, Debug, PartialEq, Eq, Structural)]
pub enum OperationFailure {
    HandlerFailed,
    ResultTooLarge,
}

pub enum TerminalOutcome {
    Completed(HeldPayload),
    Failed { code: OperationFailure, message: String },
    TimedOut,
    Cancelled,
    OwnerStopped,
    TargetStopped,
}

/// An outcome by what it says.
pub enum OutcomeView {
    Completed(HeldPayload),
    Failed { code: OperationFailure, message: Seq<char> },
    TimedOut,
    Cancelled,
    OwnerStopped,
    TargetStopped,
}

impl View for TerminalOutcome {
    type V = OutcomeView;

    open spec fn view(&self) -> OutcomeView {
        match *self {
            TerminalOutcome::Completed(held) => OutcomeView::Completed(held),
            TerminalOutcome::Failed { code, message } => OutcomeView::Failed {
                code,
                message: message@,
            },
            TerminalOutcome::TimedOut => OutcomeView::TimedOut,
            TerminalOutcome::Cancelled => OutcomeView::Cancelled,
            TerminalOutcome::OwnerStopped => OutcomeView::OwnerStopped,
            TerminalOutcome::TargetStopped => OutcomeView::TargetStopped,
        }
    }
}

/// An outcome that carries nothing.
#[derive(Clone, Copy)]
enum PlainOutcome {
    TimedOut,
    OwnerStopped,
    TargetStopped,
}

impl View for PlainOutcome {
    type V = OutcomeView;

    closed spec fn view(&self) -> OutcomeView {
        match *self {
            PlainOutcome::TimedOut => OutcomeView::TimedOut,
            PlainOutcome::OwnerStopped => OutcomeView::OwnerStopped,
            PlainOutcome::TargetStopped => OutcomeView::TargetStopped,
        }
    }
}

impl PlainOutcome {
    fn outcome(self) -> (r: TerminalOutcome)
        ensures
            r@ == self@,
    {
        match self {
            PlainOutcome::TimedOut => TerminalOutcome::TimedOut,
            PlainOutcome::OwnerStopped => TerminalOutcome::OwnerStopped,
            PlainOutcome::TargetStopped => TerminalOutcome::TargetStopped,
        }
    }
}

/// The most bytes that the message of a failed operation keeps.
pub const MESSAGE_MAX: usize = 1024;

/// An outcome as the table keeps it.
pub open spec fn settled(outcome: OutcomeView) -> OutcomeView {
    match outcome {
        OutcomeView::Failed { code, message } => OutcomeView::Failed {
            code,
            message: text::bounded_text(message, MESSAGE_MAX as nat),
        },
        other => other,
    }
}

/// The payload share that a hold counts for.
pub open spec fn share_in(held: Option<HeldPayload>) -> Option<u64> {
    match held {
        Some(held) => Some(held.share()),
        None => None,
    }
}

/// The payload share that an outcome holds.
pub open spec fn share_of(outcome: OutcomeView) -> Option<u64> {
    match outcome {
        OutcomeView::Completed(held) => Some(held.share()),
        _ => None,
    }
}

/// What a caller sees of an operation.
pub enum OperationStatus<'a> {
    Pending(&'a PendingOperation),
    Terminal(&'a TerminalOutcome),
}

enum Entry {
    Pending(PendingOperation),
    Terminal { owner: ActorRef, outcome: TerminalOutcome },
}

pub enum EntryView {
    Pending(PendingOperation),
    Terminal { owner: ActorRef, outcome: OutcomeView },
}

impl EntryView {
    pub open spec fn owner(self) -> ActorRef {
        match self {
            EntryView::Pending(p) => p.owner,
            EntryView::Terminal { owner, .. } => owner,
        }
    }

    pub open spec fn targets(self, actor: ActorRef) -> bool {
        self matches EntryView::Pending(p) && p.target == actor
    }

    pub open spec fn is_due(self, now: Instant) -> bool {
        self matches EntryView::Pending(p) && p.deadline.nanos <= now.nanos
    }

    pub open spec fn ends(self) -> OperationOwner {
        match self {
            EntryView::Pending(p) => OperationOwner { owner: p.owner, target: p.target },
            EntryView::Terminal { owner, .. } => OperationOwner { owner, target: owner },
        }
    }
}

spec fn entry_view(entry: Option<Entry>) -> Option<EntryView> {
    match entry {
        Some(Entry::Pending(p)) => Some(EntryView::Pending(p)),
        Some(Entry::Terminal { owner, outcome }) => Some(
            EntryView::Terminal { owner, outcome: outcome@ },
        ),
        None => None,
    }
}

/// The contents of a table. `dropped` lists the payload shares that the table
/// let go of and that the World has yet to give back.
#[verifier::ext_equal]
pub struct OpsView {
    pub world: u64,
    pub max: usize,
    pub slots: Seq<Option<EntryView>>,
    pub generations: Seq<u64>,
    pub free: Seq<u32>,
    pub dropped: Seq<u64>,
}

impl OpsView {
    pub open spec fn has(self, id: OperationId) -> bool {
        &&& id.world == self.world
        &&& (id.slot as int) < self.slots.len()
        &&& self.generations[id.slot as int] == id.generation
        &&& self.slots[id.slot as int] is Some
    }

    pub open spec fn entry(self, id: OperationId) -> EntryView {
        self.slots[id.slot as int]->0
    }

    pub open spec fn missing(self, id: OperationId) -> Error {
        if id.world != self.world {
            Error::CrossWorld
        } else {
            Error::StaleReference
        }
    }

    pub open spec fn ids_with(self, p: spec_fn(EntryView) -> bool) -> Set<OperationId> {
        Set::new(|id: OperationId| self.has(id) && p(self.entry(id)))
    }

    pub open spec fn live_ids(self) -> Set<OperationId> {
        self.ids_with(|e: EntryView| true)
    }

    pub open spec fn pending_ids(self) -> Set<OperationId> {
        self.ids_with(|e: EntryView| e is Pending)
    }

    /// The operations that an actor owns, pending or not.
    pub open spec fn owned(self, owner: ActorRef) -> Set<OperationId> {
        self.ids_with(|e: EntryView| e.owner() == owner)
    }

    pub open spec fn pending_by(self, owner: ActorRef) -> Set<OperationId> {
        self.ids_with(|e: EntryView| e is Pending && e.owner() == owner)
    }

    /// The pending operations that an actor is to answer.
    pub open spec fn targeted(self, target: ActorRef) -> Set<OperationId> {
        self.ids_with(|e: EntryView| e.targets(target))
    }

    /// The pending operations that an actor owns or is to answer.
    pub open spec fn pending_touching(self, actor: ActorRef) -> Set<OperationId> {
        self.ids_with(|e: EntryView| e is Pending && (e.owner() == actor || e.targets(actor)))
    }

    pub open spec fn due(self, now: Instant) -> Set<OperationId> {
        self.ids_with(|e: EntryView| e.is_due(now))
    }

    pub open spec fn ends_of(self, ids: Seq<OperationId>) -> Seq<OperationOwner> {
        ids.map_values(|id: OperationId| self.entry(id).ends())
    }

    pub open spec fn dropping(self, share: Option<u64>) -> OpsView {
        match share {
            Some(id) => OpsView { dropped: self.dropped.push(id), ..self },
            None => self,
        }
    }

    /// Why a reservation is refused.
    pub open spec fn refuses(self, owner: ActorRef, target: ActorRef) -> Option<Error> {
        if owner.world != self.world || target.world != self.world {
            Some(Error::CrossWorld)
        } else if self.live_ids().len() >= self.max {
            Some(Error::LimitExceeded)
        } else if self.free.len() == 0 && self.slots.len() >= self.max {
            Some(Error::LimitExceeded)
        } else {
            None
        }
    }

    /// The identity that the next reservation gets.
    pub open spec fn next_id(self) -> OperationId {
        if self.free.len() > 0 {
            OperationId {
                world: self.world,
                slot: self.free.last(),
                generation: self.generations[self.free.last() as int],
            }
        } else {
            OperationId { world: self.world, slot: self.slots.len() as u32, generation: 1 }
        }
    }

    pub open spec fn reserved(self, owner: ActorRef, target: ActorRef, deadline: Instant) -> OpsView {
        let entry = Some(
            EntryView::Pending(PendingOperation { owner, target, deadline, context: None }),
        );
        if self.free.len() > 0 {
            OpsView {
                slots: self.slots.update(self.free.last() as int, entry),
                free: self.free.drop_last(),
                ..self
            }
        } else {
            OpsView {
                slots: self.slots.push(entry),
                generations: self.generations.push(1),
                ..self
            }
        }
    }

    /// The answer to a completion: an error, or whether it won.
    pub open spec fn completing(self, id: OperationId, outcome: OutcomeView) -> Result<bool, Error> {
        if outcome matches OutcomeView::Completed(held) && held.of_world() != self.world {
            Err(Error::CrossWorld)
        } else if !self.has(id) {
            Err(self.missing(id))
        } else {
            Ok(self.entry(id) is Pending)
        }
    }

    /// The first completion settles the outcome; a later one changes nothing.
    pub open spec fn completed(self, id: OperationId, outcome: OutcomeView) -> OpsView {
        if outcome matches OutcomeView::Completed(held) && held.of_world() != self.world {
            self
        } else if self.has(id) && self.entry(id) is Pending {
            let p = self.entry(id)->Pending_0;
            OpsView {
                slots: self.slots.update(
                    id.slot as int,
                    Some(EntryView::Terminal { owner: p.owner, outcome: settled(outcome) }),
                ),
                ..self
            }.dropping(share_in(p.context))
        } else {
            self.dropping(share_of(outcome))
        }
    }

    pub open spec fn completed_all(self, ids: Seq<OperationId>, outcome: OutcomeView) -> OpsView
        decreases ids.len(),
    {
        if ids.len() == 0 {
            self
        } else {
            self.completed_all(ids.drop_last(), outcome).completed(ids.last(), outcome)
        }
    }

    /// A vacated slot, whose generation never comes back.
    pub open spec fn vacated(self, id: OperationId) -> OpsView {
        let i = id.slot as int;
        if self.generations[i] < u64::MAX {
            OpsView {
                slots: self.slots.update(i, None),
                generations: self.generations.update(i, (self.generations[i] + 1) as u64),
                free: self.free.push(id.slot),
                ..self
            }
        } else {
            OpsView { slots: self.slots.update(i, None), ..self }
        }
    }

    /// After a terminal outcome was handed out.
    pub open spec fn taken(self, id: OperationId) -> OpsView {
        if self.has(id) && self.entry(id) is Terminal {
            self.vacated(id)
        } else {
            self
        }
    }

    /// After an operation that was never submitted is withdrawn.
    pub open spec fn released(self, id: OperationId) -> OpsView {
        if self.has(id) && self.entry(id) is Pending {
            self.vacated(id).dropping(share_in(self.entry(id)->Pending_0.context))
        } else {
            self
        }
    }

    pub open spec fn with_context(self, id: OperationId, held: HeldPayload) -> OpsView {
        OpsView {
            slots: self.slots.update(
                id.slot as int,
                Some(
                    EntryView::Pending(
                        PendingOperation {
                            context: Some(held),
                            ..self.entry(id)->Pending_0
                        },
                    ),
                ),
            ),
            ..self
        }
    }

    /// Why a context is refused.
    pub open spec fn refuses_context(self, id: OperationId, held: HeldPayload) -> Option<Error> {
        if held.of_world() != self.world {
            Some(Error::CrossWorld)
        } else if !self.has(id) {
            Some(self.missing(id))
        } else if self.entry(id) is Pending && self.entry(id)->Pending_0.context is None {
            None
        } else {
            Some(Error::InvalidConfig)
        }
    }

    /// How many of the operations a run of completions settles.
    pub open spec fn wins(self, ids: Seq<OperationId>, outcome: OutcomeView) -> nat
        decreases ids.len(),
    {
        if ids.len() == 0 {
            0
        } else {
            let rest = self.completed_all(ids.drop_last(), outcome);
            self.wins(ids.drop_last(), outcome) + (if rest.completing(ids.last(), outcome) == Ok::<
                bool,
                Error,
            >(true) {
                1nat
            } else {
                0nat
            })
        }
    }

    pub open spec fn owner_cancelled(self, owner: ActorRef) -> OpsView {
        self.completed_all(ordered::sorted(self.owned(owner)), OutcomeView::OwnerStopped)
    }

    pub open spec fn target_stopped(self, target: ActorRef) -> OpsView {
        self.completed_all(ordered::sorted(self.targeted(target)), OutcomeView::TargetStopped)
    }

    pub open spec fn owner_retired(self, owner: ActorRef) -> OpsView {
        self.retired_all(ordered::sorted(self.owned(owner)))
    }

    pub open spec fn expired(self, now: Instant) -> OpsView {
        self.completed_all(ordered::sorted(self.due(now)), OutcomeView::TimedOut)
    }

    pub open spec fn expiring_one(self, id: OperationId, now: Instant) -> Result<bool, Error> {
        if !self.has(id) {
            Err(self.missing(id))
        } else {
            Ok(self.entry(id).is_due(now))
        }
    }

    pub open spec fn expired_one(self, id: OperationId, now: Instant) -> OpsView {
        if self.has(id) && self.entry(id).is_due(now) {
            self.completed(id, OutcomeView::TimedOut)
        } else {
            self
        }
    }

    pub open spec fn settled_by(self, owner: ActorRef) -> Set<OperationId> {
        self.ids_with(|e: EntryView| e is Terminal && e.owner() == owner)
    }

    /// After an owner's operation ended with it and its record is gone.
    pub open spec fn retired(self, id: OperationId) -> OpsView {
        let done = self.completed(id, OutcomeView::OwnerStopped);
        if done.has(id) && done.entry(id) is Terminal {
            done.vacated(id).dropping(share_of(done.entry(id)->outcome))
        } else {
            done
        }
    }

    pub open spec fn retired_all(self, ids: Seq<OperationId>) -> OpsView
        decreases ids.len(),
    {
        if ids.len() == 0 {
            self
        } else {
            self.retired_all(ids.drop_last()).retired(ids.last())
        }
    }

    /// The pending operations with an end in a scope, and the settled ones
    /// that the scope owns.
    pub open spec fn scope_counts(self, scope: Set<ActorRef>) -> (nat, nat) {
        (
            self.ids_with(
                |e: EntryView|
                    e is Pending && (scope.contains(e.owner()) || scope.contains(e.ends().target)),
            ).len(),
            self.ids_with(|e: EntryView| e is Terminal && scope.contains(e.owner())).len(),
        )
    }
}

impl OpsView {
    /// There are no more operations than slots.
    pub proof fn lemma_one_in_a_slot(self)
        ensures
            self.live_ids().finite(),
            self.live_ids().len() <= self.slots.len(),
    {
        let slots = vstd::set_lib::set_int_range(0, self.slots.len() as int);
        vstd::set_lib::lemma_int_range(0, self.slots.len() as int);
        let name = |i: int|
            OperationId { world: self.world, slot: i as u32, generation: self.generations[i] };
        vstd::set_lib::lemma_map_size_bound(slots, slots.map(name), name);
        assert forall|id: OperationId| self.live_ids().contains(id) implies slots.map(
            name,
        ).contains(id) by {
            assert(slots.contains(id.slot as int) && name(id.slot as int) == id);
        }
        assert(self.live_ids().subset_of(slots.map(name)));
        vstd::set_lib::lemma_len_subset(self.live_ids(), slots.map(name));
    }

    pub proof fn lemma_completed_all(self, ids: Seq<OperationId>, outcome: OutcomeView)
        ensures
            self.completed_all(ids, outcome).world == self.world,
            self.completed_all(ids, outcome).max == self.max,
        decreases ids.len(),
    {
        if ids.len() > 0 {
            self.lemma_completed_all(ids.drop_last(), outcome);
        }
    }

    proof fn lemma_retired_all(self, ids: Seq<OperationId>)
        ensures
            self.retired_all(ids).world == self.world,
            self.retired_all(ids).max == self.max,
        decreases ids.len(),
    {
        if ids.len() > 0 {
            self.lemma_retired_all(ids.drop_last());
        }
    }

    pub proof fn lemma_owner_retired(self, owner: ActorRef)
        ensures
            self.owner_retired(owner).world == self.world,
            self.owner_retired(owner).max == self.max,
    {
        self.lemma_retired_all(ordered::sorted(self.owned(owner)));
    }
}

impl OpsView {
    /// Every slot has its generation, and free slots are vacant and listed once.
    pub open spec fn slotted(self) -> bool {
        &&& 0 < self.max <= u32::MAX
        &&& self.slots.len() == self.generations.len()
        &&& self.slots.len() <= self.max
        &&& forall|i: int|
            0 <= i < self.free.len() ==> (#[trigger] self.free[i] as int) < self.slots.len()
                && self.slots[self.free[i] as int] is None
        &&& forall|i: int, j: int|
            0 <= i < j < self.free.len() ==> #[trigger] self.free[i] != #[trigger] self.free[j]
    }

    /// A vacated slot takes its operation away and no other.
    pub proof fn lemma_vacated(self, id: OperationId)
        requires
            self.slotted(),
        ensures
            forall|k: OperationId| #[trigger]
                self.released(id).has(k) ==> self.has(k) && self.released(id).entry(k) == self.entry(
                    k,
                ),
            forall|k: OperationId| #[trigger]
                self.taken(id).has(k) ==> self.has(k) && self.taken(id).entry(k) == self.entry(k),
    {
        if self.has(id) {
            let n = self.vacated(id);
            assert forall|k: OperationId| #[trigger] n.has(k) implies self.has(k) && n.entry(k)
                == self.entry(k) by {
                assert(k.slot != id.slot);
            }
            assert forall|k: OperationId| #[trigger] self.released(id).has(k) implies self.has(k)
                && self.released(id).entry(k) == self.entry(k) by {
                if self.entry(id) is Pending {
                    assert(n.has(k));
                }
            }
            assert forall|k: OperationId| #[trigger] self.taken(id).has(k) implies self.has(k)
                && self.taken(id).entry(k) == self.entry(k) by {
                if self.entry(id) is Terminal {
                    assert(n.has(k));
                }
            }
        }
    }

    /// A reservation adds one operation, in a slot that was vacant.
    pub proof fn lemma_reserved(self, owner: ActorRef, target: ActorRef, deadline: Instant)
        requires
            self.slotted(),
            self.refuses(owner, target) is None,
        ensures
            ({
                let n = self.reserved(owner, target, deadline);
                let id = self.next_id();
                &&& n.has(id)
                &&& n.entry(id) == EntryView::Pending(
                    PendingOperation { owner, target, deadline, context: None },
                )
                &&& !self.has(id)
                &&& forall|k: OperationId| #[trigger]
                    n.has(k) && k != id ==> self.has(k) && self.entry(k) == n.entry(k)
                &&& forall|k: OperationId| #[trigger]
                    self.has(k) ==> n.has(k) && self.entry(k) == n.entry(k)
            }),
    {
        let n = self.reserved(owner, target, deadline);
        let id = self.next_id();
        if self.free.len() > 0 {
            assert((self.free[self.free.len() - 1] as int) < self.slots.len());
        }
        assert forall|k: OperationId| #[trigger] n.has(k) && k != id implies self.has(k)
            && self.entry(k) == n.entry(k) by {
            assert(k.slot != id.slot);
        }
        assert forall|k: OperationId| #[trigger] self.has(k) implies n.has(k) && self.entry(k)
            == n.entry(k) by {
            assert(k.slot != id.slot);
        }
    }
}

/// Only one slot differs between two tables.
spec fn differ_at(a: OpsView, b: OpsView, id: OperationId) -> bool {
    &&& a.world == b.world
    &&& forall|x: OperationId| x.slot != id.slot ==> #[trigger] a.has(x) == b.has(x)
    &&& forall|x: OperationId|
        x.slot != id.slot && a.has(x) ==> #[trigger] a.entry(x) == b.entry(x)
    &&& forall|x: OperationId| x.slot == id.slot && #[trigger] a.has(x) ==> x == id
    &&& forall|x: OperationId| x.slot == id.slot && #[trigger] b.has(x) ==> x == id
}

proof fn lemma_differ(a: OpsView, b: OpsView, id: OperationId)
    requires
        differ_at(a, b, id),
    ensures
        forall|p: spec_fn(EntryView) -> bool| #[trigger]
            b.ids_with(p) == (if b.has(id) && p(b.entry(id)) {
                a.ids_with(p).insert(id)
            } else {
                a.ids_with(p).remove(id)
            }),
{
    assert forall|p: spec_fn(EntryView) -> bool| #[trigger] b.ids_with(p) == (if b.has(id) && p(
        b.entry(id),
    ) {
        a.ids_with(p).insert(id)
    } else {
        a.ids_with(p).remove(id)
    }) by {
        let expected = if b.has(id) && p(b.entry(id)) {
            a.ids_with(p).insert(id)
        } else {
            a.ids_with(p).remove(id)
        };
        assert forall|x: OperationId| b.ids_with(p).contains(x) <==> expected.contains(x) by {
            if x.slot != id.slot {
                assert(a.has(x) == b.has(x));
                if a.has(x) {
                    assert(a.entry(x) == b.entry(x));
                }
            }
        }
        assert(b.ids_with(p) =~= expected);
    }
}

/// A pending operation in the order in which it comes due.
#[derive(Clone, Copy, Debug, PartialEq, Eq, Structural)]
struct DueOperation {
    at: Instant,
    id: OperationId,
}

impl Key for DueOperation {
    closed spec fn lt(a: Self, b: Self) -> bool {
        a.at.nanos < b.at.nanos || (a.at.nanos == b.at.nanos && OperationId::lt(a.id, b.id))
    }

    proof fn lt_irreflexive(a: Self) {
    }

    proof fn lt_transitive(a: Self, b: Self, c: Self) {
    }

    proof fn lt_total(a: Self, b: Self) {
    }

    fn less(&self, other: &Self) -> (r: bool) {
        self.at.nanos < other.at.nanos || (self.at.nanos == other.at.nanos && self.id.less(
            &other.id,
        ))
    }
}

pub struct OperationTable {
    world: u64,
    max: usize,
    slots: Vec<Option<Entry>>,
    generations: Vec<u64>,
    free: Vec<u32>,
    live: usize,
    pending: usize,
    pending_index: MultiIndex<ActorRef, OperationId>,
    owner_index: MultiIndex<ActorRef, OperationId>,
    target_index: MultiIndex<ActorRef, OperationId>,
    deadlines: OrdSet<DueOperation>,
    dropped: Vec<u64>,
}

impl View for OperationTable {
    type V = OpsView;

    closed spec fn view(&self) -> OpsView {
        OpsView {
            world: self.world,
            max: self.max,
            slots: self.slots@.map_values(|e: Option<Entry>| entry_view(e)),
            generations: self.generations@,
            free: self.free@,
            dropped: self.dropped@,
        }
    }
}

/// An index holds, under every actor, exactly the operations it should.
spec fn index_is(index: MultiIndex<ActorRef, OperationId>, f: spec_fn(ActorRef) -> Set<OperationId>) -> bool {
    index.wf() && forall|a: ActorRef| #[trigger] index.at(a) == f(a)
}

impl OperationTable {
    /// The indexes hold exactly the operations of a view.
    spec fn indexed(self, v: OpsView) -> bool {
        &&& self.deadlines.wf()
        &&& self.live == v.live_ids().len()
        &&& v.live_ids().finite()
        &&& self.pending == v.pending_ids().len()
        &&& v.pending_ids().finite()
        &&& index_is(self.owner_index, |a: ActorRef| v.owned(a))
        &&& index_is(self.pending_index, |a: ActorRef| v.pending_by(a))
        &&& index_is(self.target_index, |a: ActorRef| v.targeted(a))
        &&& forall|d: DueOperation| #[trigger]
            self.deadlines@.contains(d) <==> v.has(d.id) && v.entry(d.id) is Pending && v.entry(
                d.id,
            )->Pending_0.deadline == d.at
    }

    pub closed spec fn wf(self) -> bool {
        self.indexed(self@) && self@.slotted()
    }

    /// What callers may rely on of any table.
    pub proof fn lemma_bounds(self)
        requires
            self.wf(),
        ensures
            self@.live_ids().finite(),
            self@.live_ids().len() <= self@.max,
            self@.pending_ids().finite(),
            self@.pending_ids().len() <= self@.live_ids().len(),
            self@.slots.len() == self@.generations.len(),
            self@.slotted(),
    {
        assert(self@.pending_ids().subset_of(self@.live_ids()));
        vstd::set_lib::lemma_len_subset(self@.pending_ids(), self@.live_ids());
        self@.lemma_one_in_a_slot();
    }

    pub fn new(world_id: u64, max_operations: usize) -> (r: Result<Self, Error>)
        ensures
            r is Ok <==> 0 < max_operations <= u32::MAX,
            r matches Err(e) ==> e == Error::InvalidConfig,
            r matches Ok(t) ==> t.wf() && t@ == (OpsView {
                world: world_id,
                max: max_operations,
                slots: Seq::empty(),
                generations: Seq::empty(),
                free: Seq::empty(),
                dropped: Seq::empty(),
            }),
    {
        if max_operations == 0 || max_operations > u32::MAX as usize {
            return Err(Error::InvalidConfig);
        }
        let r = OperationTable {
            world: world_id,
            max: max_operations,
            slots: Vec::new(),
            generations: Vec::new(),
            free: Vec::new(),
            live: 0,
            pending: 0,
            pending_index: MultiIndex::new(),
            owner_index: MultiIndex::new(),
            target_index: MultiIndex::new(),
            deadlines: OrdSet::new(),
            dropped: Vec::new(),
        };
        proof {
            assert(r@.slots =~= Seq::empty());
            assert forall|p: spec_fn(EntryView) -> bool| #[trigger] r@.ids_with(p) == Set::<
                OperationId,
            >::empty() by {
                assert(r@.ids_with(p) =~= Set::empty());
            }
        }
        Ok(r)
    }

    fn locate(&self, id: OperationId) -> (r: Result<usize, Error>)
        requires
            self.wf(),
        ensures
            r is Ok <==> self@.has(id),
            r matches Ok(i) ==> i == id.slot && i < self.slots.len() && self.slots@[i as int] is Some
                && entry_view(self.slots@[i as int]) == Some(self@.entry(id)),
            r matches Err(e) ==> e == self@.missing(id),
    {
        if id.world != self.world {
            return Err(Error::CrossWorld);
        }
        let i: usize = id.slot as usize;
        if i >= self.slots.len() || self.generations[i] != id.generation || self.slots[i].is_none() {
            return Err(Error::StaleReference);
        }
        Ok(i)
    }

    /// A table whose slots were in use before: slot `i` is free and next issues
    /// the generation `generations[i]`.
    pub fn resumed(world_id: u64, max_operations: usize, generations: Vec<u64>) -> (r: Result<
        Self,
        Error,
    >)
        ensures
            r is Ok <==> 0 < max_operations <= u32::MAX && generations@.len() <= max_operations,
            r matches Err(e) ==> e == Error::InvalidConfig,
            r matches Ok(t) ==> t.wf() && t@ == (OpsView {
                world: world_id,
                max: max_operations,
                slots: Seq::new(generations@.len(), |i: int| None),
                generations: generations@,
                free: Seq::new(generations@.len(), |i: int| i as u32),
                dropped: Seq::empty(),
            }),
    {
        if max_operations == 0 || max_operations > u32::MAX as usize || generations.len()
            > max_operations {
            return Err(Error::InvalidConfig);
        }
        let count: usize = generations.len();
        let mut slots: Vec<Option<Entry>> = Vec::new();
        let mut free: Vec<u32> = Vec::new();
        let mut i: usize = 0;
        while i < count
            invariant
                i <= count <= u32::MAX,
                slots@.len() == i,
                free@.len() == i,
                forall|k: int| 0 <= k < i ==> #[trigger] slots@[k] is None,
                forall|k: int| 0 <= k < i ==> #[trigger] free@[k] == k,
            decreases count - i,
        {
            slots.push(None);
            free.push(i as u32);
            i += 1;
        }
        let r = OperationTable {
            world: world_id,
            max: max_operations,
            slots,
            generations,
            free,
            live: 0,
            pending: 0,
            pending_index: MultiIndex::new(),
            owner_index: MultiIndex::new(),
            target_index: MultiIndex::new(),
            deadlines: OrdSet::new(),
            dropped: Vec::new(),
        };
        proof {
            assert(r@.slots =~= Seq::new(count as nat, |i: int| None));
            assert(r@.free =~= Seq::new(count as nat, |i: int| i as u32));
            assert forall|p: spec_fn(EntryView) -> bool| #[trigger] r@.ids_with(p) == Set::<
                OperationId,
            >::empty() by {
                assert(r@.ids_with(p) =~= Set::empty());
            }
        }
        Ok(r)
    }

    /// How many deadlines are waited for: one for each pending operation.
    pub fn deadline_count(&self) -> (r: usize)
        requires
            self.wf(),
        ensures
            r == self@.pending_ids().len(),
    {
        proof {
            let pending = self@.pending_ids();
            let mark = |id: OperationId|
                DueOperation { at: self@.entry(id)->Pending_0.deadline, id };
            assert(vstd::relations::injective_on(mark, pending)) by {
                assert forall|a: OperationId, b: OperationId|
                    pending.contains(a) && pending.contains(b) && #[trigger] mark(a)
                        == #[trigger] mark(b) implies a == b by {}
            }
            assert(pending.map(mark) =~= self.deadlines@) by {
                assert forall|d: DueOperation| #[trigger] self.deadlines@.contains(d) implies
                    pending.map(mark).contains(d) by {
                    assert(pending.contains(d.id) && mark(d.id) == d);
                }
                assert forall|d: DueOperation| #[trigger] pending.map(mark).contains(d) implies
                    self.deadlines@.contains(d) by {
                    let id = choose|id: OperationId| pending.contains(id) && #[trigger] mark(id) == d;
                    assert(d.id == id);
                }
            }
            vstd::set_lib::lemma_map_size(pending, self.deadlines@, mark);
        }
        self.deadlines.len()
    }

    pub fn pending_count(&self) -> (r: usize)
        requires
            self.wf(),
        ensures
            r == self@.pending_ids().len(),
    {
        self.pending
    }

    pub fn len(&self) -> (r: usize)
        requires
            self.wf(),
        ensures
            r == self@.live_ids().len(),
    {
        self.live
    }

    pub fn is_empty(&self) -> (r: bool)
        requires
            self.wf(),
        ensures
            r == (self@.live_ids().len() == 0),
    {
        self.live == 0
    }

    pub fn retained_terminal_count(&self) -> (r: usize)
        requires
            self.wf(),
        ensures
            r == self@.live_ids().len() - self@.pending_ids().len(),
    {
        proof {
            self.lemma_bounds();
        }
        self.live - self.pending
    }

    /// Makes a pending operation, or says why not.
    pub fn reserve(&mut self, owner: ActorRef, target: ActorRef, deadline: Instant) -> (r: Result<
        OperationId,
        Error,
    >)
        requires
            old(self).wf(),
        ensures
            final(self).wf(),
            old(self)@.refuses(owner, target) matches Some(e) ==> r == Err::<OperationId, Error>(e)
                && final(self)@ == old(self)@,
            old(self)@.refuses(owner, target) is None ==> {
                &&& r == Ok::<OperationId, Error>(old(self)@.next_id())
                &&& final(self)@ == old(self)@.reserved(owner, target, deadline)
                &&& !old(self)@.has(old(self)@.next_id())
                &&& final(self)@.has(old(self)@.next_id())
                &&& final(self)@.entry(old(self)@.next_id()) == EntryView::Pending(
                    (PendingOperation { owner, target, deadline, context: None }),
                )
            },
    {
        if owner.world != self.world || target.world != self.world {
            return Err(Error::CrossWorld);
        }
        if self.live >= self.max {
            return Err(Error::LimitExceeded);
        }
        if self.free.len() == 0 && self.slots.len() >= self.max {
            return Err(Error::LimitExceeded);
        }
        let ghost before = self@;
        let slot: u32 = match self.free.pop() {
            Some(slot) => slot,
            None => {
                let n = self.slots.len() as u32;
                self.slots.push(None);
                self.generations.push(1);
                n
            },
        };
        let id = OperationId {
            world: self.world,
            slot,
            generation: self.generations[slot as usize],
        };
        let p = PendingOperation { owner, target, deadline, context: None };
        self.slots[slot as usize] = Some(Entry::Pending(p));
        self.pending_index.insert(owner, id);
        self.owner_index.insert(owner, id);
        self.target_index.insert(target, id);
        let _added = self.deadlines.insert(DueOperation { at: deadline, id });
        self.live += 1;
        proof {
            let now = before.reserved(owner, target, deadline);
            assert(self@.slots =~= now.slots);
            assert(self@.generations =~= now.generations);
            assert(self@.free =~= now.free);
            assert(differ_at(before, now, id));
            lemma_differ(before, now, id);
            assert(!before.has(id));
            assert(!before.live_ids().contains(id));
            assert(!before.pending_ids().contains(id));
            let live = |e: EntryView| true;
            assert(now.live_ids() == before.live_ids().insert(id));
            assert(now.pending_ids() == before.pending_ids().insert(id));
            assert(before.pending_ids().subset_of(before.live_ids()));
            vstd::set_lib::lemma_len_subset(before.pending_ids(), before.live_ids());
        }
        self.pending += 1;
        proof {
            let now = before.reserved(owner, target, deadline);
            assert forall|a: ActorRef| #[trigger] self.owner_index.at(a) == now.owned(a) by {
                if a != owner {
                    assert(before.owned(a).remove(id) =~= before.owned(a));
                }
            }
            assert forall|a: ActorRef| #[trigger] self.pending_index.at(a) == now.pending_by(a) by {
                if a != owner {
                    assert(before.pending_by(a).remove(id) =~= before.pending_by(a));
                }
            }
            assert forall|a: ActorRef| #[trigger] self.target_index.at(a) == now.targeted(a) by {
                if a != target {
                    assert(before.targeted(a).remove(id) =~= before.targeted(a));
                }
            }
            assert forall|d: DueOperation| #[trigger]
                self.deadlines@.contains(d) <==> now.has(d.id) && now.entry(d.id) is Pending
                    && now.entry(d.id)->Pending_0.deadline == d.at by {
                if d.id.slot != id.slot {
                    assert(before.has(d.id) == now.has(d.id));
                    if before.has(d.id) {
                        assert(before.entry(d.id) == now.entry(d.id));
                    }
                }
            }
            assert(self.indexed(now));
            assert(now.slotted());
        }
        Ok(id)
    }

    /// Attaches the request that a pending operation answers, once.
    pub fn set_context(&mut self, id: OperationId, context: HeldPayload) -> (r: Result<(), Error>)
        requires
            old(self).wf(),
        ensures
            final(self).wf(),
            old(self)@.refuses_context(id, context) matches Some(e) ==> r == Err::<(), Error>(e)
                && final(self)@ == old(self)@,
            old(self)@.refuses_context(id, context) is None ==> r == Ok::<(), Error>(())
                && final(self)@ == old(self)@.with_context(id, context),
    {
        if context.world() != self.world {
            return Err(Error::CrossWorld);
        }
        let i = match self.locate(id) {
            Ok(i) => i,
            Err(e) => return Err(e),
        };
        let ghost before = self@;
        let entry = self.slots[i].take();
        match entry {
            Some(Entry::Pending(p)) => {
                if p.context.is_some() {
                    self.slots[i] = Some(Entry::Pending(p));
                    assert(self@.slots =~= before.slots);
                    return Err(Error::InvalidConfig);
                }
                let held = PendingOperation {
                    owner: p.owner,
                    target: p.target,
                    deadline: p.deadline,
                    context: Some(context),
                };
                self.slots[i] = Some(Entry::Pending(held));
                proof {
                    let now = before.with_context(id, context);
                    assert(self@.slots =~= now.slots);
                    self.lemma_same_ends(before, now, id);
                }
                Ok(())
            },
            other => {
                self.slots[i] = other;
                assert(self@.slots =~= before.slots);
                Err(Error::InvalidConfig)
            },
        }
    }

    /// An entry that keeps its ends and deadline keeps every index.
    proof fn lemma_same_ends(self, before: OpsView, now: OpsView, id: OperationId)
        requires
            self.indexed(before),
            before.slotted(),
            before.has(id),
            before.entry(id) is Pending,
            now.slots == before.slots.update(id.slot as int, Some(now.entry(id))),
            now.world == before.world,
            now.max == before.max,
            now.generations == before.generations,
            now.free == before.free,
            now.entry(id) is Pending,
            now.entry(id)->Pending_0.owner == before.entry(id)->Pending_0.owner,
            now.entry(id)->Pending_0.target == before.entry(id)->Pending_0.target,
            now.entry(id)->Pending_0.deadline == before.entry(id)->Pending_0.deadline,
        ensures
            self.indexed(now),
            now.slotted(),
    {
        assert forall|x: OperationId| #[trigger] now.has(x) == before.has(x) by {}
        assert forall|x: OperationId|
            now.has(x) && x.slot != id.slot implies #[trigger] now.entry(x) == before.entry(x) by {}
        assert(now.live_ids() =~= before.live_ids());
        assert(now.pending_ids() =~= before.pending_ids());
        assert forall|a: ActorRef| #[trigger] self.owner_index.at(a) == now.owned(a) by {
            assert(now.owned(a) =~= before.owned(a));
        }
        assert forall|a: ActorRef| #[trigger] self.pending_index.at(a) == now.pending_by(a) by {
            assert(now.pending_by(a) =~= before.pending_by(a));
        }
        assert forall|a: ActorRef| #[trigger] self.target_index.at(a) == now.targeted(a) by {
            assert(now.targeted(a) =~= before.targeted(a));
        }
    }

    /// Takes a pending operation out of the indexes of pending ones.
    fn unindex_pending(&mut self, id: OperationId, owner: ActorRef, target: ActorRef, at: Instant)
        requires
            old(self).pending_index.wf(),
            old(self).target_index.wf(),
            old(self).deadlines.wf(),
        ensures
            final(self).world == old(self).world,
            final(self).max == old(self).max,
            final(self).slots == old(self).slots,
            final(self).generations == old(self).generations,
            final(self).free == old(self).free,
            final(self).dropped == old(self).dropped,
            final(self).live == old(self).live,
            final(self).pending == old(self).pending,
            final(self).owner_index == old(self).owner_index,
            final(self).pending_index.wf(),
            final(self).target_index.wf(),
            final(self).deadlines.wf(),
            final(self).deadlines@ == old(self).deadlines@.remove(DueOperation { at, id }),
            final(self).pending_index.at(owner) == old(self).pending_index.at(owner).remove(id),
            forall|a: ActorRef|
                a != owner ==> #[trigger] final(self).pending_index.at(a) == old(
                    self,
                ).pending_index.at(a),
            final(self).target_index.at(target) == old(self).target_index.at(target).remove(id),
            forall|a: ActorRef|
                a != target ==> #[trigger] final(self).target_index.at(a) == old(
                    self,
                ).target_index.at(a),
    {
        self.pending_index.remove(&owner, &id);
        self.target_index.remove(&target, &id);
        let _removed = self.deadlines.remove(&DueOperation { at, id });
    }

    fn drop_hold(&mut self, held: Option<HeldPayload>)
        ensures
            final(self).world == old(self).world,
            final(self).max == old(self).max,
            final(self).slots == old(self).slots,
            final(self).generations == old(self).generations,
            final(self).free == old(self).free,
            final(self).live == old(self).live,
            final(self).pending == old(self).pending,
            final(self).owner_index == old(self).owner_index,
            final(self).pending_index == old(self).pending_index,
            final(self).target_index == old(self).target_index,
            final(self).deadlines == old(self).deadlines,
            final(self)@ == old(self)@.dropping(share_in(held)),
    {
        match held {
            Some(held) => {
                self.dropped.push(held.stored().id);
            },
            None => {},
        }
        assert(self@.slots =~= old(self)@.slots);
    }

    proof fn lemma_dropping(self, v: OpsView, share: Option<u64>)
        requires
            self.indexed(v),
            v.slotted(),
        ensures
            self.indexed(v.dropping(share)),
            v.dropping(share).slotted(),
    {
        let now = v.dropping(share);
        assert forall|p: spec_fn(EntryView) -> bool| #[trigger] now.ids_with(p) == v.ids_with(p) by {
            assert(now.ids_with(p) =~= v.ids_with(p));
        }
        assert forall|x: OperationId| #[trigger] now.has(x) == v.has(x) by {}
        assert forall|x: OperationId| #[trigger] now.entry(x) == v.entry(x) by {}
        assert forall|a: ActorRef| #[trigger] self.owner_index.at(a) == now.owned(a) by {}
        assert forall|a: ActorRef| #[trigger] self.pending_index.at(a) == now.pending_by(a) by {}
        assert forall|a: ActorRef| #[trigger] self.target_index.at(a) == now.targeted(a) by {}
    }

    /// Settles an operation. Whether this call won: only the first one does.
    pub fn complete(&mut self, id: OperationId, outcome: TerminalOutcome) -> (r: Result<bool, Error>)
        requires
            old(self).wf(),
        ensures
            final(self).wf(),
            r == old(self)@.completing(id, outcome@),
            final(self)@ == old(self)@.completed(id, outcome@),
    {
        let ghost said = outcome@;
        match &outcome {
            TerminalOutcome::Completed(held) => {
                if held.world() != self.world {
                    return Err(Error::CrossWorld);
                }
            },
            _ => {},
        }
        let i = match self.locate(id) {
            Ok(i) => i,
            Err(e) => {
                self.drop_outcome(outcome);
                proof {
                    self.lemma_dropping(old(self)@, share_of(said));
                }
                return Err(e);
            },
        };
        let ghost before = self@;
        let entry = self.slots[i].take();
        match entry {
            Some(Entry::Pending(p)) => {
                let kept = match outcome {
                    TerminalOutcome::Failed { code, message } => {
                        let short = bounded(message.as_str(), MESSAGE_MAX);
                        proof {
                            text::lemma_bounded_text(message@, short@, MESSAGE_MAX as nat);
                        }
                        TerminalOutcome::Failed { code, message: short }
                    },
                    other => other,
                };
                self.slots[i] = Some(Entry::Terminal { owner: p.owner, outcome: kept });
                let ghost now = OpsView {
                    slots: before.slots.update(
                        id.slot as int,
                        Some(EntryView::Terminal { owner: p.owner, outcome: settled(said) }),
                    ),
                    ..before
                };
                self.unindex_pending(id, p.owner, p.target, p.deadline);
                proof {
                    assert(self@.slots =~= now.slots);
                    assert(differ_at(before, now, id));
                    lemma_differ(before, now, id);
                    assert(now.live_ids() == before.live_ids().insert(id));
                    assert(before.live_ids().insert(id) =~= before.live_ids());
                    assert(before.pending_ids().contains(id));
                    assert(now.pending_ids() == before.pending_ids().remove(id));
                    assert(before.pending_ids().len() > 0) by {
                        vstd::set_lib::lemma_len_subset(set![id], before.pending_ids());
                    }
                }
                self.pending = self.pending - 1;
                proof {
                    assert forall|a: ActorRef| #[trigger] self.owner_index.at(a) == now.owned(a) by {
                        if a == p.owner {
                            assert(before.owned(a).insert(id) =~= before.owned(a));
                        } else {
                            assert(before.owned(a).remove(id) =~= before.owned(a));
                        }
                    }
                    assert forall|a: ActorRef| #[trigger]
                        self.pending_index.at(a) == now.pending_by(a) by {
                        if a != p.owner {
                            assert(before.pending_by(a).remove(id) =~= before.pending_by(a));
                        }
                    }
                    assert forall|a: ActorRef| #[trigger] self.target_index.at(a) == now.targeted(a) by {
                        if a != p.target {
                            assert(before.targeted(a).remove(id) =~= before.targeted(a));
                        }
                    }
                    assert forall|d: DueOperation| #[trigger]
                        self.deadlines@.contains(d) <==> now.has(d.id) && now.entry(d.id) is Pending
                            && now.entry(d.id)->Pending_0.deadline == d.at by {
                        if d.id.slot != id.slot {
                            assert(before.has(d.id) == now.has(d.id));
                            if before.has(d.id) {
                                assert(before.entry(d.id) == now.entry(d.id));
                            }
                        }
                    }
                    assert(self.indexed(now));
                    assert(now.slotted());
                    assert(self@ == now);
                }
                let ghost share = share_in(p.context);
                self.drop_hold(p.context);
                proof {
                    self.lemma_dropping(now, share);
                }
                Ok(true)
            },
            other => {
                self.slots[i] = other;
                assert(self@.slots =~= before.slots);
                assert(self@ == before);
                self.drop_outcome(outcome);
                proof {
                    self.lemma_dropping(before, share_of(said));
                }
                Ok(false)
            },
        }
    }

    fn drop_outcome(&mut self, outcome: TerminalOutcome)
        ensures
            final(self).world == old(self).world,
            final(self).max == old(self).max,
            final(self).slots == old(self).slots,
            final(self).generations == old(self).generations,
            final(self).free == old(self).free,
            final(self).live == old(self).live,
            final(self).pending == old(self).pending,
            final(self).owner_index == old(self).owner_index,
            final(self).pending_index == old(self).pending_index,
            final(self).target_index == old(self).target_index,
            final(self).deadlines == old(self).deadlines,
            final(self)@ == old(self)@.dropping(share_of(outcome@)),
    {
        match outcome {
            TerminalOutcome::Completed(held) => self.drop_hold(Some(held)),
            _ => {},
        }
    }

    pub fn status(&self, id: OperationId) -> (r: Result<OperationStatus<'_>, Error>)
        requires
            self.wf(),
        ensures
            match r {
                Ok(OperationStatus::Pending(p)) => self@.has(id) && self@.entry(id)
                    == EntryView::Pending(*p),
                Ok(OperationStatus::Terminal(outcome)) => self@.has(id) && self@.entry(id) is Terminal
                    && self@.entry(id)->outcome == outcome@,
                Err(e) => !self@.has(id) && e == self@.missing(id),
            },
    {
        let i = match self.locate(id) {
            Ok(i) => i,
            Err(e) => return Err(e),
        };
        match &self.slots[i] {
            Some(Entry::Pending(p)) => Ok(OperationStatus::Pending(p)),
            Some(Entry::Terminal { owner: _, outcome }) => Ok(OperationStatus::Terminal(outcome)),
            None => Err(Error::StaleReference),
        }
    }

    /// Empties a slot whose entry was taken out of it.
    fn vacate(&mut self, id: OperationId, owner: ActorRef)
        requires
            old(self).owner_index.wf(),
            (id.slot as int) < old(self).slots@.len(),
            old(self).slots@.len() == old(self).generations@.len(),
            old(self).slots@[id.slot as int] is None,
            old(self).live > 0,
        ensures
            final(self).world == old(self).world,
            final(self).max == old(self).max,
            final(self).dropped == old(self).dropped,
            final(self).live == old(self).live - 1,
            final(self).pending == old(self).pending,
            final(self).pending_index == old(self).pending_index,
            final(self).target_index == old(self).target_index,
            final(self).deadlines == old(self).deadlines,
            final(self).owner_index.wf(),
            final(self).owner_index.at(owner) == old(self).owner_index.at(owner).remove(id),
            forall|a: ActorRef|
                a != owner ==> #[trigger] final(self).owner_index.at(a) == old(self).owner_index.at(a),
            final(self)@ == old(self)@.vacated(id),
    {
        self.owner_index.remove(&owner, &id);
        self.live = self.live - 1;
        let i: usize = id.slot as usize;
        let generation: u64 = self.generations[i];
        if generation < u64::MAX {
            self.generations[i] = generation + 1;
            self.free.push(id.slot);
        }
        assert(self@.slots =~= old(self)@.vacated(id).slots);
    }

    /// An entry that left with its slot leaves every index.
    proof fn lemma_vacated(self, prior: OperationTable, before: OpsView, id: OperationId)
        requires
            prior.indexed(before),
            before.slotted(),
            before.has(id),
            self.deadlines.wf(),
            self.owner_index.wf(),
            self.pending_index.wf(),
            self.target_index.wf(),
            self.live == prior.live - 1,
            self.pending == prior.pending - (if before.entry(id) is Pending {
                1int
            } else {
                0int
            }),
            forall|a: ActorRef| #[trigger]
                self.owner_index.at(a) == (if a == before.entry(id).owner() {
                    prior.owner_index.at(a).remove(id)
                } else {
                    prior.owner_index.at(a)
                }),
            forall|a: ActorRef| #[trigger]
                self.pending_index.at(a) == (if before.entry(id) is Pending && a == before.entry(
                    id,
                ).owner() {
                    prior.pending_index.at(a).remove(id)
                } else {
                    prior.pending_index.at(a)
                }),
            forall|a: ActorRef| #[trigger]
                self.target_index.at(a) == (if before.entry(id).targets(a) {
                    prior.target_index.at(a).remove(id)
                } else {
                    prior.target_index.at(a)
                }),
            self.deadlines@ == (match before.entry(id) {
                EntryView::Pending(p) => prior.deadlines@.remove(
                    DueOperation { at: p.deadline, id },
                ),
                _ => prior.deadlines@,
            }),
        ensures
            self.indexed(before.vacated(id)),
            before.vacated(id).slotted(),
    {
        let now = before.vacated(id);
        assert(differ_at(before, now, id));
        lemma_differ(before, now, id);
        assert(!now.has(id));
        assert(before.live_ids().contains(id));
        assert(now.live_ids() == before.live_ids().remove(id));
        assert(now.pending_ids() == before.pending_ids().remove(id));
        assert forall|a: ActorRef| #[trigger] self.owner_index.at(a) == now.owned(a) by {
            assert(prior.owner_index.at(a) == before.owned(a));
            if a != before.entry(id).owner() {
                assert(before.owned(a).remove(id) =~= before.owned(a));
            }
        }
        assert forall|a: ActorRef| #[trigger] self.pending_index.at(a) == now.pending_by(a) by {
            assert(prior.pending_index.at(a) == before.pending_by(a));
            if !(before.entry(id) is Pending && a == before.entry(id).owner()) {
                assert(before.pending_by(a).remove(id) =~= before.pending_by(a));
            }
        }
        assert forall|a: ActorRef| #[trigger] self.target_index.at(a) == now.targeted(a) by {
            assert(prior.target_index.at(a) == before.targeted(a));
            if !before.entry(id).targets(a) {
                assert(before.targeted(a).remove(id) =~= before.targeted(a));
            }
        }
        assert forall|d: DueOperation| #[trigger]
            self.deadlines@.contains(d) <==> now.has(d.id) && now.entry(d.id) is Pending && now.entry(
                d.id,
            )->Pending_0.deadline == d.at by {
            if d.id.slot != id.slot {
                assert(before.has(d.id) == now.has(d.id));
                if before.has(d.id) {
                    assert(before.entry(d.id) == now.entry(d.id));
                }
            }
        }
        if !(before.entry(id) is Pending) {
            assert(before.pending_ids().remove(id) =~= before.pending_ids());
        } else {
            assert(before.pending_ids().contains(id));
        }
    }

    /// Hands out a terminal outcome and frees its slot.
    pub fn take(&mut self, id: OperationId) -> (r: Result<Option<TerminalOutcome>, Error>)
        requires
            old(self).wf(),
        ensures
            final(self).wf(),
            final(self)@ == old(self)@.taken(id),
            match r {
                Ok(Some(outcome)) => old(self)@.has(id) && old(self)@.entry(id) is Terminal
                    && outcome@ == old(self)@.entry(id)->outcome,
                Ok(None) => old(self)@.has(id) && old(self)@.entry(id) is Pending,
                Err(e) => !old(self)@.has(id) && e == old(self)@.missing(id),
            },
    {
        let i = match self.locate(id) {
            Ok(i) => i,
            Err(e) => return Err(e),
        };
        let ghost before = self@;
        let ghost prior = *self;
        let entry = self.slots[i].take();
        match entry {
            Some(Entry::Terminal { owner, outcome }) => {
                proof {
                    assert(before.live_ids().contains(id));
                    vstd::set_lib::lemma_len_subset(set![id], before.live_ids());
                    assert(set![id].len() == 1);
                }
                self.vacate(id, owner);
                proof {
                    assert(self@.slots =~= before.vacated(id).slots);
                    self.lemma_vacated(prior, before, id);
                }
                Ok(Some(outcome))
            },
            other => {
                self.slots[i] = other;
                assert(self@.slots =~= before.slots);
                Ok(None)
            },
        }
    }

    /// Withdraws a pending operation that was never submitted.
    pub fn release_unsubmitted(&mut self, id: OperationId) -> (r: Result<bool, Error>)
        requires
            old(self).wf(),
        ensures
            final(self).wf(),
            final(self)@ == old(self)@.released(id),
            r == (if old(self)@.has(id) {
                Ok::<bool, Error>(old(self)@.entry(id) is Pending)
            } else {
                Err(old(self)@.missing(id))
            }),
    {
        let i = match self.locate(id) {
            Ok(i) => i,
            Err(e) => return Err(e),
        };
        let ghost before = self@;
        let ghost prior = *self;
        let entry = self.slots[i].take();
        match entry {
            Some(Entry::Pending(p)) => {
                self.unindex_pending(id, p.owner, p.target, p.deadline);
                proof {
                    assert(before.live_ids().contains(id));
                    vstd::set_lib::lemma_len_subset(set![id], before.live_ids());
                    assert(before.pending_ids().contains(id));
                    vstd::set_lib::lemma_len_subset(set![id], before.pending_ids());
                    assert(set![id].len() == 1);
                }
                self.pending = self.pending - 1;
                self.vacate(id, p.owner);
                proof {
                    assert(self@.slots =~= before.vacated(id).slots);
                    self.lemma_vacated(prior, before, id);
                }
                let ghost share = share_in(p.context);
                self.drop_hold(p.context);
                proof {
                    self.lemma_dropping(before.vacated(id), share);
                }
                Ok(true)
            },
            other => {
                self.slots[i] = other;
                assert(self@.slots =~= before.slots);
                Ok(false)
            },
        }
    }

    pub fn pending_for(&self, owner: ActorRef) -> (r: usize)
        requires
            self.wf(),
        ensures
            r == self@.pending_by(owner).len(),
    {
        self.pending_index.count(&owner)
    }

    pub fn pending_for_target(&self, target: ActorRef) -> (r: usize)
        requires
            self.wf(),
        ensures
            r == self@.targeted(target).len(),
    {
        self.target_index.count(&target)
    }

    /// The owner of a live operation, and its target while it is pending.
    pub fn participants(&self, id: OperationId) -> (r: Result<(ActorRef, Option<ActorRef>), Error>)
        requires
            self.wf(),
        ensures
            r == (if !self@.has(id) {
                Err::<(ActorRef, Option<ActorRef>), Error>(self@.missing(id))
            } else {
                match self@.entry(id) {
                    EntryView::Pending(p) => Ok((p.owner, Some(p.target))),
                    EntryView::Terminal { owner, .. } => Ok((owner, None)),
                }
            }),
    {
        let i = match self.locate(id) {
            Ok(i) => i,
            Err(e) => return Err(e),
        };
        match &self.slots[i] {
            Some(Entry::Pending(p)) => Ok((p.owner, Some(p.target))),
            Some(Entry::Terminal { owner, outcome: _ }) => Ok((*owner, None)),
            None => Err(Error::StaleReference),
        }
    }

    /// The share numbers that the table let go of since the last call.
    pub(crate) fn take_dropped(&mut self) -> (r: Vec<u64>)
        requires
            old(self).wf(),
        ensures
            final(self).wf(),
            r@ == old(self)@.dropped,
            final(self)@ == (OpsView { dropped: Seq::empty(), ..old(self)@ }),
    {
        let mut out: Vec<u64> = Vec::new();
        std::mem::swap(&mut out, &mut self.dropped);
        proof {
            let v = old(self)@;
            let now = OpsView { dropped: Seq::empty(), ..v };
            assert(self@.slots =~= now.slots);
            assert forall|p: spec_fn(EntryView) -> bool| #[trigger] now.ids_with(p) == v.ids_with(
                p,
            ) by {
                assert(now.ids_with(p) =~= v.ids_with(p));
            }
            assert forall|x: OperationId| #[trigger] now.has(x) == v.has(x) by {}
            assert forall|x: OperationId| #[trigger] now.entry(x) == v.entry(x) by {}
            assert forall|a: ActorRef| #[trigger] self.owner_index.at(a) == now.owned(a) by {}
            assert forall|a: ActorRef| #[trigger] self.pending_index.at(a) == now.pending_by(a) by {}
            assert forall|a: ActorRef| #[trigger] self.target_index.at(a) == now.targeted(a) by {}
        }
        out
    }

    /// Settles several operations; how many of them were still pending.
    fn transition_ids(&mut self, ids: &Vec<OperationId>, kind: PlainOutcome) -> (n: usize)
        requires
            old(self).wf(),
        ensures
            final(self).wf(),
            final(self)@ == old(self)@.completed_all(ids@, kind@),
            n == old(self)@.wins(ids@, kind@),
    {
        let mut n: usize = 0;
        let mut i: usize = 0;
        assert(ids@.take(0) =~= Seq::<OperationId>::empty());
        while i < ids.len()
            invariant
                self.wf(),
                i <= ids.len(),
                n <= i,
                self@ == old(self)@.completed_all(ids@.take(i as int), kind@),
                n == old(self)@.wins(ids@.take(i as int), kind@),
            decreases ids.len() - i,
        {
            proof {
                assert(ids@.take(i + 1).drop_last() =~= ids@.take(i as int));
            }
            match self.complete(ids[i], kind.outcome()) {
                Ok(true) => {
                    n += 1;
                },
                _ => {},
            }
            i += 1;
        }
        assert(ids@.take(i as int) =~= ids@);
        n
    }

    /// Ends every operation of an owner that stops; how many were pending.
    pub fn cancel_owner(&mut self, owner: ActorRef) -> (n: usize)
        requires
            old(self).wf(),
        ensures
            final(self).wf(),
            final(self)@ == old(self)@.owner_cancelled(owner),
            n == old(self)@.wins(
                ordered::sorted(old(self)@.owned(owner)),
                OutcomeView::OwnerStopped,
            ),
    {
        let ids = self.owner_index.list(&owner);
        self.transition_ids(&ids, PlainOutcome::OwnerStopped)
    }

    /// Ends every operation that a stopped target was to answer.
    pub fn stop_target(&mut self, target: ActorRef) -> (n: usize)
        requires
            old(self).wf(),
        ensures
            final(self).wf(),
            final(self)@ == old(self)@.target_stopped(target),
            n == old(self)@.wins(
                ordered::sorted(old(self)@.targeted(target)),
                OutcomeView::TargetStopped,
            ),
    {
        let ids = self.target_index.list(&target);
        self.transition_ids(&ids, PlainOutcome::TargetStopped)
    }

    /// Ends the operations of an owner and forgets them; how many there were.
    pub fn retire_owner(&mut self, owner: ActorRef) -> (n: usize)
        requires
            old(self).wf(),
        ensures
            final(self).wf(),
            final(self)@ == old(self)@.owner_retired(owner),
            n == old(self)@.owned(owner).len(),
    {
        let ids = self.owner_index.list(&owner);
        let mut n: usize = 0;
        let mut i: usize = 0;
        let ghost v0 = self@;
        proof {
            assert(ids@.take(0) =~= Seq::<OperationId>::empty());
            ordered::lemma_ascending_distinct(ids@);
            assert forall|j: int| 0 <= j < ids@.len() implies self@.has(#[trigger] ids@[j]) by {
                assert(ids@.contains(ids@[j]));
                assert(ids@.to_set().contains(ids@[j]));
                assert(v0.owned(owner).contains(ids@[j]));
            }
        }
        while i < ids.len()
            invariant
                self.wf(),
                i <= ids.len(),
                n == i,
                ids@.no_duplicates(),
                forall|j: int| i <= j < ids@.len() ==> self@.has(#[trigger] ids@[j]),
                v0 == old(self)@,
                self@ == v0.retired_all(ids@.take(i as int)),
            decreases ids.len() - i,
        {
            let id: OperationId = ids[i];
            let ghost v1 = self@;
            let _won = self.complete(id, TerminalOutcome::OwnerStopped);
            let ghost v2 = self@;
            let outcome = self.take(id);
            proof {
                assert(ids@.take(i + 1).drop_last() =~= ids@.take(i as int));
                assert(v2.has(id) && v2.entry(id) is Terminal);
                assert forall|j: int| i + 1 <= j < ids@.len() implies self@.has(#[trigger] ids@[j]) by {
                    let other = ids@[j];
                    assert(v1.has(other));
                    assert(other != id);
                    assert(other.slot != id.slot);
                }
            }
            match outcome {
                Ok(Some(outcome)) => {
                    n += 1;
                    let ghost v3 = self@;
                    let ghost share = share_of(outcome@);
                    self.drop_outcome(outcome);
                    proof {
                        self.lemma_dropping(v3, share);
                        assert(self@ == v1.retired(id));
                    }
                },
                _ => {},
            }
            i += 1;
        }
        assert(ids@.take(i as int) =~= ids@);
        n
    }

    /// The due operations, by slot and generation.
    fn due_ids(&self, now: Instant) -> (r: Vec<OperationId>)
        requires
            self.wf(),
        ensures
            r@ == ordered::sorted(self@.due(now)),
            r@.to_set() == self@.due(now),
            ordered::ascending(r@),
    {
        let mut ids: OrdSet<OperationId> = OrdSet::new();
        let count = self.deadlines.len();
        let mut i: usize = 0;
        let ghost listing = self.deadlines.listing();
        proof {
            self.deadlines.lemma_listing();
        }
        while i < count && self.deadlines.at(i).at.nanos <= now.nanos
            invariant
                self.wf(),
                ids.wf(),
                listing == self.deadlines.listing(),
                count == listing.len(),
                count == self.deadlines@.len(),
                listing.to_set() == self.deadlines@,
                ordered::ascending(listing),
                i <= count,
                forall|j: int| 0 <= j < i ==> (#[trigger] listing[j]).at.nanos <= now.nanos,
                forall|id: OperationId| #[trigger]
                    ids@.contains(id) <==> exists|j: int| 0 <= j < i && (#[trigger] listing[j]).id == id,
            decreases count - i,
        {
            let due = self.deadlines.at(i);
            let ghost before = ids@;
            let _added = ids.insert(due.id);
            proof {
                assert forall|id: OperationId| #[trigger] ids@.contains(id) <==> exists|j: int|
                    0 <= j < i + 1 && (#[trigger] listing[j]).id == id by {
                    if before.contains(id) {
                        let j = choose|j: int| 0 <= j < i && (#[trigger] listing[j]).id == id;
                        assert(listing[j].id == id);
                    }
                    if id == due.id {
                        assert(listing[i as int].id == id);
                    }
                }
            }
            i += 1;
        }
        proof {
            assert forall|id: OperationId| #[trigger] ids@.contains(id) <==> self@.due(now).contains(
                id,
            ) by {
                if ids@.contains(id) {
                    let j = choose|j: int| 0 <= j < i && (#[trigger] listing[j]).id == id;
                    assert(listing.contains(listing[j]));
                    assert(listing.to_set().contains(listing[j]));
                    assert(self.deadlines@.contains(listing[j]));
                }
                if self@.due(now).contains(id) {
                    let d = DueOperation { at: self@.entry(id)->Pending_0.deadline, id };
                    assert(self.deadlines@.contains(d));
                    assert(listing.to_set().contains(d));
                    let j = listing.index_of(d);
                    assert(listing[j] == d);
                    if j >= i {
                        if j > i {
                            assert(DueOperation::lt(listing[i as int], listing[j]));
                        }
                        assert(false);
                    }
                    assert(listing[j].id == id);
                }
            }
            assert(ids@ =~= self@.due(now));
        }
        ids.to_vec()
    }

    /// Times out the due operations; how many there were.
    pub fn expire(&mut self, now: Instant) -> (n: usize)
        requires
            old(self).wf(),
        ensures
            final(self).wf(),
            final(self)@ == old(self)@.expired(now),
            n == ordered::sorted(old(self)@.due(now)).len(),
    {
        self.expire_ids(now).len()
    }

    /// Times out the due operations and lists them.
    pub fn expire_ids(&mut self, now: Instant) -> (r: Vec<OperationId>)
        requires
            old(self).wf(),
        ensures
            final(self).wf(),
            final(self)@ == old(self)@.expired(now),
            r@ == ordered::sorted(old(self)@.due(now)),
    {
        let ids = self.due_ids(now);
        let _n = self.transition_ids(&ids, PlainOutcome::TimedOut);
        ids
    }

    /// Times out one operation if it is due; whether this call did so.
    pub fn expire_one(&mut self, id: OperationId, now: Instant) -> (r: Result<bool, Error>)
        requires
            old(self).wf(),
        ensures
            final(self).wf(),
            r == old(self)@.expiring_one(id, now),
            final(self)@ == old(self)@.expired_one(id, now),
    {
        let i = match self.locate(id) {
            Ok(i) => i,
            Err(e) => return Err(e),
        };
        let due: bool = match &self.slots[i] {
            Some(Entry::Pending(p)) => p.deadline.reached(now),
            _ => false,
        };
        if due {
            self.complete(id, TerminalOutcome::TimedOut)
        } else {
            Ok(false)
        }
    }

    /// The ends of live operations.
    fn ends(&self, ids: &Vec<OperationId>) -> (r: Vec<OperationOwner>)
        requires
            self.wf(),
            forall|j: int| 0 <= j < ids@.len() ==> self@.has(#[trigger] ids@[j]),
        ensures
            r@ == self@.ends_of(ids@),
    {
        let mut r: Vec<OperationOwner> = Vec::new();
        let mut i: usize = 0;
        while i < ids.len()
            invariant
                self.wf(),
                forall|j: int| 0 <= j < ids@.len() ==> self@.has(#[trigger] ids@[j]),
                i <= ids.len(),
                r.len() == i,
                forall|j: int| 0 <= j < i ==> #[trigger] r@[j] == self@.entry(ids@[j]).ends(),
            decreases ids.len() - i,
        {
            match self.participants(ids[i]) {
                Ok((owner, Some(target))) => r.push(OperationOwner { owner, target }),
                Ok((owner, None)) => r.push(OperationOwner { owner, target: owner }),
                Err(_) => {},
            }
            i += 1;
        }
        assert(r@ =~= self@.ends_of(ids@));
        r
    }

    /// The ends of every pending operation that touches an actor, each once,
    /// by slot and generation.
    pub fn pending_participants_for(&self, actor: ActorRef) -> (r: Vec<OperationOwner>)
        requires
            self.wf(),
        ensures
            r@ == self@.ends_of(ordered::sorted(self@.pending_touching(actor))),
    {
        let mut ids: OrdSet<OperationId> = OrdSet::new();
        let owned = self.pending_index.list(&actor);
        let targeted = self.target_index.list(&actor);
        collect_ids(&mut ids, &owned);
        collect_ids(&mut ids, &targeted);
        proof {
            assert(ids@ =~= self@.pending_touching(actor));
        }
        let list = ids.to_vec();
        proof {
            assert forall|j: int| 0 <= j < list@.len() implies self@.has(#[trigger] list@[j]) by {
                assert(list@.contains(list@[j]));
                assert(list@.to_set().contains(list@[j]));
            }
        }
        self.ends(&list)
    }

    /// The ends of the due operations, in the order of `expire_ids`.
    pub fn due_participants(&self, now: Instant) -> (r: Vec<OperationOwner>)
        requires
            self.wf(),
        ensures
            r@ == self@.ends_of(ordered::sorted(self@.due(now))),
    {
        let list = self.due_ids(now);
        proof {
            assert forall|j: int| 0 <= j < list@.len() implies self@.has(#[trigger] list@[j]) by {
                assert(list@.contains(list@[j]));
                assert(list@.to_set().contains(list@[j]));
            }
        }
        self.ends(&list)
    }

    /// Counts each operation once even if both ends belong to the scope.
    pub fn counts_for_scope(&self, scope: &OrdSet<ActorRef>) -> (r: (usize, usize))
        requires
            self.wf(),
            scope.wf(),
        ensures
            (r.0 as nat, r.1 as nat) == self@.scope_counts(scope@),
    {
        let mut pending: OrdSet<OperationId> = OrdSet::new();
        let mut retained: OrdSet<OperationId> = OrdSet::new();
        let members = scope.to_vec();
        let mut i: usize = 0;
        while i < members.len()
            invariant
                self.wf(),
                pending.wf(),
                retained.wf(),
                i <= members.len(),
                forall|id: OperationId| #[trigger]
                    pending@.contains(id) <==> exists|j: int|
                        0 <= j < i && #[trigger] self@.pending_touching(members@[j]).contains(id),
                forall|id: OperationId| #[trigger]
                    retained@.contains(id) <==> exists|j: int|
                        0 <= j < i && #[trigger] self@.settled_by(members@[j]).contains(id),
            decreases members.len() - i,
        {
            let actor: ActorRef = members[i];
            let ghost pending0 = pending@;
            let ghost retained0 = retained@;
            let by = self.pending_index.list(&actor);
            let to = self.target_index.list(&actor);
            collect_ids(&mut pending, &by);
            collect_ids(&mut pending, &to);
            let owned = self.owner_index.list(&actor);
            let mut k: usize = 0;
            while k < owned.len()
                invariant
                    self.wf(),
                    retained.wf(),
                    k <= owned.len(),
                    owned@.to_set() == self@.owned(actor),
                    forall|id: OperationId| #[trigger]
                        retained@.contains(id) <==> retained0.contains(id) || exists|j: int|
                            0 <= j < k && #[trigger] owned@[j] == id && self@.entry(id) is Terminal,
                decreases owned.len() - k,
            {
                let id: OperationId = owned[k];
                let ghost before = retained@;
                proof {
                    assert(owned@.contains(id));
                    assert(owned@.to_set().contains(id));
                }
                match self.participants(id) {
                    Ok((_, None)) => {
                        let _added = retained.insert(id);
                    },
                    _ => {},
                }
                proof {
                    assert forall|x: OperationId| #[trigger] retained@.contains(x) <==> retained0.contains(
                        x,
                    ) || exists|j: int|
                        0 <= j < k + 1 && #[trigger] owned@[j] == x && self@.entry(x) is Terminal by {
                        if before.contains(x) && !retained0.contains(x) {
                            let j = choose|j: int|
                                0 <= j < k && #[trigger] owned@[j] == x && self@.entry(x) is Terminal;
                            assert(owned@[j] == x);
                        }
                        if x == id && self@.entry(x) is Terminal {
                            assert(owned@[k as int] == x);
                        }
                    }
                }
                k += 1;
            }
            proof {
                assert forall|id: OperationId| #[trigger] pending@.contains(id) <==> exists|j: int|
                    0 <= j < i + 1 && #[trigger] self@.pending_touching(members@[j]).contains(id) by {
                    if pending0.contains(id) {
                        let j = choose|j: int|
                            0 <= j < i && #[trigger] self@.pending_touching(members@[j]).contains(id);
                        assert(self@.pending_touching(members@[j]).contains(id));
                    }
                    assert(self@.pending_touching(actor).contains(id) <==> self@.pending_by(
                        actor,
                    ).contains(id) || self@.targeted(actor).contains(id));
                    if self@.pending_touching(actor).contains(id) {
                        assert(self@.pending_touching(members@[i as int]).contains(id));
                    }
                }
                assert forall|id: OperationId| #[trigger] retained@.contains(id) <==> exists|j: int|
                    0 <= j < i + 1 && #[trigger] self@.settled_by(members@[j]).contains(id) by {
                    if retained0.contains(id) {
                        let j = choose|j: int|
                            0 <= j < i && #[trigger] self@.settled_by(members@[j]).contains(id);
                        assert(self@.settled_by(members@[j]).contains(id));
                    }
                    if self@.settled_by(actor).contains(id) {
                        assert(self@.settled_by(members@[i as int]).contains(id));
                        assert(owned@.to_set().contains(id));
                        let j = owned@.index_of(id);
                        assert(owned@[j] == id);
                    }
                    if retained@.contains(id) && !retained0.contains(id) {
                        let j = choose|j: int|
                            0 <= j < owned@.len() && #[trigger] owned@[j] == id && self@.entry(
                                id,
                            ) is Terminal;
                        assert(owned@.contains(id));
                        assert(owned@.to_set().contains(id));
                        assert(self@.settled_by(members@[i as int]).contains(id));
                    }
                }
            }
            i += 1;
        }
        proof {
            let v = self@;
            let s = scope@;
            let wanted = v.ids_with(
                |e: EntryView|
                    e is Pending && (s.contains(e.owner()) || s.contains(e.ends().target)),
            );
            let kept = v.ids_with(|e: EntryView| e is Terminal && s.contains(e.owner()));
            assert forall|id: OperationId| pending@.contains(id) <==> wanted.contains(id) by {
                if pending@.contains(id) {
                    let j = choose|j: int|
                        0 <= j < members@.len() && #[trigger] v.pending_touching(
                            members@[j],
                        ).contains(id);
                    assert(members@.contains(members@[j]));
                    assert(members@.to_set().contains(members@[j]));
                }
                if wanted.contains(id) {
                    let a = if s.contains(v.entry(id).owner()) {
                        v.entry(id).owner()
                    } else {
                        v.entry(id).ends().target
                    };
                    assert(members@.to_set().contains(a));
                    let j = members@.index_of(a);
                    assert(members@[j] == a);
                    assert(v.pending_touching(members@[j]).contains(id));
                }
            }
            assert(pending@ =~= wanted);
            assert forall|id: OperationId| retained@.contains(id) <==> kept.contains(id) by {
                if retained@.contains(id) {
                    let j = choose|j: int|
                        0 <= j < members@.len() && #[trigger] v.settled_by(members@[j]).contains(id);
                    assert(members@.contains(members@[j]));
                    assert(members@.to_set().contains(members@[j]));
                }
                if kept.contains(id) {
                    let a = v.entry(id).owner();
                    assert(members@.to_set().contains(a));
                    let j = members@.index_of(a);
                    assert(members@[j] == a);
                    assert(v.settled_by(members@[j]).contains(id));
                }
            }
            assert(retained@ =~= kept);
        }
        (pending.len(), retained.len())
    }
}

fn collect_ids(ids: &mut OrdSet<OperationId>, more: &Vec<OperationId>)
    requires
        old(ids).wf(),
    ensures
        final(ids).wf(),
        final(ids)@ == old(ids)@.union(more@.to_set()),
{
    let mut i: usize = 0;
    let ghost before = ids@;
    while i < more.len()
        invariant
            ids.wf(),
            i <= more.len(),
            forall|k: OperationId| #[trigger]
                ids@.contains(k) <==> before.contains(k) || exists|j: int|
                    0 <= j < i && #[trigger] more@[j] == k,
        decreases more.len() - i,
    {
        let ghost prior = ids@;
        let _added = ids.insert(more[i]);
        proof {
            assert forall|k: OperationId| #[trigger] ids@.contains(k) <==> before.contains(k)
                || exists|j: int| 0 <= j < i + 1 && #[trigger] more@[j] == k by {
                if prior.contains(k) && !before.contains(k) {
                    let j = choose|j: int| 0 <= j < i && #[trigger] more@[j] == k;
                    assert(more@[j] == k);
                }
                if k == more@[i as int] {
                    assert(more@[i as int] == k);
                }
            }
        }
        i += 1;
    }
    proof {
        assert forall|k: OperationId| ids@.contains(k) <==> before.union(more@.to_set()).contains(k) by {
            if more@.to_set().contains(k) {
                let j = more@.index_of(k);
                assert(more@[j] == k);
            }
            if ids@.contains(k) && !before.contains(k) {
                let j = choose|j: int| 0 <= j < more@.len() && #[trigger] more@[j] == k;
                assert(more@.contains(k));
            }
        }
        assert(ids@ =~= before.union(more@.to_set()));
    }
}

/// An operation has one winner: once it is settled, completing it again keeps
/// the outcome.
pub proof fn first_outcome_wins(v: OpsView, id: OperationId, first: OutcomeView, second: OutcomeView)
    requires
        v.completing(id, first) == Ok::<bool, Error>(true),
        !(second is Completed) || second->Completed_0.of_world() == v.world,
    ensures
        v.completed(id, first).completing(id, second) == Ok::<bool, Error>(false),
        v.completed(id, first).completed(id, second).entry(id) == v.completed(id, first).entry(id),
{
}

/// A completion touches no other operation.
pub proof fn completion_is_local(v: OpsView, id: OperationId, outcome: OutcomeView, other: OperationId)
    requires
        other.slot != id.slot,
    ensures
        v.completed(id, outcome).has(other) == v.has(other),
        v.has(other) ==> v.completed(id, outcome).entry(other) == v.entry(other),
{
}

/// A taken operation is gone for good: its identity stays stale, whatever is
/// reserved next.
pub proof fn taken_identity_is_stale(v: OpsView, id: OperationId)
    requires
        v.has(id),
        v.entry(id) is Terminal,
        v.slots.len() == v.generations.len(),
    ensures
        !v.taken(id).has(id),
        v.generations[id.slot as int] < u64::MAX ==> v.taken(id).generations[id.slot as int]
            > id.generation,
        v.generations[id.slot as int] == u64::MAX ==> v.taken(id).free == v.free,
{
}

impl OpsView {
    /// Whether an identity was given out and its operation is gone: its slot has
    /// a later generation, or is out of generations and empty for good.
    pub open spec fn spent(self, id: OperationId) -> bool {
        &&& id.world == self.world
        &&& (id.slot as int) < self.slots.len()
        &&& id.generation < self.generations[id.slot as int] || (self.slots[id.slot as int] is None
            && !self.free.contains(id.slot))
    }
}

/// An operation that left the table leaves a spent identity.
pub proof fn a_vacated_identity_is_spent(v: OpsView, id: OperationId)
    requires
        v.slotted(),
        v.has(id),
    ensures
        v.vacated(id).spent(id),
        v.entry(id) is Terminal ==> v.taken(id).spent(id),
        v.entry(id) is Pending ==> v.released(id).spent(id),
{
    if v.free.contains(id.slot) {
        let i = v.free.index_of(id.slot);
        assert(v.slots[v.free[i] as int] is None);
    }
}

/// A spent identity names no operation, is not given out again, and stays spent
/// whatever happens to the table.
pub proof fn a_spent_identity_never_comes_back(
    v: OpsView,
    id: OperationId,
    other: OperationId,
    owner: ActorRef,
    target: ActorRef,
    deadline: Instant,
    outcome: OutcomeView,
    held: HeldPayload,
)
    requires
        v.slotted(),
        v.spent(id),
    ensures
        !v.has(id),
        v.refuses(owner, target) is None ==> v.next_id() != id && v.reserved(
            owner,
            target,
            deadline,
        ).spent(id),
        v.completed(other, outcome).spent(id),
        v.taken(other).spent(id),
        v.released(other).spent(id),
        v.retired(other).spent(id),
        v.refuses_context(other, held) is None ==> v.with_context(other, held).spent(id),
{
    if v.refuses(owner, target) is None {
        if v.free.len() > 0 {
            let last = v.free.len() - 1;
            assert(v.free[last] == v.free.last());
            assert(v.free.contains(v.free.last()));
            let rest = v.free.drop_last();
            if rest.contains(id.slot) {
                let i = rest.index_of(id.slot);
                assert(v.free[i] == id.slot);
            }
        }
    }
    if v.has(other) {
        lemma_vacated_spent(v, id, other);
        let done = v.completed(other, OutcomeView::OwnerStopped);
        lemma_vacated_spent(done, id, other);
    }
}

proof fn lemma_vacated_spent(v: OpsView, id: OperationId, other: OperationId)
    requires
        v.slots.len() == v.generations.len(),
        v.spent(id),
        v.has(other),
    ensures
        v.vacated(other).spent(id),
{
    if id.slot != other.slot && !v.free.contains(id.slot) {
        let more = v.free.push(other.slot);
        if more.contains(id.slot) {
            let i = more.index_of(id.slot);
            assert(i < v.free.len());
            assert(v.free[i] == id.slot);
        }
    }
}

/// Settling several operations, or dropping those of an owner, leaves spent
/// identities spent.
pub proof fn spent_identities_outlast_runs(
    v: OpsView,
    id: OperationId,
    ids: Seq<OperationId>,
    outcome: OutcomeView,
)
    requires
        v.slots.len() == v.generations.len(),
        v.spent(id),
    ensures
        v.completed_all(ids, outcome).spent(id),
        v.retired_all(ids).spent(id),
        v.completed_all(ids, outcome).slots.len() == v.slots.len(),
        v.completed_all(ids, outcome).generations.len() == v.generations.len(),
        v.retired_all(ids).slots.len() == v.slots.len(),
        v.retired_all(ids).generations.len() == v.generations.len(),
    decreases ids.len(),
{
    if ids.len() > 0 {
        spent_identities_outlast_runs(v, id, ids.drop_last(), outcome);
        let last = ids.last();
        let kept = v.retired_all(ids.drop_last());
        let done = kept.completed(last, OutcomeView::OwnerStopped);
        if done.has(last) {
            lemma_vacated_spent(done, id, last);
        }
    }
}

/// An operation that is reserved and given back leaves every other operation as
/// it was.
pub proof fn a_withdrawn_operation_leaves_no_trace(
    v: OpsView,
    owner: ActorRef,
    target: ActorRef,
    deadline: Instant,
)
    requires
        v.slotted(),
        v.refuses(owner, target) is None,
    ensures
        ({
            let n = v.reserved(owner, target, deadline).released(v.next_id());
            &&& forall|k: OperationId| #[trigger] n.has(k) <==> v.has(k)
            &&& forall|k: OperationId| #[trigger] n.has(k) ==> n.entry(k) == v.entry(k)
            &&& n.spent(v.next_id())
            &&& n.dropped == v.dropped
        }),
{
    v.lemma_reserved(owner, target, deadline);
    let id = v.next_id();
    let mid = v.reserved(owner, target, deadline);
    let n = mid.released(id);
    if v.free.len() > 0 {
        assert((v.free[v.free.len() - 1] as int) < v.slots.len());
    }
    assert(n.spent(id)) by {
        if mid.free.contains(id.slot) {
            let i = mid.free.index_of(id.slot);
            if v.free.len() > 0 {
                assert(v.free[i] != v.free[v.free.len() - 1]);
            } else {
                assert(mid.free == v.free);
            }
        }
    }
    assert forall|k: OperationId| #[trigger] n.has(k) <==> v.has(k) by {
        if k.slot != id.slot {
            assert(mid.has(k) == v.has(k)) by {
                if v.has(k) {
                    assert(mid.has(k));
                }
                if mid.has(k) {
                    assert(v.has(k));
                }
            }
        }
    }
    assert forall|k: OperationId| #[trigger] n.has(k) implies n.entry(k) == v.entry(k) by {
        assert(v.has(k));
        assert(k.slot != id.slot);
        assert(mid.has(k));
    }
}

/// A result that was accepted is the one that is handed out.
pub proof fn accepted_result_is_returned(v: OpsView, id: OperationId, held: HeldPayload)
    requires
        v.completing(id, OutcomeView::Completed(held)) == Ok::<bool, Error>(true),
    ensures
        v.completed(id, OutcomeView::Completed(held)).has(id),
        v.completed(id, OutcomeView::Completed(held)).entry(id) == (EntryView::Terminal {
            owner: v.entry(id).owner(),
            outcome: OutcomeView::Completed(held),
        }),
{
}

/// Which operations are listed for whom: those that wait by their owner, their
/// target and their deadline, those that are settled by their owner alone.
pub proof fn operations_are_listed_by_their_ends(
    v: OpsView,
    id: OperationId,
    actor: ActorRef,
    now: Instant,
)
    ensures
        !v.has(id) ==> !v.live_ids().contains(id) && !v.owned(actor).contains(id)
            && !v.pending_ids().contains(id) && !v.targeted(actor).contains(id) && !v.due(
            now,
        ).contains(id),
        v.has(id) ==> v.live_ids().contains(id) && match v.entry(id) {
            EntryView::Pending(p) => {
                &&& v.pending_ids().contains(id)
                &&& v.owned(actor).contains(id) <==> p.owner == actor
                &&& v.pending_by(actor).contains(id) <==> p.owner == actor
                &&& v.targeted(actor).contains(id) <==> p.target == actor
                &&& v.pending_touching(actor).contains(id) <==> p.owner == actor || p.target
                    == actor
                &&& v.due(now).contains(id) <==> p.deadline.nanos <= now.nanos
            },
            EntryView::Terminal { owner, .. } => {
                &&& !v.pending_ids().contains(id)
                &&& v.owned(actor).contains(id) <==> owner == actor
                &&& !v.pending_by(actor).contains(id)
                &&& !v.targeted(actor).contains(id)
                &&& !v.pending_touching(actor).contains(id)
                &&& !v.due(now).contains(id)
            },
        },
{
}

/// An operation is taken up as long as both ends are of this World and there is
/// room; it then waits between its ends until its deadline.
pub proof fn an_operation_is_taken_up_while_there_is_room(
    v: OpsView,
    owner: ActorRef,
    target: ActorRef,
    deadline: Instant,
)
    requires
        v.slotted(),
    ensures
        v.refuses(owner, target) == Some(Error::CrossWorld) <==> owner.world != v.world
            || target.world != v.world,
        v.refuses(owner, target) is None <==> owner.world == v.world && target.world == v.world
            && v.live_ids().len() < v.max && (v.free.len() > 0 || v.slots.len() < v.max),
        v.refuses(owner, target) matches Some(e) ==> e == Error::CrossWorld || e
            == Error::LimitExceeded,
        v.refuses(owner, target) is None ==> {
            let id = v.next_id();
            let n = v.reserved(owner, target, deadline);
            &&& !v.has(id)
            &&& n.has(id)
            &&& n.entry(id) matches EntryView::Pending(p) && p.owner == owner && p.target == target
                && p.deadline == deadline && p.context is None
            &&& id.world == v.world
            &&& id.generation >= 1 || v.free.len() > 0
        },
{
    if v.refuses(owner, target) is None {
        v.lemma_reserved(owner, target, deadline);
    }
}

/// A completion settles an operation that waits: its owner is kept, the outcome
/// is the one that was given, a message cut to its first 1024 bytes, and the
/// payload that the operation held is given back. What is settled or unknown
/// stays as it is.
pub proof fn a_completion_settles_what_waits(v: OpsView, id: OperationId, outcome: OutcomeView)
    requires
        outcome matches OutcomeView::Completed(held) ==> held.of_world() == v.world,
    ensures
        !v.has(id) ==> {
            &&& v.completing(id, outcome) == Err::<bool, Error>(
                if id.world == v.world {
                    Error::StaleReference
                } else {
                    Error::CrossWorld
                },
            )
            &&& v.completed(id, outcome).slots == v.slots
        },
        v.has(id) && v.entry(id) is Terminal ==> v.completing(id, outcome) == Ok::<bool, Error>(false)
            && v.completed(id, outcome).slots == v.slots,
        v.has(id) ==> (v.entry(id) matches EntryView::Pending(p) ==> {
            let n = v.completed(id, outcome);
            &&& v.completing(id, outcome) == Ok::<bool, Error>(true)
            &&& n.has(id)
            &&& n.entry(id) matches EntryView::Terminal { owner, outcome: kept } && owner == p.owner
                && match outcome {
                OutcomeView::Failed { code, message } => kept matches OutcomeView::Failed {
                    code: told,
                    message: text,
                } && told == code && text == crate::text::bounded_text(message, 1024),
                _ => kept == outcome,
            }
            &&& p.context is None ==> n.dropped == v.dropped
            &&& p.context matches Some(held) ==> n.dropped == v.dropped.push(held.share())
        }),
{
}

/// A payload of another World is no result of an operation.
pub proof fn a_foreign_result_settles_nothing(v: OpsView, id: OperationId, held: HeldPayload)
    requires
        held.of_world() != v.world,
    ensures
        v.completing(id, OutcomeView::Completed(held)) == Err::<bool, Error>(Error::CrossWorld),
        v.completed(id, OutcomeView::Completed(held)) == v,
{
}

/// What completing a list does to one operation.
proof fn lemma_completed_run(v: OpsView, ids: Seq<OperationId>, outcome: OutcomeView, id: OperationId)
    requires
        !(outcome is Completed),
        !(outcome is Failed),
        v.has(id),
    ensures
        ({
            let n = v.completed_all(ids, outcome);
            &&& n.world == v.world
            &&& n.generations == v.generations
            &&& n.slots.len() == v.slots.len()
            &&& n.has(id)
            &&& !ids.contains(id) || v.entry(id) is Terminal ==> n.entry(id) == v.entry(id)
            &&& ids.contains(id) ==> (v.entry(id) matches EntryView::Pending(p) ==> n.entry(id)
                == (EntryView::Terminal { owner: p.owner, outcome }))
        }),
    decreases ids.len(),
{
    if ids.len() > 0 {
        let rest = ids.drop_last();
        lemma_completed_run(v, rest, outcome, id);
        let m = v.completed_all(rest, outcome);
        let last = ids.last();
        if ids.contains(id) && last != id {
            let k = ids.index_of(id);
            assert(rest[k] == id);
        }
        if rest.contains(id) {
            let k = rest.index_of(id);
            assert(ids[k] == id);
        }
        if last == id {
            assert(ids[ids.len() - 1] == id);
        } else if m.has(last) {
            assert(last.slot != id.slot);
        }
    }
}

/// Each end of an operation ends it in its own way: the owner that stops, the
/// target that stops, the deadline that passes. Each leaves alone what is not its
/// own, and what is settled.
pub proof fn each_end_ends_its_operations(
    v: OpsView,
    id: OperationId,
    p: PendingOperation,
    actor: ActorRef,
    now: Instant,
)
    requires
        v.has(id),
        v.entry(id) == EntryView::Pending(p),
    ensures
        p.owner == actor ==> v.owner_cancelled(actor).entry(id) == (EntryView::Terminal {
            owner: p.owner,
            outcome: OutcomeView::OwnerStopped,
        }),
        p.owner != actor ==> v.owner_cancelled(actor).entry(id) == v.entry(id),
        p.target == actor ==> v.target_stopped(actor).entry(id) == (EntryView::Terminal {
            owner: p.owner,
            outcome: OutcomeView::TargetStopped,
        }),
        p.target != actor ==> v.target_stopped(actor).entry(id) == v.entry(id),
        p.deadline.nanos <= now.nanos ==> v.expired(now).entry(id) == (EntryView::Terminal {
            owner: p.owner,
            outcome: OutcomeView::TimedOut,
        }),
        p.deadline.nanos > now.nanos ==> v.expired(now).entry(id) == v.entry(id),
{
    v.lemma_one_in_a_slot();
    vstd::set_lib::lemma_len_subset(v.owned(actor), v.live_ids());
    vstd::set_lib::lemma_len_subset(v.targeted(actor), v.live_ids());
    vstd::set_lib::lemma_len_subset(v.due(now), v.live_ids());
    ordered::lemma_sorted_exists(v.owned(actor));
    ordered::lemma_sorted_exists(v.targeted(actor));
    ordered::lemma_sorted_exists(v.due(now));
    assert(ordered::sorted(v.owned(actor)).to_set().contains(id) <==> p.owner == actor);
    assert(ordered::sorted(v.targeted(actor)).to_set().contains(id) <==> p.target == actor);
    assert(ordered::sorted(v.due(now)).to_set().contains(id) <==> p.deadline.nanos <= now.nanos);
    lemma_completed_run(v, ordered::sorted(v.owned(actor)), OutcomeView::OwnerStopped, id);
    lemma_completed_run(v, ordered::sorted(v.targeted(actor)), OutcomeView::TargetStopped, id);
    lemma_completed_run(v, ordered::sorted(v.due(now)), OutcomeView::TimedOut, id);
}

/// No end of an actor takes an operation away.
pub(crate) proof fn lemma_still_there(v: OpsView, id: OperationId, actor: ActorRef)
    requires
        v.has(id),
    ensures
        v.owner_cancelled(actor).has(id),
        v.target_stopped(actor).has(id),
{
    lemma_completed_run(v, ordered::sorted(v.owned(actor)), OutcomeView::OwnerStopped, id);
    lemma_completed_run(v, ordered::sorted(v.targeted(actor)), OutcomeView::TargetStopped, id);
}

/// What is settled stays as it is when an actor stops.
pub(crate) proof fn lemma_settled_stays(v: OpsView, id: OperationId, actor: ActorRef)
    requires
        v.has(id),
        v.entry(id) is Terminal,
    ensures
        v.owner_cancelled(actor).entry(id) == v.entry(id),
        v.target_stopped(actor).entry(id) == v.entry(id),
{
    lemma_completed_run(v, ordered::sorted(v.owned(actor)), OutcomeView::OwnerStopped, id);
    lemma_completed_run(v, ordered::sorted(v.targeted(actor)), OutcomeView::TargetStopped, id);
}

/// Operations are ordered by their slot, then by their generation.
pub proof fn operations_are_ordered_by_slot(a: OperationId, b: OperationId)
    ensures
        a.slot < b.slot ==> OperationId::lt(a, b) && !OperationId::lt(b, a),
        a.slot == b.slot && a.generation < b.generation ==> OperationId::lt(a, b)
            && !OperationId::lt(b, a),
        !OperationId::lt(a, a),
{
}

/// A scope waits for an operation that has an end in it, and keeps one that it
/// owns and that is settled.
pub proof fn a_scope_counts_its_operations(v: OpsView, scope: Set<ActorRef>, id: OperationId)
    requires
        v.has(id),
    ensures
        v.entry(id) matches EntryView::Pending(p) ==> (scope.contains(p.owner) || scope.contains(
            p.target,
        )) ==> v.scope_counts(scope).0 > 0,
        v.entry(id) matches EntryView::Terminal { owner, .. } ==> scope.contains(owner)
            ==> v.scope_counts(scope).1 > 0,
{
    v.lemma_one_in_a_slot();
    let waiting = v.ids_with(
        |e: EntryView|
            e is Pending && (scope.contains(e.owner()) || scope.contains(e.ends().target)),
    );
    let kept = v.ids_with(|e: EntryView| e is Terminal && scope.contains(e.owner()));
    vstd::set_lib::lemma_len_subset(waiting, v.live_ids());
    vstd::set_lib::lemma_len_subset(kept, v.live_ids());
    if waiting.contains(id) {
        assert(waiting.remove(id).len() < waiting.len());
    }
    if kept.contains(id) {
        assert(kept.remove(id).len() < kept.len());
    }
}

/// What retiring a list does to one operation.
proof fn lemma_retired_run(v: OpsView, ids: Seq<OperationId>, id: OperationId)
    requires
        v.slots.len() == v.generations.len(),
        v.has(id),
    ensures
        ({
            let n = v.retired_all(ids);
            &&& n.world == v.world
            &&& n.slots.len() == v.slots.len()
            &&& n.generations.len() == v.generations.len()
            &&& ids.contains(id) ==> !n.has(id) && n.slots[id.slot as int] is None
            &&& !ids.contains(id) ==> n.has(id) && n.entry(id) == v.entry(id)
        }),
    decreases ids.len(),
{
    if ids.len() > 0 {
        let rest = ids.drop_last();
        lemma_retired_run(v, rest, id);
        let m = v.retired_all(rest);
        let last = ids.last();
        if rest.contains(id) {
            let k = rest.index_of(id);
            assert(ids[k] == id);
        }
        if ids.contains(id) && last != id {
            let k = ids.index_of(id);
            assert(rest[k] == id);
        }
        if last == id {
            assert(ids[ids.len() - 1] == id);
        } else if m.has(last) && m.has(id) {
            assert(last.slot != id.slot);
        }
    }
}

/// What an actor asked for goes with it: none of its operations is left, settled
/// or not, and nobody else's is touched.
pub proof fn what_an_owner_asked_for_goes_with_it(v: OpsView, owner: ActorRef, id: OperationId)
    requires
        v.slotted(),
        v.has(id),
    ensures
        v.entry(id).owner() == owner ==> !v.owner_retired(owner).has(id),
        v.entry(id).owner() != owner ==> v.owner_retired(owner).has(id) && v.owner_retired(
            owner,
        ).entry(id) == v.entry(id),
{
    v.lemma_one_in_a_slot();
    vstd::set_lib::lemma_len_subset(v.owned(owner), v.live_ids());
    ordered::lemma_sorted_exists(v.owned(owner));
    let ids = ordered::sorted(v.owned(owner));
    assert(ids.to_set().contains(id) <==> v.owned(owner).contains(id));
    lemma_retired_run(v, ids, id);
}

} // verus!
