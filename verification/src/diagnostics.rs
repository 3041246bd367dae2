//! A bounded, sequenced history of diagnostics.
use vstd::prelude::*;
use std::sync::Arc;
use crate::clock;
use crate::clock::Instant;
use crate::envelope::Envelope;
use crate::failures::{FailurePhase, FailureRecord};
use crate::operations::OperationId;
use crate::types::{ActorRef, Error};

verus! {

#[derive(Clone, Copy, Debug, PartialEq, Eq, Structural)]
pub enum DiagnosticCode {
    QueueFull,
    BudgetExceeded,
    ActorNotReady,
    ActorStopped,
    StaleReference,
    CrossWorld,
    LimitExceeded,
    InvalidConfig,
    NotFound,
    DuplicateSubscription,
    SchemaMismatch,
    InvalidPort,
    InterfaceMismatch,
    InvalidMetadata,
    DeadlineExpired,
    HandlerFailed,
    StartupFailed,
    CleanupFailed,
    SupervisorFailed,
    OperationTimedOut,
    OperationLateResult,
    OwnerStopped,
    TargetStopped,
    DrainTimeout,
    Cancelled,
}

/// The code under which a refusal is recorded.
pub open spec fn code_of(error: Error) -> DiagnosticCode {
    match error {
        Error::QueueFull => DiagnosticCode::QueueFull,
        Error::BudgetExceeded => DiagnosticCode::BudgetExceeded,
        Error::ActorNotReady => DiagnosticCode::ActorNotReady,
        Error::ActorStopped => DiagnosticCode::ActorStopped,
        Error::StaleReference => DiagnosticCode::StaleReference,
        Error::CrossWorld => DiagnosticCode::CrossWorld,
        Error::LimitExceeded => DiagnosticCode::LimitExceeded,
        Error::InvalidConfig => DiagnosticCode::InvalidConfig,
        Error::NotFound => DiagnosticCode::NotFound,
        Error::DuplicateSubscription => DiagnosticCode::DuplicateSubscription,
        Error::SchemaMismatch => DiagnosticCode::SchemaMismatch,
        Error::InvalidPort => DiagnosticCode::InvalidPort,
        Error::InterfaceMismatch => DiagnosticCode::InterfaceMismatch,
        Error::InvalidMetadata => DiagnosticCode::InvalidMetadata,
        Error::DeadlineExpired => DiagnosticCode::DeadlineExpired,
    }
}

/// The code under which a failure of a phase is recorded.
pub open spec fn phase_code(phase: FailurePhase) -> DiagnosticCode {
    match phase {
        FailurePhase::Handler => DiagnosticCode::HandlerFailed,
        FailurePhase::Stop => DiagnosticCode::CleanupFailed,
        FailurePhase::Supervisor => DiagnosticCode::SupervisorFailed,
        _ => DiagnosticCode::StartupFailed,
    }
}

impl DiagnosticCode {
    pub fn from_error(error: Error) -> (r: Self)
        ensures
            r == code_of(error),
            error == Error::QueueFull <==> r == DiagnosticCode::QueueFull,
            error == Error::BudgetExceeded <==> r == DiagnosticCode::BudgetExceeded,
            error == Error::ActorNotReady <==> r == DiagnosticCode::ActorNotReady,
            error == Error::ActorStopped <==> r == DiagnosticCode::ActorStopped,
            error == Error::StaleReference <==> r == DiagnosticCode::StaleReference,
            error == Error::CrossWorld <==> r == DiagnosticCode::CrossWorld,
            error == Error::LimitExceeded <==> r == DiagnosticCode::LimitExceeded,
            error == Error::InvalidConfig <==> r == DiagnosticCode::InvalidConfig,
            error == Error::NotFound <==> r == DiagnosticCode::NotFound,
            error == Error::DuplicateSubscription <==> r == DiagnosticCode::DuplicateSubscription,
            error == Error::SchemaMismatch <==> r == DiagnosticCode::SchemaMismatch,
            error == Error::InvalidPort <==> r == DiagnosticCode::InvalidPort,
            error == Error::InterfaceMismatch <==> r == DiagnosticCode::InterfaceMismatch,
            error == Error::InvalidMetadata <==> r == DiagnosticCode::InvalidMetadata,
            error == Error::DeadlineExpired <==> r == DiagnosticCode::DeadlineExpired,
    {
        match error {
            Error::QueueFull => DiagnosticCode::QueueFull,
            Error::BudgetExceeded => DiagnosticCode::BudgetExceeded,
            Error::ActorNotReady => DiagnosticCode::ActorNotReady,
            Error::ActorStopped => DiagnosticCode::ActorStopped,
            Error::StaleReference => DiagnosticCode::StaleReference,
            Error::CrossWorld => DiagnosticCode::CrossWorld,
            Error::LimitExceeded => DiagnosticCode::LimitExceeded,
            Error::InvalidConfig => DiagnosticCode::InvalidConfig,
            Error::NotFound => DiagnosticCode::NotFound,
            Error::DuplicateSubscription => DiagnosticCode::DuplicateSubscription,
            Error::SchemaMismatch => DiagnosticCode::SchemaMismatch,
            Error::InvalidPort => DiagnosticCode::InvalidPort,
            Error::InterfaceMismatch => DiagnosticCode::InterfaceMismatch,
            Error::InvalidMetadata => DiagnosticCode::InvalidMetadata,
            Error::DeadlineExpired => DiagnosticCode::DeadlineExpired,
        }
    }
}

#[derive(Debug, PartialEq, Eq)]
pub struct DiagnosticEntry {
    pub sequence: u64,
    pub elapsed_ns: u64,
    pub code: DiagnosticCode,
    pub actor: Option<ActorRef>,
    pub operation: Option<OperationId>,
    pub event_id: Option<u64>,
    pub correlation_id: Option<u64>,
    pub causation_id: Option<u64>,
    pub failure: Option<Arc<FailureRecord>>,
}

/// Another handle on the same record.
pub fn share_failure(failure: &Option<Arc<FailureRecord>>) -> (r: Option<Arc<FailureRecord>>)
    ensures
        r == *failure,
{
    match failure {
        Some(record) => Some(record.clone()),
        None => None,
    }
}

impl Clone for DiagnosticEntry {
    fn clone(&self) -> (r: Self)
        ensures
            r == *self,
    {
        DiagnosticEntry {
            sequence: self.sequence,
            elapsed_ns: self.elapsed_ns,
            code: self.code,
            actor: self.actor,
            operation: self.operation,
            event_id: self.event_id,
            correlation_id: self.correlation_id,
            causation_id: self.causation_id,
            failure: share_failure(&self.failure),
        }
    }
}

#[derive(Clone, Copy, Debug, PartialEq, Eq, Structural)]
pub struct DiagnosticGap {
    pub first_available: u64,
    pub requested_after: u64,
}

#[derive(Debug, PartialEq, Eq)]
pub struct DiagnosticRead {
    pub entries: Vec<DiagnosticEntry>,
    pub next_sequence: u64,
    pub dropped: u64,
    pub gap: Option<DiagnosticGap>,
}

/// The contents of a history.
#[verifier::ext_equal]
pub struct HistoryView {
    pub capacity: usize,
    pub next: u64,
    pub dropped: u64,
    pub exhausted: bool,
    pub epoch: Instant,
    pub entries: Seq<DiagnosticEntry>,
}

pub open spec fn saturating_succ(n: u64) -> u64 {
    if n == u64::MAX {
        n
    } else {
        (n + 1) as u64
    }
}

/// The entry that a record makes.
pub open spec fn entry_of(
    h: HistoryView,
    now: Instant,
    code: DiagnosticCode,
    actor: Option<ActorRef>,
    operation: Option<OperationId>,
    failure: Option<Arc<FailureRecord>>,
    envelope: Option<Envelope>,
) -> DiagnosticEntry {
    DiagnosticEntry {
        sequence: h.next,
        elapsed_ns: clock::span_ns(h.epoch, now),
        code,
        actor,
        operation,
        event_id: match envelope {
            Some(e) => Some(e.event_id),
            None => match failure {
                Some(f) => f.event_id,
                None => None,
            },
        },
        correlation_id: match envelope {
            Some(e) => e.correlation_id,
            None => None,
        },
        causation_id: match envelope {
            Some(e) => e.causation_id,
            None => None,
        },
        failure,
    }
}

/// A history with one more entry: the oldest gives way to it, and a history
/// without room or sequence numbers only counts what it drops.
pub open spec fn recorded(
    h: HistoryView,
    now: Instant,
    code: DiagnosticCode,
    actor: Option<ActorRef>,
    operation: Option<OperationId>,
    failure: Option<Arc<FailureRecord>>,
    envelope: Option<Envelope>,
) -> HistoryView {
    let entry = entry_of(h, now, code, actor, operation, failure, envelope);
    if h.capacity == 0 || h.exhausted {
        HistoryView { dropped: saturating_succ(h.dropped), ..h }
    } else {
        let full = h.entries.len() >= h.capacity;
        let kept = if full { h.entries.drop_first() } else { h.entries };
        HistoryView {
            dropped: if full { saturating_succ(h.dropped) } else { h.dropped },
            next: saturating_succ(h.next),
            exhausted: h.next == u64::MAX,
            entries: kept.push(entry),
            ..h
        }
    }
}

/// A plain record of a code.
pub open spec fn noted(
    h: HistoryView,
    now: Instant,
    code: DiagnosticCode,
    actor: Option<ActorRef>,
    operation: Option<OperationId>,
) -> HistoryView {
    recorded(h, now, code, actor, operation, None, None)
}

/// The entries after a sequence number, at most `limit` of them.
pub open spec fn entries_after(entries: Seq<DiagnosticEntry>, after: u64, limit: nat) -> Seq<
    DiagnosticEntry,
> {
    let newer = entries.filter(|e: DiagnosticEntry| e.sequence > after);
    if newer.len() <= limit {
        newer
    } else {
        newer.take(limit as int)
    }
}

pub open spec fn first_available(h: HistoryView) -> u64 {
    if h.entries.len() == 0 {
        h.next
    } else {
        h.entries[0].sequence
    }
}

/// A bounded ring of diagnostics with ascending sequence numbers.
pub struct History {
    capacity: usize,
    next: u64,
    dropped: u64,
    entries: Vec<DiagnosticEntry>,
    epoch: Instant,
    exhausted: bool,
}

impl View for History {
    type V = HistoryView;

    closed spec fn view(&self) -> HistoryView {
        HistoryView {
            capacity: self.capacity,
            next: self.next,
            dropped: self.dropped,
            exhausted: self.exhausted,
            epoch: self.epoch,
            entries: self.entries@,
        }
    }
}

/// Consecutive sequence numbers that end just before the next one.
pub open spec fn history_ok(h: HistoryView) -> bool {
    &&& h.entries.len() <= h.capacity
    &&& h.exhausted ==> h.next == u64::MAX
    &&& forall|i: int|
        0 <= i < h.entries.len() ==> (#[trigger] h.entries[i]).sequence == h.next - h.entries.len() + i
            + (if h.exhausted { 1int } else { 0int })
}

impl History {
    pub fn new(capacity: usize, epoch: Instant) -> (r: Self)
        ensures
            r@ == (HistoryView {
                capacity,
                next: 1,
                dropped: 0,
                exhausted: false,
                epoch,
                entries: Seq::empty(),
            }),
            history_ok(r@),
    {
        History::starting_at(capacity, epoch, 1)
    }

    /// An empty history whose next entry has the given sequence number.
    pub fn starting_at(capacity: usize, epoch: Instant, next: u64) -> (r: Self)
        ensures
            r@ == (HistoryView {
                capacity,
                next,
                dropped: 0,
                exhausted: false,
                epoch,
                entries: Seq::empty(),
            }),
            history_ok(r@),
    {
        History { capacity, next, dropped: 0, entries: Vec::new(), epoch, exhausted: false }
    }

    pub fn len(&self) -> (r: usize)
        ensures
            r == self@.entries.len(),
    {
        self.entries.len()
    }

    pub fn dropped(&self) -> (r: u64)
        ensures
            r == self@.dropped,
    {
        self.dropped
    }

    pub fn record(
        &mut self,
        now: Instant,
        code: DiagnosticCode,
        actor: Option<ActorRef>,
        operation: Option<OperationId>,
    )
        requires
            history_ok(old(self)@),
        ensures
            history_ok(final(self)@),
            final(self)@ == noted(old(self)@, now, code, actor, operation),
    {
        self.record_entry(now, code, actor, operation, None, None);
    }

    pub fn record_event(
        &mut self,
        now: Instant,
        code: DiagnosticCode,
        envelope: &Envelope,
        operation: Option<OperationId>,
    )
        requires
            history_ok(old(self)@),
        ensures
            history_ok(final(self)@),
            final(self)@ == recorded(
                old(self)@,
                now,
                code,
                Some(envelope.destination),
                operation,
                None,
                Some(*envelope),
            ),
    {
        self.record_entry(now, code, Some(envelope.destination), operation, None, Some(envelope));
    }

    pub fn record_failure(&mut self, now: Instant, failure: Arc<FailureRecord>)
        requires
            history_ok(old(self)@),
        ensures
            history_ok(final(self)@),
            final(self)@ == recorded(
                old(self)@,
                now,
                phase_code(failure.details.failed_in()),
                Some(failure.actor),
                failure.operation,
                Some(failure),
                None,
            ),
            old(self)@.capacity > 0 && !old(self)@.exhausted ==> {
                let phase = failure.details.failed_in();
                let entry = final(self)@.entries.last();
                &&& final(self)@.entries.len() > 0
                &&& phase == FailurePhase::Construction || phase == FailurePhase::Configure || phase
                    == FailurePhase::Start ==> entry.code == DiagnosticCode::StartupFailed
                &&& phase == FailurePhase::Handler ==> entry.code == DiagnosticCode::HandlerFailed
                &&& phase == FailurePhase::Stop ==> entry.code == DiagnosticCode::CleanupFailed
                &&& phase == FailurePhase::Supervisor ==> entry.code
                    == DiagnosticCode::SupervisorFailed
                &&& entry.actor == Some(failure.actor)
                &&& entry.operation == failure.operation
                &&& entry.event_id == failure.event_id
                &&& entry.failure == Some(failure)
            },
    {
        let code = match failure.details.phase() {
            FailurePhase::Handler => DiagnosticCode::HandlerFailed,
            FailurePhase::Stop => DiagnosticCode::CleanupFailed,
            FailurePhase::Supervisor => DiagnosticCode::SupervisorFailed,
            _ => DiagnosticCode::StartupFailed,
        };
        let actor = failure.actor;
        let operation = failure.operation;
        self.record_entry(now, code, Some(actor), operation, Some(failure), None);
    }

    fn record_entry(
        &mut self,
        now: Instant,
        code: DiagnosticCode,
        actor: Option<ActorRef>,
        operation: Option<OperationId>,
        failure: Option<Arc<FailureRecord>>,
        envelope: Option<&Envelope>,
    )
        requires
            history_ok(old(self)@),
        ensures
            history_ok(final(self)@),
            final(self)@ == recorded(
                old(self)@,
                now,
                code,
                actor,
                operation,
                failure,
                match envelope {
                    Some(e) => Some(*e),
                    None => None,
                },
            ),
    {
        if self.capacity == 0 || self.exhausted {
            self.dropped = self.dropped.saturating_add(1);
            return;
        }
        let ghost before = self.entries@;
        if self.entries.len() == self.capacity {
            let _oldest = self.entries.remove(0);
            assert(self.entries@ =~= before.drop_first());
            self.dropped = self.dropped.saturating_add(1);
        }
        let sequence = self.next;
        if sequence == u64::MAX {
            self.exhausted = true;
        } else {
            self.next = sequence + 1;
        }
        let elapsed_ns = now.since_ns(self.epoch);
        let event_id = match envelope {
            Some(e) => Some(e.event_id),
            None => match &failure {
                Some(f) => f.event_id,
                None => None,
            },
        };
        let correlation_id = match envelope {
            Some(e) => e.correlation_id,
            None => None,
        };
        let causation_id = match envelope {
            Some(e) => e.causation_id,
            None => None,
        };
        self.entries.push(
            DiagnosticEntry {
                sequence,
                elapsed_ns,
                code,
                actor,
                operation,
                event_id,
                correlation_id,
                causation_id,
                failure,
            },
        );
    }

    /// The entries after a cursor, and whether older ones are gone.
    pub fn read(&self, after: u64, limit: usize) -> (r: DiagnosticRead)
        ensures
            r.entries@ == entries_after(self@.entries, after, limit as nat),
            r.next_sequence == self@.next,
            r.dropped == self@.dropped,
            r.gap == (if saturating_succ(after) < first_available(self@) {
                Some(
                    DiagnosticGap {
                        first_available: first_available(self@),
                        requested_after: after,
                    },
                )
            } else {
                None
            }),
            self@.entries.len() > 0 ==> (r.gap is Some <==> after + 1 < self@.entries[0].sequence),
            self@.entries.len() == 0 ==> (r.gap is Some <==> after + 1 < self@.next),
            r.gap matches Some(gap) ==> gap.requested_after == after && (self@.entries.len() > 0
                ==> gap.first_available == self@.entries[0].sequence) && (self@.entries.len() == 0
                ==> gap.first_available == self@.next),
    {
        let first = if self.entries.len() == 0 {
            self.next
        } else {
            self.entries[0].sequence
        };
        let gap = if after.saturating_add(1) < first {
            Some(DiagnosticGap { first_available: first, requested_after: after })
        } else {
            None
        };
        let ghost newer = |e: DiagnosticEntry| e.sequence > after;
        let mut entries: Vec<DiagnosticEntry> = Vec::new();
        let mut i: usize = 0;
        assert(self.entries@.take(0) =~= Seq::<DiagnosticEntry>::empty());
        proof {
            reveal(Seq::filter);
        }
        while i < self.entries.len()
            invariant
                i <= self.entries.len(),
                newer == (|e: DiagnosticEntry| e.sequence > after),
                entries@ == entries_after(self.entries@.take(i as int), after, limit as nat),
            decreases self.entries.len() - i,
        {
            proof {
                reveal(Seq::filter);
                let shorter = self.entries@.take(i as int);
                let longer = self.entries@.take(i + 1);
                assert(longer.drop_last() =~= shorter);
                assert(longer.last() == self.entries@[i as int]);
                let fs = shorter.filter(newer);
                let fl = longer.filter(newer);
                assert(fl == if newer(longer.last()) { fs.push(longer.last()) } else { fs });
                if fs.len() >= limit {
                    assert(fl.take(limit as int) =~= fs.take(limit as int));
                    assert(fs.take(fs.len() as int) =~= fs);
                }
            }
            if entries.len() < limit && self.entries[i].sequence > after {
                entries.push(self.entries[i].clone());
            }
            i += 1;
        }
        assert(self.entries@.take(i as int) =~= self.entries@);
        DiagnosticRead { entries, next_sequence: self.next, dropped: self.dropped, gap }
    }
}

/// A sequence number is given out once: every later entry has a greater one.
pub proof fn sequences_ascend(h: HistoryView, i: int, j: int)
    requires
        history_ok(h),
        0 <= i < j < h.entries.len(),
    ensures
        h.entries[i].sequence < h.entries[j].sequence,
{
}

/// The code of a recorded failure names the phase that it happened in: what an
/// actor does before it runs, its handlers, its cleanup, or its supervision.
pub proof fn a_failure_is_recorded_by_its_phase(phase: FailurePhase)
    ensures
        phase_code(phase) == DiagnosticCode::StartupFailed <==> (phase == FailurePhase::Construction
            || phase == FailurePhase::Configure || phase == FailurePhase::Start),
        phase_code(phase) == DiagnosticCode::HandlerFailed <==> phase == FailurePhase::Handler,
        phase_code(phase) == DiagnosticCode::CleanupFailed <==> phase == FailurePhase::Stop,
        phase_code(phase) == DiagnosticCode::SupervisorFailed <==> phase
            == FailurePhase::Supervisor,
{
}

/// A refusal is recorded under a code of its own: no two errors share one, and
/// none has the code of a failure, a timeout or an end.
pub proof fn codes_tell_errors_apart(a: Error, b: Error, phase: FailurePhase)
    ensures
        code_of(a) == code_of(b) ==> a == b,
        code_of(a) != phase_code(phase),
        code_of(a) != DiagnosticCode::OperationTimedOut,
        code_of(a) != DiagnosticCode::OperationLateResult,
        code_of(a) != DiagnosticCode::OwnerStopped,
        code_of(a) != DiagnosticCode::TargetStopped,
        code_of(a) != DiagnosticCode::DrainTimeout,
        code_of(a) != DiagnosticCode::Cancelled,
{
}

/// What is recorded comes last, under the next number, as it was told. The
/// entries before it stay, but for the oldest where there is no more room; that
/// one is counted as dropped.
pub proof fn what_is_recorded_comes_last(
    h: HistoryView,
    now: Instant,
    code: DiagnosticCode,
    actor: Option<ActorRef>,
    operation: Option<OperationId>,
    failure: Option<Arc<FailureRecord>>,
    envelope: Option<Envelope>,
)
    requires
        history_ok(h),
        h.capacity > 0,
        !h.exhausted,
    ensures
        ({
            let n = recorded(h, now, code, actor, operation, failure, envelope);
            let last = n.entries.last();
            &&& n.capacity == h.capacity
            &&& n.epoch == h.epoch
            &&& n.entries.len() > 0
            &&& last.sequence == h.next
            &&& last.code == code
            &&& last.actor == actor
            &&& last.operation == operation
            &&& last.failure == failure
            &&& envelope matches Some(e) ==> {
                &&& last.event_id == Some(e.event_id)
                &&& last.correlation_id == e.correlation_id
                &&& last.causation_id == e.causation_id
            }
            &&& envelope is None ==> {
                &&& failure matches Some(f) ==> last.event_id == f.event_id
                &&& failure is None ==> last.event_id is None
                &&& last.correlation_id is None
                &&& last.causation_id is None
            }
            &&& now.nanos < h.epoch.nanos ==> last.elapsed_ns == 0
            &&& 0 <= now.nanos - h.epoch.nanos <= u64::MAX ==> last.elapsed_ns == now.nanos
                - h.epoch.nanos
            &&& now.nanos - h.epoch.nanos > u64::MAX ==> last.elapsed_ns == u64::MAX
            &&& h.next < u64::MAX ==> n.next == h.next + 1 && !n.exhausted
            &&& h.entries.len() < h.capacity ==> n.entries.drop_last() == h.entries && n.dropped
                == h.dropped
            &&& h.entries.len() == h.capacity ==> n.entries.drop_last() == h.entries.drop_first()
                && (h.dropped < u64::MAX ==> n.dropped == h.dropped + 1)
        }),
{
    let n = recorded(h, now, code, actor, operation, failure, envelope);
    let kept = if h.entries.len() >= h.capacity {
        h.entries.drop_first()
    } else {
        h.entries
    };
    assert(n.entries.drop_last() =~= kept);
}

/// A history without room, or out of numbers, keeps its entries and counts what
/// it could not take.
pub proof fn what_has_no_room_is_only_counted(
    h: HistoryView,
    now: Instant,
    code: DiagnosticCode,
    actor: Option<ActorRef>,
    operation: Option<OperationId>,
    failure: Option<Arc<FailureRecord>>,
    envelope: Option<Envelope>,
)
    requires
        h.capacity == 0 || h.exhausted,
    ensures
        ({
            let n = recorded(h, now, code, actor, operation, failure, envelope);
            &&& n.entries == h.entries
            &&& n.next == h.next
            &&& n.exhausted == h.exhausted
            &&& h.dropped < u64::MAX ==> n.dropped == h.dropped + 1
        }),
{
}

proof fn lemma_newer(h: HistoryView, after: u64, count: nat)
    requires
        history_ok(h),
        count <= h.entries.len(),
    ensures
        ({
            let newer = h.entries.take(count as int).filter(
                |e: DiagnosticEntry| e.sequence > after,
            );
            &&& newer.len() <= count
            &&& forall|k: int|
                0 <= k < newer.len() ==> #[trigger] newer[k] == h.entries[count - newer.len() + k]
            &&& forall|i: int|
                0 <= i < count ==> ((#[trigger] h.entries[i]).sequence > after <==> i >= count
                    - newer.len())
        }),
    decreases count,
{
    reveal(Seq::filter);
    let p = |e: DiagnosticEntry| e.sequence > after;
    let some = h.entries.take(count as int);
    if count == 0 {
        assert(some =~= Seq::<DiagnosticEntry>::empty());
    } else {
        let n = (count - 1) as nat;
        lemma_newer(h, after, n);
        assert(some.drop_last() =~= h.entries.take(n as int));
        assert(some.last() == h.entries[count - 1]);
        let fewer = h.entries.take(n as int).filter(p);
        let newer = some.filter(p);
        if p(some.last()) {
            assert(newer == fewer.push(some.last()));
        } else {
            assert(newer == fewer);
            if fewer.len() > 0 {
                assert(fewer[0] == h.entries[n - fewer.len()]);
                assert(h.entries[n - fewer.len()].sequence > after);
            }
        }
    }
}

/// A reader gets what lies behind the cursor, oldest first and without holes, as
/// far as the limit goes.
pub proof fn a_read_goes_on_behind_its_cursor(h: HistoryView, after: u64, limit: nat)
    requires
        history_ok(h),
    ensures
        ({
            let read = entries_after(h.entries, after, limit);
            &&& read.len() <= limit
            &&& forall|k: int| 0 <= k < read.len() ==> (#[trigger] read[k]).sequence > after
            &&& forall|k: int|
                0 <= k < read.len() ==> h.entries.contains(#[trigger] read[k]) && read[k].sequence
                    == read[0].sequence + k
            &&& read.len() < limit ==> forall|i: int|
                0 <= i < h.entries.len() && (#[trigger] h.entries[i]).sequence > after
                    ==> read.contains(h.entries[i])
            &&& forall|i: int|
                0 <= i < h.entries.len() && (#[trigger] h.entries[i]).sequence > after && limit > 0
                    ==> read.len() > 0 && read[0].sequence <= h.entries[i].sequence
        }),
{
    let p = |e: DiagnosticEntry| e.sequence > after;
    lemma_newer(h, after, h.entries.len());
    assert(h.entries.take(h.entries.len() as int) =~= h.entries);
    let newer = h.entries.filter(p);
    let read = entries_after(h.entries, after, limit);
    let start = h.entries.len() - newer.len();
    assert forall|k: int| 0 <= k < read.len() implies #[trigger] read[k] == h.entries[start + k] by {
        assert(newer[k] == h.entries[start + k]);
    }
    assert forall|k: int| 0 <= k < read.len() implies h.entries.contains(#[trigger] read[k])
        && read[k].sequence == read[0].sequence + k && read[k].sequence > after by {
        assert(read[k] == h.entries[start + k]);
        assert(read[0] == h.entries[start + 0]);
    }
    assert forall|i: int|
        0 <= i < h.entries.len() && (#[trigger] h.entries[i]).sequence > after && read.len()
            < limit implies read.contains(h.entries[i]) by {
        assert(read[i - start] == h.entries[i]);
    }
    assert forall|i: int|
        0 <= i < h.entries.len() && (#[trigger] h.entries[i]).sequence > after && limit
            > 0 implies read.len() > 0 && read[0].sequence <= h.entries[i].sequence by {
        assert(read[0] == h.entries[start + 0]);
    }
}

/// Recording keeps sequence numbers consecutive and the ring within capacity.
pub proof fn recording_keeps_order(
    h: HistoryView,
    now: Instant,
    code: DiagnosticCode,
    actor: Option<ActorRef>,
    operation: Option<OperationId>,
    failure: Option<Arc<FailureRecord>>,
    envelope: Option<Envelope>,
)
    requires
        history_ok(h),
    ensures
        history_ok(recorded(h, now, code, actor, operation, failure, envelope)),
{
}

} // verus!
