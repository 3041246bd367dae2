//! Publications that wait to be routed, and the tickets that report on them.
use vstd::prelude::*;
use std::sync::Arc;
use crate::clock::Instant;
use crate::held::Stored;
use crate::ordered;
use crate::ordered::{Key, MultiIndex, OrdMap, OrdSet};
use crate::sums;
use crate::types::{ActorRef, Error};

verus! {

#[derive(Clone, Copy, Debug, PartialEq, Eq, Structural)]
pub enum PublicationOutcome {
    Pending,
    Routed,
    Cancelled,
    Expired,
    FanoutLimit,
    SnapshotFull,
}

impl Default for PublicationOutcome {
    fn default() -> (r: Self)
        ensures
            r == PublicationOutcome::Pending,
    {
        PublicationOutcome::Pending
    }
}

/// How far a publication got.
#[derive(Clone, Copy, Debug, PartialEq, Eq, Structural)]
pub struct DeliveryReport {
    pub admitted: usize,
    pub rejected: usize,
    pub staged: usize,
    pub matched: usize,
    pub outcome: PublicationOutcome,
}

pub open spec fn empty_report() -> DeliveryReport {
    DeliveryReport {
        admitted: 0,
        rejected: 0,
        staged: 0,
        matched: 0,
        outcome: PublicationOutcome::Pending,
    }
}

impl Default for DeliveryReport {
    fn default() -> (r: Self)
        ensures
            r == empty_report(),
    {
        DeliveryReport {
            admitted: 0,
            rejected: 0,
            staged: 0,
            matched: 0,
            outcome: PublicationOutcome::Pending,
        }
    }
}

#[derive(Clone, Copy, Debug, PartialEq, Eq, Structural)]
pub enum PublicationStatus {
    Staged,
    Queued,
    Routing(DeliveryReport),
    Terminal(DeliveryReport),
}

/// What one routing turn did.
#[derive(Clone, Copy, Debug, PartialEq, Eq, Structural)]
pub struct RoutingProgress {
    pub destinations: usize,
    pub publications: usize,
    pub pending: usize,
    pub ready: bool,
}

impl Default for RoutingProgress {
    fn default() -> (r: Self)
        ensures
            r == (RoutingProgress { destinations: 0, publications: 0, pending: 0, ready: false }),
    {
        RoutingProgress { destinations: 0, publications: 0, pending: 0, ready: false }
    }
}

/// Acceptance of routing work, not a receipt for its delivery. A ticket holds
/// one bounded result slot until it is given back and routing has finished.
#[derive(Debug, PartialEq, Eq)]
pub struct PublicationTicket {
    id: u64,
    source: ActorRef,
}

impl PublicationTicket {
    pub closed spec fn number(self) -> u64 {
        self.id
    }

    pub closed spec fn publisher(self) -> ActorRef {
        self.source
    }

    pub(crate) fn make(id: u64, source: ActorRef) -> (r: Self)
        ensures
            r.number() == id,
            r.publisher() == source,
    {
        PublicationTicket { id, source }
    }

    pub fn id(&self) -> (r: u64)
        ensures
            r == self.number(),
    {
        self.id
    }

    pub fn source(&self) -> (r: ActorRef)
        ensures
            r == self.publisher(),
    {
        self.source
    }
}

/// A result slot: whose it is, what it says, and how many tickets share it.
#[derive(Clone, Copy, Debug, PartialEq, Eq, Structural)]
pub struct TicketSlot {
    pub source: ActorRef,
    pub status: PublicationStatus,
    pub handles: u64,
}

pub struct Publication {
    pub source: ActorRef,
    pub source_port: Option<u16>,
    pub stored: Arc<Stored>,
    pub staged: bool,
    pub completion: bool,
    pub routes: Option<Vec<(u64, ActorRef)>>,
    pub cursor: usize,
    pub report: DeliveryReport,
}

#[verifier::ext_equal]
pub struct PublicationView {
    pub source: ActorRef,
    pub source_port: Option<u16>,
    pub stored: Stored,
    pub staged: bool,
    pub completion: bool,
    pub routes: Option<Seq<(u64, ActorRef)>>,
    pub cursor: usize,
    pub report: DeliveryReport,
}

pub open spec fn routes_view(routes: Option<Vec<(u64, ActorRef)>>) -> Option<Seq<(u64, ActorRef)>> {
    match routes {
        Some(routes) => Some(routes@),
        None => None,
    }
}

impl View for Publication {
    type V = PublicationView;

    open spec fn view(&self) -> PublicationView {
        PublicationView {
            source: self.source,
            source_port: self.source_port,
            stored: *self.stored,
            staged: self.staged,
            completion: self.completion,
            routes: routes_view(self.routes),
            cursor: self.cursor,
            report: self.report,
        }
    }
}

impl PublicationView {
    pub open spec fn route_count(self) -> nat {
        match self.routes {
            Some(routes) => routes.len(),
            None => 0,
        }
    }

    /// The report counts what the cursor has passed, and no more.
    pub open spec fn counted(self) -> bool {
        &&& self.routes is None ==> self.cursor == 0 && self.report.matched == 0
        &&& self.routes matches Some(routes) ==> self.cursor <= routes.len()
            && self.report.matched == routes.len()
        &&& self.report.admitted + self.report.rejected == self.cursor
    }

    /// The destinations that were never tried.
    pub open spec fn untried(self) -> int {
        if self.routes is Some {
            self.report.matched - self.cursor
        } else {
            0
        }
    }

    /// The last report of a publication that ends with an outcome.
    pub open spec fn final_report(self, outcome: PublicationOutcome) -> DeliveryReport {
        DeliveryReport {
            outcome,
            rejected: (self.report.rejected + self.untried()) as usize,
            ..self.report
        }
    }
}

/// The contents of a table.
#[verifier::ext_equal]
pub struct PubsView {
    pub limit: usize,
    pub per_source: usize,
    pub next_id: u64,
    pub entries: Map<u64, PublicationView>,
    pub tickets: Map<u64, TicketSlot>,
    pub ready: Seq<ActorRef>,
}

/// A sequence without an element that occurs at most once.
pub open spec fn without(s: Seq<ActorRef>, x: ActorRef) -> Seq<ActorRef> {
    if s.contains(x) {
        s.remove(s.index_of(x))
    } else {
        s
    }
}

impl PubsView {
    pub open spec fn of_source(self, source: ActorRef) -> Set<u64> {
        self.entries.dom().filter(|id: u64| self.entries[id].source == source)
    }

    pub open spec fn tickets_of(self, source: ActorRef) -> Set<u64> {
        self.tickets.dom().filter(|id: u64| self.tickets[id].source == source)
    }

    /// The oldest publication of a source.
    pub open spec fn head(self, source: ActorRef) -> u64 {
        ordered::sorted(self.of_source(source))[0]
    }

    /// Whether the oldest publication of a source can be routed.
    pub open spec fn is_ready(self, source: ActorRef) -> bool {
        self.of_source(source) != Set::<u64>::empty() && !self.entries[self.head(source)].staged
    }

    /// The route entries that captured snapshots hold together.
    pub open spec fn snapshot_entries(self) -> nat {
        sums::sum_over(self.entries, |p: PublicationView| p.route_count())
    }

    pub open spec fn last_issued(self) -> u64 {
        (self.next_id - 1) as u64
    }

    /// Why a ticket is refused.
    pub open spec fn refuses(self, source: ActorRef) -> Option<Error> {
        if self.next_id == u64::MAX {
            Some(Error::LimitExceeded)
        } else if self.tickets.dom().len() >= self.limit || self.tickets_of(source).len()
            >= self.per_source {
            Some(Error::QueueFull)
        } else {
            None
        }
    }

    pub open spec fn reserved(self, source: ActorRef, staged: bool) -> PubsView {
        PubsView {
            next_id: (self.next_id + 1) as u64,
            tickets: self.tickets.insert(
                self.next_id,
                TicketSlot {
                    source,
                    status: if staged {
                        PublicationStatus::Staged
                    } else {
                        PublicationStatus::Queued
                    },
                    handles: 1,
                },
            ),
            ..self
        }
    }

    /// A source joins the ready queue once its oldest publication can be routed.
    pub open spec fn readied(self, source: ActorRef) -> PubsView {
        if self.is_ready(source) && !self.ready.contains(source) {
            PubsView { ready: self.ready.push(source), ..self }
        } else {
            self
        }
    }

    pub open spec fn inserted(self, id: u64, publication: PublicationView) -> PubsView {
        PubsView { entries: self.entries.insert(id, publication), ..self }.readied(
            publication.source,
        )
    }

    pub open spec fn with_status(self, id: u64, status: PublicationStatus) -> PubsView {
        PubsView {
            tickets: self.tickets.insert(id, TicketSlot { status, ..self.tickets[id] }),
            ..self
        }
    }

    /// After a staged publication may be routed.
    pub open spec fn unstaged(self, id: u64) -> PubsView {
        if self.entries.dom().contains(id) {
            let p = self.entries[id];
            PubsView {
                entries: self.entries.insert(id, PublicationView { staged: false, ..p }),
                ..self
            }.with_status(id, PublicationStatus::Queued).readied(p.source)
        } else {
            self
        }
    }

    /// After a turn that did not finish: the source goes to the back.
    pub open spec fn advanced(self, id: u64, publication: PublicationView) -> PubsView {
        PubsView {
            entries: self.entries.insert(id, publication),
            ready: without(self.ready, publication.source),
            ..self
        }.with_status(id, PublicationStatus::Routing(publication.report)).readied(publication.source)
    }

    /// After a publication ended: its ticket keeps the report as long as
    /// somebody holds it.
    pub open spec fn finished(self, id: u64, publication: PublicationView, outcome: PublicationOutcome) -> PubsView {
        let report = publication.final_report(outcome);
        PubsView {
            entries: self.entries.remove(id),
            ready: without(self.ready, publication.source),
            tickets: if self.tickets[id].handles == 0 {
                self.tickets.remove(id)
            } else {
                self.tickets.insert(
                    id,
                    TicketSlot {
                        status: PublicationStatus::Terminal(report),
                        ..self.tickets[id]
                    },
                )
            },
            ..self
        }.readied(publication.source)
    }

    pub open spec fn ticket_shared(self, id: u64) -> PubsView {
        if self.tickets.dom().contains(id) && self.tickets[id].handles < u64::MAX {
            PubsView {
                tickets: self.tickets.insert(
                    id,
                    TicketSlot {
                        handles: (self.tickets[id].handles + 1) as u64,
                        ..self.tickets[id]
                    },
                ),
                ..self
            }
        } else {
            self
        }
    }

    /// After a ticket was given back: the slot is free once routing is done too.
    pub open spec fn ticket_released(self, id: u64) -> PubsView {
        if !self.tickets.dom().contains(id) {
            self
        } else if self.tickets[id].handles > 1 {
            PubsView {
                tickets: self.tickets.insert(
                    id,
                    TicketSlot {
                        handles: (self.tickets[id].handles - 1) as u64,
                        ..self.tickets[id]
                    },
                ),
                ..self
            }
        } else if self.entries.dom().contains(id) {
            PubsView {
                tickets: self.tickets.insert(id, TicketSlot { handles: 0, ..self.tickets[id] }),
                ..self
            }
        } else {
            PubsView { tickets: self.tickets.remove(id), ..self }
        }
    }

    /// The publications that have come due.
    pub open spec fn due_marks(self, now: Instant) -> Set<DuePublication> {
        Set::new(
            |d: DuePublication|
                self.entries.dom().contains(d.id) && self.entries[d.id].stored.options.deadline
                    == Some(d.at) && d.at.nanos <= now.nanos,
        )
    }

    /// Their numbers, in the order in which they came due.
    pub open spec fn due_order(self, now: Instant) -> Seq<u64> {
        ids_of_marks(ordered::sorted(self.due_marks(now)))
    }

    /// The publications of a scope that wait, and those it only keeps a report of.
    pub open spec fn scope_counts(self, scope: Set<ActorRef>) -> (nat, nat) {
        (
            self.entries.dom().filter(|id: u64| scope.contains(self.entries[id].source)).len(),
            self.tickets.dom().filter(
                |id: u64|
                    scope.contains(self.tickets[id].source) && !self.entries.dom().contains(id),
            ).len(),
        )
    }

    /// Entries, tickets and the ready queue agree with each other.
    pub open spec fn consistent(self) -> bool {
        &&& self.next_id >= 1
        &&& self.entries.dom().finite()
        &&& self.tickets.dom().finite()
        &&& forall|id: u64| #[trigger]
            self.entries.dom().contains(id) ==> {
                &&& self.tickets.dom().contains(id)
                &&& self.tickets[id].source == self.entries[id].source
                &&& self.entries[id].counted()
            }
        &&& forall|id: u64| #[trigger] self.tickets.dom().contains(id) ==> id < self.next_id
        &&& self.tickets.dom().len() <= self.limit
        &&& self.ready.no_duplicates()
        &&& forall|s: ActorRef| #[trigger] self.ready.contains(s) <==> self.is_ready(s)
    }
}

impl PubsView {
    /// Whether no source holds more tickets than one may.
    #[verifier::opaque]
    pub open spec fn within_quota(self) -> bool {
        forall|s: ActorRef| (#[trigger] self.tickets_of(s)).len() <= self.per_source
    }
}

/// Whether a report is a last one: every destination that matched is counted.
pub open spec fn is_final(report: DeliveryReport) -> bool {
    &&& report.admitted + report.rejected == report.matched
    &&& report.outcome != PublicationOutcome::Pending
}

impl PubsView {
    /// Whether every last report adds up and belongs to a publication that ended.
    #[verifier::opaque]
    pub open spec fn settled(self) -> bool {
        forall|id: u64| #[trigger]
            self.tickets.dom().contains(id) ==> (self.tickets[id].status matches
                PublicationStatus::Terminal(report) ==> is_final(report)
                && !self.entries.dom().contains(id))
    }
}

/// What happens to one publication leaves the last reports of the others alone.
proof fn lemma_settled(before: PubsView, now: PubsView, id: u64)
    requires
        before.settled(),
        forall|k: u64| #[trigger]
            now.tickets.dom().contains(k) && k != id ==> before.tickets.dom().contains(k)
                && now.tickets[k].status == before.tickets[k].status,
        forall|k: u64| #[trigger]
            now.entries.dom().contains(k) && k != id ==> before.entries.dom().contains(k),
        now.tickets.dom().contains(id) ==> (now.tickets[id].status matches
            PublicationStatus::Terminal(report) ==> is_final(report)
            && !now.entries.dom().contains(id)),
    ensures
        now.settled(),
{
    reveal(PubsView::settled);
    assert forall|k: u64| #[trigger] now.tickets.dom().contains(k) implies (
    now.tickets[k].status matches PublicationStatus::Terminal(report) ==> is_final(report)
        && !now.entries.dom().contains(k)) by {
        if k != id {
            assert(before.tickets.dom().contains(k));
        }
    }
}

/// Tickets that keep their status keep their last reports.
proof fn lemma_status_kept(before: PubsView, now: PubsView)
    requires
        before.settled(),
        now.entries == before.entries,
        forall|k: u64| #[trigger]
            now.tickets.dom().contains(k) ==> before.tickets.dom().contains(k)
                && now.tickets[k].status == before.tickets[k].status,
    ensures
        now.settled(),
{
    reveal(PubsView::settled);
    assert forall|k: u64| #[trigger] now.tickets.dom().contains(k) implies (
    now.tickets[k].status matches PublicationStatus::Terminal(report) ==> is_final(report)
        && !now.entries.dom().contains(k)) by {
        assert(before.tickets.dom().contains(k));
    }
}

/// A last report is that of a publication that ended: it counts every
/// destination that matched, and says how the publication ended.
pub proof fn a_last_report_adds_up(table: PublicationTable, id: u64, report: DeliveryReport)
    requires
        table.wf(),
        table@.tickets.dom().contains(id),
        table@.tickets[id].status == PublicationStatus::Terminal(report),
    ensures
        report.admitted + report.rejected == report.matched,
        report.outcome != PublicationOutcome::Pending,
        !table@.entries.dom().contains(id),
{
    reveal(PubsView::settled);
}

/// A last report never changes: whatever else happens in a table, a ticket that
/// is still held keeps it.
pub proof fn a_last_report_stays(
    table: PublicationTable,
    id: u64,
    report: DeliveryReport,
    source: ActorRef,
    staged: bool,
    other: u64,
    publication: PublicationView,
    outcome: PublicationOutcome,
)
    requires
        table.wf(),
        table@.tickets.dom().contains(id),
        table@.tickets[id].status == PublicationStatus::Terminal(report),
    ensures
        ({
            let v = table@;
            let kept = PublicationStatus::Terminal(report);
            &&& v.reserved(source, staged).tickets.dom().contains(id) && v.reserved(
                source,
                staged,
            ).tickets[id].status == kept
            &&& v.inserted(other, publication).tickets[id].status == kept
            &&& v.unstaged(other).tickets[id].status == kept
            &&& v.entries.dom().contains(other) ==> v.advanced(other, publication).tickets[id].status
                == kept
            &&& v.entries.dom().contains(other) ==> v.finished(
                other,
                publication,
                outcome,
            ).tickets[id].status == kept
            &&& v.ticket_shared(other).tickets[id].status == kept
            &&& v.ticket_released(other).tickets.dom().contains(id) ==> v.ticket_released(
                other,
            ).tickets[id].status == kept
            &&& other != id ==> v.ticket_released(other).tickets.dom().contains(id)
        }),
{
    reveal(PubsView::settled);
    assert(!table@.entries.dom().contains(id));
    assert(id < table@.next_id);
}

/// Sources that hold no further tickets keep to their quota.
proof fn lemma_quota(before: PubsView, now: PubsView)
    requires
        before.within_quota(),
        before.tickets.dom().finite(),
        now.per_source == before.per_source,
        forall|k: u64| #[trigger]
            now.tickets.dom().contains(k) ==> before.tickets.dom().contains(k)
                && now.tickets[k].source == before.tickets[k].source,
    ensures
        now.within_quota(),
{
    reveal(PubsView::within_quota);
    assert forall|s: ActorRef| (#[trigger] now.tickets_of(s)).len() <= now.per_source by {
        let held = before.tickets_of(s);
        assert(held.subset_of(before.tickets.dom()));
        vstd::set_lib::lemma_len_subset(held, before.tickets.dom());
        assert(now.tickets_of(s).subset_of(held));
        vstd::set_lib::lemma_len_subset(now.tickets_of(s), held);
    }
}

/// A publication in the order in which it comes due.
#[derive(Clone, Copy, Debug, PartialEq, Eq, Structural)]
pub struct DuePublication {
    pub at: Instant,
    pub id: u64,
}

pub open spec fn ids_of_marks(marks: Seq<DuePublication>) -> Seq<u64> {
    marks.map_values(|d: DuePublication| d.id)
}

impl Key for DuePublication {
    open spec fn lt(a: Self, b: Self) -> bool {
        a.at.nanos < b.at.nanos || (a.at.nanos == b.at.nanos && a.id < b.id)
    }

    proof fn lt_irreflexive(a: Self) {
    }

    proof fn lt_transitive(a: Self, b: Self, c: Self) {
    }

    proof fn lt_total(a: Self, b: Self) {
    }

    fn less(&self, other: &Self) -> (r: bool) {
        self.at.nanos < other.at.nanos || (self.at.nanos == other.at.nanos && self.id < other.id)
    }
}

pub struct PublicationTable {
    limit: usize,
    per_source: usize,
    next_id: u64,
    entries: OrdMap<u64, Publication>,
    by_source: MultiIndex<ActorRef, u64>,
    tickets: OrdMap<u64, TicketSlot>,
    by_ticket_source: MultiIndex<ActorRef, u64>,
    ready: Vec<ActorRef>,
    deadlines: OrdSet<DuePublication>,
    snapshot_entries: usize,
}

impl View for PublicationTable {
    type V = PubsView;

    closed spec fn view(&self) -> PubsView {
        PubsView {
            limit: self.limit,
            per_source: self.per_source,
            next_id: self.next_id,
            entries: self.entries@.map_values(|p: Publication| p@),
            tickets: self.tickets@,
            ready: self.ready@,
        }
    }
}

impl PublicationTable {
    spec fn indexed(self, v: PubsView) -> bool {
        &&& self.by_source.wf()
        &&& self.by_ticket_source.wf()
        &&& self.deadlines.wf()
        &&& self.snapshot_entries == v.snapshot_entries()
        &&& forall|s: ActorRef| #[trigger] self.by_source.at(s) == v.of_source(s)
        &&& forall|s: ActorRef| #[trigger] self.by_ticket_source.at(s) == v.tickets_of(s)
        &&& forall|d: DuePublication| #[trigger]
            self.deadlines@.contains(d) <==> v.entries.dom().contains(d.id)
                && v.entries[d.id].stored.options.deadline == Some(d.at)
    }

    pub closed spec fn wf(self) -> bool {
        &&& self.entries.wf()
        &&& self.tickets.wf()
        &&& self.indexed(self@)
        &&& self@.consistent()
        &&& self@.within_quota()
        &&& self@.settled()
    }

    pub proof fn lemma_consistent(self)
        requires
            self.wf(),
        ensures
            self@.consistent(),
            self@.within_quota(),
            self@.settled(),
            self@.snapshot_entries() <= usize::MAX,
    {
    }

    pub fn new(limit: usize, per_source: usize) -> (r: Self)
        ensures
            r.wf(),
            r@ == (PubsView {
                limit,
                per_source,
                next_id: 1,
                entries: Map::empty(),
                tickets: Map::empty(),
                ready: Seq::empty(),
            }),
    {
        PublicationTable::numbered_from(limit, per_source, 1)
    }

    /// An empty table whose first publication has the given number.
    pub fn numbered_from(limit: usize, per_source: usize, next_id: u64) -> (r: Self)
        requires
            next_id >= 1,
        ensures
            r.wf(),
            r@ == (PubsView {
                limit,
                per_source,
                next_id,
                entries: Map::empty(),
                tickets: Map::empty(),
                ready: Seq::empty(),
            }),
    {
        let r = PublicationTable {
            limit,
            per_source,
            next_id,
            entries: OrdMap::new(),
            by_source: MultiIndex::new(),
            tickets: OrdMap::new(),
            by_ticket_source: MultiIndex::new(),
            ready: Vec::new(),
            deadlines: OrdSet::new(),
            snapshot_entries: 0,
        };
        proof {
            assert(r@.entries =~= Map::empty());
            sums::lemma_sum_empty::<PublicationView>(|p: PublicationView| p.route_count());
            assert forall|s: ActorRef| #[trigger] r.by_source.at(s) == r@.of_source(s) by {
                assert(r@.of_source(s) =~= Set::empty());
            }
            assert forall|s: ActorRef| #[trigger] r.by_ticket_source.at(s) == r@.tickets_of(s) by {
                assert(r@.tickets_of(s) =~= Set::empty());
            }
            assert forall|s: ActorRef| #[trigger] r@.ready.contains(s) <==> r@.is_ready(s) by {
                assert(r@.of_source(s) =~= Set::empty());
            }
            reveal(PubsView::within_quota);
            reveal(PubsView::settled);
            assert forall|s: ActorRef| (#[trigger] r@.tickets_of(s)).len() <= per_source by {
                assert(r@.tickets_of(s) =~= Set::empty());
            }
        }
        r
    }

    pub fn pending(&self) -> (r: usize)
        requires
            self.wf(),
        ensures
            r == self@.entries.dom().len(),
    {
        assert(self@.entries.dom() =~= self.entries@.dom());
        self.entries.len()
    }

    pub fn retained(&self) -> (r: usize)
        requires
            self.wf(),
        ensures
            r == self@.tickets.dom().len() - self@.entries.dom().len(),
    {
        proof {
            assert(self@.entries.dom() =~= self.entries@.dom());
            assert(self@.entries.dom().subset_of(self@.tickets.dom()));
            vstd::set_lib::lemma_len_subset(self@.entries.dom(), self@.tickets.dom());
        }
        self.tickets.len() - self.entries.len()
    }

    pub fn pending_for(&self, source: ActorRef) -> (r: usize)
        requires
            self.wf(),
        ensures
            r == self@.of_source(source).len(),
    {
        self.by_source.count(&source)
    }

    pub fn last_issued(&self) -> (r: u64)
        requires
            self.wf(),
        ensures
            r == self@.last_issued(),
    {
        self.next_id - 1
    }

    pub fn snapshot_entries(&self) -> (r: usize)
        requires
            self.wf(),
        ensures
            r == self@.snapshot_entries(),
    {
        self.snapshot_entries
    }

    pub fn is_ready(&self) -> (r: bool)
        ensures
            r == (self@.ready.len() > 0),
    {
        self.ready.len() > 0
    }

    /// The publications of a source, oldest first.
    pub fn ids_of(&self, source: ActorRef) -> (r: Vec<u64>)
        requires
            self.wf(),
        ensures
            r@ == ordered::sorted(self@.of_source(source)),
            r@.to_set() == self@.of_source(source),
    {
        self.by_source.list(&source)
    }

    /// The publications whose deadline has come, earliest deadline first.
    pub fn due_ids(&self, now: Instant) -> (r: Vec<u64>)
        requires
            self.wf(),
        ensures
            r@ == self@.due_order(now),
    {
        let mut ids: Vec<u64> = Vec::new();
        let count = self.deadlines.len();
        let mut i: usize = 0;
        let ghost listing = self.deadlines.listing();
        proof {
            self.deadlines.lemma_listing();
        }
        while i < count && self.deadlines.at(i).at.nanos <= now.nanos
            invariant
                self.wf(),
                listing == self.deadlines.listing(),
                count == listing.len(),
                count == self.deadlines@.len(),
                listing.to_set() == self.deadlines@,
                ordered::ascending(listing),
                i <= count,
                forall|j: int| 0 <= j < i ==> (#[trigger] listing[j]).at.nanos <= now.nanos,
                ids@ == ids_of_marks(listing.take(i as int)),
            decreases count - i,
        {
            let due = self.deadlines.at(i);
            ids.push(due.id);
            i += 1;
            assert(ids@ =~= ids_of_marks(listing.take(i as int)));
        }
        proof {
            let head = listing.take(i as int);
            assert forall|d: DuePublication| #[trigger] head.to_set().contains(d) <==> self@.due_marks(
                now,
            ).contains(d) by {
                if head.contains(d) {
                    let j = head.index_of(d);
                    assert(listing[j] == d);
                    assert(listing.contains(d));
                    assert(listing.to_set().contains(d));
                }
                if self@.due_marks(now).contains(d) {
                    assert(self.deadlines@.contains(d));
                    assert(listing.to_set().contains(d));
                    let j = listing.index_of(d);
                    assert(listing[j] == d);
                    if j >= i {
                        if j > i {
                            assert(DuePublication::lt(listing[i as int], listing[j]));
                        }
                        assert(false);
                    }
                    assert(head[j] == d);
                }
            }
            assert(head.to_set() =~= self@.due_marks(now));
            assert(ordered::ascending(head));
            ordered::lemma_sorted_is(head);
        }
        ids
    }

    /// The source whose turn it is, and its oldest publication.
    pub fn next_turn(&self) -> (r: Option<(ActorRef, u64)>)
        requires
            self.wf(),
        ensures
            r == (if self@.ready.len() > 0 {
                Some((self@.ready[0], self@.head(self@.ready[0])))
            } else {
                None
            }),
            r matches Some((source, id)) ==> self@.entries.dom().contains(id)
                && self@.entries[id].source == source,
    {
        if self.ready.len() == 0 {
            return None;
        }
        let source: ActorRef = self.ready[0];
        proof {
            assert(self@.ready.contains(source));
            assert(self@.is_ready(source));
        }
        match self.by_source.front(&source) {
            Some(id) => Some((source, id)),
            None => None,
        }
    }

    pub fn get(&self, id: u64) -> (r: Option<&Publication>)
        requires
            self.wf(),
        ensures
            match r {
                Some(p) => self@.entries.dom().contains(id) && self@.entries[id] == p@,
                None => !self@.entries.dom().contains(id),
            },
    {
        self.entries.get(&id)
    }

    pub fn status(&self, id: u64) -> (r: Option<PublicationStatus>)
        requires
            self.wf(),
        ensures
            r == (if self@.tickets.dom().contains(id) {
                Some(self@.tickets[id].status)
            } else {
                None
            }),
    {
        match self.tickets.get(&id) {
            Some(slot) => Some(slot.status),
            None => None,
        }
    }

    /// Reserves a result slot and a number, or says why not.
    pub fn reserve(&mut self, source: ActorRef, staged: bool) -> (r: Result<u64, Error>)
        requires
            old(self).wf(),
        ensures
            final(self).wf(),
            old(self)@.refuses(source) matches Some(e) ==> r == Err::<u64, Error>(e)
                && final(self)@ == old(self)@,
            old(self)@.refuses(source) is None ==> r == Ok::<u64, Error>(old(self)@.next_id)
                && final(self)@ == old(self)@.reserved(source, staged),
    {
        if self.next_id == u64::MAX {
            return Err(Error::LimitExceeded);
        }
        if self.tickets.len() >= self.limit || self.by_ticket_source.count(&source)
            >= self.per_source {
            return Err(Error::QueueFull);
        }
        let id = self.next_id;
        let ghost before = self@;
        let status = if staged {
            PublicationStatus::Staged
        } else {
            PublicationStatus::Queued
        };
        let _none = self.tickets.insert(id, TicketSlot { source, status, handles: 1 });
        self.by_ticket_source.insert(source, id);
        self.next_id = id + 1;
        proof {
            let now = before.reserved(source, staged);
            assert(self@.entries == before.entries);
            assert forall|s: ActorRef| #[trigger] self.by_source.at(s) == now.of_source(s) by {
                assert(now.of_source(s) =~= before.of_source(s));
            }
            assert forall|s: ActorRef| #[trigger] self.by_ticket_source.at(s) == now.tickets_of(s) by {
                if s == source {
                    assert(now.tickets_of(s) =~= before.tickets_of(s).insert(id));
                } else {
                    assert(now.tickets_of(s) =~= before.tickets_of(s));
                }
            }
            assert forall|s: ActorRef| #[trigger] now.ready.contains(s) <==> now.is_ready(s) by {
                assert(now.of_source(s) =~= before.of_source(s));
                assert(before.ready.contains(s) <==> before.is_ready(s));
            }
            lemma_settled(before, now, id);
            reveal(PubsView::within_quota);
            assert forall|s: ActorRef| (#[trigger] now.tickets_of(s)).len() <= now.per_source by {
                let held = before.tickets_of(s);
                if s == source {
                    assert(held.subset_of(before.tickets.dom()));
                    vstd::set_lib::lemma_len_subset(held, before.tickets.dom());
                    assert(now.tickets_of(s) =~= held.insert(id));
                } else {
                    assert(now.tickets_of(s) =~= held);
                }
            }
        }
        Ok(id)
    }

    /// The ready queue follows the heads of the sources.
    fn ready_source(&mut self, source: ActorRef)
        requires
            old(self).entries.wf(),
            old(self).tickets.wf(),
            old(self).indexed(old(self)@),
        ensures
            final(self).entries.wf(),
            final(self).tickets.wf(),
            final(self).indexed(final(self)@),
            final(self)@ == old(self)@.readied(source),
    {
        let head = match self.by_source.front(&source) {
            Some(id) => id,
            None => return,
        };
        let staged: bool = match self.entries.get(&head) {
            Some(p) => p.staged,
            None => true,
        };
        let mut present = false;
        let mut i: usize = 0;
        while i < self.ready.len()
            invariant
                i <= self.ready.len(),
                present == exists|j: int| 0 <= j < i && #[trigger] self.ready@[j] == source,
            decreases self.ready.len() - i,
        {
            if self.ready[i] == source {
                present = true;
                assert(self.ready@[i as int] == source);
            }
            i += 1;
        }
        assert(present == self.ready@.contains(source));
        let ghost before = self@;
        proof {
            assert(before.entries.dom().contains(head));
        }
        if !staged && !present {
            self.ready.push(source);
            proof {
                let now = before.readied(source);
                assert(self@.entries == before.entries);
                assert forall|s: ActorRef| #[trigger] self.by_source.at(s) == now.of_source(s) by {
                    assert(now.of_source(s) =~= before.of_source(s));
                }
                assert forall|s: ActorRef| #[trigger] self.by_ticket_source.at(s)
                    == now.tickets_of(s) by {
                    assert(now.tickets_of(s) =~= before.tickets_of(s));
                }
            }
        }
    }

    fn leave_ready(&mut self, source: ActorRef)
        requires
            old(self).ready@.no_duplicates(),
        ensures
            final(self).limit == old(self).limit,
            final(self).per_source == old(self).per_source,
            final(self).next_id == old(self).next_id,
            final(self).entries == old(self).entries,
            final(self).by_source == old(self).by_source,
            final(self).tickets == old(self).tickets,
            final(self).by_ticket_source == old(self).by_ticket_source,
            final(self).deadlines == old(self).deadlines,
            final(self).snapshot_entries == old(self).snapshot_entries,
            final(self).ready@ == without(old(self).ready@, source),
            final(self).ready@.no_duplicates(),
            forall|s: ActorRef| #[trigger]
                final(self).ready@.contains(s) <==> s != source && old(self).ready@.contains(s),
    {
        let ghost before = self.ready@;
        let mut i: usize = 0;
        while i < self.ready.len() && self.ready[i] != source
            invariant
                i <= self.ready.len(),
                before == self.ready@,
                forall|j: int| 0 <= j < i ==> #[trigger] self.ready@[j] != source,
            decreases self.ready.len() - i,
        {
            i += 1;
        }
        if i < self.ready.len() {
            proof {
                assert(before[i as int] == source);
                assert(before.contains(source));
                let k = before.index_of(source);
                assert(before[k] == source);
                assert(k == i);
            }
            let _left = self.ready.remove(i);
            proof {
                assert forall|s: ActorRef| #[trigger] self.ready@.contains(s) <==> s != source
                    && before.contains(s) by {
                    if self.ready@.contains(s) {
                        let j = self.ready@.index_of(s);
                        assert(self.ready@[j] == s);
                        if j < i {
                            assert(before[j] == s);
                        } else {
                            assert(before[j + 1] == s);
                        }
                    }
                    if s != source && before.contains(s) {
                        let j = before.index_of(s);
                        assert(before[j] == s);
                        if j < i {
                            assert(self.ready@[j] == s);
                        } else {
                            assert(self.ready@[j - 1] == s);
                        }
                    }
                }
            }
        } else {
            assert(!before.contains(source)) by {
                if before.contains(source) {
                    let j = before.index_of(source);
                    assert(before[j] == source);
                }
            }
        }
    }

    /// Queues a publication under a reserved number.
    pub fn insert(&mut self, id: u64, publication: Publication)
        requires
            old(self).wf(),
            !old(self)@.entries.dom().contains(id),
            id + 1 == old(self)@.next_id,
            old(self)@.tickets.dom().contains(id),
            old(self)@.tickets[id].source == publication.source,
            !(old(self)@.tickets[id].status is Terminal),
            publication@.counted(),
            publication.routes is None,
        ensures
            final(self).wf(),
            final(self)@ == old(self)@.inserted(id, publication@),
            final(self)@.snapshot_entries() == old(self)@.snapshot_entries(),
    {
        let source = publication.source;
        let deadline = publication.stored.options.deadline;
        let ghost before = self@;
        let ghost p = publication@;
        match deadline {
            Some(at) => {
                let _added = self.deadlines.insert(DuePublication { at, id });
            },
            None => {},
        }
        self.by_source.insert(source, id);
        proof {
            self.entries.lemma_listing();
            assert(before.entries.dom() =~= self.entries@.dom());
            sums::lemma_sum_insert(
                before.entries,
                |p: PublicationView| p.route_count(),
                id,
                p,
            );
        }
        let _none = self.entries.insert(id, publication);
        let ghost mid = PubsView { entries: before.entries.insert(id, p), ..before };
        proof {
            assert(self@.entries =~= mid.entries);
            assert forall|s: ActorRef| #[trigger] self.by_source.at(s) == mid.of_source(s) by {
                if s == source {
                    assert(mid.of_source(s) =~= before.of_source(s).insert(id));
                } else {
                    assert(mid.of_source(s) =~= before.of_source(s));
                }
            }
            assert forall|s: ActorRef| #[trigger] self.by_ticket_source.at(s) == mid.tickets_of(s) by {
                assert(mid.tickets_of(s) =~= before.tickets_of(s));
            }
            assert(self.indexed(mid));
        }
        self.ready_source(source);
        proof {
            before.lemma_entry_added(id, p);
            lemma_quota(before, self@);
            lemma_settled(before, self@, id);
        }
    }

    /// Lets a staged publication be routed.
    pub fn unstage(&mut self, id: u64) -> (r: Option<ActorRef>)
        requires
            old(self).wf(),
        ensures
            final(self).wf(),
            final(self)@ == old(self)@.unstaged(id),
            final(self)@.snapshot_entries() == old(self)@.snapshot_entries(),
            r == (if old(self)@.entries.dom().contains(id) {
                Some(old(self)@.entries[id].source)
            } else {
                None
            }),
    {
        let ghost before = self@;
        let source = match self.entries.get_mut(&id) {
            Some(p) => {
                p.staged = false;
                p.source
            },
            None => return None,
        };
        let ghost p = before.entries[id];
        assert(before.entries.dom().contains(id));
        let ghost mid = PubsView {
            entries: before.entries.insert(id, PublicationView { staged: false, ..p }),
            ..before
        };
        self.put_status(id, PublicationStatus::Queued);
        proof {
            assert(self@.entries =~= mid.entries);
            self.lemma_reindexed(before, mid.with_status(id, PublicationStatus::Queued), id);
        }
        self.ready_source(source);
        proof {
            before.lemma_entry_changed(
                id,
                PublicationView { staged: false, ..p },
                PublicationStatus::Queued,
                before.ready,
            );
            lemma_quota(before, self@);
            lemma_settled(before, self@, id);
        }
        Some(source)
    }

    fn put_status(&mut self, id: u64, status: PublicationStatus)
        requires
            old(self).tickets.wf(),
            old(self).tickets@.dom().contains(id),
        ensures
            final(self).limit == old(self).limit,
            final(self).per_source == old(self).per_source,
            final(self).next_id == old(self).next_id,
            final(self).entries == old(self).entries,
            final(self).by_source == old(self).by_source,
            final(self).by_ticket_source == old(self).by_ticket_source,
            final(self).deadlines == old(self).deadlines,
            final(self).snapshot_entries == old(self).snapshot_entries,
            final(self).ready == old(self).ready,
            final(self).tickets.wf(),
            final(self).tickets@ == old(self).tickets@.insert(
                id,
                TicketSlot { status, ..old(self).tickets@[id] },
            ),
    {
        match self.tickets.get_mut(&id) {
            Some(slot) => {
                slot.status = status;
            },
            None => {},
        }
    }

    /// An entry that keeps its source, deadline and number of routes keeps
    /// every index.
    proof fn lemma_reindexed(self, before: PubsView, now: PubsView, id: u64)
        requires
            self.by_source.wf(),
            self.by_ticket_source.wf(),
            self.deadlines.wf(),
            before.consistent(),
            before.entries.dom().contains(id),
            now.entries == before.entries.insert(id, now.entries[id]),
            now.entries[id].source == before.entries[id].source,
            now.entries[id].stored == before.entries[id].stored,
            now.tickets == before.tickets.insert(id, now.tickets[id]),
            now.tickets[id].source == before.tickets[id].source,
            self.snapshot_entries == before.snapshot_entries() - before.entries[id].route_count()
                + now.entries[id].route_count(),
            forall|s: ActorRef| #[trigger] self.by_source.at(s) == before.of_source(s),
            forall|s: ActorRef| #[trigger] self.by_ticket_source.at(s) == before.tickets_of(s),
            forall|d: DuePublication| #[trigger]
                self.deadlines@.contains(d) <==> before.entries.dom().contains(d.id)
                    && before.entries[d.id].stored.options.deadline == Some(d.at),
        ensures
            self.indexed(now),
    {
        sums::lemma_sum_insert(
            before.entries,
            |p: PublicationView| p.route_count(),
            id,
            now.entries[id],
        );
        assert(now.entries.dom() =~= before.entries.dom());
        assert(now.tickets.dom() =~= before.tickets.dom());
        assert forall|s: ActorRef| #[trigger] self.by_source.at(s) == now.of_source(s) by {
            assert(now.of_source(s) =~= before.of_source(s));
        }
        assert forall|s: ActorRef| #[trigger] self.by_ticket_source.at(s) == now.tickets_of(s) by {
            assert(now.tickets_of(s) =~= before.tickets_of(s));
        }
    }

    /// Records a turn that left destinations for a later one.
    pub fn advance(
        &mut self,
        id: u64,
        routes: Option<Vec<(u64, ActorRef)>>,
        cursor: usize,
        report: DeliveryReport,
    )
        requires
            old(self).wf(),
            old(self)@.entries.dom().contains(id),
            old(self)@.entries[id].advanced_to(
                routes_view(routes),
                cursor,
                report,
            ).counted(),
            old(self)@.snapshot_entries() - old(self)@.entries[id].route_count() + (match routes {
                Some(routes) => routes@.len(),
                None => 0,
            }) <= usize::MAX,
        ensures
            final(self).wf(),
            final(self)@ == old(self)@.advanced(
                id,
                old(self)@.entries[id].advanced_to(
                    routes_view(routes),
                    cursor,
                    report,
                ),
            ),
            final(self)@.snapshot_entries() == old(self)@.snapshot_entries()
                - old(self)@.entries[id].route_count() + (match routes {
                Some(routes) => routes@.len(),
                None => 0,
            }),
    {
        let ghost before = self@;
        let ghost told = routes_view(routes);
        let ghost p = before.entries[id].advanced_to(told, cursor, report);
        proof {
            self.entries.lemma_listing();
            assert(before.entries.dom() =~= self.entries@.dom());
            sums::lemma_sum_insert(before.entries, |p: PublicationView| p.route_count(), id, p);
        }
        let more: usize = match &routes {
            Some(routes) => routes.len(),
            None => 0,
        };
        let source = match self.entries.get_mut(&id) {
            Some(entry) => {
                let less: usize = match &entry.routes {
                    Some(routes) => routes.len(),
                    None => 0,
                };
                self.snapshot_entries = self.snapshot_entries - less + more;
                entry.routes = routes;
                entry.cursor = cursor;
                entry.report = report;
                entry.source
            },
            None => return,
        };
        self.put_status(id, PublicationStatus::Routing(report));
        self.leave_ready(source);
        let ghost mid = PubsView {
            entries: before.entries.insert(id, p),
            ready: without(before.ready, source),
            ..before
        }.with_status(id, PublicationStatus::Routing(report));
        proof {
            assert(self@.entries =~= mid.entries);
            self.lemma_reindexed(before, mid, id);
        }
        self.ready_source(source);
        proof {
            before.lemma_entry_changed(
                id,
                p,
                PublicationStatus::Routing(report),
                without(before.ready, source),
            );
            lemma_quota(before, self@);
            lemma_settled(before, self@, id);
        }
    }

    /// Takes a publication out with its last report: what it held, and how
    /// many of its destinations were never tried.
    pub fn finish(&mut self, id: u64, outcome: PublicationOutcome) -> (r: Option<(Publication, usize)>)
        requires
            old(self).wf(),
            outcome != PublicationOutcome::Pending,
        ensures
            final(self).wf(),
            final(self)@.snapshot_entries() <= old(self)@.snapshot_entries(),
            match r {
                Some((publication, untried)) => {
                    &&& old(self)@.entries.dom().contains(id)
                    &&& publication@ == old(self)@.entries[id]
                    &&& untried == publication@.untried()
                    &&& final(self)@ == old(self)@.finished(id, publication@, outcome)
                },
                None => !old(self)@.entries.dom().contains(id) && final(self)@ == old(self)@,
            },
    {
        let ghost before = self@;
        proof {
            self.entries.lemma_listing();
            self.tickets.lemma_listing();
            assert(before.entries.dom() =~= self.entries@.dom());
        }
        let publication = match self.entries.remove(&id) {
            Some(publication) => publication,
            None => {
                assert(self@.entries =~= before.entries);
                return None;
            },
        };
        let ghost p = publication@;
        proof {
            assert(before.entries.dom().contains(id));
            assert(before.entries[id] == p);
            sums::lemma_sum_remove(before.entries, |p: PublicationView| p.route_count(), id);
        }
        let untried: usize = match &publication.routes {
            Some(routes) => {
                self.snapshot_entries = self.snapshot_entries - routes.len();
                publication.report.matched - publication.cursor
            },
            None => 0,
        };
        let report = DeliveryReport {
            admitted: publication.report.admitted,
            rejected: publication.report.rejected + untried,
            staged: publication.report.staged,
            matched: publication.report.matched,
            outcome,
        };
        match publication.stored.options.deadline {
            Some(at) => {
                let _removed = self.deadlines.remove(&DuePublication { at, id });
            },
            None => {},
        }
        let source = publication.source;
        self.by_source.remove(&source, &id);
        let held: bool = match self.tickets.get(&id) {
            Some(slot) => slot.handles > 0,
            None => false,
        };
        if held {
            self.put_status(id, PublicationStatus::Terminal(report));
        } else {
            let _gone = self.tickets.remove(&id);
            self.by_ticket_source.remove(&source, &id);
        }
        self.leave_ready(source);
        let ghost mid = PubsView {
            entries: before.entries.remove(id),
            ready: without(before.ready, p.source),
            tickets: if before.tickets[id].handles == 0 {
                before.tickets.remove(id)
            } else {
                before.tickets.insert(
                    id,
                    TicketSlot {
                        status: PublicationStatus::Terminal(p.final_report(outcome)),
                        ..before.tickets[id]
                    },
                )
            },
            ..before
        };
        proof {
            assert(self@.entries =~= mid.entries);
            assert forall|s: ActorRef| #[trigger] self.by_source.at(s) == mid.of_source(s) by {
                assert(mid.of_source(s) =~= before.of_source(s).remove(id));
                if s != source {
                    assert(before.of_source(s).remove(id) =~= before.of_source(s));
                }
            }
            assert forall|s: ActorRef| #[trigger] self.by_ticket_source.at(s) == mid.tickets_of(s) by {
                if before.tickets[id].handles == 0 {
                    assert(mid.tickets_of(s) =~= before.tickets_of(s).remove(id));
                    if s != source {
                        assert(before.tickets_of(s).remove(id) =~= before.tickets_of(s));
                    }
                } else {
                    assert(mid.tickets_of(s) =~= before.tickets_of(s));
                }
            }
            assert(self@ =~= mid);
            assert(self.indexed(mid));
        }
        self.ready_source(source);
        proof {
            before.lemma_entry_removed(id, mid);
            lemma_quota(before, self@);
            lemma_settled(before, self@, id);
        }
        Some((publication, untried))
    }

    /// Another ticket on the same result slot.
    pub fn share_ticket(&mut self, id: u64)
        requires
            old(self).wf(),
        ensures
            final(self).wf(),
            final(self)@ == old(self)@.ticket_shared(id),
    {
        let ghost before = self@;
        match self.tickets.get_mut(&id) {
            Some(slot) => {
                if slot.handles < u64::MAX {
                    slot.handles = slot.handles + 1;
                }
            },
            None => return,
        }
        proof {
            let now = before.ticket_shared(id);
            assert(now.tickets.dom() =~= before.tickets.dom());
            assert(self@ =~= now);
            self.lemma_tickets_changed(before, now);
            lemma_quota(before, now);
            lemma_status_kept(before, now);
        }
    }

    proof fn lemma_tickets_changed(self, before: PubsView, now: PubsView)
        requires
            before.consistent(),
            self.indexed(before),
            now.entries == before.entries,
            now.ready == before.ready,
            now.next_id == before.next_id,
            now.limit == before.limit,
            now.tickets.dom() == before.tickets.dom(),
            forall|k: u64| #[trigger]
                before.tickets.dom().contains(k) ==> now.tickets[k].source == before.tickets[k].source,
        ensures
            self.indexed(now),
            now.consistent(),
    {
        assert forall|s: ActorRef| #[trigger] self.by_source.at(s) == now.of_source(s) by {
            assert(now.of_source(s) =~= before.of_source(s));
        }
        assert forall|s: ActorRef| #[trigger] self.by_ticket_source.at(s) == now.tickets_of(s) by {
            assert(now.tickets_of(s) =~= before.tickets_of(s));
        }
        assert forall|s: ActorRef| #[trigger] now.ready.contains(s) <==> now.is_ready(s) by {
            assert(now.of_source(s) =~= before.of_source(s));
            assert(before.ready.contains(s) <==> before.is_ready(s));
        }
    }

    /// Gives a ticket back.
    pub fn release_ticket(&mut self, id: u64)
        requires
            old(self).wf(),
        ensures
            final(self).wf(),
            final(self)@ == old(self)@.ticket_released(id),
    {
        let ghost before = self@;
        let slot: TicketSlot = match self.tickets.get(&id) {
            Some(slot) => *slot,
            None => return,
        };
        proof {
            assert(before.entries.dom() =~= self.entries@.dom());
        }
        if slot.handles > 1 || self.entries.contains_key(&id) {
            let handles: u64 = if slot.handles > 1 {
                slot.handles - 1
            } else {
                0
            };
            let _prior = self.tickets.insert(
                id,
                TicketSlot { source: slot.source, status: slot.status, handles },
            );
            proof {
                let now = before.ticket_released(id);
                assert(now.tickets.dom() =~= before.tickets.dom());
                assert(self@ =~= now);
                self.lemma_tickets_changed(before, now);
                lemma_quota(before, now);
                lemma_status_kept(before, now);
            }
        } else {
            let _gone = self.tickets.remove(&id);
            self.by_ticket_source.remove(&slot.source, &id);
            proof {
                let now = before.ticket_released(id);
                assert(self@ =~= now);
                lemma_quota(before, now);
                lemma_status_kept(before, now);
                assert forall|s: ActorRef| #[trigger] self.by_source.at(s) == now.of_source(s) by {
                    assert(now.of_source(s) =~= before.of_source(s));
                }
                assert forall|s: ActorRef| #[trigger] self.by_ticket_source.at(s)
                    == now.tickets_of(s) by {
                    assert(now.tickets_of(s) =~= before.tickets_of(s).remove(id));
                    if s != slot.source {
                        assert(before.tickets_of(s).remove(id) =~= before.tickets_of(s));
                    }
                }
                assert forall|s: ActorRef| #[trigger] now.ready.contains(s) <==> now.is_ready(s) by {
                    assert(now.of_source(s) =~= before.of_source(s));
                    assert(before.ready.contains(s) <==> before.is_ready(s));
                }
            }
        }
    }

    pub fn counts_for_scope(&self, scope: &OrdSet<ActorRef>) -> (r: (usize, usize))
        requires
            self.wf(),
            scope.wf(),
        ensures
            (r.0 as nat, r.1 as nat) == self@.scope_counts(scope@),
    {
        let mut pending: OrdSet<u64> = OrdSet::new();
        let mut kept: OrdSet<u64> = OrdSet::new();
        let ids = self.tickets.keys();
        let mut i: usize = 0;
        proof {
            assert(self@.entries.dom() =~= self.entries@.dom());
        }
        while i < ids.len()
            invariant
                self.wf(),
                scope.wf(),
                pending.wf(),
                kept.wf(),
                i <= ids.len(),
                ids@.to_set() == self.tickets@.dom(),
                self@.entries.dom() == self.entries@.dom(),
                forall|id: u64| #[trigger]
                    pending@.contains(id) <==> scope@.contains(self@.tickets[id].source)
                        && self@.entries.dom().contains(id) && ids@.take(i as int).contains(id),
                forall|id: u64| #[trigger]
                    kept@.contains(id) <==> scope@.contains(self@.tickets[id].source)
                        && !self@.entries.dom().contains(id) && ids@.take(i as int).contains(id),
            decreases ids.len() - i,
        {
            let id: u64 = ids[i];
            let ghost pending0 = pending@;
            let ghost kept0 = kept@;
            proof {
                assert(ids@.contains(id));
                assert(ids@.to_set().contains(id));
            }
            match self.tickets.get(&id) {
                Some(slot) => {
                    if scope.contains(&slot.source) {
                        if self.entries.contains_key(&id) {
                            let _added = pending.insert(id);
                        } else {
                            let _added = kept.insert(id);
                        }
                    }
                },
                None => {},
            }
            proof {
                assert forall|x: u64| #[trigger]
                    ids@.take(i + 1).contains(x) <==> x == id || ids@.take(i as int).contains(x) by {
                    if x == id {
                        assert(ids@.take(i + 1)[i as int] == x);
                    }
                    if ids@.take(i as int).contains(x) {
                        let j = ids@.take(i as int).index_of(x);
                        assert(ids@.take(i + 1)[j] == x);
                    }
                    if ids@.take(i + 1).contains(x) && x != id {
                        let j = ids@.take(i + 1).index_of(x);
                        assert(ids@.take(i as int)[j] == x);
                    }
                }
            }
            i += 1;
        }
        proof {
            let v = self@;
            let s = scope@;
            assert(ids@.take(i as int) =~= ids@);
            assert forall|id: u64| #[trigger] ids@.contains(id) <==> v.tickets.dom().contains(id) by {
                assert(ids@.to_set().contains(id) <==> ids@.contains(id));
            }
            assert(pending@ =~= v.entries.dom().filter(|id: u64| s.contains(v.entries[id].source)));
            assert(kept@ =~= v.tickets.dom().filter(
                |id: u64| s.contains(v.tickets[id].source) && !v.entries.dom().contains(id),
            ));
        }
        (pending.len(), kept.len())
    }
}

impl PublicationView {
    pub open spec fn advanced_to(
        self,
        routes: Option<Seq<(u64, ActorRef)>>,
        cursor: usize,
        report: DeliveryReport,
    ) -> PublicationView {
        PublicationView { routes, cursor, report, ..self }
    }
}

/// The head of a nonempty set of numbers belongs to it.
proof fn lemma_head(s: Set<u64>)
    requires
        s.finite(),
        s != Set::<u64>::empty(),
    ensures
        s.contains(ordered::sorted(s)[0]),
        forall|o: u64| #[trigger] s.contains(o) ==> ordered::sorted(s)[0] <= o,
        ordered::sorted(s).len() > 0,
{
    ordered::lemma_sorted_exists(s);
    let q = ordered::sorted(s);
    if q.len() == 0 {
        assert(q.to_set() =~= Set::<u64>::empty());
    }
    assert(q.contains(q[0]));
    assert(q.to_set().contains(q[0]));
    assert forall|o: u64| #[trigger] s.contains(o) implies q[0] <= o by {
        assert(q.to_set().contains(o));
        let j = q.index_of(o);
        assert(q[j] == o);
        if j > 0 {
            assert(<u64 as Key>::lt(q[0], q[j]));
        }
    }
}

impl PubsView {
    proof fn lemma_finite(self, source: ActorRef)
        requires
            self.entries.dom().finite(),
        ensures
            self.of_source(source).finite(),
            self.of_source(source) != Set::<u64>::empty() ==> self.entries.dom().contains(
                self.head(source),
            ) && self.entries[self.head(source)].source == source,
    {
        self.entries.dom().lemma_len_filter(|id: u64| self.entries[id].source == source);
        if self.of_source(source) != Set::<u64>::empty() {
            lemma_head(self.of_source(source));
        }
    }

    /// What concerns one source leaves the others as ready as they were.
    proof fn lemma_source_changed(self, mid: PubsView, source: ActorRef)
        requires
            self.consistent(),
            mid.next_id == self.next_id,
            mid.entries.dom().finite(),
            mid.tickets.dom().finite(),
            mid.tickets.dom().len() <= mid.limit,
            mid.ready.no_duplicates(),
            forall|id: u64| #[trigger]
                mid.entries.dom().contains(id) ==> {
                    &&& mid.tickets.dom().contains(id)
                    &&& mid.tickets[id].source == mid.entries[id].source
                    &&& mid.entries[id].counted()
                },
            forall|id: u64| #[trigger] mid.tickets.dom().contains(id) ==> id < mid.next_id,
            forall|s: ActorRef|
                s != source ==> (#[trigger] mid.ready.contains(s) <==> self.ready.contains(s)),
            forall|s: ActorRef| s != source ==> #[trigger] mid.of_source(s) == self.of_source(s),
            forall|id: u64|
                self.entries.dom().contains(id) && self.entries[id].source != source
                    ==> #[trigger] mid.entries[id] == self.entries[id],
            mid.ready.contains(source) ==> mid.is_ready(source),
        ensures
            mid.readied(source).consistent(),
    {
        assert forall|s: ActorRef| s != source implies (#[trigger] mid.ready.contains(s)
            <==> mid.is_ready(s)) by {
            assert(mid.of_source(s) == self.of_source(s));
            assert(self.ready.contains(s) <==> self.is_ready(s));
            self.lemma_finite(s);
            if self.of_source(s) != Set::<u64>::empty() {
                assert(mid.entries[self.head(s)] == self.entries[self.head(s)]);
            }
        }
        mid.lemma_readied(source);
    }

    proof fn lemma_entry_added(self, id: u64, p: PublicationView)
        requires
            self.consistent(),
            !self.entries.dom().contains(id),
            id + 1 == self.next_id,
            self.tickets.dom().contains(id),
            self.tickets[id].source == p.source,
            p.counted(),
        ensures
            self.inserted(id, p).consistent(),
    {
        let mid = PubsView { entries: self.entries.insert(id, p), ..self };
        assert forall|s: ActorRef| s != p.source implies #[trigger] mid.of_source(s)
            == self.of_source(s) by {
            assert(mid.of_source(s) =~= self.of_source(s));
        }
        if mid.ready.contains(p.source) {
            assert(self.is_ready(p.source));
            self.lemma_finite(p.source);
            mid.lemma_finite(p.source);
            let h = self.head(p.source);
            assert(mid.of_source(p.source) =~= self.of_source(p.source).insert(id));
            lemma_head(self.of_source(p.source));
            assert(mid.of_source(p.source).contains(h));
            lemma_head(mid.of_source(p.source));
            let g = mid.head(p.source);
            assert(g <= h);
            assert(self.tickets.dom().contains(h));
            assert(h < id);
            assert(self.of_source(p.source).contains(g));
            assert(g == h);
        }
        self.lemma_source_changed(mid, p.source);
    }

    proof fn lemma_entry_changed(
        self,
        id: u64,
        p: PublicationView,
        status: PublicationStatus,
        ready: Seq<ActorRef>,
    )
        requires
            self.consistent(),
            self.entries.dom().contains(id),
            p.source == self.entries[id].source,
            p.counted(),
            ready.no_duplicates(),
            forall|s: ActorRef|
                s != p.source ==> (#[trigger] ready.contains(s) <==> self.ready.contains(s)),
            ready.contains(p.source) ==> self.ready.contains(p.source) && !p.staged,
        ensures
            (PubsView { entries: self.entries.insert(id, p), ready, ..self }).with_status(
                id,
                status,
            ).readied(p.source).consistent(),
    {
        let mid = PubsView { entries: self.entries.insert(id, p), ready, ..self }.with_status(
            id,
            status,
        );
        assert(mid.entries.dom() =~= self.entries.dom());
        assert(mid.tickets.dom() =~= self.tickets.dom());
        assert forall|s: ActorRef| #[trigger] mid.of_source(s) == self.of_source(s) by {
            assert(mid.of_source(s) =~= self.of_source(s));
        }
        if mid.ready.contains(p.source) {
            assert(self.is_ready(p.source));
            assert(mid.head(p.source) == self.head(p.source));
        }
        self.lemma_source_changed(mid, p.source);
    }

    proof fn lemma_entry_removed(self, id: u64, mid: PubsView)
        requires
            self.consistent(),
            self.entries.dom().contains(id),
            mid.next_id == self.next_id,
            mid.limit == self.limit,
            mid.entries == self.entries.remove(id),
            mid.tickets == self.tickets.remove(id) || (mid.tickets == self.tickets.insert(
                id,
                mid.tickets[id],
            ) && mid.tickets[id].source == self.tickets[id].source),
            mid.ready.no_duplicates(),
            forall|s: ActorRef| #[trigger]
                mid.ready.contains(s) <==> s != self.entries[id].source && self.ready.contains(s),
        ensures
            mid.readied(self.entries[id].source).consistent(),
    {
        let source = self.entries[id].source;
        assert forall|s: ActorRef| s != source implies #[trigger] mid.of_source(s)
            == self.of_source(s) by {
            assert(mid.of_source(s) =~= self.of_source(s));
        }
        assert(mid.tickets.dom().subset_of(self.tickets.dom()));
        vstd::set_lib::lemma_len_subset(mid.tickets.dom(), self.tickets.dom());
        self.lemma_source_changed(mid, source);
    }

    /// Once every other source is right, readying one makes the queue right.
    proof fn lemma_readied(self, source: ActorRef)
        requires
            self.ready.no_duplicates(),
            forall|s: ActorRef| s != source ==> (#[trigger] self.ready.contains(s) <==> self.is_ready(s)),
            self.ready.contains(source) ==> self.is_ready(source),
        ensures
            self.readied(source).ready.no_duplicates(),
            forall|s: ActorRef| #[trigger]
                self.readied(source).ready.contains(s) <==> self.readied(source).is_ready(s),
    {
        let now = self.readied(source);
        assert forall|s: ActorRef| #[trigger] now.is_ready(s) == self.is_ready(s) by {
            assert(now.of_source(s) =~= self.of_source(s));
        }
        assert forall|s: ActorRef| #[trigger] now.ready.contains(s) <==> now.is_ready(s) by {
            if now.ready != self.ready {
                if self.ready.contains(s) {
                    let j = self.ready.index_of(s);
                    assert(now.ready[j] == s);
                }
                if now.ready.contains(s) {
                    let j = now.ready.index_of(s);
                    if j < self.ready.len() {
                        assert(self.ready[j] == s);
                    }
                }
                assert(now.ready[self.ready.len() as int] == source);
            }
        }
    }
}

/// A publication is taken up as long as there are numbers, and room for it in all
/// and for its source; its ticket bears the next number and has one holder.
pub proof fn a_publication_is_taken_up_while_there_is_room(
    v: PubsView,
    source: ActorRef,
    staged: bool,
)
    ensures
        v.refuses(source) is None <==> v.next_id < u64::MAX && v.tickets.dom().len() < v.limit
            && v.tickets_of(source).len() < v.per_source,
        v.next_id == u64::MAX ==> v.refuses(source) == Some(Error::LimitExceeded),
        v.next_id < u64::MAX && v.refuses(source) is Some ==> v.refuses(source) == Some(
            Error::QueueFull,
        ),
        v.refuses(source) is None ==> {
            let n = v.reserved(source, staged);
            &&& n.next_id == v.next_id + 1
            &&& n.tickets.dom().contains(v.next_id)
            &&& n.tickets[v.next_id].source == source
            &&& n.tickets[v.next_id].handles == 1
            &&& staged ==> n.tickets[v.next_id].status == PublicationStatus::Staged
            &&& !staged ==> n.tickets[v.next_id].status == PublicationStatus::Queued
            &&& n.entries == v.entries
            &&& n.ready == v.ready
            &&& forall|id: u64|
                id != v.next_id ==> (#[trigger] n.tickets.dom().contains(id)
                    <==> v.tickets.dom().contains(id)) && n.tickets[id] == v.tickets[id]
        },
{
}

/// A ticket is kept while somebody holds it or its publication waits, and no
/// longer. To share it and release it again changes nothing.
pub proof fn a_ticket_is_kept_while_it_is_held(v: PubsView, id: u64)
    requires
        v.tickets.dom().contains(id),
    ensures
        ({
            let t = v.tickets[id];
            let more = v.ticket_shared(id);
            let less = v.ticket_released(id);
            &&& t.handles < u64::MAX ==> more.tickets[id].handles == t.handles + 1
            &&& more.tickets[id].status == t.status && more.tickets[id].source == t.source
            &&& less.tickets.dom().contains(id) <==> t.handles > 1 || v.entries.dom().contains(id)
            &&& less.tickets.dom().contains(id) ==> {
                &&& less.tickets[id].status == t.status
                &&& less.tickets[id].source == t.source
                &&& t.handles >= 1 ==> less.tickets[id].handles == t.handles - 1
            }
            &&& less.entries == v.entries
            &&& more.entries == v.entries
            &&& 1 <= t.handles < u64::MAX ==> more.ticket_released(id) == v
            &&& forall|other: u64|
                other != id && v.tickets.dom().contains(other) ==> less.tickets.dom().contains(
                    other,
                ) && #[trigger] less.tickets[other] == v.tickets[other]
        }),
{
    let more = v.ticket_shared(id);
    if 1 <= v.tickets[id].handles < u64::MAX {
        assert(more.ticket_released(id).tickets =~= v.tickets);
    }
}

/// A publication that ends is told to whoever still holds a ticket: what was
/// taken in, and everything else that matched as refused.
pub proof fn an_end_is_told_to_the_holders(
    v: PubsView,
    id: u64,
    p: PublicationView,
    outcome: PublicationOutcome,
)
    requires
        v.tickets.dom().contains(id),
        p.counted(),
        p.report.matched <= usize::MAX,
    ensures
        ({
            let n = v.finished(id, p, outcome);
            &&& !n.entries.dom().contains(id)
            &&& v.tickets[id].handles == 0 ==> !n.tickets.dom().contains(id)
            &&& v.tickets[id].handles > 0 ==> {
                &&& n.tickets.dom().contains(id)
                &&& n.tickets[id].handles == v.tickets[id].handles
                &&& n.tickets[id].status matches PublicationStatus::Terminal(report) && {
                    &&& report.outcome == outcome
                    &&& report.matched == p.report.matched
                    &&& report.admitted == p.report.admitted
                    &&& report.admitted + report.rejected == report.matched
                }
            }
            &&& forall|other: u64|
                other != id && v.entries.dom().contains(other) ==> n.entries.dom().contains(other)
                    && #[trigger] n.entries[other] == v.entries[other]
        }),
{
}

/// A publication that was put aside waits for its turn once it is let go.
pub proof fn what_was_put_aside_is_queued(v: PubsView, id: u64)
    requires
        v.entries.dom().contains(id),
        v.tickets.dom().contains(id),
    ensures
        ({
            let n = v.unstaged(id);
            &&& n.entries.dom() == v.entries.dom()
            &&& n.entries[id] == (PublicationView { staged: false, ..v.entries[id] })
            &&& n.tickets[id].status == PublicationStatus::Queued
            &&& n.tickets[id].handles == v.tickets[id].handles
            &&& forall|other: u64|
                other != id && v.entries.dom().contains(other) ==> #[trigger] n.entries[other]
                    == v.entries[other]
        }),
{
    assert(v.unstaged(id).entries.dom() =~= v.entries.dom());
}

/// Publications fall due by their deadline, the earliest first.
pub proof fn publications_fall_due_by_their_deadline(v: PubsView, now: Instant, id: u64)
    requires
        v.entries.dom().finite(),
    ensures
        v.due_order(now).contains(id) <==> v.entries.dom().contains(id) && (
        v.entries[id].stored.options.deadline matches Some(at) && at.nanos <= now.nanos),
        forall|i: int, j: int|
            0 <= i < j < v.due_order(now).len() ==> {
                let first = v.entries[#[trigger] v.due_order(now)[i]].stored.options.deadline;
                let second = v.entries[#[trigger] v.due_order(now)[j]].stored.options.deadline;
                first is Some && second is Some && first->0.nanos <= second->0.nanos
            },
{
    let marks = v.due_marks(now);
    let mark = |id: u64|
        DuePublication { at: v.entries[id].stored.options.deadline->0, id };
    let all = v.entries.dom().map(mark);
    v.entries.dom().lemma_map_finite(mark);
    assert forall|d: DuePublication| marks.contains(d) implies all.contains(d) by {
        assert(v.entries.dom().contains(d.id) && mark(d.id) == d);
    }
    assert(marks.subset_of(all));
    vstd::set_lib::lemma_len_subset(marks, all);
    ordered::lemma_sorted_exists(marks);
    let list = ordered::sorted(marks);
    assert forall|i: int| 0 <= i < list.len() implies marks.contains(#[trigger] list[i]) by {
        assert(list.to_set().contains(list[i]));
    }
    if v.entries.dom().contains(id) && v.entries[id].stored.options.deadline is Some {
        let d = mark(id);
        if d.at.nanos <= now.nanos {
            assert(marks.contains(d));
            assert(list.to_set().contains(d));
            let k = list.index_of(d);
            assert(v.due_order(now)[k] == id);
        }
    }
    if v.due_order(now).contains(id) {
        let k = v.due_order(now).index_of(id);
        assert(marks.contains(list[k]));
    }
    assert forall|i: int, j: int| 0 <= i < j < v.due_order(now).len() implies ({
        let first = v.entries[#[trigger] v.due_order(now)[i]].stored.options.deadline;
        let second = v.entries[#[trigger] v.due_order(now)[j]].stored.options.deadline;
        first is Some && second is Some && first->0.nanos <= second->0.nanos
    }) by {
        assert(marks.contains(list[i]) && marks.contains(list[j]));
        assert(DuePublication::lt(list[i], list[j]));
    }
}

/// A scope waits for every publication of its actors.
pub proof fn a_scope_counts_its_publications(v: PubsView, scope: Set<ActorRef>, id: u64)
    requires
        v.entries.dom().finite(),
        v.tickets.dom().finite(),
    ensures
        v.entries.dom().contains(id) && scope.contains(v.entries[id].source) ==> v.scope_counts(
            scope,
        ).0 > 0,
        v.tickets.dom().contains(id) && scope.contains(v.tickets[id].source)
            && !v.entries.dom().contains(id) ==> v.scope_counts(scope).1 > 0,
{
    let waiting = v.entries.dom().filter(|id: u64| scope.contains(v.entries[id].source));
    let kept = v.tickets.dom().filter(
        |id: u64| scope.contains(v.tickets[id].source) && !v.entries.dom().contains(id),
    );
    if waiting.contains(id) {
        assert(waiting.remove(id).len() < waiting.len());
    }
    if kept.contains(id) {
        assert(kept.remove(id).len() < kept.len());
    }
}

} // verus!
