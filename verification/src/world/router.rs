//! Routing: one bounded turn for the source that has waited longest.
use vstd::prelude::*;
use std::sync::Arc;
use super::{World, WorldView};
use crate::clock;
use crate::clock::{is_due, Instant};
use crate::held::Stored;
use crate::ordered;
use crate::publications;
use crate::publications::{
    DeliveryReport,
    PublicationOutcome,
    PublicationView,
    PubsView,
    RoutingProgress,
};
use crate::routing;
use crate::routing::Sub;
use crate::types::{ActorRef, Error, Lifecycle};

verus! {

/// How far a turn has come.
pub struct Turn {
    pub routes: Option<Seq<(u64, ActorRef)>>,
    pub cursor: usize,
    pub report: DeliveryReport,
    pub destinations: usize,
    pub outcome: Option<PublicationOutcome>,
}

/// The routes of a port as they stand, in the order of their numbers.
pub open spec fn snapshot(routes: Map<u64, Sub>, ids: Seq<u64>) -> Seq<(u64, ActorRef)> {
    ids.map_values(|id: u64| (id, routes[id].target))
}

impl WorldView {
    /// The start of a turn: what ends a publication at once, and the routes
    /// that it takes if it has none yet.
    pub open spec fn turn_begun(self, now: Instant, p: PublicationView) -> Turn {
        let fresh = Turn {
            routes: p.routes,
            cursor: p.cursor,
            report: p.report,
            destinations: 0,
            outcome: None,
        };
        let ids = routing::from_port(self.subs, p.source, p.source_port);
        if !(self.execution(p.source) matches Ok(state) && super::is_running(state)) {
            Turn { outcome: Some(PublicationOutcome::Cancelled), ..fresh }
        } else if clock::due(p.stored.options.deadline, now) {
            Turn { outcome: Some(PublicationOutcome::Expired), ..fresh }
        } else if p.routes is Some {
            fresh
        } else if ids.len() > self.cfg.max_publication_fanout {
            Turn { outcome: Some(PublicationOutcome::FanoutLimit), ..fresh }
        } else if ids.len() + self.pubs.snapshot_entries() > self.cfg.max_routing_snapshot_entries
            && ids.len() > 0 {
            Turn { outcome: Some(PublicationOutcome::SnapshotFull), ..fresh }
        } else {
            Turn {
                routes: Some(snapshot(self.subs, ordered::sorted(ids))),
                report: DeliveryReport { matched: ids.len() as usize, ..p.report },
                ..fresh
            }
        }
    }

    /// Whether a turn has another destination to try.
    pub open spec fn turn_goes_on(self, turn: Turn) -> bool {
        &&& turn.outcome is None
        &&& turn.routes matches Some(routes) && turn.cursor < routes.len()
        &&& turn.destinations < self.cfg.routing_batch_size
    }

    /// Why a destination does not get a publication any more.
    pub open spec fn refuses_destination(
        self,
        id: u64,
        route: u64,
        target: ActorRef,
        completion: bool,
    ) -> Option<Error> {
        if !self.subs.dom().contains(route) {
            Some(Error::NotFound)
        } else {
            match self.execution(self.subs[route].owner) {
                Err(e) => Some(e),
                Ok(Lifecycle::Starting) => Some(Error::ActorNotReady),
                Ok(state) => if !super::is_running(state) {
                    Some(Error::ActorStopped)
                } else {
                    match self.execution(target) {
                        Err(e) => Some(e),
                        Ok(state) => if state == Lifecycle::Quiescing && !completion && self.past_cutoff(
                            target,
                            id,
                        ) {
                            Some(Error::ActorStopped)
                        } else {
                            None
                        },
                    }
                },
            }
        }
    }

    /// Whether a publication was made after a target began to drain.
    pub open spec fn past_cutoff(self, target: ActorRef, id: u64) -> bool {
        match self.at(target).publication_cutoff {
            Some(cutoff) => id > cutoff,
            None => true,
        }
    }

    pub open spec fn relaying(
        self,
        now: Instant,
        id: u64,
        route: u64,
        target: ActorRef,
        stored: Arc<Stored>,
        completion: bool,
    ) -> (WorldView, Result<u64, Error>) {
        match self.refuses_destination(id, route, target, completion) {
            Some(e) => (self, Err(e)),
            None => if !self.budget.roomy(stored.id) {
                (self, Err(Error::LimitExceeded))
            } else {
                let (n, result) = self.sharing(stored.id).admission(
                    now,
                    target,
                    stored,
                    Some(route),
                    true,
                    None,
                );
                match result {
                    Ok(event) => (n, Ok(event)),
                    Err(e) => (n.releasing(stored.id), Err(e)),
                }
            },
        }
    }

    /// One destination of a turn.
    pub open spec fn turn_step(self, now: Instant, id: u64, p: PublicationView, turn: Turn) -> (
        WorldView,
        Turn,
    ) {
        if clock::due(p.stored.options.deadline, now) {
            (self, Turn { outcome: Some(PublicationOutcome::Expired), ..turn })
        } else {
            let (route, target) = turn.routes->0[turn.cursor as int];
            let (v, result) = self.relaying(
                now,
                id,
                route,
                target,
                Arc::new(p.stored),
                p.completion,
            );
            let next = Turn {
                cursor: (turn.cursor + 1) as usize,
                destinations: (turn.destinations + 1) as usize,
                ..turn
            };
            match result {
                Ok(_) => (
                    v,
                    Turn {
                        report: DeliveryReport {
                            admitted: (turn.report.admitted + 1) as usize,
                            ..turn.report
                        },
                        ..next
                    },
                ),
                Err(e) => (
                    v.rejected(now, e, target),
                    Turn {
                        report: DeliveryReport {
                            rejected: (turn.report.rejected + 1) as usize,
                            ..turn.report
                        },
                        ..next
                    },
                ),
            }
        }
    }

    /// A turn after some destinations, each tried at its own time.
    pub open spec fn turn_steps(
        self,
        id: u64,
        p: PublicationView,
        turn: Turn,
        times: Seq<Instant>,
    ) -> (WorldView, Turn)
        decreases times.len(),
    {
        if times.len() == 0 {
            (self, turn)
        } else {
            let (v, t) = self.turn_steps(id, p, turn, times.drop_last());
            if v.turn_goes_on(t) {
                v.turn_step(times.last(), id, p, t)
            } else {
                (v, t)
            }
        }
    }

    /// The end of a turn: the publication ends, or its source goes to the back.
    pub open spec fn turn_ended(self, id: u64, p: PublicationView, turn: Turn) -> (
        WorldView,
        RoutingProgress,
    ) {
        let last = p.advanced_to(turn.routes, turn.cursor, turn.report);
        let outcome = turn_outcome(turn);
        let v = match outcome {
            Some(outcome) => self.publication_ended(id, last, outcome),
            None => WorldView { pubs: self.pubs.advanced(id, last), ..self },
        };
        (
            v,
            RoutingProgress {
                destinations: turn.destinations,
                publications: if outcome is Some {
                    1
                } else {
                    0
                },
                pending: v.pubs.entries.dom().len() as usize,
                ready: v.pubs.ready.len() > 0,
            },
        )
    }

    /// A turn for the source that has waited longest.
    pub open spec fn routing_turn(self, now: Instant, times: Seq<Instant>) -> (
        WorldView,
        RoutingProgress,
    ) {
        let id = self.pubs.head(self.pubs.ready[0]);
        let p = self.pubs.entries[id];
        let (v, turn) = self.turn_steps(id, p, self.turn_begun(now, p), times);
        v.turn_ended(id, p, turn)
    }

    /// Whether a turn leaves no destination untried that it could try.
    pub open spec fn turn_complete(self, now: Instant, times: Seq<Instant>) -> bool {
        let id = self.pubs.head(self.pubs.ready[0]);
        let p = self.pubs.entries[id];
        let (v, turn) = self.turn_steps(id, p, self.turn_begun(now, p), times);
        !v.turn_goes_on(turn)
    }
}

/// What ends a publication after a turn.
pub open spec fn turn_outcome(turn: Turn) -> Option<PublicationOutcome> {
    if turn.outcome is None && turn.routes is Some && turn.cursor == turn.routes->0.len() {
        Some(PublicationOutcome::Routed)
    } else {
        turn.outcome
    }
}

/// A step and then the end is the end.
proof fn lemma_advanced_then_finished(
    v: PubsView,
    id: u64,
    p: PublicationView,
    outcome: PublicationOutcome,
)
    requires
        v.consistent(),
        v.entries.dom().contains(id),
        p.source == v.entries[id].source,
    ensures
        v.advanced(id, p).finished(id, p, outcome) == v.finished(id, p, outcome),
        v.advanced(id, p).entries.dom().contains(id),
        v.advanced(id, p).entries[id] == p,
{
    let a = v.advanced(id, p);
    let mid = publications::without(v.ready, p.source);
    assert(!mid.contains(p.source)) by {
        if v.ready.contains(p.source) {
            let k = v.ready.index_of(p.source);
            if mid.contains(p.source) {
                let j = mid.index_of(p.source);
                if j < k {
                    assert(v.ready[j] == p.source);
                } else {
                    assert(v.ready[j + 1] == p.source);
                }
            }
        }
    }
    assert(a.entries.remove(id) =~= v.entries.remove(id));
    if a.ready != mid {
        assert(a.ready == mid.push(p.source));
        let s = mid.push(p.source);
        assert(s[mid.len() as int] == p.source);
        assert(s.contains(p.source));
        let k = s.index_of(p.source);
        if k < mid.len() {
            assert(mid[k] == p.source);
            assert(mid.contains(p.source));
        }
        assert(s.remove(k) =~= mid);
    }
    assert(publications::without(a.ready, p.source) == mid);
    assert(a.tickets.remove(id) =~= v.tickets.remove(id));
    let t = a.finished(id, p, outcome);
    let u = v.finished(id, p, outcome);
    assert(a.tickets[id].handles == v.tickets[id].handles);
    assert(t.tickets =~= u.tickets);
}

impl World {
    fn destination_refusal(&self, id: u64, route: u64, target: ActorRef, completion: bool) -> (r: Option<
        Error,
    >)
        requires
            self.steady(),
        ensures
            r == self@.refuses_destination(id, route, target, completion),
    {
        let owner = match self.subs.get(&route) {
            Some(route) => route.owner,
            None => return Some(Error::NotFound),
        };
        match self.execution(owner) {
            Err(e) => return Some(e),
            Ok(Lifecycle::Active) => {},
            Ok(Lifecycle::Quiescing) => {},
            Ok(Lifecycle::Starting) => return Some(Error::ActorNotReady),
            Ok(_) => return Some(Error::ActorStopped),
        }
        let i = match self.locate(target) {
            Ok(i) => i,
            Err(e) => return Some(e),
        };
        let draining: bool = match self.execution(target) {
            Err(e) => return Some(e),
            Ok(state) => state == Lifecycle::Quiescing,
        };
        let late: bool = match self.actors[i].publication_cutoff {
            Some(cutoff) => id > cutoff,
            None => true,
        };
        if draining && !completion && late {
            return Some(Error::ActorStopped);
        }
        None
    }

    fn relay(
        &mut self,
        now: Instant,
        id: u64,
        route: u64,
        target: ActorRef,
        stored: Arc<Stored>,
        completion: bool,
    ) -> (result: Result<u64, Error>)
        requires
            old(self).steady(),
        ensures
            final(self).steady(),
            (final(self)@, result) == old(self)@.relaying(
                now,
                id,
                route,
                target,
                stored,
                completion,
            ),
            final(self)@.pubs == old(self)@.pubs,
            final(self)@.cfg == old(self)@.cfg,
            final(self)@.clock == old(self)@.clock,
    {
        match self.destination_refusal(id, route, target, completion) {
            Some(e) => return Err(e),
            None => {},
        }
        let share: u64 = stored.id;
        if !self.budget.roomy(share) {
            return Err(Error::LimitExceeded);
        }
        self.share(share);
        match self.take_in(now, target, stored, Some(route), true, None) {
            Ok(event) => Ok(event),
            Err(e) => {
                self.release(share);
                Err(e)
            },
        }
    }

    /// The routes of a port as they stand.
    fn take_routes(&self, source: ActorRef, port: Option<u16>) -> (r: Vec<(u64, ActorRef)>)
        requires
            self.steady(),
        ensures
            r@ == snapshot(
                self@.subs,
                ordered::sorted(routing::from_port(self@.subs, source, port)),
            ),
            r@.len() == routing::from_port(self@.subs, source, port).len(),
    {
        let ids = self.subs.source_ids(source, port);
        let mut r: Vec<(u64, ActorRef)> = Vec::new();
        let mut i: usize = 0;
        while i < ids.len()
            invariant
                i <= ids@.len(),
                self.steady(),
                ids@.to_set() == routing::from_port(self@.subs, source, port),
                r@.len() == i,
                forall|j: int|
                    0 <= j < i ==> #[trigger] r@[j] == (ids@[j], self@.subs[ids@[j]].target),
            decreases ids@.len() - i,
        {
            let id: u64 = ids[i];
            proof {
                assert(ids@.contains(id));
                assert(ids@.to_set().contains(id));
            }
            match self.subs.get(&id) {
                Some(route) => {
                    r.push((id, route.target));
                },
                None => {
                    assert(false);
                },
            }
            i += 1;
        }
        assert(r@ =~= snapshot(self@.subs, ids@));
        r
    }

    /// Starts a turn; the routes are kept in the table.
    fn begin_turn(&self, now: Instant, id: u64) -> (r: (
        Option<Vec<(u64, ActorRef)>>,
        DeliveryReport,
        Option<PublicationOutcome>,
    ))
        requires
            self.steady(),
            self@.pubs.entries.dom().contains(id),
        ensures
            ({
                let p = self@.pubs.entries[id];
                let turn = self@.turn_begun(now, p);
                &&& r.1 == turn.report
                &&& r.2 == turn.outcome
                &&& turn.cursor == p.cursor
                &&& turn.destinations == 0
                &&& publications::routes_view(r.0) == turn.routes
                &&& p.advanced_to(turn.routes, turn.cursor, turn.report).counted()
                &&& self@.pubs.snapshot_entries() - p.route_count() + (match turn.routes {
                    Some(routes) => routes.len(),
                    None => 0,
                }) <= self@.cfg.max_routing_snapshot_entries
                &&& turn.outcome is None ==> turn.routes is Some
            }),
    {
        proof {
            self.publications.lemma_consistent();
            super::lemma_sound_parts(self@);
        }
        let ghost p = self@.pubs.entries[id];
        let publication = match self.publications.get(id) {
            Some(publication) => publication,
            None => {
                assert(false);
                return (None, DeliveryReport::default(), None);
            },
        };
        let routes: Option<Vec<(u64, ActorRef)>> = match &publication.routes {
            Some(routes) => Some(copy_routes(routes)),
            None => None,
        };
        let report = publication.report;
        let running: bool = match self.execution(publication.source) {
            Ok(Lifecycle::Active) => true,
            Ok(Lifecycle::Quiescing) => true,
            _ => false,
        };
        if !running {
            return (routes, report, Some(PublicationOutcome::Cancelled));
        }
        if is_due(publication.stored.options.deadline, now) {
            return (routes, report, Some(PublicationOutcome::Expired));
        }
        if routes.is_some() {
            return (routes, report, None);
        }
        let count = self.subs.source_count(publication.source, publication.source_port);
        if count > self.cfg.max_publication_fanout {
            return (routes, report, Some(PublicationOutcome::FanoutLimit));
        }
        if count > self.cfg.max_routing_snapshot_entries.saturating_sub(
            self.publications.snapshot_entries(),
        ) {
            return (routes, report, Some(PublicationOutcome::SnapshotFull));
        }
        let taken = self.take_routes(publication.source, publication.source_port);
        let report = DeliveryReport {
            admitted: report.admitted,
            rejected: report.rejected,
            staged: report.staged,
            matched: count,
            outcome: report.outcome,
        };
        (Some(taken), report, None)
    }

    /// Gives one turn to the source that has waited longest.
    pub fn route_batch(&mut self) -> (progress: RoutingProgress)
        requires
            old(self).inv(),
        ensures
            final(self).inv(),
            old(self)@.pubs.ready.len() == 0 ==> final(self)@ == old(self)@ && progress == (
            RoutingProgress {
                destinations: 0,
                publications: 0,
                pending: old(self)@.pubs.entries.dom().len() as usize,
                ready: false,
            }),
            old(self)@.pubs.ready.len() > 0 ==> exists|now: Instant, times: Seq<Instant>| #[trigger]
                old(self)@.clock.reads(now) && old(self)@.read_all(times) && old(
                    self,
                )@.turn_complete(now, times) && (final(self)@, progress) == #[trigger] old(
                    self,
                )@.routing_turn(now, times),
    {
        let ghost v = self@;
        proof {
            self.publications.lemma_consistent();
        }
        let (source, id) = match self.publications.next_turn() {
            Some(turn) => turn,
            None => {
                return RoutingProgress {
                    destinations: 0,
                    publications: 0,
                    pending: self.publications.pending(),
                    ready: false,
                };
            },
        };
        let ghost p = v.pubs.entries[id];
        let now = self.now();
        let (routes, begun_report, begun_outcome) = self.begin_turn(now, id);
        let (stored, completion, first) = match self.publications.get(id) {
            Some(publication) => (
                publication.stored.clone(),
                publication.completion,
                publication.cursor,
            ),
            None => {
                assert(false);
                return RoutingProgress::default();
            },
        };
        let ghost begun = v.turn_begun(now, p);
        let ghost told = publications::routes_view(routes);
        let ghost mut times = Seq::<Instant>::empty();
        let mut cursor: usize = first;
        let mut report: DeliveryReport = begun_report;
        let mut destinations: usize = 0;
        let mut outcome: Option<PublicationOutcome> = begun_outcome;
        let count: usize = match &routes {
            Some(routes) => routes.len(),
            None => 0,
        };
        proof {
            super::lemma_sound_parts(v);
            assert(v.turn_steps(id, p, begun, times) == (v, begun));
        }
        while outcome.is_none() && cursor < count && destinations < self.cfg.routing_batch_size
            invariant
                self.steady(),
                v == old(self)@,
                v.cfg.accepted(),
                self@.pubs == v.pubs,
                self@.cfg == v.cfg,
                self@.clock == v.clock,
                self.cfg == v.cfg,
                v.read_all(times),
                *stored == p.stored,
                completion == p.completion,
                told == publications::routes_view(routes),
                count == (match told {
                    Some(list) => list.len(),
                    None => 0,
                }),
                outcome is None ==> told is Some,
                outcome != Some(PublicationOutcome::Pending),
                p.advanced_to(told, cursor, report).counted(),
                told is None ==> destinations == 0,
                v.turn_steps(id, p, begun, times) == (
                    self@,
                    Turn { routes: told, cursor, report, destinations, outcome },
                ),
            decreases (if outcome is None {
                1int
            } else {
                0
            }), count - cursor,
        {
            let here = self.now();
            let ghost turn = Turn { routes: told, cursor, report, destinations, outcome };
            let ghost before = self@;
            proof {
                assert(times.push(here).drop_last() =~= times);
                times = times.push(here);
            }
            if is_due(stored.options.deadline, here) {
                outcome = Some(PublicationOutcome::Expired);
            } else {
                let (route, target): (u64, ActorRef) = match &routes {
                    Some(routes) => (routes[cursor].0, routes[cursor].1),
                    None => {
                        assert(false);
                        return RoutingProgress::default();
                    },
                };
                assert((route, target) == told->0[cursor as int]);
                assert(stored == Arc::new(p.stored));
                cursor += 1;
                destinations += 1;
                match self.relay(here, id, route, target, stored.clone(), completion) {
                    Ok(_) => {
                        report = DeliveryReport {
                            admitted: report.admitted + 1,
                            rejected: report.rejected,
                            staged: report.staged,
                            matched: report.matched,
                            outcome: report.outcome,
                        };
                    },
                    Err(e) => {
                        report = DeliveryReport {
                            admitted: report.admitted,
                            rejected: report.rejected + 1,
                            staged: report.staged,
                            matched: report.matched,
                            outcome: report.outcome,
                        };
                        self.reject(here, e, target);
                    },
                }
            }
        }
        let ghost turn = Turn { routes: told, cursor, report, destinations, outcome };
        let ghost last = p.advanced_to(told, cursor, report);
        let ghost done = self@;
        let ended: Option<PublicationOutcome> = if outcome.is_none() && cursor == count {
            Some(PublicationOutcome::Routed)
        } else {
            outcome
        };
        proof {
            assert(!done.turn_goes_on(turn));
            assert(ended == turn_outcome(turn));
            self.publications.lemma_consistent();
        }
        let ghost prior = *self;
        self.publications.advance(id, routes, cursor, report);
        proof {
            self.lemma_kept(prior);
        }
        let publications: usize = match ended {
            Some(outcome) => {
                proof {
                    lemma_advanced_then_finished(done.pubs, id, last, outcome);
                }
                self.end_publication(id, outcome);
                1
            },
            None => 0,
        };
        let progress = RoutingProgress {
            destinations,
            publications,
            pending: self.publications.pending(),
            ready: self.publications.is_ready(),
        };
        proof {
            assert(v.turn_steps(id, p, begun, times) == (done, turn));
            assert(done.turn_ended(id, p, turn) == (self@, progress));
            assert(v.routing_turn(now, times) == (self@, progress));
            super::joining::lemma_routing_turn(v, now, times);
        }
        progress
    }
}

fn copy_routes(routes: &Vec<(u64, ActorRef)>) -> (r: Vec<(u64, ActorRef)>)
    ensures
        r@ == routes@,
{
    let mut r: Vec<(u64, ActorRef)> = Vec::new();
    let mut i: usize = 0;
    while i < routes.len()
        invariant
            i <= routes@.len(),
            r@ == routes@.take(i as int),
        decreases routes@.len() - i,
    {
        r.push((routes[i].0, routes[i].1));
        i += 1;
        assert(r@ =~= routes@.take(i as int));
    }
    assert(routes@.take(i as int) =~= routes@);
    r
}

} // verus!
