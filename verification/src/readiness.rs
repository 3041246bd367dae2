//! Ordered readiness hints for the Python scheduler.
use vstd::prelude::*;
use crate::ordered::OrdMap;
use crate::types::ActorRef;

verus! {

/// The bounded readiness queues exposed to the Python scheduler.
#[derive(Clone, Copy, Debug, PartialEq, Eq, Structural)]
pub enum PythonReadyPhase {
    Start,
    Failure,
    Delivery,
    Cleanup,
}

/// For each phase, the actors that are ready, by readiness order.
#[verifier::ext_equal]
pub struct ReadyView {
    pub start: Map<u64, ActorRef>,
    pub failure: Map<u64, ActorRef>,
    pub delivery: Map<u64, ActorRef>,
    pub cleanup: Map<u64, ActorRef>,
}

pub open spec fn entry_set(
    map: Map<u64, ActorRef>,
    order: u64,
    actor: ActorRef,
    present: bool,
) -> Map<u64, ActorRef> {
    if present {
        map.insert(order, actor)
    } else {
        map.remove(order)
    }
}

impl ReadyView {
    pub open spec fn none() -> ReadyView {
        ReadyView {
            start: Map::empty(),
            failure: Map::empty(),
            delivery: Map::empty(),
            cleanup: Map::empty(),
        }
    }

    pub open spec fn phase(self, phase: PythonReadyPhase) -> Map<u64, ActorRef> {
        match phase {
            PythonReadyPhase::Start => self.start,
            PythonReadyPhase::Failure => self.failure,
            PythonReadyPhase::Delivery => self.delivery,
            PythonReadyPhase::Cleanup => self.cleanup,
        }
    }

    pub open spec fn is_set(
        self,
        order: u64,
        actor: ActorRef,
        start: bool,
        failure: bool,
        delivery: bool,
        cleanup: bool,
    ) -> ReadyView {
        ReadyView {
            start: entry_set(self.start, order, actor, start),
            failure: entry_set(self.failure, order, actor, failure),
            delivery: entry_set(self.delivery, order, actor, delivery),
            cleanup: entry_set(self.cleanup, order, actor, cleanup),
        }
    }

    /// Whether an order lies behind the cursor and within the cutoff.
    pub open spec fn in_window(
        phase: PythonReadyPhase,
        after: Option<u64>,
        through: u64,
        order: u64,
    ) -> bool {
        &&& order <= through
        &&& match phase {
            PythonReadyPhase::Cleanup => after is Some ==> order < after->0,
            _ => order > (match after {
                Some(cursor) => cursor,
                None => 0,
            }),
        }
    }

    /// Whether `found` is the next hint: the least order in the window, or the
    /// greatest for cleanup, which runs backwards.
    pub open spec fn is_next(
        self,
        phase: PythonReadyPhase,
        after: Option<u64>,
        through: u64,
        found: Option<(u64, ActorRef)>,
    ) -> bool {
        let entries = self.phase(phase);
        match found {
            None => forall|order: u64| #[trigger]
                entries.dom().contains(order) ==> !Self::in_window(phase, after, through, order),
            Some((order, actor)) => {
                &&& entries.dom().contains(order)
                &&& entries[order] == actor
                &&& Self::in_window(phase, after, through, order)
                &&& forall|other: u64| #[trigger]
                    entries.dom().contains(other) && Self::in_window(phase, after, through, other)
                        ==> (if phase == PythonReadyPhase::Cleanup {
                        other <= order
                    } else {
                        order <= other
                    })
            },
        }
    }
}

/// Ordered, generation-safe readiness hints. Each actor has at most one entry
/// in each phase, under its readiness order.
pub struct PythonReadyIndex {
    start: OrdMap<u64, ActorRef>,
    failure: OrdMap<u64, ActorRef>,
    delivery: OrdMap<u64, ActorRef>,
    cleanup: OrdMap<u64, ActorRef>,
}

impl View for PythonReadyIndex {
    type V = ReadyView;

    closed spec fn view(&self) -> ReadyView {
        ReadyView {
            start: self.start@,
            failure: self.failure@,
            delivery: self.delivery@,
            cleanup: self.cleanup@,
        }
    }
}

fn set_entry(map: &mut OrdMap<u64, ActorRef>, order: u64, actor: ActorRef, present: bool) -> (added:
    bool)
    requires
        old(map).wf(),
    ensures
        final(map).wf(),
        final(map)@ == entry_set(old(map)@, order, actor, present),
        added == (present && !old(map)@.dom().contains(order)),
{
    if present {
        map.insert(order, actor).is_none()
    } else {
        let _gone = map.remove(&order);
        false
    }
}

impl PythonReadyIndex {
    pub closed spec fn wf(self) -> bool {
        &&& self.start.wf()
        &&& self.failure.wf()
        &&& self.delivery.wf()
        &&& self.cleanup.wf()
    }

    pub fn new() -> (r: Self)
        ensures
            r.wf(),
            r@ == ReadyView::none(),
    {
        PythonReadyIndex {
            start: OrdMap::new(),
            failure: OrdMap::new(),
            delivery: OrdMap::new(),
            cleanup: OrdMap::new(),
        }
    }

    /// Enters or removes an actor in every phase; whether an entry is new.
    pub fn set(
        &mut self,
        order: u64,
        actor: ActorRef,
        start: bool,
        failure: bool,
        delivery: bool,
        cleanup: bool,
    ) -> (changed: bool)
        requires
            old(self).wf(),
        ensures
            final(self).wf(),
            final(self)@ == old(self)@.is_set(order, actor, start, failure, delivery, cleanup),
            changed == {
                ||| start && !old(self)@.start.dom().contains(order)
                ||| failure && !old(self)@.failure.dom().contains(order)
                ||| delivery && !old(self)@.delivery.dom().contains(order)
                ||| cleanup && !old(self)@.cleanup.dom().contains(order)
            },
    {
        let a = set_entry(&mut self.start, order, actor, start);
        let b = set_entry(&mut self.failure, order, actor, failure);
        let c = set_entry(&mut self.delivery, order, actor, delivery);
        let d = set_entry(&mut self.cleanup, order, actor, cleanup);
        a || b || c || d
    }

    pub fn next(&self, phase: PythonReadyPhase, after: Option<u64>, through: u64) -> (r: Option<
        (u64, ActorRef),
    >)
        requires
            self.wf(),
        ensures
            self@.is_next(phase, after, through, r),
    {
        let entries = match phase {
            PythonReadyPhase::Start => &self.start,
            PythonReadyPhase::Failure => &self.failure,
            PythonReadyPhase::Delivery => &self.delivery,
            PythonReadyPhase::Cleanup => &self.cleanup,
        };
        proof {
            entries.lemma_listing();
            let listing = entries.listing();
            assert forall|k: u64| #[trigger] entries@.dom().contains(k) implies exists|i: int|
                0 <= i < listing.len() && listing[i] == k by {
                assert(listing.contains(k));
            }
        }
        match phase {
            PythonReadyPhase::Cleanup => {
                let upper: u64 = match after {
                    Some(cursor) => {
                        if cursor == 0 {
                            return None;
                        }
                        through.min(cursor - 1)
                    },
                    None => through,
                };
                let (at, found) = entries.position(&upper);
                if found {
                    Some((entries.key_at(at), *entries.value_at(at)))
                } else if at > 0 {
                    Some((entries.key_at(at - 1), *entries.value_at(at - 1)))
                } else {
                    None
                }
            },
            _ => {
                let cursor: u64 = match after {
                    Some(cursor) => cursor,
                    None => 0,
                };
                let count = entries.len();
                let (at, found) = entries.position(&cursor);
                let next: usize = if found {
                    at + 1
                } else {
                    at
                };
                if next < count && entries.key_at(next) <= through {
                    Some((entries.key_at(next), *entries.value_at(next)))
                } else {
                    None
                }
            },
        }
    }

    pub fn is_empty(&self) -> (r: bool)
        requires
            self.wf(),
        ensures
            r == (self@ == ReadyView::none()),
    {
        self.start.is_empty() && self.failure.is_empty() && self.delivery.is_empty()
            && self.cleanup.is_empty()
    }
}

/// The next hint is unique.
pub proof fn next_hint_is_unique(
    ready: ReadyView,
    phase: PythonReadyPhase,
    after: Option<u64>,
    through: u64,
    a: Option<(u64, ActorRef)>,
    b: Option<(u64, ActorRef)>,
)
    requires
        ready.is_next(phase, after, through, a),
        ready.is_next(phase, after, through, b),
    ensures
        a == b,
{
}

/// But for cleanups, hints come in the order of their actors: the next is the
/// first behind the cursor.
pub proof fn hints_come_in_order(
    v: ReadyView,
    phase: PythonReadyPhase,
    after: Option<u64>,
    through: u64,
    order: u64,
    actor: ActorRef,
)
    requires
        phase != PythonReadyPhase::Cleanup,
        v.is_next(phase, after, through, Some((order, actor))),
    ensures
        v.phase(phase).dom().contains(order),
        v.phase(phase)[order] == actor,
        order <= through,
        after matches Some(cursor) ==> cursor < order,
        order >= 1,
        forall|other: u64|
            1 <= other < order && (after matches Some(cursor) ==> cursor < other)
                ==> !#[trigger] v.phase(phase).dom().contains(other),
{
}

/// Cleanups come backwards: the next is the last before the cursor.
pub proof fn cleanups_come_backwards(
    v: ReadyView,
    after: Option<u64>,
    through: u64,
    order: u64,
    actor: ActorRef,
)
    requires
        v.is_next(PythonReadyPhase::Cleanup, after, through, Some((order, actor))),
    ensures
        v.cleanup.dom().contains(order),
        v.cleanup[order] == actor,
        order <= through,
        after matches Some(cursor) ==> order < cursor,
        forall|other: u64|
            order < other <= through && (after matches Some(cursor) ==> other < cursor)
                ==> !#[trigger] v.cleanup.dom().contains(other),
{
}

/// Where no hint is found there is none left between the cursor and the end.
pub proof fn no_hint_is_passed_over(
    v: ReadyView,
    phase: PythonReadyPhase,
    after: Option<u64>,
    through: u64,
    order: u64,
)
    requires
        v.is_next(phase, after, through, None),
        v.phase(phase).dom().contains(order),
        1 <= order <= through,
    ensures
        after matches Some(cursor) && (phase == PythonReadyPhase::Cleanup ==> order >= cursor) && (
        phase != PythonReadyPhase::Cleanup ==> order <= cursor),
{
}

/// An actor is found in the phases that it is set for and in no other.
pub proof fn a_hint_is_found_in_its_phase(
    v: ReadyView,
    order: u64,
    actor: ActorRef,
    start: bool,
    failure: bool,
    delivery: bool,
    cleanup: bool,
)
    ensures
        ({
            let n = v.is_set(order, actor, start, failure, delivery, cleanup);
            &&& n.phase(PythonReadyPhase::Start).dom().contains(order) <==> start
            &&& n.phase(PythonReadyPhase::Failure).dom().contains(order) <==> failure
            &&& n.phase(PythonReadyPhase::Delivery).dom().contains(order) <==> delivery
            &&& n.phase(PythonReadyPhase::Cleanup).dom().contains(order) <==> cleanup
            &&& forall|phase: PythonReadyPhase|
                n.phase(phase).dom().contains(order) ==> #[trigger] n.phase(phase)[order] == actor
            &&& forall|phase: PythonReadyPhase, other: u64|
                other != order ==> (#[trigger] n.phase(phase).dom().contains(other) <==> v.phase(
                    phase,
                ).dom().contains(other)) && n.phase(phase)[other] == v.phase(phase)[other]
        }),
{
}

} // verus!
