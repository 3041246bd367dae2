//! Monotonic time. A system clock reads the machine; a manual clock holds its
//! reading until it is advanced.
use vstd::prelude::*;
use crate::ordered::Key;
use crate::types::Error;

verus! {

/// A point on a clock's timeline, in nanoseconds.
#[derive(Clone, Copy, Debug, PartialEq, Eq, PartialOrd, Ord, Hash, Structural)]
pub struct Instant {
    pub nanos: u128,
}

/// The last instant of a timeline: the largest signed count of seconds and the
/// last nanosecond of that second.
pub const TIMELINE_END: u128 = 9_223_372_036_854_775_807_999_999_999;

/// A span of time, in nanoseconds.
#[derive(Clone, Copy, Debug, PartialEq, Eq, Hash, Structural)]
pub struct Duration {
    pub nanos: u128,
}

impl Key for Instant {
    open spec fn lt(a: Self, b: Self) -> bool {
        a.nanos < b.nanos
    }

    proof fn lt_irreflexive(a: Self) {
    }

    proof fn lt_transitive(a: Self, b: Self, c: Self) {
    }

    proof fn lt_total(a: Self, b: Self) {
    }

    fn less(&self, other: &Self) -> (r: bool) {
        self.nanos < other.nanos
    }
}

/// The earlier of two instants.
pub open spec fn earlier(a: Instant, b: Instant) -> Instant {
    if a.nanos <= b.nanos {
        a
    } else {
        b
    }
}

/// Whether a deadline, if there is one, has come.
pub open spec fn due(deadline: Option<Instant>, now: Instant) -> bool {
    deadline is Some && deadline->0.nanos <= now.nanos
}

/// Nanoseconds between two instants: zero if `from` is later, capped at the
/// counter's range.
pub open spec fn span_ns(from: Instant, to: Instant) -> u64 {
    if to.nanos <= from.nanos {
        0
    } else if to.nanos - from.nanos >= u64::MAX {
        u64::MAX
    } else {
        (to.nanos - from.nanos) as u64
    }
}

/// The earlier of the two deadlines that are there.
pub open spec fn earliest(a: Option<Instant>, b: Option<Instant>) -> Option<Instant> {
    match (a, b) {
        (Some(x), Some(y)) => Some(earlier(x, y)),
        (Some(x), None) => Some(x),
        (None, y) => y,
    }
}

impl Duration {
    pub fn from_nanos(nanos: u128) -> (r: Self)
        ensures
            r.nanos == nanos,
    {
        Duration { nanos }
    }

    pub fn from_millis(millis: u64) -> (r: Self)
        ensures
            r.nanos == millis * 1_000_000,
    {
        Duration { nanos: millis as u128 * 1_000_000 }
    }

    pub fn from_secs(secs: u64) -> (r: Self)
        ensures
            r.nanos == secs * 1_000_000_000,
    {
        Duration { nanos: secs as u128 * 1_000_000_000 }
    }
}

impl Instant {
    pub fn from_nanos(nanos: u128) -> (r: Self)
        ensures
            r.nanos == nanos,
    {
        Instant { nanos }
    }

    /// The instant `by` after this one, if the timeline reaches it.
    pub fn checked_add(self, by: Duration) -> (r: Option<Instant>)
        ensures
            r == (if self.nanos + by.nanos <= TIMELINE_END {
                Some(Instant { nanos: (self.nanos + by.nanos) as u128 })
            } else {
                None
            }),
    {
        if self.nanos <= TIMELINE_END && by.nanos <= TIMELINE_END - self.nanos {
            Some(Instant { nanos: self.nanos + by.nanos })
        } else {
            None
        }
    }

    pub fn min(self, other: Instant) -> (r: Instant)
        ensures
            r == earlier(self, other),
    {
        if self.nanos <= other.nanos {
            self
        } else {
            other
        }
    }

    pub fn reached(self, now: Instant) -> (r: bool)
        ensures
            r == (self.nanos <= now.nanos),
    {
        self.nanos <= now.nanos
    }

    /// Nanoseconds since `from`, saturating at both ends.
    pub fn since_ns(self, from: Instant) -> (r: u64)
        ensures
            r == span_ns(from, self),
    {
        if self.nanos <= from.nanos {
            0
        } else {
            let span: u128 = self.nanos - from.nanos;
            if span >= u64::MAX as u128 {
                u64::MAX
            } else {
                span as u64
            }
        }
    }
}

pub fn is_due(deadline: Option<Instant>, now: Instant) -> (r: bool)
    ensures
        r == due(deadline, now),
{
    match deadline {
        Some(at) => at.reached(now),
        None => false,
    }
}

pub fn earliest_of(a: Option<Instant>, b: Option<Instant>) -> (r: Option<Instant>)
    ensures
        r == earliest(a, b),
{
    match (a, b) {
        (Some(x), Some(y)) => Some(x.min(y)),
        (Some(x), None) => Some(x),
        (None, y) => y,
    }
}

/// The machine's monotonic clock reading, opaque to this library.
#[verifier::external_type_specification]
#[verifier::external_body]
pub struct ExStdInstant(std::time::Instant);

/// Calls `std::time::Instant::now`, the machine's monotonic clock. Nothing is
/// claimed of the reading.
#[verifier::external_body]
fn machine_now() -> (r: std::time::Instant) {
    std::time::Instant::now()
}

/// Calls `std::time::Instant::elapsed` and hands the span out in nanoseconds.
/// The span depends on when the call is made: nothing is claimed of it.
#[verifier::external_body]
fn machine_elapsed(origin: &std::time::Instant) -> (r: u128) {
    origin.elapsed().as_nanos()
}

/// A clock that moves only when it is advanced.
#[derive(Clone, Copy, Debug)]
pub struct VirtualClock {
    now: Instant,
}

impl VirtualClock {
    pub closed spec fn reading(self) -> Instant {
        self.now
    }

    pub fn at(initial: Instant) -> (r: Self)
        ensures
            r.reading() == initial,
    {
        VirtualClock { now: initial }
    }

    pub fn current(&self) -> (r: Instant)
        ensures
            r == self.reading(),
    {
        self.now
    }

    /// Moves the clock forward; past the end of the timeline it refuses and
    /// keeps its reading.
    pub fn advance(&mut self, by: Duration) -> (r: Result<Instant, Error>)
        ensures
            old(self).reading().nanos + by.nanos <= TIMELINE_END ==> {
                &&& r == Ok::<Instant, Error>(final(self).reading())
                &&& final(self).reading().nanos == old(self).reading().nanos + by.nanos
            },
            old(self).reading().nanos + by.nanos > TIMELINE_END ==> {
                &&& r == Err::<Instant, Error>(Error::LimitExceeded)
                &&& *final(self) == *old(self)
            },
    {
        match self.now.checked_add(by) {
            Some(next) => {
                self.now = next;
                Ok(next)
            },
            None => Err(Error::LimitExceeded),
        }
    }
}

/// The time source of a World.
pub enum Clock {
    /// Nanoseconds of the machine's clock since the origin.
    System { origin: std::time::Instant },
    Manual(VirtualClock),
}

impl Clock {
    /// Whether the clock may read `now`. A manual clock has one reading; the
    /// machine's clock may read anything.
    pub open spec fn reads(self, now: Instant) -> bool {
        self matches Clock::Manual(held) ==> now == held.reading()
    }

    pub fn system() -> (r: Self)
        ensures
            r is System,
    {
        Clock::System { origin: machine_now() }
    }

    pub fn manual_at(initial: Instant) -> (r: Self)
        ensures
            r matches Clock::Manual(held) && held.reading() == initial,
    {
        Clock::Manual(VirtualClock::at(initial))
    }

    pub fn now(&self) -> (r: Instant)
        ensures
            self.reads(r),
    {
        match self {
            Clock::System { origin } => Instant { nanos: machine_elapsed(origin) },
            Clock::Manual(held) => held.current(),
        }
    }

    pub fn is_virtual(&self) -> (r: bool)
        ensures
            r == (self is Manual),
    {
        match self {
            Clock::System { .. } => false,
            Clock::Manual(_) => true,
        }
    }
}

/// Of two times the earlier is one of them, and neither lies before it.
pub proof fn neither_lies_before_the_earlier(a: Instant, b: Instant)
    ensures
        earlier(a, b) == a || earlier(a, b) == b,
        earlier(a, b).nanos <= a.nanos,
        earlier(a, b).nanos <= b.nanos,
{
}

/// Two deadlines together are due as soon as one of them has been reached; two
/// that are not set are never due.
pub proof fn an_earliest_deadline_is_due_with_either(
    a: Option<Instant>,
    b: Option<Instant>,
    now: Instant,
)
    ensures
        due(earliest(a, b), now) <==> (a matches Some(x) && x.nanos <= now.nanos) || (b matches Some(
            y,
        ) && y.nanos <= now.nanos),
        earliest(a, b) is None <==> a is None && b is None,
        earliest(a, b) is Some ==> earliest(a, b) == a || earliest(a, b) == b,
{
}

/// A span leads from its start to its end, as far as it can be counted; none
/// runs backwards.
pub proof fn a_span_leads_to_its_end(from: Instant, to: Instant)
    ensures
        to.nanos <= from.nanos ==> span_ns(from, to) == 0,
        from.nanos <= to.nanos <= from.nanos + u64::MAX ==> from.nanos + span_ns(from, to)
            == to.nanos,
        to.nanos > from.nanos + u64::MAX ==> span_ns(from, to) == u64::MAX,
{
}

} // verus!
