//! Bounded metadata carried with an admitted event.
use vstd::prelude::*;
use std::sync::Arc;
use crate::clock::Instant;
use crate::components::PortRef;
use crate::text;
use crate::text::byte_len;
use crate::types::{ActorRef, Error};

verus! {

pub const MAX_BAGGAGE: usize = 8;

pub const MAX_KEY_BYTES: usize = 64;

pub const MAX_VALUE_BYTES: usize = 256;

pub const MAX_BAGGAGE_BYTES: usize = 1024;

/// A letter or digit of ASCII, or one of `_`, `.`, `-`.
pub open spec fn key_byte(b: u8) -> bool {
    (0x30 <= b <= 0x39) || (0x41 <= b <= 0x5a) || (0x61 <= b <= 0x7a) || b == 0x5f || b == 0x2e || b
        == 0x2d
}

/// A non-empty key within its bound whose bytes are all key bytes.
pub open spec fn baggage_key_ok(key: Seq<char>) -> bool {
    let bytes = text::utf8(key);
    &&& 1 <= bytes.len() <= MAX_KEY_BYTES
    &&& forall|i: int| 0 <= i < bytes.len() ==> key_byte(#[trigger] bytes[i])
}

/// The bytes that the keys and values of a baggage hold.
pub open spec fn baggage_bytes(baggage: Seq<(String, String)>) -> nat
    decreases baggage.len(),
{
    if baggage.len() == 0 {
        0
    } else {
        let last = baggage.last();
        baggage_bytes(baggage.drop_last()) + text::utf8(last.0@).len() + text::utf8(last.1@).len()
    }
}

/// Bounded, uniquely keyed baggage.
pub open spec fn baggage_ok(baggage: Seq<(String, String)>) -> bool {
    &&& baggage.len() <= MAX_BAGGAGE
    &&& forall|i: int|
        0 <= i < baggage.len() ==> baggage_key_ok((#[trigger] baggage[i]).0@) && text::utf8(
            baggage[i].1@,
        ).len() <= MAX_VALUE_BYTES
    &&& forall|i: int, j: int|
        0 <= i < j < baggage.len() ==> (#[trigger] baggage[i]).0@ != (#[trigger] baggage[j]).0@
    &&& baggage_bytes(baggage) <= MAX_BAGGAGE_BYTES
}

/// Entry by entry the same texts.
pub open spec fn same_baggage(a: Seq<(String, String)>, b: Seq<(String, String)>) -> bool {
    &&& a.len() == b.len()
    &&& forall|i: int|
        0 <= i < a.len() ==> (#[trigger] a[i]).0@ == b[i].0@ && a[i].1@ == b[i].1@
}

pub open spec fn some_nonzero(bytes: Seq<u8>) -> bool {
    exists|i: int| 0 <= i < bytes.len() && #[trigger] bytes[i] != 0
}

proof fn lemma_baggage_prefix(b: Seq<(String, String)>, n: int)
    requires
        0 <= n <= b.len(),
    ensures
        baggage_bytes(b.take(n)) <= baggage_bytes(b),
    decreases b.len() - n,
{
    if n < b.len() {
        lemma_baggage_prefix(b, n + 1);
        assert(b.take(n + 1).drop_last() =~= b.take(n));
    } else {
        assert(b.take(n) =~= b);
    }
}

proof fn lemma_same_bytes(a: Seq<(String, String)>, b: Seq<(String, String)>)
    requires
        same_baggage(a, b),
    ensures
        baggage_bytes(a) == baggage_bytes(b),
    decreases a.len(),
{
    if a.len() > 0 {
        assert(a[a.len() - 1].0@ == b[b.len() - 1].0@);
        assert forall|i: int| 0 <= i < a.len() - 1 implies (#[trigger] a.drop_last()[i]).0@
            == b.drop_last()[i].0@ && a.drop_last()[i].1@ == b.drop_last()[i].1@ by {
            assert(a[i].0@ == b[i].0@);
        }
        lemma_same_bytes(a.drop_last(), b.drop_last());
    }
}

/// Trace identity and baggage. Its bounds hold for every value.
#[derive(Debug, PartialEq, Eq)]
pub struct TraceContext {
    trace_id: [u8; 16],
    span_id: [u8; 8],
    sampled: bool,
    baggage: Arc<Vec<(String, String)>>,
}

impl Clone for TraceContext {
    fn clone(&self) -> (r: Self)
        ensures
            r == *self,
    {
        proof {
            use_type_invariant(self);
        }
        TraceContext {
            trace_id: self.trace_id,
            span_id: self.span_id,
            sampled: self.sampled,
            baggage: self.baggage.clone(),
        }
    }
}

fn any_nonzero(bytes: &[u8]) -> (r: bool)
    ensures
        r == some_nonzero(bytes@),
{
    let mut i: usize = 0;
    while i < bytes.len()
        invariant
            i <= bytes.len(),
            forall|j: int| 0 <= j < i ==> bytes@[j] == 0,
        decreases bytes.len() - i,
    {
        if bytes[i] != 0 {
            return true;
        }
        i += 1;
    }
    false
}

fn is_baggage_key(key: &str) -> (r: bool)
    ensures
        r == baggage_key_ok(key@),
{
    let bytes = key.as_bytes();
    if bytes.len() < 1 || bytes.len() > MAX_KEY_BYTES {
        return false;
    }
    let mut i: usize = 0;
    while i < bytes.len()
        invariant
            i <= bytes.len(),
            bytes@ == text::utf8(key@),
            forall|j: int| 0 <= j < i ==> key_byte(#[trigger] bytes@[j]),
        decreases bytes.len() - i,
    {
        let b: u8 = bytes[i];
        let ok: bool = (0x30 <= b && b <= 0x39) || (0x41 <= b && b <= 0x5a) || (0x61 <= b && b <= 0x7a)
            || b == 0x5f || b == 0x2e || b == 0x2d;
        if !ok {
            assert(!key_byte(bytes@[i as int]));
            return false;
        }
        i += 1;
    }
    true
}

impl TraceContext {
    #[verifier::type_invariant]
    spec fn bounded(self) -> bool {
        baggage_ok(self.baggage@)
    }

    pub closed spec fn trace(self) -> Seq<u8> {
        self.trace_id@
    }

    pub closed spec fn span(self) -> Seq<u8> {
        self.span_id@
    }

    pub closed spec fn is_sampled(self) -> bool {
        self.sampled
    }

    pub closed spec fn entries(self) -> Seq<(String, String)> {
        self.baggage@
    }

    /// Accepts non-zero identities and bounded baggage, whose texts it copies.
    pub fn new(
        trace_id: [u8; 16],
        span_id: [u8; 8],
        sampled: bool,
        baggage: Vec<(String, String)>,
    ) -> (r: Result<Self, Error>)
        ensures
            r is Ok <==> some_nonzero(trace_id@) && some_nonzero(span_id@) && baggage_ok(baggage@),
            r matches Ok(t) ==> t.trace() == trace_id@ && t.span() == span_id@ && t.is_sampled()
                == sampled && same_baggage(t.entries(), baggage@),
            r matches Err(e) ==> e == Error::InvalidMetadata,
    {
        if !any_nonzero(trace_id.as_slice()) || !any_nonzero(span_id.as_slice()) {
            return Err(Error::InvalidMetadata);
        }
        if baggage.len() > MAX_BAGGAGE {
            return Err(Error::InvalidMetadata);
        }
        let mut copied: Vec<(String, String)> = Vec::new();
        let mut total: usize = 0;
        let mut n: usize = 0;
        assert(baggage@.take(0) =~= Seq::<(String, String)>::empty());
        while n < baggage.len()
            invariant
                n <= baggage.len() <= MAX_BAGGAGE,
                same_baggage(copied@, baggage@.take(n as int)),
                total == baggage_bytes(baggage@.take(n as int)),
                baggage_ok(baggage@.take(n as int)),
            decreases baggage.len() - n,
        {
            let ghost prefix = baggage@.take(n as int);
            let ghost longer = baggage@.take(n + 1);
            proof {
                assert(longer.drop_last() =~= prefix);
                assert(longer.last() == baggage@[n as int]);
                lemma_baggage_prefix(baggage@, n + 1);
            }
            let key: &String = &baggage[n].0;
            let value: &String = &baggage[n].1;
            let value_len = byte_len(value.as_str());
            if !is_baggage_key(key.as_str()) || value_len > MAX_VALUE_BYTES {
                assert(!baggage_ok(baggage@)) by {
                    assert(baggage@[n as int].0@ == key@);
                }
                return Err(Error::InvalidMetadata);
            }
            let mut i: usize = 0;
            while i < n
                invariant
                    i <= n < baggage.len(),
                    *key == baggage@[n as int].0,
                    forall|j: int| 0 <= j < i ==> (#[trigger] baggage@[j]).0@ != key@,
                decreases n - i,
            {
                if baggage[i].0 == *key {
                    assert(!baggage_ok(baggage@)) by {
                        assert(baggage@[i as int].0@ == baggage@[n as int].0@);
                    }
                    return Err(Error::InvalidMetadata);
                }
                i += 1;
            }
            let key_len = byte_len(key.as_str());
            total = total + key_len + value_len;
            if total > MAX_BAGGAGE_BYTES {
                return Err(Error::InvalidMetadata);
            }
            copied.push((key.as_str().to_owned(), value.as_str().to_owned()));
            n += 1;
            proof {
                assert forall|i: int, j: int| 0 <= i < j < longer.len() implies (#[trigger] longer[i]).0@
                    != (#[trigger] longer[j]).0@ by {
                    if j < n - 1 {
                        assert(prefix[i].0@ != prefix[j].0@);
                    } else {
                        assert(baggage@[i].0@ != key@);
                    }
                }
                assert forall|i: int| 0 <= i < longer.len() implies baggage_key_ok(
                    (#[trigger] longer[i]).0@,
                ) && text::utf8(longer[i].1@).len() <= MAX_VALUE_BYTES by {
                    if i < n - 1 {
                        assert(longer[i] == prefix[i]);
                    }
                }
                assert forall|i: int| 0 <= i < copied@.len() implies (#[trigger] copied@[i]).0@
                    == longer[i].0@ && copied@[i].1@ == longer[i].1@ by {
                    if i < n - 1 {
                        assert(longer[i] == prefix[i]);
                    }
                }
            }
        }
        proof {
            assert(baggage@.take(n as int) =~= baggage@);
            lemma_same_bytes(copied@, baggage@);
            assert forall|i: int| 0 <= i < copied@.len() implies baggage_key_ok(
                (#[trigger] copied@[i]).0@,
            ) && text::utf8(copied@[i].1@).len() <= MAX_VALUE_BYTES by {
                assert(baggage@[i].0@ == copied@[i].0@);
            }
            assert forall|i: int, j: int| 0 <= i < j < copied@.len() implies (#[trigger] copied@[i]).0@
                != (#[trigger] copied@[j]).0@ by {
                assert(baggage@[i].0@ != baggage@[j].0@);
            }
        }
        Ok(TraceContext { trace_id, span_id, sampled, baggage: Arc::new(copied) })
    }

    pub fn trace_id(&self) -> (r: &[u8; 16])
        ensures
            r@ == self.trace(),
    {
        &self.trace_id
    }

    pub fn span_id(&self) -> (r: &[u8; 8])
        ensures
            r@ == self.span(),
    {
        &self.span_id
    }

    pub fn sampled(&self) -> (r: bool)
        ensures
            r == self.is_sampled(),
    {
        self.sampled
    }

    pub fn baggage(&self) -> (r: &[(String, String)])
        ensures
            r@ == self.entries(),
    {
        self.baggage.as_slice()
    }

    /// The retained bytes of the context: its identities, its flag and its
    /// baggage.
    pub open spec fn charge(self) -> nat {
        25 + baggage_bytes(self.entries())
    }

    pub fn charged_bytes(&self) -> (r: usize)
        ensures
            r == self.charge(),
            r <= 25 + MAX_BAGGAGE_BYTES,
    {
        proof {
            use_type_invariant(self);
        }
        let mut total: usize = 0;
        let mut n: usize = 0;
        assert(self.baggage@.take(0) =~= Seq::<(String, String)>::empty());
        while n < self.baggage.len()
            invariant
                n <= self.baggage.len(),
                total == baggage_bytes(self.baggage@.take(n as int)),
                baggage_bytes(self.baggage@) <= MAX_BAGGAGE_BYTES,
            decreases self.baggage.len() - n,
        {
            proof {
                assert(self.baggage@.take(n + 1).drop_last() =~= self.baggage@.take(n as int));
                lemma_baggage_prefix(self.baggage@, n + 1);
            }
            total = total + byte_len(self.baggage[n].0.as_str()) + byte_len(
                self.baggage[n].1.as_str(),
            );
            n += 1;
        }
        assert(self.baggage@.take(n as int) =~= self.baggage@);
        24 + 1 + total
    }
}

/// Metadata that a sender attaches to a message.
#[derive(Debug)]
pub struct MessageOptions {
    pub source: Option<ActorRef>,
    pub deadline: Option<Instant>,
    pub correlation_id: Option<u64>,
    pub causation_id: Option<u64>,
    pub trace: Option<TraceContext>,
}

impl Clone for MessageOptions {
    fn clone(&self) -> (r: Self)
        ensures
            r == *self,
    {
        MessageOptions {
            source: self.source,
            deadline: self.deadline,
            correlation_id: self.correlation_id,
            causation_id: self.causation_id,
            trace: self.trace.clone(),
        }
    }
}

pub open spec fn no_options() -> MessageOptions {
    MessageOptions {
        source: None,
        deadline: None,
        correlation_id: None,
        causation_id: None,
        trace: None,
    }
}

impl Default for MessageOptions {
    fn default() -> (r: Self)
        ensures
            r == no_options(),
    {
        MessageOptions {
            source: None,
            deadline: None,
            correlation_id: None,
            causation_id: None,
            trace: None,
        }
    }
}

impl MessageOptions {
    /// No identity is zero.
    pub open spec fn valid(self) -> bool {
        self.correlation_id != Some(0u64) && self.causation_id != Some(0u64)
    }

    pub fn validate(&self) -> (r: Result<(), Error>)
        ensures
            r == (if self.valid() {
                Ok(())
            } else {
                Err(Error::InvalidMetadata)
            }),
    {
        if self.correlation_id == Some(0) || self.causation_id == Some(0) {
            return Err(Error::InvalidMetadata);
        }
        Ok(())
    }

    pub open spec fn charge(self) -> nat {
        match self.trace {
            Some(trace) => trace.charge(),
            None => 0,
        }
    }

    pub fn charged_bytes(&self) -> (r: usize)
        ensures
            r == self.charge(),
            r <= 25 + MAX_BAGGAGE_BYTES,
    {
        match &self.trace {
            Some(trace) => trace.charged_bytes(),
            None => 0,
        }
    }
}

#[derive(Clone, Copy, Debug, PartialEq, Eq, Structural)]
pub enum SchemaKind {
    Pulse,
    CountSnapshot,
    Record,
    Structured,
}

#[derive(Clone, Copy, Debug, PartialEq, Eq, Structural)]
pub struct SchemaIdentity {
    pub kind: SchemaKind,
    pub id: u32,
    pub version: u32,
}

/// The immutable metadata of one delivery.
#[derive(Debug)]
pub struct Envelope {
    pub event_id: u64,
    pub schema: SchemaIdentity,
    pub source: Option<ActorRef>,
    pub destination: ActorRef,
    pub dispatcher: Option<PortRef>,
    pub destination_port: Option<PortRef>,
    pub owner: ActorRef,
    pub enqueued_at: Instant,
    pub deadline: Option<Instant>,
    pub correlation_id: Option<u64>,
    pub causation_id: Option<u64>,
    pub trace: Option<TraceContext>,
}

impl Clone for Envelope {
    fn clone(&self) -> (r: Self)
        ensures
            r == *self,
    {
        Envelope {
            event_id: self.event_id,
            schema: self.schema,
            source: self.source,
            destination: self.destination,
            dispatcher: self.dispatcher,
            destination_port: self.destination_port,
            owner: self.owner,
            enqueued_at: self.enqueued_at,
            deadline: self.deadline,
            correlation_id: self.correlation_id,
            causation_id: self.causation_id,
            trace: self.trace.clone(),
        }
    }
}

/// The metadata of an event caused by the event of an envelope.
pub open spec fn child_of(envelope: Envelope, source: ActorRef) -> MessageOptions {
    MessageOptions {
        source: Some(source),
        deadline: envelope.deadline,
        correlation_id: Some(
            match envelope.correlation_id {
                Some(id) => id,
                None => envelope.event_id,
            },
        ),
        causation_id: Some(envelope.event_id),
        trace: envelope.trace,
    }
}

/// What an event causes ends with it, names it as its cause, goes on with its
/// conversation, which it starts if there was none, and keeps its trace.
pub proof fn what_is_caused_ends_with_its_cause(cause: Envelope, source: ActorRef)
    ensures
        ({
            let child = child_of(cause, source);
            &&& child.deadline == cause.deadline
            &&& child.causation_id == Some(cause.event_id)
            &&& cause.correlation_id is Some ==> child.correlation_id == cause.correlation_id
            &&& cause.correlation_id is None ==> child.correlation_id == Some(cause.event_id)
            &&& child.trace == cause.trace
            &&& child.source == Some(source)
            &&& cause.event_id != 0 && cause.correlation_id != Some(0u64) ==> child.valid()
        }),
{
}

impl Envelope {
    pub fn child_options(&self, source: ActorRef) -> (r: MessageOptions)
        ensures
            r == child_of(*self, source),
            r.source == Some(source),
            r.deadline == self.deadline,
            r.causation_id == Some(self.event_id),
            self.correlation_id is Some ==> r.correlation_id == self.correlation_id,
            self.correlation_id is None ==> r.correlation_id == Some(self.event_id),
            r.trace == self.trace,
    {
        MessageOptions {
            source: Some(source),
            deadline: self.deadline,
            correlation_id: Some(
                match self.correlation_id {
                    Some(id) => id,
                    None => self.event_id,
                },
            ),
            causation_id: Some(self.event_id),
            trace: self.trace.clone(),
        }
    }
}

/// What travels with a message is bounded: at most eight entries, each key of at
/// most 64 bytes out of letters, digits and three signs and used once, each value
/// of at most 256 bytes, and 1024 bytes in all.
pub proof fn baggage_is_bounded(baggage: Seq<(String, String)>)
    ensures
        baggage_ok(baggage) ==> {
            &&& baggage.len() <= 8
            &&& baggage_bytes(baggage) <= 1024
            &&& forall|i: int|
                0 <= i < baggage.len() ==> {
                    &&& 1 <= text::utf8((#[trigger] baggage[i]).0@).len() <= 64
                    &&& text::utf8(baggage[i].1@).len() <= 256
                }
            &&& forall|i: int, k: int|
                0 <= i < baggage.len() && 0 <= k < text::utf8(baggage[i].0@).len() ==> {
                    let b = #[trigger] text::utf8(baggage[i].0@)[k];
                    ||| 'a' as u32 <= b as u32 <= 'z' as u32
                    ||| 'A' as u32 <= b as u32 <= 'Z' as u32
                    ||| '0' as u32 <= b as u32 <= '9' as u32
                    ||| b as u32 == '_' as u32 || b as u32 == '.' as u32 || b as u32 == '-' as u32
                }
            &&& forall|i: int, j: int|
                0 <= i < baggage.len() && 0 <= j < baggage.len() && i != j
                    ==> (#[trigger] baggage[i]).0@ != (#[trigger] baggage[j]).0@
        },
{
    if baggage_ok(baggage) {
        assert forall|i: int, k: int|
            0 <= i < baggage.len() && 0 <= k < text::utf8(baggage[i].0@).len() implies key_byte(
            #[trigger] text::utf8(baggage[i].0@)[k],
        ) by {
            assert(baggage_key_ok(baggage[i].0@));
        }
    }
}

/// An entry of the baggage is charged by its key and its value, beside what every
/// trace costs.
pub proof fn each_entry_is_charged(baggage: Seq<(String, String)>, entry: (String, String))
    ensures
        baggage_bytes(Seq::empty()) == 0,
        baggage_bytes(baggage.push(entry)) == baggage_bytes(baggage) + text::utf8(entry.0@).len()
            + text::utf8(entry.1@).len(),
{
    assert(baggage.push(entry).drop_last() == baggage);
}

/// An identity is good unless all of its bytes are zero.
pub proof fn an_identity_of_zeros_is_none(bytes: Seq<u8>)
    ensures
        some_nonzero(bytes) <==> !(forall|i: int| 0 <= i < bytes.len() ==> #[trigger] bytes[i] == 0),
{
}

/// Metadata that nobody asked for is empty.
pub proof fn no_options_ask_for_nothing()
    ensures
        no_options().source is None,
        no_options().deadline is None,
        no_options().correlation_id is None,
        no_options().causation_id is None,
        no_options().trace is None,
        no_options().valid(),
        no_options().charge() == 0,
{
}

/// A trace is charged its identities of sixteen and eight bytes, one byte for the
/// sampling and its baggage; metadata without a trace is charged nothing.
pub proof fn a_trace_is_charged_by_its_parts(trace: TraceContext, options: MessageOptions)
    ensures
        trace.charge() == 16 + 8 + 1 + baggage_bytes(trace.entries()),
        options.trace is None ==> options.charge() == 0,
        options.trace matches Some(carried) ==> options.charge() == 16 + 8 + 1 + baggage_bytes(
            carried.entries(),
        ),
{
}

} // verus!
