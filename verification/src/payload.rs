//! Event payloads and their retained size.
use vstd::prelude::*;

verus! {

/// Canonical bytes of a registered schema, checked by the owning World.
#[derive(Clone, Debug, PartialEq)]
pub struct StructuredRecord {
    world: u64,
    schema: u32,
    bytes: Vec<u8>,
}

impl StructuredRecord {
    pub closed spec fn world_id(self) -> u64 {
        self.world
    }

    pub closed spec fn schema_id(self) -> u32 {
        self.schema
    }

    pub closed spec fn content(self) -> Seq<u8> {
        self.bytes@
    }

    pub(crate) fn new(world: u64, schema: u32, bytes: Vec<u8>) -> (r: Self)
        ensures
            r.world_id() == world,
            r.schema_id() == schema,
            r.content() == bytes@,
    {
        StructuredRecord { world, schema, bytes }
    }

    pub fn world(&self) -> (r: u64)
        ensures
            r == self.world_id(),
    {
        self.world
    }

    pub fn schema(&self) -> (r: u32)
        ensures
            r == self.schema_id(),
    {
        self.schema
    }

    pub fn bytes(&self) -> (r: &[u8])
        ensures
            r@ == self.content(),
    {
        self.bytes.as_slice()
    }
}

#[derive(Clone, Debug, PartialEq)]
pub enum Payload {
    Pulse(i64),
    CountSnapshot { count: u64, total: i64 },
    Record { schema: u32, integers: Vec<i64> },
    Structured(StructuredRecord),
}

/// Calls `Vec::capacity`: the reserved room is at least the length. How much
/// more is up to the allocator.
#[verifier::external_body]
fn reserved(integers: &Vec<i64>) -> (r: usize)
    ensures
        r >= integers.len(),
{
    integers.capacity()
}

/// What a record is charged for the room its integers have, capped at the
/// greatest count.
pub open spec fn record_charge(room: usize) -> usize {
    if 4 + 8 * room > usize::MAX {
        usize::MAX
    } else {
        (4 + 8 * room) as usize
    }
}

/// What a record is charged for the room its integers have.
pub fn record_bytes(room: usize) -> (r: usize)
    ensures
        r == record_charge(room),
{
    match room.checked_mul(8) {
        Some(filled) => filled.saturating_add(4),
        None => usize::MAX,
    }
}

/// The retained bytes that a payload may be charged. A record is charged for
/// the room its integers reserve, which is at least what they fill.
pub open spec fn may_charge(payload: Payload, bytes: usize) -> bool {
    match payload {
        Payload::Pulse(_) => bytes == 8,
        Payload::CountSnapshot { .. } => bytes == 16,
        Payload::Record { integers, .. } => exists|room: usize|
            room >= integers@.len() && bytes == #[trigger] record_charge(room),
        Payload::Structured(record) => bytes == 4 + record.content().len() || (bytes == usize::MAX && 4
            + record.content().len() > usize::MAX),
    }
}

impl Payload {
    /// The retained bytes charged for this payload.
    pub fn bytes(&self) -> (r: usize)
        ensures
            may_charge(*self, r),
    {
        match self {
            Payload::Pulse(_) => 8,
            Payload::CountSnapshot { .. } => 16,
            Payload::Record { integers, .. } => record_bytes(reserved(integers)),
            Payload::Structured(record) => record.bytes.len().saturating_add(4),
        }
    }
}

/// A pulse is charged eight bytes, a count sixteen, a record eight for each
/// integer it has room for and four more, and a structured payload its bytes and
/// four more.
pub proof fn payloads_are_charged_by_their_kind(payload: Payload, bytes: usize)
    requires
        may_charge(payload, bytes),
    ensures
        payload is Pulse ==> bytes == 8,
        payload is CountSnapshot ==> bytes == 16,
        payload matches Payload::Record { integers, .. } ==> bytes == usize::MAX || (bytes
            >= 4 + 8 * integers@.len() && (bytes - 4) % 8 == 0),
        payload matches Payload::Structured(record) ==> bytes == usize::MAX || bytes == 4
            + record.content().len(),
{
}

} // verus!
