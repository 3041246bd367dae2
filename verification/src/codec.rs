//! Canonical bytes of structured values: one encoding per value and schema.
use vstd::prelude::*;
use vstd::bytes::*;
use vstd::slice::slice_subrange;
use vstd::string::*;
use vstd::utf8::*;
use crate::schema;
use crate::schema::{FieldType, FieldView, Schema, SchemaError, SchemaView, TypeView, MAX_DEPTH, MAX_EVENT_BYTES};
use crate::text;

verus! {

/// A typed value. A float is held by its bits.
#[derive(Debug, PartialEq, Eq)]
pub enum Value {
    Int(i64),
    UInt(u64),
    Float(u64),
    Bool(bool),
    String(String),
    Bytes(Vec<u8>),
    Enum(u32),
    Optional(Option<Box<Value>>),
    Sequence(Vec<Value>),
    Record(Vec<Value>),
}

/// A value by its contents.
#[verifier::ext_equal]
pub enum ValueView {
    Int(i64),
    UInt(u64),
    Float(u64),
    Bool(bool),
    String(Seq<char>),
    Bytes(Seq<u8>),
    Enum(u32),
    Absent,
    Present(Box<ValueView>),
    Sequence(Seq<ValueView>),
    Record(Seq<ValueView>),
}

pub open spec fn value_view(value: Value) -> ValueView
    decreases value,
{
    match value {
        Value::Int(x) => ValueView::Int(x),
        Value::UInt(x) => ValueView::UInt(x),
        Value::Float(x) => ValueView::Float(x),
        Value::Bool(x) => ValueView::Bool(x),
        Value::String(x) => ValueView::String(x@),
        Value::Bytes(x) => ValueView::Bytes(x@),
        Value::Enum(x) => ValueView::Enum(x),
        Value::Optional(None) => ValueView::Absent,
        Value::Optional(Some(x)) => ValueView::Present(Box::new(value_view(*x))),
        Value::Sequence(list) => ValueView::Sequence(values_view(list@)),
        Value::Record(list) => ValueView::Record(values_view(list@)),
    }
}

pub open spec fn values_view(values: Seq<Value>) -> Seq<ValueView>
    decreases values,
{
    if values.len() == 0 {
        Seq::empty()
    } else {
        values_view(values.drop_last()).push(value_view(values.last()))
    }
}

impl View for Value {
    type V = ValueView;

    open spec fn view(&self) -> ValueView {
        value_view(*self)
    }
}

proof fn lemma_values_view(values: Seq<Value>)
    ensures
        values_view(values).len() == values.len(),
        forall|i: int|
            0 <= i < values.len() ==> #[trigger] values_view(values)[i] == value_view(values[i]),
    decreases values.len(),
{
    if values.len() > 0 {
        lemma_values_view(values.drop_last());
        assert forall|i: int| 0 <= i < values.len() implies #[trigger] values_view(values)[i]
            == value_view(values[i]) by {
            if i < values.len() - 1 {
                assert(values_view(values.drop_last())[i] == value_view(values.drop_last()[i]));
            }
        }
    }
}

/// The most values that one event may hold.
pub const MAX_VALUE_NODES: usize = 4096;

pub const CANONICAL_NAN: u64 = 0x7ff8_0000_0000_0000;

pub const MANTISSA: u64 = 0x0010_0000_0000_0000;

/// Whether the bits of a float have the exponent of infinities and NaNs.
pub open spec fn non_finite(bits: u64) -> bool {
    (bits / MANTISSA) % 2048 == 2047
}

pub open spec fn is_nan(bits: u64) -> bool {
    non_finite(bits) && bits % MANTISSA != 0
}

fn has_top_exponent(bits: u64) -> (r: bool)
    ensures
        r == non_finite(bits),
{
    (bits / MANTISSA) % 2048 == 2047
}

fn bits_are_nan(bits: u64) -> (r: bool)
    ensures
        r == is_nan(bits),
{
    has_top_exponent(bits) && bits % MANTISSA != 0
}

/// The bits that stand for a float: all NaNs are one.
pub open spec fn canonical_bits(bits: u64) -> u64 {
    if is_nan(bits) {
        CANONICAL_NAN
    } else {
        bits
    }
}

pub open spec fn digit_text(digit: nat) -> Seq<char> {
    if digit == 0 {
        "0"@
    } else if digit == 1 {
        "1"@
    } else if digit == 2 {
        "2"@
    } else if digit == 3 {
        "3"@
    } else if digit == 4 {
        "4"@
    } else if digit == 5 {
        "5"@
    } else if digit == 6 {
        "6"@
    } else if digit == 7 {
        "7"@
    } else if digit == 8 {
        "8"@
    } else {
        "9"@
    }
}

/// A number in decimal digits.
pub open spec fn decimal(n: nat) -> Seq<char>
    decreases n,
{
    if n < 10 {
        digit_text(n)
    } else {
        decimal(n / 10) + digit_text(n % 10)
    }
}

/// The place of an element in a sequence, as errors name it.
pub open spec fn index_text(index: nat) -> Seq<char> {
    "["@ + decimal(index) + "]"@
}

fn digit(d: usize) -> (r: &'static str)
    requires
        d < 10,
    ensures
        r@ == digit_text(d as nat),
{
    if d == 0 {
        "0"
    } else if d == 1 {
        "1"
    } else if d == 2 {
        "2"
    } else if d == 3 {
        "3"
    } else if d == 4 {
        "4"
    } else if d == 5 {
        "5"
    } else if d == 6 {
        "6"
    } else if d == 7 {
        "7"
    } else if d == 8 {
        "8"
    } else {
        "9"
    }
}

fn decimal_of(n: usize) -> (r: String)
    ensures
        r@ == decimal(n as nat),
    decreases n,
{
    if n < 10 {
        digit(n).to_owned()
    } else {
        let mut r = decimal_of(n / 10);
        r.append(digit(n % 10));
        r
    }
}

fn index_name(index: usize) -> (r: String)
    ensures
        r@ == index_text(index as nat),
{
    let mut r = "[".to_owned();
    r.append(decimal_of(index).as_str());
    r.append("]");
    r
}

/// What a writer has so far: the bytes and the number of values.
#[verifier::ext_equal]
pub struct Written {
    pub out: Seq<u8>,
    pub nodes: nat,
}

/// More bytes, if they fit.
pub open spec fn put(w: Written, bytes: Seq<u8>, max: nat) -> Result<Written, Seq<char>> {
    if w.out.len() + bytes.len() > max {
        Err(schema::clip("event size"@))
    } else {
        Ok(Written { out: w.out + bytes, nodes: w.nodes })
    }
}

/// A length and the bytes that it counts.
pub open spec fn put_counted(w: Written, bytes: Seq<u8>, max: nat) -> Result<Written, Seq<char>> {
    match put(w, spec_u32_to_le_bytes(bytes.len() as u32), max) {
        Ok(w) => put(w, bytes, max),
        Err(m) => Err(m),
    }
}

pub open spec fn write_record(s: SchemaView, v: ValueView, depth: nat, w: Written, max: nat) -> Result<
    Written,
    Seq<char>,
>
    decreases s, 0nat, 0nat,
{
    if w.nodes + 1 > MAX_VALUE_NODES || depth > MAX_DEPTH {
        Err(schema::clip("value node/depth limit"@))
    } else {
        let w = Written { nodes: w.nodes + 1, ..w };
        match v {
            ValueView::Record(values) => if values.len() != s.fields.len() {
                Err(schema::clip("record field count"@))
            } else {
                write_fields(s.fields, values, s.fields.len(), depth, w, max)
            },
            _ => Err(schema::clip("expected record"@)),
        }
    }
}

/// The first `count` fields.
pub open spec fn write_fields(
    fields: Seq<FieldView>,
    values: Seq<ValueView>,
    count: nat,
    depth: nat,
    w: Written,
    max: nat,
) -> Result<Written, Seq<char>>
    decreases fields, count, 0nat,
{
    if count == 0 || count > fields.len() {
        Ok(w)
    } else {
        match write_fields(fields, values, (count - 1) as nat, depth, w, max) {
            Err(m) => Err(m),
            Ok(w) => {
                let field = fields[count - 1];
                match write_type(field.ty, values[count - 1], depth + 1, w, max) {
                    Ok(w) => Ok(w),
                    Err(m) => Err(schema::located(field.name, m)),
                }
            },
        }
    }
}

/// The first `count` elements.
pub open spec fn write_items(
    item: TypeView,
    values: Seq<ValueView>,
    count: nat,
    depth: nat,
    w: Written,
    max: nat,
) -> Result<Written, Seq<char>>
    decreases item, count, 1nat,
{
    if count == 0 || count > values.len() {
        Ok(w)
    } else {
        match write_items(item, values, (count - 1) as nat, depth, w, max) {
            Err(m) => Err(m),
            Ok(w) => match write_type(item, values[count - 1], depth, w, max) {
                Ok(w) => Ok(w),
                Err(m) => Err(schema::located(index_text((count - 1) as nat), m)),
            },
        }
    }
}

pub open spec fn write_type(ty: TypeView, v: ValueView, depth: nat, w: Written, max: nat) -> Result<
    Written,
    Seq<char>,
>
    decreases ty, 0nat, 0nat,
{
    let refused = Err(schema::clip("value does not match schema"@));
    match ty {
        TypeView::Record(s) => write_record(*s, v, depth, w, max),
        _ => if w.nodes + 1 > MAX_VALUE_NODES || depth > MAX_DEPTH {
            Err(schema::clip("value node/depth limit"@))
        } else {
            let w = Written { nodes: w.nodes + 1, ..w };
            match (ty, v) {
                (TypeView::Int { min, max: top }, ValueView::Int(x)) => if min <= x <= top {
                    put(w, spec_u64_to_le_bytes(x as u64), max)
                } else {
                    refused
                },
                (TypeView::UInt { min, max: top }, ValueView::UInt(x)) => if min <= x <= top {
                    put(w, spec_u64_to_le_bytes(x), max)
                } else {
                    refused
                },
                (TypeView::Float { allow_non_finite }, ValueView::Float(x)) => if !allow_non_finite
                    && non_finite(x) {
                    Err(schema::clip("invalid float"@))
                } else {
                    put(w, spec_u64_to_le_bytes(canonical_bits(x)), max)
                },
                (TypeView::Bool, ValueView::Bool(x)) => put(
                    w,
                    seq![if x { 1u8 } else { 0u8 }],
                    max,
                ),
                (TypeView::String { max_bytes }, ValueView::String(x)) => if text::utf8(x).len()
                    > max_bytes {
                    Err(schema::clip("string limit"@))
                } else {
                    put_counted(w, text::utf8(x), max)
                },
                (TypeView::Bytes { max_bytes }, ValueView::Bytes(x)) => if x.len() > max_bytes {
                    Err(schema::clip("bytes limit"@))
                } else {
                    put_counted(w, x, max)
                },
                (TypeView::Enum { variants, .. }, ValueView::Enum(x)) => if x < variants.len() {
                    put(w, spec_u32_to_le_bytes(x), max)
                } else {
                    refused
                },
                (TypeView::Optional(item), ValueView::Absent) => put(w, seq![0u8], max),
                (TypeView::Optional(item), ValueView::Present(x)) => match put(w, seq![1u8], max) {
                    Ok(w) => write_type(*item, *x, depth + 1, w, max),
                    Err(m) => Err(m),
                },
                (TypeView::Sequence { item, max_len }, ValueView::Sequence(values)) => if values.len()
                    > max_len {
                    refused
                } else if values.len() > MAX_VALUE_NODES - w.nodes {
                    Err(schema::clip("remaining value node limit"@))
                } else {
                    match put(w, spec_u32_to_le_bytes(values.len() as u32), max) {
                        Ok(w) => write_items(*item, values, values.len(), depth + 1, w, max),
                        Err(m) => Err(m),
                    }
                },
                _ => refused,
            }
        },
    }
}

impl SchemaView {
    /// The canonical bytes of a value, or why it has none.
    pub open spec fn encoding(self, value: ValueView, max_bytes: usize) -> Result<Seq<u8>, Seq<char>> {
        match schema::schema_fault(self, 0, 0).0 {
            Some(fault) => Err(fault),
            None => if max_bytes > MAX_EVENT_BYTES {
                Err(schema::clip("event byte limit"@))
            } else {
                match write_record(
                    self,
                    value,
                    0,
                    Written { out: Seq::empty(), nodes: 0 },
                    max_bytes as nat,
                ) {
                    Ok(w) => Ok(w.out),
                    Err(m) => Err(schema::located(self.name, m)),
                }
            },
        }
    }
}

struct Writer {
    out: Vec<u8>,
    max: usize,
    nodes: usize,
}

impl View for Writer {
    type V = Written;

    closed spec fn view(&self) -> Written {
        Written { out: self.out@, nodes: self.nodes as nat }
    }
}

/// Whether a step of a writer did what it should.
spec fn wrote(r: Result<(), SchemaError>, w: Writer, expected: Result<Written, Seq<char>>) -> bool {
    match r {
        Ok(_) => expected == Ok::<Written, Seq<char>>(w@),
        Err(e) => expected == Err::<Written, Seq<char>>(e@),
    }
}

impl Writer {
    spec fn ok(self) -> bool {
        self.nodes <= MAX_VALUE_NODES
    }

    fn add(&mut self, bytes: &[u8]) -> (r: Result<(), SchemaError>)
        ensures
            wrote(r, *final(self), put(old(self)@, bytes@, old(self).max as nat)),
            final(self).max == old(self).max,
            final(self).nodes == old(self).nodes,
    {
        let fits: bool = match self.out.len().checked_add(bytes.len()) {
            Some(total) => total <= self.max,
            None => false,
        };
        if !fits {
            return Err(SchemaError::new("event size"));
        }
        let ghost before = self.out@;
        let mut i: usize = 0;
        while i < bytes.len()
            invariant
                i <= bytes@.len(),
                self.out@ == before + bytes@.take(i as int),
                self.max == old(self).max,
                self.nodes == old(self).nodes,
            decreases bytes@.len() - i,
        {
            self.out.push(bytes[i]);
            assert(bytes@.take(i + 1) =~= bytes@.take(i as int).push(bytes@[i as int]));
            assert(self.out@ =~= before + bytes@.take(i + 1));
            i += 1;
        }
        assert(bytes@.take(i as int) =~= bytes@);
        Ok(())
    }

    fn add_counted(&mut self, bytes: &[u8]) -> (r: Result<(), SchemaError>)
        ensures
            wrote(r, *final(self), put_counted(old(self)@, bytes@, old(self).max as nat)),
            final(self).max == old(self).max,
            final(self).nodes == old(self).nodes,
    {
        let count = u32_to_le_bytes(bytes.len() as u32);
        match self.add(count.as_slice()) {
            Ok(_) => self.add(bytes),
            Err(e) => Err(e),
        }
    }

    fn record(&mut self, s: &Schema, v: &Value, depth: usize) -> (r: Result<(), SchemaError>)
        requires
            old(self).ok(),
            depth <= MAX_DEPTH + 1,
        ensures
            wrote(r, *final(self), write_record(s@, v@, depth as nat, old(self)@, old(self).max as nat)),
            final(self).max == old(self).max,
            r is Ok ==> final(self).ok(),
        decreases s, 0nat,
    {
        proof {
            schema::lemma_fields_view(s.fields@);
        }
        if self.nodes + 1 > MAX_VALUE_NODES || depth > MAX_DEPTH {
            return Err(SchemaError::new("value node/depth limit"));
        }
        self.nodes = self.nodes + 1;
        let values = match v {
            Value::Record(values) => values,
            _ => return Err(SchemaError::new("expected record")),
        };
        proof {
            lemma_values_view(values@);
        }
        if values.len() != s.fields.len() {
            return Err(SchemaError::new("record field count"));
        }
        let ghost w0 = self@;
        let ghost list = values_view(values@);
        let mut i: usize = 0;
        while i < s.fields.len()
            invariant
                i <= s.fields.len(),
                s.fields.len() == values.len(),
                depth <= MAX_DEPTH,
                self.ok(),
                self.max == old(self).max,
                list == values_view(values@),
                list.len() == values@.len(),
                s@.fields.len() == s.fields@.len(),
                forall|j: int|
                    0 <= j < s.fields@.len() ==> #[trigger] s@.fields[j] == schema::field_view(
                        s.fields@[j],
                    ),
                forall|j: int| 0 <= j < values@.len() ==> #[trigger] list[j] == value_view(values@[j]),
                write_fields(s@.fields, list, i as nat, depth as nat, w0, self.max as nat) == Ok::<
                    Written,
                    Seq<char>,
                >(self@),
                write_record(s@, v@, depth as nat, old(self)@, self.max as nat) == write_fields(
                    s@.fields,
                    list,
                    s@.fields.len(),
                    depth as nat,
                    w0,
                    self.max as nat,
                ),
            decreases s.fields.len() - i,
        {
            let field = &s.fields[i];
            assert(s@.fields[i as int] == schema::field_view(s.fields@[i as int]));
            assert(list[i as int] == value_view(values@[i as int]));
            match self.value(&field.ty, &values[i], depth + 1) {
                Ok(_) => {},
                Err(e) => {
                    proof {
                        lemma_write_fields_err(
                            s@.fields,
                            list,
                            (i + 1) as nat,
                            s@.fields.len(),
                            depth as nat,
                            w0,
                            self.max as nat,
                        );
                    }
                    return Err(e.at(field.name.as_str()));
                },
            }
            i += 1;
        }
        Ok(())
    }

    fn value(&mut self, ty: &FieldType, v: &Value, depth: usize) -> (r: Result<(), SchemaError>)
        requires
            old(self).ok(),
            depth <= MAX_DEPTH + 1,
        ensures
            wrote(r, *final(self), write_type(ty@, v@, depth as nat, old(self)@, old(self).max as nat)),
            final(self).max == old(self).max,
            r is Ok ==> final(self).ok(),
        decreases ty, 0nat,
    {
        match ty {
            FieldType::Record(s) => {
                return self.record(s, v, depth);
            },
            _ => {},
        }
        if self.nodes + 1 > MAX_VALUE_NODES || depth > MAX_DEPTH {
            return Err(SchemaError::new("value node/depth limit"));
        }
        self.nodes = self.nodes + 1;
        match (ty, v) {
            (FieldType::Int { min, max }, Value::Int(x)) => {
                if *min <= *x && *x <= *max {
                    let bytes = u64_to_le_bytes(*x as u64);
                    return self.add(bytes.as_slice());
                }
            },
            (FieldType::UInt { min, max }, Value::UInt(x)) => {
                if *min <= *x && *x <= *max {
                    let bytes = u64_to_le_bytes(*x);
                    return self.add(bytes.as_slice());
                }
            },
            (FieldType::Float { allow_non_finite }, Value::Float(x)) => {
                if !*allow_non_finite && has_top_exponent(*x) {
                    return Err(SchemaError::new("invalid float"));
                }
                let bits: u64 = if bits_are_nan(*x) {
                    CANONICAL_NAN
                } else {
                    *x
                };
                let bytes = u64_to_le_bytes(bits);
                return self.add(bytes.as_slice());
            },
            (FieldType::Bool, Value::Bool(x)) => {
                let byte: u8 = if *x {
                    1
                } else {
                    0
                };
                let mut bytes: Vec<u8> = Vec::new();
                bytes.push(byte);
                assert(bytes@ =~= seq![byte]);
                return self.add(bytes.as_slice());
            },
            (FieldType::String { max_bytes }, Value::String(x)) => {
                let bytes = x.as_str().as_bytes();
                if bytes.len() > *max_bytes {
                    return Err(SchemaError::new("string limit"));
                }
                return self.add_counted(bytes);
            },
            (FieldType::Bytes { max_bytes }, Value::Bytes(x)) => {
                if x.len() > *max_bytes {
                    return Err(SchemaError::new("bytes limit"));
                }
                return self.add_counted(x.as_slice());
            },
            (FieldType::Enum { name: _, variants }, Value::Enum(x)) => {
                if (*x as usize) < variants.len() {
                    let bytes = u32_to_le_bytes(*x);
                    return self.add(bytes.as_slice());
                }
            },
            (FieldType::Optional(item), Value::Optional(x)) => {
                let mut bytes: Vec<u8> = Vec::new();
                match x {
                    None => {
                        bytes.push(0);
                        assert(bytes@ =~= seq![0u8]);
                        return self.add(bytes.as_slice());
                    },
                    Some(x) => {
                        bytes.push(1);
                        assert(bytes@ =~= seq![1u8]);
                        match self.add(bytes.as_slice()) {
                            Ok(_) => {},
                            Err(e) => return Err(e),
                        }
                        return self.value(item, x, depth + 1);
                    },
                }
            },
            (FieldType::Sequence { item, max_len }, Value::Sequence(values)) => {
                proof {
                    lemma_values_view(values@);
                }
                if values.len() <= *max_len {
                    if values.len() > MAX_VALUE_NODES - self.nodes {
                        return Err(SchemaError::new("remaining value node limit"));
                    }
                    let count = u32_to_le_bytes(values.len() as u32);
                    match self.add(count.as_slice()) {
                        Ok(_) => {},
                        Err(e) => return Err(e),
                    }
                    return self.items(item, values, depth + 1);
                }
            },
            _ => {},
        }
        Err(SchemaError::new("value does not match schema"))
    }

    fn items(&mut self, item: &FieldType, values: &Vec<Value>, depth: usize) -> (r: Result<
        (),
        SchemaError,
    >)
        requires
            old(self).ok(),
            depth <= MAX_DEPTH + 1,
        ensures
            wrote(
                r,
                *final(self),
                write_items(
                    item@,
                    values_view(values@),
                    values@.len(),
                    depth as nat,
                    old(self)@,
                    old(self).max as nat,
                ),
            ),
            final(self).max == old(self).max,
            r is Ok ==> final(self).ok(),
        decreases item, 1nat,
    {
        let ghost list = values_view(values@);
        let ghost w0 = self@;
        proof {
            lemma_values_view(values@);
        }
        let mut i: usize = 0;
        while i < values.len()
            invariant
                i <= values.len(),
                depth <= MAX_DEPTH + 1,
                self.ok(),
                self.max == old(self).max,
                w0 == old(self)@,
                list == values_view(values@),
                list.len() == values@.len(),
                forall|j: int| 0 <= j < values@.len() ==> #[trigger] list[j] == value_view(values@[j]),
                write_items(item@, list, i as nat, depth as nat, w0, self.max as nat) == Ok::<
                    Written,
                    Seq<char>,
                >(self@),
            decreases values.len() - i,
        {
            assert(list[i as int] == value_view(values@[i as int]));
            match self.value(item, &values[i], depth) {
                Ok(_) => {},
                Err(e) => {
                    proof {
                        lemma_write_items_err(
                            item@,
                            list,
                            (i + 1) as nat,
                            list.len(),
                            depth as nat,
                            w0,
                            self.max as nat,
                        );
                    }
                    let place = index_name(i);
                    return Err(e.at(place.as_str()));
                },
            }
            i += 1;
        }
        Ok(())
    }
}

proof fn lemma_write_fields_err(
    fields: Seq<FieldView>,
    values: Seq<ValueView>,
    a: nat,
    b: nat,
    depth: nat,
    w: Written,
    max: nat,
)
    requires
        a <= b <= fields.len(),
        write_fields(fields, values, a, depth, w, max) is Err,
    ensures
        write_fields(fields, values, b, depth, w, max) == write_fields(
            fields,
            values,
            a,
            depth,
            w,
            max,
        ),
    decreases b - a,
{
    if a < b {
        lemma_write_fields_err(fields, values, a, (b - 1) as nat, depth, w, max);
    }
}

proof fn lemma_write_items_err(
    item: TypeView,
    values: Seq<ValueView>,
    a: nat,
    b: nat,
    depth: nat,
    w: Written,
    max: nat,
)
    requires
        a <= b <= values.len(),
        write_items(item, values, a, depth, w, max) is Err,
    ensures
        write_items(item, values, b, depth, w, max) == write_items(item, values, a, depth, w, max),
    decreases b - a,
{
    if a < b {
        lemma_write_items_err(item, values, a, (b - 1) as nat, depth, w, max);
    }
}

impl Schema {
    /// Encodes a value into its canonical bytes.
    pub fn encode(&self, value: &Value, max_bytes: usize) -> (r: Result<Vec<u8>, SchemaError>)
        ensures
            match r {
                Ok(bytes) => self@.encoding(value@, max_bytes) == Ok::<Seq<u8>, Seq<char>>(bytes@),
                Err(e) => self@.encoding(value@, max_bytes) == Err::<Seq<u8>, Seq<char>>(e@),
            },
    {
        match self.validate() {
            Ok(_) => {},
            Err(e) => return Err(e),
        }
        if max_bytes > MAX_EVENT_BYTES {
            return Err(SchemaError::new("event byte limit"));
        }
        let mut w = Writer { out: Vec::new(), max: max_bytes, nodes: 0 };
        assert(w@ =~= Written { out: Seq::empty(), nodes: 0 });
        match w.record(self, value, 0) {
            Ok(_) => Ok(w.out),
            Err(e) => Err(e.at(self.name.as_str())),
        }
    }
}

/// How far a reader got: the place in the bytes and the number of values.
pub struct Place {
    pub pos: nat,
    pub nodes: nat,
}

/// The next bytes, if there are as many.
pub open spec fn next_bytes(b: Seq<u8>, pos: nat, n: nat) -> Result<Seq<u8>, Seq<char>> {
    if pos + n > b.len() {
        Err(schema::clip("truncated value"@))
    } else {
        Ok(b.subrange(pos as int, (pos + n) as int))
    }
}

/// A length and the bytes that it counts, which may be no more than `limit`.
pub open spec fn next_counted(b: Seq<u8>, pos: nat, limit: usize, refusal: Seq<char>) -> Result<
    Seq<u8>,
    Seq<char>,
> {
    match next_bytes(b, pos, 4) {
        Err(m) => Err(m),
        Ok(count) => {
            let n = spec_u32_from_le_bytes(count) as nat;
            if n > limit {
                Err(refusal)
            } else {
                next_bytes(b, pos + 4, n)
            }
        },
    }
}

pub open spec fn read_record(s: SchemaView, b: Seq<u8>, at: Place, depth: nat) -> Result<
    (ValueView, Place),
    Seq<char>,
>
    decreases s, 0nat, 0nat,
{
    if at.nodes + 1 > MAX_VALUE_NODES || depth > MAX_DEPTH {
        Err(schema::clip("value node limit"@))
    } else {
        match read_fields(
            s.fields,
            b,
            s.fields.len(),
            Place { nodes: at.nodes + 1, ..at },
            depth,
        ) {
            Ok((values, at)) => Ok((ValueView::Record(values), at)),
            Err(m) => Err(m),
        }
    }
}

/// The first `count` fields.
pub open spec fn read_fields(fields: Seq<FieldView>, b: Seq<u8>, count: nat, at: Place, depth: nat) -> Result<
    (Seq<ValueView>, Place),
    Seq<char>,
>
    decreases fields, count, 0nat,
{
    if count == 0 || count > fields.len() {
        Ok((Seq::empty(), at))
    } else {
        match read_fields(fields, b, (count - 1) as nat, at, depth) {
            Err(m) => Err(m),
            Ok((values, at)) => {
                let field = fields[count - 1];
                match read_type(field.ty, b, at, depth + 1) {
                    Ok((value, at)) => Ok((values.push(value), at)),
                    Err(m) => Err(schema::located(field.name, m)),
                }
            },
        }
    }
}

/// `count` elements.
pub open spec fn read_items(item: TypeView, b: Seq<u8>, count: nat, at: Place, depth: nat) -> Result<
    (Seq<ValueView>, Place),
    Seq<char>,
>
    decreases item, count, 1nat,
{
    if count == 0 {
        Ok((Seq::empty(), at))
    } else {
        match read_items(item, b, (count - 1) as nat, at, depth) {
            Err(m) => Err(m),
            Ok((values, at)) => match read_type(item, b, at, depth) {
                Ok((value, at)) => Ok((values.push(value), at)),
                Err(m) => Err(schema::located(index_text((count - 1) as nat), m)),
            },
        }
    }
}

pub open spec fn read_type(ty: TypeView, b: Seq<u8>, at: Place, depth: nat) -> Result<
    (ValueView, Place),
    Seq<char>,
>
    decreases ty, 0nat, 0nat,
{
    match ty {
        TypeView::Record(s) => read_record(*s, b, at, depth),
        _ => if at.nodes + 1 > MAX_VALUE_NODES {
            Err(schema::clip("value node limit"@))
        } else if depth > MAX_DEPTH {
            Err(schema::clip("value depth limit"@))
        } else {
            let nodes = at.nodes + 1;
            let pos = at.pos;
            match ty {
                TypeView::Int { min, max } => match next_bytes(b, pos, 8) {
                    Err(m) => Err(m),
                    Ok(bytes) => {
                        let x = spec_u64_from_le_bytes(bytes) as i64;
                        if x < min || x > max {
                            Err(schema::clip("integer range"@))
                        } else {
                            Ok((ValueView::Int(x), Place { pos: pos + 8, nodes }))
                        }
                    },
                },
                TypeView::UInt { min, max } => match next_bytes(b, pos, 8) {
                    Err(m) => Err(m),
                    Ok(bytes) => {
                        let x = spec_u64_from_le_bytes(bytes);
                        if x < min || x > max {
                            Err(schema::clip("unsigned range"@))
                        } else {
                            Ok((ValueView::UInt(x), Place { pos: pos + 8, nodes }))
                        }
                    },
                },
                TypeView::Float { allow_non_finite } => match next_bytes(b, pos, 8) {
                    Err(m) => Err(m),
                    Ok(bytes) => {
                        let x = spec_u64_from_le_bytes(bytes);
                        if !allow_non_finite && non_finite(x) {
                            Err(schema::clip("non-finite float"@))
                        } else if allow_non_finite && is_nan(x) && x != CANONICAL_NAN {
                            Err(schema::clip("non-canonical NaN"@))
                        } else {
                            Ok((ValueView::Float(x), Place { pos: pos + 8, nodes }))
                        }
                    },
                },
                TypeView::Bool => match next_bytes(b, pos, 1) {
                    Err(m) => Err(m),
                    Ok(bytes) => if bytes[0] == 0 {
                        Ok((ValueView::Bool(false), Place { pos: pos + 1, nodes }))
                    } else if bytes[0] == 1 {
                        Ok((ValueView::Bool(true), Place { pos: pos + 1, nodes }))
                    } else {
                        Err(schema::clip("invalid bool"@))
                    },
                },
                TypeView::String { max_bytes } => match next_counted(
                    b,
                    pos,
                    max_bytes,
                    schema::clip("string limit"@),
                ) {
                    Err(m) => Err(m),
                    Ok(bytes) => if valid_utf8(bytes) {
                        Ok(
                            (
                                ValueView::String(decode_utf8(bytes)),
                                Place { pos: pos + 4 + bytes.len(), nodes },
                            ),
                        )
                    } else {
                        Err(schema::clip("expected valid UTF-8 string"@))
                    },
                },
                TypeView::Bytes { max_bytes } => match next_counted(
                    b,
                    pos,
                    max_bytes,
                    schema::clip("bytes limit"@),
                ) {
                    Err(m) => Err(m),
                    Ok(bytes) => Ok(
                        (ValueView::Bytes(bytes), Place { pos: pos + 4 + bytes.len(), nodes }),
                    ),
                },
                TypeView::Enum { variants, .. } => match next_bytes(b, pos, 4) {
                    Err(m) => Err(m),
                    Ok(bytes) => {
                        let x = spec_u32_from_le_bytes(bytes);
                        if x >= variants.len() {
                            Err(schema::clip("enum index"@))
                        } else {
                            Ok((ValueView::Enum(x), Place { pos: pos + 4, nodes }))
                        }
                    },
                },
                TypeView::Optional(item) => match next_bytes(b, pos, 1) {
                    Err(m) => Err(m),
                    Ok(bytes) => if bytes[0] == 0 {
                        Ok((ValueView::Absent, Place { pos: pos + 1, nodes }))
                    } else if bytes[0] == 1 {
                        match read_type(*item, b, Place { pos: pos + 1, nodes }, depth + 1) {
                            Ok((value, at)) => Ok((ValueView::Present(Box::new(value)), at)),
                            Err(m) => Err(m),
                        }
                    } else {
                        Err(schema::clip("invalid option"@))
                    },
                },
                TypeView::Sequence { item, max_len } => match next_bytes(b, pos, 4) {
                    Err(m) => Err(m),
                    Ok(bytes) => {
                        let n = spec_u32_from_le_bytes(bytes) as nat;
                        if n > max_len || n > MAX_VALUE_NODES - nodes {
                            Err(schema::clip("sequence length"@))
                        } else {
                            match read_items(*item, b, n, Place { pos: pos + 4, nodes }, depth + 1) {
                                Ok((values, at)) => Ok((ValueView::Sequence(values), at)),
                                Err(m) => Err(m),
                            }
                        }
                    },
                },
                TypeView::Record(s) => read_record(*s, b, at, depth),
            }
        },
    }
}

impl SchemaView {
    /// The value that bytes stand for under a valid schema, or why they stand
    /// for none.
    pub open spec fn reading(self, b: Seq<u8>) -> Result<ValueView, Seq<char>> {
        if b.len() > MAX_EVENT_BYTES {
            Err(schema::clip("event exceeds 1048576 bytes"@))
        } else {
            match read_record(self, b, Place { pos: 0, nodes: 0 }, 0) {
                Err(m) => Err(schema::located(self.name, m)),
                Ok((value, at)) => if at.pos != b.len() {
                    Err(schema::clip("trailing bytes"@))
                } else {
                    Ok(value)
                },
            }
        }
    }

    pub open spec fn decoding(self, b: Seq<u8>) -> Result<ValueView, Seq<char>> {
        match schema::schema_fault(self, 0, 0).0 {
            Some(fault) => Err(fault),
            None => self.reading(b),
        }
    }
}

/// Text from bytes: `std::str::from_utf8`, which accepts exactly the valid
/// UTF-8 encodings and keeps their bytes.
#[verifier::external_body]
fn text_from_utf8(bytes: &[u8]) -> (r: Option<String>)
    ensures
        r is Some <==> valid_utf8(bytes@),
        r matches Some(s) ==> s@ == decode_utf8(bytes@),
{
    match std::str::from_utf8(bytes) {
        Ok(text) => Some(text.to_owned()),
        Err(_) => None,
    }
}

struct Reader<'a> {
    bytes: &'a [u8],
    pos: usize,
    nodes: usize,
    build: bool,
}

impl<'a> Reader<'a> {
    spec fn at(self) -> Place {
        Place { pos: self.pos as nat, nodes: self.nodes as nat }
    }

    spec fn ok(self) -> bool {
        self.pos <= self.bytes@.len() && self.nodes <= MAX_VALUE_NODES
    }

    /// Nothing but the place changed.
    spec fn follows(self, prior: Reader<'a>) -> bool {
        self.bytes == prior.bytes && self.build == prior.build
    }

    /// Whether a reading step did what it should; a reader that does not build
    /// hands out no contents.
    spec fn read(self, r: Result<Value, SchemaError>, expected: Result<(ValueView, Place), Seq<char>>) -> bool {
        match r {
            Ok(value) => {
                &&& expected matches Ok((told, at))
                &&& at == self.at()
                &&& self.build ==> value@ == told
                &&& self.ok()
            },
            Err(e) => expected == Err::<(ValueView, Place), Seq<char>>(e@),
        }
    }

    fn take(&mut self, n: usize) -> (r: Result<&'a [u8], SchemaError>)
        requires
            old(self).ok(),
        ensures
            final(self).follows(*old(self)),
            final(self).nodes == old(self).nodes,
            match r {
                Ok(bytes) => next_bytes(old(self).bytes@, old(self).pos as nat, n as nat) == Ok::<
                    Seq<u8>,
                    Seq<char>,
                >(bytes@) && final(self).pos == old(self).pos + n && final(self).ok(),
                Err(e) => next_bytes(old(self).bytes@, old(self).pos as nat, n as nat) == Err::<
                    Seq<u8>,
                    Seq<char>,
                >(e@),
            },
    {
        if n > self.bytes.len() - self.pos {
            return Err(SchemaError::new("truncated value"));
        }
        let bytes = slice_subrange(self.bytes, self.pos, self.pos + n);
        self.pos = self.pos + n;
        Ok(bytes)
    }

    fn counted(&mut self, limit: usize, refusal: &str) -> (r: Result<&'a [u8], SchemaError>)
        requires
            old(self).ok(),
        ensures
            final(self).follows(*old(self)),
            final(self).nodes == old(self).nodes,
            match r {
                Ok(bytes) => next_counted(
                    old(self).bytes@,
                    old(self).pos as nat,
                    limit,
                    schema::clip(refusal@),
                ) == Ok::<Seq<u8>, Seq<char>>(bytes@) && final(self).pos == old(self).pos + 4
                    + bytes@.len() && final(self).ok(),
                Err(e) => next_counted(
                    old(self).bytes@,
                    old(self).pos as nat,
                    limit,
                    schema::clip(refusal@),
                ) == Err::<Seq<u8>, Seq<char>>(e@),
            },
    {
        let count = match self.take(4) {
            Ok(count) => count,
            Err(e) => return Err(e),
        };
        let n: usize = u32_from_le_bytes(count) as usize;
        if n > limit {
            return Err(SchemaError::new(refusal));
        }
        self.take(n)
    }

    fn record(&mut self, s: &Schema, depth: usize) -> (r: Result<Value, SchemaError>)
        requires
            old(self).ok(),
            depth <= MAX_DEPTH + 1,
        ensures
            final(self).follows(*old(self)),
            final(self).read(r, read_record(s@, old(self).bytes@, old(self).at(), depth as nat)),
        decreases s, 0nat,
    {
        proof {
            schema::lemma_fields_view(s.fields@);
        }
        if self.nodes + 1 > MAX_VALUE_NODES || depth > MAX_DEPTH {
            return Err(SchemaError::new("value node limit"));
        }
        self.nodes = self.nodes + 1;
        let ghost at0 = self.at();
        let ghost b = self.bytes@;
        let mut values: Vec<Value> = Vec::new();
        let mut i: usize = 0;
        let ghost mut told = Seq::<ValueView>::empty();
        while i < s.fields.len()
            invariant
                i <= s.fields.len(),
                depth <= MAX_DEPTH,
                self.ok(),
                self.follows(*old(self)),
                b == self.bytes@,
                s@.fields.len() == s.fields@.len(),
                forall|j: int|
                    0 <= j < s.fields@.len() ==> #[trigger] s@.fields[j] == schema::field_view(
                        s.fields@[j],
                    ),
                read_fields(s@.fields, b, i as nat, at0, depth as nat) == Ok::<
                    (Seq<ValueView>, Place),
                    Seq<char>,
                >((told, self.at())),
                self.build ==> values_view(values@) == told,
                read_record(s@, b, old(self).at(), depth as nat) == (match read_fields(
                    s@.fields,
                    b,
                    s@.fields.len(),
                    at0,
                    depth as nat,
                ) {
                    Ok((values, at)) => Ok::<(ValueView, Place), Seq<char>>(
                        (ValueView::Record(values), at),
                    ),
                    Err(m) => Err(m),
                }),
            decreases s.fields.len() - i,
        {
            let field = &s.fields[i];
            assert(s@.fields[i as int] == schema::field_view(s.fields@[i as int]));
            let value = match self.value(&field.ty, depth + 1) {
                Ok(value) => value,
                Err(e) => {
                    proof {
                        lemma_read_fields_err(
                            s@.fields,
                            b,
                            (i + 1) as nat,
                            s@.fields.len(),
                            at0,
                            depth as nat,
                        );
                    }
                    return Err(e.at(field.name.as_str()));
                },
            };
            proof {
                let next = read_fields(s@.fields, b, (i + 1) as nat, at0, depth as nat);
                told = next->Ok_0.0;
            }
            if self.build {
                let ghost before = values@;
                values.push(value);
                assert(values@.drop_last() =~= before);
            }
            i += 1;
        }
        Ok(Value::Record(values))
    }

    fn items(&mut self, item: &FieldType, count: usize, depth: usize) -> (r: Result<
        Vec<Value>,
        SchemaError,
    >)
        requires
            old(self).ok(),
            depth <= MAX_DEPTH + 1,
        ensures
            final(self).follows(*old(self)),
            match r {
                Ok(values) => {
                    &&& read_items(
                        item@,
                        old(self).bytes@,
                        count as nat,
                        old(self).at(),
                        depth as nat,
                    ) matches Ok((told, at))
                    &&& at == final(self).at()
                    &&& final(self).build ==> values_view(values@) == told
                    &&& final(self).ok()
                },
                Err(e) => read_items(
                    item@,
                    old(self).bytes@,
                    count as nat,
                    old(self).at(),
                    depth as nat,
                ) == Err::<(Seq<ValueView>, Place), Seq<char>>(e@),
            },
        decreases item, 1nat,
    {
        let ghost at0 = self.at();
        let ghost b = self.bytes@;
        let mut values: Vec<Value> = Vec::new();
        let mut i: usize = 0;
        let ghost mut told = Seq::<ValueView>::empty();
        while i < count
            invariant
                i <= count,
                depth <= MAX_DEPTH + 1,
                self.ok(),
                self.follows(*old(self)),
                b == self.bytes@,
                at0 == old(self).at(),
                read_items(item@, b, i as nat, at0, depth as nat) == Ok::<
                    (Seq<ValueView>, Place),
                    Seq<char>,
                >((told, self.at())),
                self.build ==> values_view(values@) == told,
            decreases count - i,
        {
            let value = match self.value(item, depth) {
                Ok(value) => value,
                Err(e) => {
                    proof {
                        lemma_read_items_err(
                            item@,
                            b,
                            (i + 1) as nat,
                            count as nat,
                            at0,
                            depth as nat,
                        );
                    }
                    let place = index_name(i);
                    return Err(e.at(place.as_str()));
                },
            };
            proof {
                let next = read_items(item@, b, (i + 1) as nat, at0, depth as nat);
                told = next->Ok_0.0;
            }
            if self.build {
                let ghost before = values@;
                values.push(value);
                assert(values@.drop_last() =~= before);
            }
            i += 1;
        }
        Ok(values)
    }

    fn value(&mut self, ty: &FieldType, depth: usize) -> (r: Result<Value, SchemaError>)
        requires
            old(self).ok(),
            depth <= MAX_DEPTH + 1,
        ensures
            final(self).follows(*old(self)),
            final(self).read(r, read_type(ty@, old(self).bytes@, old(self).at(), depth as nat)),
        decreases ty, 0nat,
    {
        match ty {
            FieldType::Record(s) => {
                return self.record(s, depth);
            },
            _ => {},
        }
        if self.nodes + 1 > MAX_VALUE_NODES {
            return Err(SchemaError::new("value node limit"));
        }
        if depth > MAX_DEPTH {
            return Err(SchemaError::new("value depth limit"));
        }
        self.nodes = self.nodes + 1;
        match ty {
            FieldType::Int { min, max } => {
                let bytes = match self.take(8) {
                    Ok(bytes) => bytes,
                    Err(e) => return Err(e),
                };
                let x: i64 = u64_from_le_bytes(bytes) as i64;
                if x < *min || x > *max {
                    Err(SchemaError::new("integer range"))
                } else {
                    Ok(Value::Int(x))
                }
            },
            FieldType::UInt { min, max } => {
                let bytes = match self.take(8) {
                    Ok(bytes) => bytes,
                    Err(e) => return Err(e),
                };
                let x: u64 = u64_from_le_bytes(bytes);
                if x < *min || x > *max {
                    Err(SchemaError::new("unsigned range"))
                } else {
                    Ok(Value::UInt(x))
                }
            },
            FieldType::Float { allow_non_finite } => {
                let bytes = match self.take(8) {
                    Ok(bytes) => bytes,
                    Err(e) => return Err(e),
                };
                let x: u64 = u64_from_le_bytes(bytes);
                if !*allow_non_finite && has_top_exponent(x) {
                    return Err(SchemaError::new("non-finite float"));
                }
                if *allow_non_finite && bits_are_nan(x) && x != CANONICAL_NAN {
                    return Err(SchemaError::new("non-canonical NaN"));
                }
                Ok(Value::Float(x))
            },
            FieldType::Bool => {
                let bytes = match self.take(1) {
                    Ok(bytes) => bytes,
                    Err(e) => return Err(e),
                };
                if bytes[0] == 0 {
                    Ok(Value::Bool(false))
                } else if bytes[0] == 1 {
                    Ok(Value::Bool(true))
                } else {
                    Err(SchemaError::new("invalid bool"))
                }
            },
            FieldType::String { max_bytes } => {
                let bytes = match self.counted(*max_bytes, "string limit") {
                    Ok(bytes) => bytes,
                    Err(e) => return Err(e),
                };
                match text_from_utf8(bytes) {
                    Some(text) => Ok(
                        Value::String(
                            if self.build {
                                text
                            } else {
                                String::new()
                            },
                        ),
                    ),
                    None => Err(SchemaError::new("expected valid UTF-8 string")),
                }
            },
            FieldType::Bytes { max_bytes } => {
                let bytes = match self.counted(*max_bytes, "bytes limit") {
                    Ok(bytes) => bytes,
                    Err(e) => return Err(e),
                };
                Ok(
                    Value::Bytes(
                        if self.build {
                            copied(bytes)
                        } else {
                            Vec::new()
                        },
                    ),
                )
            },
            FieldType::Enum { name: _, variants } => {
                let bytes = match self.take(4) {
                    Ok(bytes) => bytes,
                    Err(e) => return Err(e),
                };
                let x: u32 = u32_from_le_bytes(bytes);
                if x as usize >= variants.len() {
                    Err(SchemaError::new("enum index"))
                } else {
                    Ok(Value::Enum(x))
                }
            },
            FieldType::Optional(item) => {
                let bytes = match self.take(1) {
                    Ok(bytes) => bytes,
                    Err(e) => return Err(e),
                };
                if bytes[0] == 0 {
                    Ok(Value::Optional(None))
                } else if bytes[0] == 1 {
                    match self.value(item, depth + 1) {
                        Ok(value) => Ok(Value::Optional(Some(Box::new(value)))),
                        Err(e) => Err(e),
                    }
                } else {
                    Err(SchemaError::new("invalid option"))
                }
            },
            FieldType::Sequence { item, max_len } => {
                let bytes = match self.take(4) {
                    Ok(bytes) => bytes,
                    Err(e) => return Err(e),
                };
                let n: usize = u32_from_le_bytes(bytes) as usize;
                if n > *max_len || n > MAX_VALUE_NODES - self.nodes {
                    return Err(SchemaError::new("sequence length"));
                }
                match self.items(item, n, depth + 1) {
                    Ok(values) => Ok(Value::Sequence(values)),
                    Err(e) => Err(e),
                }
            },
            FieldType::Record(s) => self.record(s, depth),
        }
    }
}

/// A copy of a slice of bytes.
pub(crate) fn copied(bytes: &[u8]) -> (r: Vec<u8>)
    ensures
        r@ == bytes@,
{
    let mut r: Vec<u8> = Vec::new();
    let mut i: usize = 0;
    while i < bytes.len()
        invariant
            i <= bytes@.len(),
            r@ == bytes@.take(i as int),
        decreases bytes@.len() - i,
    {
        r.push(bytes[i]);
        assert(bytes@.take(i + 1) =~= bytes@.take(i as int).push(bytes@[i as int]));
        i += 1;
    }
    assert(bytes@.take(i as int) =~= bytes@);
    r
}

proof fn lemma_read_fields_err(
    fields: Seq<FieldView>,
    b: Seq<u8>,
    n: nat,
    m: nat,
    at: Place,
    depth: nat,
)
    requires
        n <= m <= fields.len(),
        read_fields(fields, b, n, at, depth) is Err,
    ensures
        read_fields(fields, b, m, at, depth) == read_fields(fields, b, n, at, depth),
    decreases m - n,
{
    if n < m {
        lemma_read_fields_err(fields, b, n, (m - 1) as nat, at, depth);
    }
}

proof fn lemma_read_items_err(item: TypeView, b: Seq<u8>, n: nat, m: nat, at: Place, depth: nat)
    requires
        n <= m,
        read_items(item, b, n, at, depth) is Err,
    ensures
        read_items(item, b, m, at, depth) == read_items(item, b, n, at, depth),
    decreases m - n,
{
    if n < m {
        lemma_read_items_err(item, b, n, (m - 1) as nat, at, depth);
    }
}

impl Schema {
    /// Reads bytes under a schema that is known to be valid.
    fn read(&self, bytes: &[u8], build: bool) -> (r: Result<Value, SchemaError>)
        ensures
            match r {
                Ok(value) => self@.reading(bytes@) is Ok && (build ==> self@.reading(bytes@) == Ok::<
                    ValueView,
                    Seq<char>,
                >(value@)),
                Err(e) => self@.reading(bytes@) == Err::<ValueView, Seq<char>>(e@),
            },
    {
        if bytes.len() > MAX_EVENT_BYTES {
            return Err(SchemaError::new("event exceeds 1048576 bytes"));
        }
        let mut reader = Reader { bytes, pos: 0, nodes: 0, build };
        let value = match reader.record(self, 0) {
            Ok(value) => value,
            Err(e) => return Err(e.at(self.name.as_str())),
        };
        if reader.pos != bytes.len() {
            return Err(SchemaError::new("trailing bytes"));
        }
        Ok(value)
    }

    /// The value that bytes stand for.
    pub fn decode(&self, bytes: &[u8]) -> (r: Result<Value, SchemaError>)
        ensures
            match r {
                Ok(value) => self@.decoding(bytes@) == Ok::<ValueView, Seq<char>>(value@),
                Err(e) => self@.decoding(bytes@) == Err::<ValueView, Seq<char>>(e@),
            },
    {
        match self.validate() {
            Ok(_) => self.read(bytes, true),
            Err(e) => Err(e),
        }
    }

    /// Whether bytes stand for a value, without keeping it.
    pub fn validate_bytes(&self, bytes: &[u8]) -> (r: Result<(), SchemaError>)
        ensures
            match r {
                Ok(_) => self@.decoding(bytes@) is Ok,
                Err(e) => self@.decoding(bytes@) == Err::<ValueView, Seq<char>>(e@),
            },
    {
        match self.validate() {
            Ok(_) => self.validate_registered_bytes(bytes),
            Err(e) => Err(e),
        }
    }

    /// Whether bytes stand for a value of a registered schema.
    pub(crate) fn validate_registered_bytes(&self, bytes: &[u8]) -> (r: Result<(), SchemaError>)
        ensures
            match r {
                Ok(_) => self@.reading(bytes@) is Ok,
                Err(e) => self@.reading(bytes@) == Err::<ValueView, Seq<char>>(e@),
            },
    {
        match self.read(bytes, false) {
            Ok(_) => Ok(()),
            Err(e) => Err(e),
        }
    }
}

/// A value with every NaN in its canonical form.
pub open spec fn canonical(v: ValueView) -> ValueView
    decreases v,
{
    match v {
        ValueView::Float(x) => ValueView::Float(canonical_bits(x)),
        ValueView::Present(x) => ValueView::Present(Box::new(canonical(*x))),
        ValueView::Sequence(values) => ValueView::Sequence(canonical_all(values)),
        ValueView::Record(values) => ValueView::Record(canonical_all(values)),
        other => other,
    }
}

pub open spec fn canonical_all(values: Seq<ValueView>) -> Seq<ValueView>
    decreases values,
{
    if values.len() == 0 {
        Seq::empty()
    } else {
        canonical_all(values.drop_last()).push(canonical(values.last()))
    }
}

/// Whether bytes start with others.
pub open spec fn starts_with(b: Seq<u8>, start: Seq<u8>) -> bool {
    start.len() <= b.len() && b.take(start.len() as int) == start
}

proof fn lemma_starts_trans(b: Seq<u8>, m: Seq<u8>, a: Seq<u8>)
    requires
        starts_with(b, m),
        starts_with(m, a),
    ensures
        starts_with(b, a),
{
    assert(b.take(a.len() as int) =~= m.take(a.len() as int));
}

/// What was put comes back.
proof fn lemma_put(w: Written, bytes: Seq<u8>, max: nat, b: Seq<u8>)
    requires
        put(w, bytes, max) is Ok,
    ensures
        starts_with(put(w, bytes, max)->Ok_0.out, w.out),
        starts_with(b, put(w, bytes, max)->Ok_0.out) ==> next_bytes(
            b,
            w.out.len(),
            bytes.len(),
        ) == Ok::<Seq<u8>, Seq<char>>(bytes),
{
    let w2 = put(w, bytes, max)->Ok_0;
    assert(w2.out.take(w.out.len() as int) =~= w.out);
    if starts_with(b, w2.out) {
        let n = w.out.len() as int;
        let got = b.subrange(n, n + bytes.len());
        assert forall|i: int| 0 <= i < bytes.len() implies got[i] == bytes[i] by {
            assert(b.take(w2.out.len() as int)[n + i] == w2.out[n + i]);
        }
        assert(got =~= bytes);
    }
}

proof fn lemma_grow_type(ty: TypeView, v: ValueView, depth: nat, w: Written, max: nat)
    requires
        write_type(ty, v, depth, w, max) is Ok,
    ensures
        starts_with(write_type(ty, v, depth, w, max)->Ok_0.out, w.out),
    decreases ty, 0nat, 0nat,
{
    let w1 = Written { nodes: w.nodes + 1, ..w };
    match ty {
        TypeView::Record(s) => lemma_grow_record(*s, v, depth, w, max),
        _ => match (ty, v) {
            (TypeView::Int { .. }, ValueView::Int(x)) => lemma_put(
                w1,
                spec_u64_to_le_bytes(x as u64),
                max,
                w.out,
            ),
            (TypeView::UInt { .. }, ValueView::UInt(x)) => lemma_put(
                w1,
                spec_u64_to_le_bytes(x),
                max,
                w.out,
            ),
            (TypeView::Float { .. }, ValueView::Float(x)) => lemma_put(
                w1,
                spec_u64_to_le_bytes(canonical_bits(x)),
                max,
                w.out,
            ),
            (TypeView::Bool, ValueView::Bool(x)) => lemma_put(
                w1,
                seq![if x { 1u8 } else { 0u8 }],
                max,
                w.out,
            ),
            (TypeView::String { .. }, ValueView::String(x)) => {
                lemma_grow_counted(w1, text::utf8(x), max);
            },
            (TypeView::Bytes { .. }, ValueView::Bytes(x)) => {
                lemma_grow_counted(w1, x, max);
            },
            (TypeView::Enum { .. }, ValueView::Enum(x)) => lemma_put(
                w1,
                spec_u32_to_le_bytes(x),
                max,
                w.out,
            ),
            (TypeView::Optional(item), ValueView::Absent) => lemma_put(w1, seq![0u8], max, w.out),
            (TypeView::Optional(item), ValueView::Present(x)) => {
                lemma_put(w1, seq![1u8], max, w.out);
                let w2 = put(w1, seq![1u8], max)->Ok_0;
                lemma_grow_type(*item, *x, depth + 1, w2, max);
                lemma_starts_trans(
                    write_type(*item, *x, depth + 1, w2, max)->Ok_0.out,
                    w2.out,
                    w.out,
                );
            },
            (TypeView::Sequence { item, max_len }, ValueView::Sequence(values)) => {
                let count = spec_u32_to_le_bytes(values.len() as u32);
                lemma_put(w1, count, max, w.out);
                let w2 = put(w1, count, max)->Ok_0;
                lemma_grow_items(*item, values, values.len(), depth + 1, w2, max);
                lemma_starts_trans(
                    write_items(*item, values, values.len(), depth + 1, w2, max)->Ok_0.out,
                    w2.out,
                    w.out,
                );
            },
            _ => {},
        },
    }
}

proof fn lemma_grow_counted(w: Written, bytes: Seq<u8>, max: nat)
    requires
        put_counted(w, bytes, max) is Ok,
    ensures
        starts_with(put_counted(w, bytes, max)->Ok_0.out, w.out),
{
    let count = spec_u32_to_le_bytes(bytes.len() as u32);
    lemma_put(w, count, max, w.out);
    let w2 = put(w, count, max)->Ok_0;
    lemma_put(w2, bytes, max, w.out);
    lemma_starts_trans(put(w2, bytes, max)->Ok_0.out, w2.out, w.out);
}

proof fn lemma_grow_record(s: SchemaView, v: ValueView, depth: nat, w: Written, max: nat)
    requires
        write_record(s, v, depth, w, max) is Ok,
    ensures
        starts_with(write_record(s, v, depth, w, max)->Ok_0.out, w.out),
    decreases s, 0nat, 0nat,
{
    let w1 = Written { nodes: w.nodes + 1, ..w };
    lemma_grow_fields(s.fields, v->Record_0, s.fields.len(), depth, w1, max);
}

proof fn lemma_grow_fields(
    fields: Seq<FieldView>,
    values: Seq<ValueView>,
    count: nat,
    depth: nat,
    w: Written,
    max: nat,
)
    requires
        write_fields(fields, values, count, depth, w, max) is Ok,
    ensures
        starts_with(write_fields(fields, values, count, depth, w, max)->Ok_0.out, w.out),
    decreases fields, count, 0nat,
{
    if count == 0 || count > fields.len() {
        assert(w.out.take(w.out.len() as int) =~= w.out);
    } else {
        lemma_grow_fields(fields, values, (count - 1) as nat, depth, w, max);
        let w2 = write_fields(fields, values, (count - 1) as nat, depth, w, max)->Ok_0;
        lemma_grow_type(fields[count - 1].ty, values[count - 1], depth + 1, w2, max);
        lemma_starts_trans(
            write_type(fields[count - 1].ty, values[count - 1], depth + 1, w2, max)->Ok_0.out,
            w2.out,
            w.out,
        );
    }
}

proof fn lemma_grow_items(
    item: TypeView,
    values: Seq<ValueView>,
    count: nat,
    depth: nat,
    w: Written,
    max: nat,
)
    requires
        write_items(item, values, count, depth, w, max) is Ok,
    ensures
        starts_with(write_items(item, values, count, depth, w, max)->Ok_0.out, w.out),
    decreases item, count, 1nat,
{
    if count == 0 || count > values.len() {
        assert(w.out.take(w.out.len() as int) =~= w.out);
    } else {
        lemma_grow_items(item, values, (count - 1) as nat, depth, w, max);
        let w2 = write_items(item, values, (count - 1) as nat, depth, w, max)->Ok_0;
        lemma_grow_type(item, values[count - 1], depth, w2, max);
        lemma_starts_trans(
            write_type(item, values[count - 1], depth, w2, max)->Ok_0.out,
            w2.out,
            w.out,
        );
    }
}

spec fn place_of(w: Written) -> Place {
    Place { pos: w.out.len(), nodes: w.nodes }
}

proof fn lemma_read_counted(w: Written, bytes: Seq<u8>, max: nat, b: Seq<u8>, limit: usize, refusal: Seq<char>)
    requires
        put_counted(w, bytes, max) is Ok,
        starts_with(b, put_counted(w, bytes, max)->Ok_0.out),
        bytes.len() <= limit,
        max <= MAX_EVENT_BYTES,
    ensures
        next_counted(b, w.out.len(), limit, refusal) == Ok::<Seq<u8>, Seq<char>>(bytes),
        put_counted(w, bytes, max)->Ok_0.out.len() == w.out.len() + 4 + bytes.len(),
{
    lemma_auto_spec_u32_to_from_le_bytes();
    let count = spec_u32_to_le_bytes(bytes.len() as u32);
    let w2 = put(w, count, max)->Ok_0;
    lemma_put(w2, bytes, max, b);
    let w3 = put(w2, bytes, max)->Ok_0;
    lemma_starts_trans(b, w3.out, w2.out);
    lemma_put(w, count, max, b);
}

/// Reading what was written gives the value back, at the place where the
/// writer stopped.
proof fn lemma_read_written(ty: TypeView, v: ValueView, depth: nat, w: Written, max: nat, b: Seq<u8>)
    requires
        write_type(ty, v, depth, w, max) is Ok,
        max <= MAX_EVENT_BYTES,
        starts_with(b, write_type(ty, v, depth, w, max)->Ok_0.out),
    ensures
        read_type(ty, b, place_of(w), depth) == Ok::<(ValueView, Place), Seq<char>>(
            (canonical(v), place_of(write_type(ty, v, depth, w, max)->Ok_0)),
        ),
    decreases ty, 0nat, 0nat,
{
    lemma_auto_spec_u32_to_from_le_bytes();
    lemma_auto_spec_u64_to_from_le_bytes();
    let w1 = Written { nodes: w.nodes + 1, ..w };
    match ty {
        TypeView::Record(s) => lemma_read_written_record(*s, v, depth, w, max, b),
        _ => match (ty, v) {
            (TypeView::Int { .. }, ValueView::Int(x)) => {
                lemma_put(w1, spec_u64_to_le_bytes(x as u64), max, b);
                assert((x as u64) as i64 == x) by (bit_vector);
            },
            (TypeView::UInt { .. }, ValueView::UInt(x)) => {
                lemma_put(w1, spec_u64_to_le_bytes(x), max, b);
            },
            (TypeView::Float { .. }, ValueView::Float(x)) => {
                lemma_put(w1, spec_u64_to_le_bytes(canonical_bits(x)), max, b);
                assert(is_nan(CANONICAL_NAN));
            },
            (TypeView::Bool, ValueView::Bool(x)) => {
                lemma_put(w1, seq![if x { 1u8 } else { 0u8 }], max, b);
            },
            (TypeView::String { max_bytes }, ValueView::String(x)) => {
                lemma_read_counted(
                    w1,
                    text::utf8(x),
                    max,
                    b,
                    max_bytes,
                    schema::clip("string limit"@),
                );
                encode_utf8_valid_utf8(x);
                encode_utf8_decode_utf8(x);
            },
            (TypeView::Bytes { max_bytes }, ValueView::Bytes(x)) => {
                lemma_read_counted(w1, x, max, b, max_bytes, schema::clip("bytes limit"@));
            },
            (TypeView::Enum { .. }, ValueView::Enum(x)) => {
                lemma_put(w1, spec_u32_to_le_bytes(x), max, b);
            },
            (TypeView::Optional(item), ValueView::Absent) => {
                lemma_put(w1, seq![0u8], max, b);
            },
            (TypeView::Optional(item), ValueView::Present(x)) => {
                let w2 = put(w1, seq![1u8], max)->Ok_0;
                lemma_grow_type(*item, *x, depth + 1, w2, max);
                let w3 = write_type(*item, *x, depth + 1, w2, max)->Ok_0;
                lemma_starts_trans(b, w3.out, w2.out);
                lemma_put(w1, seq![1u8], max, b);
                lemma_read_written(*item, *x, depth + 1, w2, max, b);
            },
            (TypeView::Sequence { item, max_len }, ValueView::Sequence(values)) => {
                let count = spec_u32_to_le_bytes(values.len() as u32);
                let w2 = put(w1, count, max)->Ok_0;
                lemma_grow_items(*item, values, values.len(), depth + 1, w2, max);
                let w3 = write_items(*item, values, values.len(), depth + 1, w2, max)->Ok_0;
                lemma_starts_trans(b, w3.out, w2.out);
                lemma_put(w1, count, max, b);
                lemma_read_written_items(*item, values, values.len(), depth + 1, w2, max, b);
                assert(values.take(values.len() as int) =~= values);
            },
            _ => {},
        },
    }
}

proof fn lemma_read_written_record(
    s: SchemaView,
    v: ValueView,
    depth: nat,
    w: Written,
    max: nat,
    b: Seq<u8>,
)
    requires
        write_record(s, v, depth, w, max) is Ok,
        max <= MAX_EVENT_BYTES,
        starts_with(b, write_record(s, v, depth, w, max)->Ok_0.out),
    ensures
        read_record(s, b, place_of(w), depth) == Ok::<(ValueView, Place), Seq<char>>(
            (canonical(v), place_of(write_record(s, v, depth, w, max)->Ok_0)),
        ),
    decreases s, 0nat, 0nat,
{
    let w1 = Written { nodes: w.nodes + 1, ..w };
    let values = v->Record_0;
    lemma_read_written_fields(s.fields, values, s.fields.len(), depth, w1, max, b);
    assert(values.take(values.len() as int) =~= values);
}

proof fn lemma_read_written_fields(
    fields: Seq<FieldView>,
    values: Seq<ValueView>,
    count: nat,
    depth: nat,
    w: Written,
    max: nat,
    b: Seq<u8>,
)
    requires
        write_fields(fields, values, count, depth, w, max) is Ok,
        count <= fields.len() == values.len(),
        max <= MAX_EVENT_BYTES,
        starts_with(b, write_fields(fields, values, count, depth, w, max)->Ok_0.out),
    ensures
        read_fields(fields, b, count, place_of(w), depth) == Ok::<
            (Seq<ValueView>, Place),
            Seq<char>,
        >(
            (
                canonical_all(values.take(count as int)),
                place_of(write_fields(fields, values, count, depth, w, max)->Ok_0),
            ),
        ),
    decreases fields, count, 0nat,
{
    if count == 0 {
        assert(values.take(0) =~= Seq::<ValueView>::empty());
    } else {
        let w2 = write_fields(fields, values, (count - 1) as nat, depth, w, max)->Ok_0;
        let ty = fields[count - 1].ty;
        lemma_grow_type(ty, values[count - 1], depth + 1, w2, max);
        let w3 = write_type(ty, values[count - 1], depth + 1, w2, max)->Ok_0;
        lemma_starts_trans(b, w3.out, w2.out);
        lemma_read_written_fields(fields, values, (count - 1) as nat, depth, w, max, b);
        lemma_read_written(ty, values[count - 1], depth + 1, w2, max, b);
        assert(values.take(count as int).drop_last() =~= values.take(count - 1));
    }
}

proof fn lemma_read_written_items(
    item: TypeView,
    values: Seq<ValueView>,
    count: nat,
    depth: nat,
    w: Written,
    max: nat,
    b: Seq<u8>,
)
    requires
        write_items(item, values, count, depth, w, max) is Ok,
        count <= values.len(),
        max <= MAX_EVENT_BYTES,
        starts_with(b, write_items(item, values, count, depth, w, max)->Ok_0.out),
    ensures
        read_items(item, b, count, place_of(w), depth) == Ok::<(Seq<ValueView>, Place), Seq<char>>(
            (
                canonical_all(values.take(count as int)),
                place_of(write_items(item, values, count, depth, w, max)->Ok_0),
            ),
        ),
    decreases item, count, 1nat,
{
    if count == 0 {
        assert(values.take(0) =~= Seq::<ValueView>::empty());
    } else {
        let w2 = write_items(item, values, (count - 1) as nat, depth, w, max)->Ok_0;
        lemma_grow_type(item, values[count - 1], depth, w2, max);
        let w3 = write_type(item, values[count - 1], depth, w2, max)->Ok_0;
        lemma_starts_trans(b, w3.out, w2.out);
        lemma_read_written_items(item, values, (count - 1) as nat, depth, w, max, b);
        lemma_read_written(item, values[count - 1], depth, w2, max, b);
        assert(values.take(count as int).drop_last() =~= values.take(count - 1));
    }
}

/// Decoding what was encoded gives the value back, with every NaN in its one
/// form.
pub proof fn decode_inverts_encode(s: SchemaView, value: ValueView, max_bytes: usize)
    requires
        s.encoding(value, max_bytes) is Ok,
    ensures
        s.decoding(s.encoding(value, max_bytes)->Ok_0) == Ok::<ValueView, Seq<char>>(
            canonical(value),
        ),
{
    let w = Written { out: Seq::empty(), nodes: 0 };
    let b = s.encoding(value, max_bytes)->Ok_0;
    assert(b.take(b.len() as int) =~= b);
    lemma_read_written_record(s, value, 0, w, max_bytes as nat, b);
    lemma_record_fits(s, value, 0, w, max_bytes as nat);
}

/// The bytes of a writer stay within its limit.
proof fn lemma_record_fits(s: SchemaView, v: ValueView, depth: nat, w: Written, max: nat)
    requires
        write_record(s, v, depth, w, max) is Ok,
        w.out.len() <= max,
    ensures
        write_record(s, v, depth, w, max)->Ok_0.out.len() <= max,
    decreases s, 0nat, 0nat,
{
    let w1 = Written { nodes: w.nodes + 1, ..w };
    lemma_fields_fit(s.fields, v->Record_0, s.fields.len(), depth, w1, max);
}

proof fn lemma_fields_fit(
    fields: Seq<FieldView>,
    values: Seq<ValueView>,
    count: nat,
    depth: nat,
    w: Written,
    max: nat,
)
    requires
        write_fields(fields, values, count, depth, w, max) is Ok,
        w.out.len() <= max,
    ensures
        write_fields(fields, values, count, depth, w, max)->Ok_0.out.len() <= max,
    decreases fields, count, 0nat,
{
    if !(count == 0 || count > fields.len()) {
        lemma_fields_fit(fields, values, (count - 1) as nat, depth, w, max);
        let w2 = write_fields(fields, values, (count - 1) as nat, depth, w, max)->Ok_0;
        lemma_type_fits(fields[count - 1].ty, values[count - 1], depth + 1, w2, max);
    }
}

proof fn lemma_items_fit(
    item: TypeView,
    values: Seq<ValueView>,
    count: nat,
    depth: nat,
    w: Written,
    max: nat,
)
    requires
        write_items(item, values, count, depth, w, max) is Ok,
        w.out.len() <= max,
    ensures
        write_items(item, values, count, depth, w, max)->Ok_0.out.len() <= max,
    decreases item, count, 1nat,
{
    if !(count == 0 || count > values.len()) {
        lemma_items_fit(item, values, (count - 1) as nat, depth, w, max);
        let w2 = write_items(item, values, (count - 1) as nat, depth, w, max)->Ok_0;
        lemma_type_fits(item, values[count - 1], depth, w2, max);
    }
}

proof fn lemma_type_fits(ty: TypeView, v: ValueView, depth: nat, w: Written, max: nat)
    requires
        write_type(ty, v, depth, w, max) is Ok,
        w.out.len() <= max,
    ensures
        write_type(ty, v, depth, w, max)->Ok_0.out.len() <= max,
    decreases ty, 0nat, 0nat,
{
    let w1 = Written { nodes: w.nodes + 1, ..w };
    match ty {
        TypeView::Record(s) => lemma_record_fits(*s, v, depth, w, max),
        _ => match (ty, v) {
            (TypeView::Optional(item), ValueView::Present(x)) => {
                let w2 = put(w1, seq![1u8], max)->Ok_0;
                lemma_type_fits(*item, *x, depth + 1, w2, max);
            },
            (TypeView::Sequence { item, max_len }, ValueView::Sequence(values)) => {
                let count = spec_u32_to_le_bytes(values.len() as u32);
                let w2 = put(w1, count, max)->Ok_0;
                lemma_items_fit(*item, values, values.len(), depth + 1, w2, max);
            },
            _ => {},
        },
    }
}

/// What was written fits any limit that its bytes fit.
proof fn lemma_record_alike(
    s: SchemaView,
    v: ValueView,
    depth: nat,
    w: Written,
    max: nat,
    other: nat,
)
    requires
        write_record(s, v, depth, w, max) is Ok,
        write_record(s, v, depth, w, max)->Ok_0.out.len() <= other,
    ensures
        write_record(s, v, depth, w, other) == write_record(s, v, depth, w, max),
        write_record(s, v, depth, w, max)->Ok_0.out.len() >= w.out.len(),
    decreases s, 0nat, 0nat,
{
    let w1 = Written { nodes: w.nodes + 1, ..w };
    lemma_fields_alike(s.fields, v->Record_0, s.fields.len(), depth, w1, max, other);
}

proof fn lemma_fields_alike(
    fields: Seq<FieldView>,
    values: Seq<ValueView>,
    count: nat,
    depth: nat,
    w: Written,
    max: nat,
    other: nat,
)
    requires
        write_fields(fields, values, count, depth, w, max) is Ok,
        write_fields(fields, values, count, depth, w, max)->Ok_0.out.len() <= other,
    ensures
        write_fields(fields, values, count, depth, w, other) == write_fields(
            fields,
            values,
            count,
            depth,
            w,
            max,
        ),
        write_fields(fields, values, count, depth, w, max)->Ok_0.out.len() >= w.out.len(),
    decreases fields, count, 0nat,
{
    if !(count == 0 || count > fields.len()) {
        let w2 = write_fields(fields, values, (count - 1) as nat, depth, w, max)->Ok_0;
        lemma_type_alike(fields[count - 1].ty, values[count - 1], depth + 1, w2, max, other);
        lemma_fields_alike(fields, values, (count - 1) as nat, depth, w, max, other);
    }
}

proof fn lemma_items_alike(
    item: TypeView,
    values: Seq<ValueView>,
    count: nat,
    depth: nat,
    w: Written,
    max: nat,
    other: nat,
)
    requires
        write_items(item, values, count, depth, w, max) is Ok,
        write_items(item, values, count, depth, w, max)->Ok_0.out.len() <= other,
    ensures
        write_items(item, values, count, depth, w, other) == write_items(
            item,
            values,
            count,
            depth,
            w,
            max,
        ),
        write_items(item, values, count, depth, w, max)->Ok_0.out.len() >= w.out.len(),
    decreases item, count, 1nat,
{
    if !(count == 0 || count > values.len()) {
        let w2 = write_items(item, values, (count - 1) as nat, depth, w, max)->Ok_0;
        lemma_type_alike(item, values[count - 1], depth, w2, max, other);
        lemma_items_alike(item, values, (count - 1) as nat, depth, w, max, other);
    }
}

proof fn lemma_type_alike(ty: TypeView, v: ValueView, depth: nat, w: Written, max: nat, other: nat)
    requires
        write_type(ty, v, depth, w, max) is Ok,
        write_type(ty, v, depth, w, max)->Ok_0.out.len() <= other,
    ensures
        write_type(ty, v, depth, w, other) == write_type(ty, v, depth, w, max),
        write_type(ty, v, depth, w, max)->Ok_0.out.len() >= w.out.len(),
    decreases ty, 0nat, 0nat,
{
    let w1 = Written { nodes: w.nodes + 1, ..w };
    match ty {
        TypeView::Record(s) => lemma_record_alike(*s, v, depth, w, max, other),
        _ => match (ty, v) {
            (TypeView::Optional(item), ValueView::Present(x)) => {
                let w2 = put(w1, seq![1u8], max)->Ok_0;
                lemma_type_alike(*item, *x, depth + 1, w2, max, other);
            },
            (TypeView::Sequence { item, max_len }, ValueView::Sequence(values)) => {
                let count = spec_u32_to_le_bytes(values.len() as u32);
                let w2 = put(w1, count, max)->Ok_0;
                lemma_items_alike(*item, values, values.len(), depth + 1, w2, max, other);
            },
            _ => {},
        },
    }
}

/// The byte budget of an encoding is exact: the bytes fit it, come out the same
/// at their own length, and do not come out at any length below.
pub proof fn the_byte_budget_is_exact(
    s: SchemaView,
    value: ValueView,
    max_bytes: usize,
    less: usize,
)
    requires
        s.encoding(value, max_bytes) is Ok,
        less < s.encoding(value, max_bytes)->Ok_0.len(),
    ensures
        s.encoding(value, max_bytes)->Ok_0.len() <= max_bytes <= MAX_EVENT_BYTES,
        s.encoding(value, s.encoding(value, max_bytes)->Ok_0.len() as usize) == s.encoding(
            value,
            max_bytes,
        ),
        s.encoding(value, less) is Err,
{
    let w = Written { out: Seq::empty(), nodes: 0 };
    let b = s.encoding(value, max_bytes)->Ok_0;
    lemma_record_fits(s, value, 0, w, max_bytes as nat);
    lemma_record_alike(s, value, 0, w, max_bytes as nat, b.len());
    if s.encoding(value, less) is Ok {
        lemma_record_fits(s, value, 0, w, less as nat);
        lemma_record_alike(s, value, 0, w, less as nat, max_bytes as nat);
    }
}

/// An encoding comes out the same within every budget that its bytes fit.
pub proof fn an_encoding_does_not_depend_on_its_budget(
    s: SchemaView,
    value: ValueView,
    max_bytes: usize,
    other: usize,
)
    requires
        s.encoding(value, max_bytes) is Ok,
        s.encoding(value, max_bytes)->Ok_0.len() <= other <= MAX_EVENT_BYTES,
    ensures
        s.encoding(value, other) == s.encoding(value, max_bytes),
{
    let w = Written { out: Seq::empty(), nodes: 0 };
    lemma_record_alike(s, value, 0, w, max_bytes as nat, other as nat);
}

/// Two values with the same bytes are the same up to the form of their NaNs.
pub proof fn encoding_is_injective(s: SchemaView, a: ValueView, b: ValueView, max_bytes: usize)
    requires
        s.encoding(a, max_bytes) is Ok,
        s.encoding(b, max_bytes) == s.encoding(a, max_bytes),
    ensures
        canonical(a) == canonical(b),
{
    decode_inverts_encode(s, a, max_bytes);
    decode_inverts_encode(s, b, max_bytes);
}

/// What a writer has that wrote the bytes before a place.
spec fn written_to(b: Seq<u8>, at: Place) -> Written {
    Written { out: b.take(at.pos as int), nodes: at.nodes }
}

proof fn lemma_put_next(b: Seq<u8>, pos: nat, nodes: nat, n: nat, max: nat)
    requires
        next_bytes(b, pos, n) is Ok,
        b.len() <= max,
    ensures
        pos + n <= b.len(),
        next_bytes(b, pos, n)->Ok_0.len() == n,
        put(
            (Written { out: b.take(pos as int), nodes }),
            next_bytes(b, pos, n)->Ok_0,
            max,
        ) == Ok::<Written, Seq<char>>((Written { out: b.take((pos + n) as int), nodes })),
{
    assert(b.take(pos as int) + b.subrange(pos as int, (pos + n) as int) =~= b.take((pos + n) as int));
}

proof fn lemma_put_next_counted(
    b: Seq<u8>,
    pos: nat,
    nodes: nat,
    limit: usize,
    refusal: Seq<char>,
    max: nat,
)
    requires
        next_counted(b, pos, limit, refusal) is Ok,
        b.len() <= max,
    ensures
        pos + 4 + next_counted(b, pos, limit, refusal)->Ok_0.len() <= b.len(),
        next_counted(b, pos, limit, refusal)->Ok_0.len() <= limit,
        put_counted(
            (Written { out: b.take(pos as int), nodes }),
            next_counted(b, pos, limit, refusal)->Ok_0,
            max,
        ) == Ok::<Written, Seq<char>>(
            (Written {
                out: b.take((pos + 4 + next_counted(b, pos, limit, refusal)->Ok_0.len()) as int),
                nodes,
            }),
        ),
{
    lemma_auto_spec_u32_to_from_le_bytes();
    lemma_put_next(b, pos, nodes, 4, max);
    let count = next_bytes(b, pos, 4)->Ok_0;
    let n = spec_u32_from_le_bytes(count) as nat;
    lemma_put_next(b, pos + 4, nodes, n, max);
}

/// Writing what was read gives the bytes back.
proof fn lemma_write_read(ty: TypeView, b: Seq<u8>, at: Place, depth: nat, max: nat)
    requires
        read_type(ty, b, at, depth) is Ok,
        at.pos <= b.len() <= max,
        max <= MAX_EVENT_BYTES,
    ensures
        read_type(ty, b, at, depth)->Ok_0.1.pos <= b.len(),
        write_type(ty, read_type(ty, b, at, depth)->Ok_0.0, depth, written_to(b, at), max) == Ok::<
            Written,
            Seq<char>,
        >(written_to(b, read_type(ty, b, at, depth)->Ok_0.1)),
    decreases ty, 0nat, 0nat,
{
    lemma_auto_spec_u32_to_from_le_bytes();
    lemma_auto_spec_u64_to_from_le_bytes();
    let nodes = at.nodes + 1;
    let pos = at.pos;
    match ty {
        TypeView::Record(s) => lemma_write_read_record(*s, b, at, depth, max),
        TypeView::Int { min, max: top } => {
            lemma_put_next(b, pos, nodes, 8, max);
            let raw = spec_u64_from_le_bytes(next_bytes(b, pos, 8)->Ok_0);
            assert((raw as i64) as u64 == raw) by (bit_vector);
        },
        TypeView::UInt { .. } => lemma_put_next(b, pos, nodes, 8, max),
        TypeView::Float { .. } => lemma_put_next(b, pos, nodes, 8, max),
        TypeView::Bool => {
            lemma_put_next(b, pos, nodes, 1, max);
            let bytes = next_bytes(b, pos, 1)->Ok_0;
            assert(bytes =~= seq![bytes[0]]);
        },
        TypeView::String { max_bytes } => {
            let refusal = schema::clip("string limit"@);
            lemma_put_next_counted(b, pos, nodes, max_bytes, refusal, max);
            let bytes = next_counted(b, pos, max_bytes, refusal)->Ok_0;
            decode_utf8_encode_utf8(bytes);
        },
        TypeView::Bytes { max_bytes } => {
            lemma_put_next_counted(b, pos, nodes, max_bytes, schema::clip("bytes limit"@), max);
        },
        TypeView::Enum { .. } => lemma_put_next(b, pos, nodes, 4, max),
        TypeView::Optional(item) => {
            lemma_put_next(b, pos, nodes, 1, max);
            let bytes = next_bytes(b, pos, 1)->Ok_0;
            assert(bytes =~= seq![bytes[0]]);
            if bytes[0] == 1 {
                lemma_write_read(*item, b, Place { pos: pos + 1, nodes }, depth + 1, max);
            }
        },
        TypeView::Sequence { item, max_len } => {
            lemma_put_next(b, pos, nodes, 4, max);
            let n = spec_u32_from_le_bytes(next_bytes(b, pos, 4)->Ok_0) as nat;
            let start = Place { pos: pos + 4, nodes };
            lemma_write_read_items(*item, b, n, start, depth + 1, max);
            let values = read_items(*item, b, n, start, depth + 1)->Ok_0.0;
            assert(values.take(n as int) =~= values);
        },
    }
}

proof fn lemma_write_read_record(s: SchemaView, b: Seq<u8>, at: Place, depth: nat, max: nat)
    requires
        read_record(s, b, at, depth) is Ok,
        at.pos <= b.len() <= max,
        max <= MAX_EVENT_BYTES,
    ensures
        read_record(s, b, at, depth)->Ok_0.1.pos <= b.len(),
        write_record(s, read_record(s, b, at, depth)->Ok_0.0, depth, written_to(b, at), max) == Ok::<
            Written,
            Seq<char>,
        >(written_to(b, read_record(s, b, at, depth)->Ok_0.1)),
    decreases s, 0nat, 0nat,
{
    let start = Place { nodes: at.nodes + 1, ..at };
    lemma_write_read_fields(s.fields, b, s.fields.len(), start, depth, max);
    let values = read_fields(s.fields, b, s.fields.len(), start, depth)->Ok_0.0;
}

/// Fields that agree are written alike.
proof fn lemma_write_fields_same(
    fields: Seq<FieldView>,
    x: Seq<ValueView>,
    y: Seq<ValueView>,
    count: nat,
    depth: nat,
    w: Written,
    max: nat,
)
    requires
        count <= x.len(),
        count <= y.len(),
        forall|i: int| 0 <= i < count ==> #[trigger] x[i] == y[i],
    ensures
        write_fields(fields, x, count, depth, w, max) == write_fields(
            fields,
            y,
            count,
            depth,
            w,
            max,
        ),
    decreases count,
{
    if count > 0 {
        lemma_write_fields_same(fields, x, y, (count - 1) as nat, depth, w, max);
    }
}

proof fn lemma_write_items_same(
    item: TypeView,
    x: Seq<ValueView>,
    y: Seq<ValueView>,
    count: nat,
    depth: nat,
    w: Written,
    max: nat,
)
    requires
        count <= x.len(),
        count <= y.len(),
        forall|i: int| 0 <= i < count ==> #[trigger] x[i] == y[i],
    ensures
        write_items(item, x, count, depth, w, max) == write_items(item, y, count, depth, w, max),
    decreases count,
{
    if count > 0 {
        lemma_write_items_same(item, x, y, (count - 1) as nat, depth, w, max);
    }
}

proof fn lemma_write_read_fields(
    fields: Seq<FieldView>,
    b: Seq<u8>,
    count: nat,
    at: Place,
    depth: nat,
    max: nat,
)
    requires
        count <= fields.len(),
        read_fields(fields, b, count, at, depth) is Ok,
        at.pos <= b.len() <= max,
        max <= MAX_EVENT_BYTES,
    ensures
        read_fields(fields, b, count, at, depth)->Ok_0.1.pos <= b.len(),
        read_fields(fields, b, count, at, depth)->Ok_0.0.len() == count,
        write_fields(
            fields,
            read_fields(fields, b, count, at, depth)->Ok_0.0,
            count,
            depth,
            written_to(b, at),
            max,
        ) == Ok::<Written, Seq<char>>(
            written_to(b, read_fields(fields, b, count, at, depth)->Ok_0.1),
        ),
    decreases fields, count, 0nat,
{
    if count > 0 {
        let n = (count - 1) as nat;
        lemma_write_read_fields(fields, b, n, at, depth, max);
        let (values, mid) = read_fields(fields, b, n, at, depth)->Ok_0;
        lemma_write_read(fields[count - 1].ty, b, mid, depth + 1, max);
        let all = read_fields(fields, b, count, at, depth)->Ok_0.0;
        lemma_write_fields_same(fields, all, values, n, depth, written_to(b, at), max);
    }
}

proof fn lemma_write_read_items(
    item: TypeView,
    b: Seq<u8>,
    count: nat,
    at: Place,
    depth: nat,
    max: nat,
)
    requires
        read_items(item, b, count, at, depth) is Ok,
        at.pos <= b.len() <= max,
        max <= MAX_EVENT_BYTES,
    ensures
        read_items(item, b, count, at, depth)->Ok_0.1.pos <= b.len(),
        read_items(item, b, count, at, depth)->Ok_0.0.len() == count,
        write_items(
            item,
            read_items(item, b, count, at, depth)->Ok_0.0,
            count,
            depth,
            written_to(b, at),
            max,
        ) == Ok::<Written, Seq<char>>(
            written_to(b, read_items(item, b, count, at, depth)->Ok_0.1),
        ),
    decreases item, count, 1nat,
{
    if count > 0 {
        let n = (count - 1) as nat;
        lemma_write_read_items(item, b, n, at, depth, max);
        let (values, mid) = read_items(item, b, n, at, depth)->Ok_0;
        lemma_write_read(item, b, mid, depth, max);
        let all = read_items(item, b, count, at, depth)->Ok_0.0;
        lemma_write_items_same(item, all, values, n, depth, written_to(b, at), max);
    }
}

/// Encoding what was decoded gives the bytes back: a value has no second
/// encoding.
pub proof fn encode_inverts_decode(s: SchemaView, b: Seq<u8>, max_bytes: usize)
    requires
        s.decoding(b) is Ok,
        b.len() <= max_bytes <= MAX_EVENT_BYTES,
    ensures
        s.encoding(s.decoding(b)->Ok_0, max_bytes) == Ok::<Seq<u8>, Seq<char>>(b),
{
    let at = Place { pos: 0, nodes: 0 };
    lemma_write_read_record(s, b, at, 0, max_bytes as nat);
    assert(b.take(0) =~= Seq::<u8>::empty());
    assert(b.take(b.len() as int) =~= b);
}

} // verus!
