//! What an encoding is, said of the value and the bytes alone: which values
//! conform to a schema, how large they are, and which bytes stand for them.
use vstd::prelude::*;
use vstd::bytes::*;
use crate::codec;
use crate::codec::{ValueView, Written};
use crate::schema::{FieldView, SchemaView, TypeView, MAX_DEPTH};
use crate::text;

verus! {

/// Whether the bits of a float stand for a number: the exponent is not the
/// greatest.
pub open spec fn is_number(bits: u64) -> bool {
    (bits / 0x0010_0000_0000_0000) % 0x800 != 0x7ff
}

/// Whether the bits of a float stand for no number and no infinity.
pub open spec fn no_number(bits: u64) -> bool {
    !is_number(bits) && bits % 0x0010_0000_0000_0000 != 0
}

/// Whether a value is one that a type allows.
pub open spec fn conforms(ty: TypeView, v: ValueView) -> bool
    decreases ty, 0nat, 0nat,
{
    match (ty, v) {
        (TypeView::Int { min, max }, ValueView::Int(x)) => min <= x <= max,
        (TypeView::UInt { min, max }, ValueView::UInt(x)) => min <= x <= max,
        (TypeView::Float { allow_non_finite }, ValueView::Float(x)) => allow_non_finite
            || is_number(x),
        (TypeView::Bool, ValueView::Bool(_)) => true,
        (TypeView::String { max_bytes }, ValueView::String(x)) => text::utf8(x).len() <= max_bytes,
        (TypeView::Bytes { max_bytes }, ValueView::Bytes(x)) => x.len() <= max_bytes,
        (TypeView::Enum { variants, .. }, ValueView::Enum(x)) => x < variants.len(),
        (TypeView::Optional(_), ValueView::Absent) => true,
        (TypeView::Optional(item), ValueView::Present(x)) => conforms(*item, *x),
        (TypeView::Sequence { item, max_len }, ValueView::Sequence(values)) => values.len()
            <= max_len && items_conform(*item, values, values.len()),
        (TypeView::Record(s), _) => record_conforms(*s, v),
        _ => false,
    }
}

/// Whether a value is a record with one value for each field, each of which
/// its field allows.
pub open spec fn record_conforms(s: SchemaView, v: ValueView) -> bool
    decreases s, 0nat, 0nat,
{
    match v {
        ValueView::Record(values) => values.len() == s.fields.len() && fields_conform(
            s.fields,
            values,
            s.fields.len(),
        ),
        _ => false,
    }
}

/// Whether the first `count` values conform to their fields.
pub open spec fn fields_conform(fields: Seq<FieldView>, values: Seq<ValueView>, count: nat) -> bool
    decreases fields, count, 0nat,
{
    if count == 0 || count > fields.len() {
        true
    } else {
        fields_conform(fields, values, (count - 1) as nat) && conforms(
            fields[count - 1].ty,
            values[count - 1],
        )
    }
}

/// Whether the first `count` elements conform to their type.
pub open spec fn items_conform(item: TypeView, values: Seq<ValueView>, count: nat) -> bool
    decreases item, count, 1nat,
{
    if count == 0 || count > values.len() {
        true
    } else {
        items_conform(item, values, (count - 1) as nat) && conforms(item, values[count - 1])
    }
}

/// How many values a value is made of, itself included.
pub open spec fn value_nodes(v: ValueView) -> nat
    decreases v, 0nat,
{
    match v {
        ValueView::Present(x) => 1 + value_nodes(*x),
        ValueView::Sequence(values) => 1 + list_nodes(values, values.len()),
        ValueView::Record(values) => 1 + list_nodes(values, values.len()),
        _ => 1,
    }
}

pub open spec fn list_nodes(values: Seq<ValueView>, count: nat) -> nat
    decreases values, count,
{
    if count == 0 || count > values.len() {
        0
    } else {
        list_nodes(values, (count - 1) as nat) + value_nodes(values[count - 1])
    }
}

/// How many levels lie below a value.
pub open spec fn value_depth(v: ValueView) -> nat
    decreases v, 0nat,
{
    match v {
        ValueView::Present(x) => 1 + value_depth(*x),
        ValueView::Sequence(values) => list_depth(values, values.len()),
        ValueView::Record(values) => list_depth(values, values.len()),
        _ => 0,
    }
}

pub open spec fn list_depth(values: Seq<ValueView>, count: nat) -> nat
    decreases values, count,
{
    if count == 0 || count > values.len() {
        0
    } else {
        let earlier = list_depth(values, (count - 1) as nat);
        let last = 1 + value_depth(values[count - 1]);
        if earlier > last {
            earlier
        } else {
            last
        }
    }
}

/// The bytes that stand for a value: numbers with the least byte first, texts,
/// bytes and sequences after their length, all that is no number in one form.
pub open spec fn layout(v: ValueView) -> Seq<u8>
    decreases v, 0nat,
{
    match v {
        ValueView::Int(x) => spec_u64_to_le_bytes(x as u64),
        ValueView::UInt(x) => spec_u64_to_le_bytes(x),
        ValueView::Float(x) => spec_u64_to_le_bytes(
            if no_number(x) {
                0x7ff8_0000_0000_0000u64
            } else {
                x
            },
        ),
        ValueView::Bool(x) => seq![if x { 1u8 } else { 0u8 }],
        ValueView::String(x) => spec_u32_to_le_bytes(text::utf8(x).len() as u32) + text::utf8(x),
        ValueView::Bytes(x) => spec_u32_to_le_bytes(x.len() as u32) + x,
        ValueView::Enum(x) => spec_u32_to_le_bytes(x),
        ValueView::Absent => seq![0u8],
        ValueView::Present(x) => seq![1u8] + layout(*x),
        ValueView::Sequence(values) => spec_u32_to_le_bytes(values.len() as u32) + list_layout(
            values,
            values.len(),
        ),
        ValueView::Record(values) => list_layout(values, values.len()),
    }
}

pub open spec fn list_layout(values: Seq<ValueView>, count: nat) -> Seq<u8>
    decreases values, count,
{
    if count == 0 || count > values.len() {
        Seq::empty()
    } else {
        list_layout(values, (count - 1) as nat) + layout(values[count - 1])
    }
}

/// Whether all that is no number in a value has its one form.
pub open spec fn plain(v: ValueView) -> bool
    decreases v, 0nat,
{
    match v {
        ValueView::Float(x) => no_number(x) ==> x == 0x7ff8_0000_0000_0000u64,
        ValueView::Present(x) => plain(*x),
        ValueView::Sequence(values) => list_plain(values, values.len()),
        ValueView::Record(values) => list_plain(values, values.len()),
        _ => true,
    }
}

pub open spec fn list_plain(values: Seq<ValueView>, count: nat) -> bool
    decreases values, count,
{
    if count == 0 || count > values.len() {
        true
    } else {
        list_plain(values, (count - 1) as nat) && plain(values[count - 1])
    }
}

/// Whether a value is small enough to be written behind what was written.
spec fn fits(w: Written, depth: nat, max: nat, nodes: nat, deep: nat, bytes: nat) -> bool {
    &&& w.nodes + nodes <= 4096
    &&& depth + deep <= MAX_DEPTH
    &&& w.out.len() + bytes <= max
}

spec fn after(w: Written, nodes: nat, bytes: Seq<u8>) -> Written {
    Written { out: w.out + bytes, nodes: w.nodes + nodes }
}

proof fn lemma_at_least_one(v: ValueView)
    ensures
        value_nodes(v) >= 1,
{
}

proof fn lemma_at_least_one_each(values: Seq<ValueView>, count: nat)
    requires
        count <= values.len(),
    ensures
        list_nodes(values, count) >= count,
    decreases count,
{
    if count > 0 {
        lemma_at_least_one_each(values, (count - 1) as nat);
        lemma_at_least_one(values[count - 1]);
    }
}

proof fn lemma_write_type(ty: TypeView, v: ValueView, depth: nat, w: Written, max: nat)
    requires
        w.out.len() <= max,
        max <= 0x10_0000,
    ensures
        codec::write_type(ty, v, depth, w, max) is Ok <==> conforms(ty, v) && fits(
            w,
            depth,
            max,
            value_nodes(v),
            value_depth(v),
            layout(v).len(),
        ),
        codec::write_type(ty, v, depth, w, max) matches Ok(n) ==> n == after(
            w,
            value_nodes(v),
            layout(v),
        ),
    decreases ty, 0nat, 0nat,
{
    lemma_auto_spec_u32_to_from_le_bytes();
    lemma_auto_spec_u64_to_from_le_bytes();
    let w1 = Written { nodes: w.nodes + 1, ..w };
    let written = codec::write_type(ty, v, depth, w, max);
    match ty {
        TypeView::Record(s) => lemma_write_record(*s, v, depth, w, max),
        TypeView::Optional(item) => match v {
            ValueView::Present(x) => {
                let w2 = Written { out: w1.out + seq![1u8], ..w1 };
                if w2.out.len() <= max {
                    lemma_write_type(*item, *x, depth + 1, w2, max);
                    assert(w.out + seq![1u8] + layout(*x) =~= w.out + (seq![1u8] + layout(*x)));
                }
            },
            _ => {},
        },
        TypeView::Sequence { item, max_len } => match v {
            ValueView::Sequence(values) => {
                lemma_at_least_one_each(values, values.len());
                let head = spec_u32_to_le_bytes(values.len() as u32);
                let w2 = Written { out: w1.out + head, ..w1 };
                if w2.out.len() <= max {
                    lemma_write_items(*item, values, values.len(), depth + 1, w2, max);
                    let rest = list_layout(values, values.len());
                    assert(w.out + head + rest =~= w.out + (head + rest));
                }
            },
            _ => {},
        },
        TypeView::String { .. } => match v {
            ValueView::String(x) => {
                let head = spec_u32_to_le_bytes(text::utf8(x).len() as u32);
                assert(w.out + head + text::utf8(x) =~= w.out + (head + text::utf8(x)));
            },
            _ => {},
        },
        TypeView::Bytes { .. } => match v {
            ValueView::Bytes(x) => {
                let head = spec_u32_to_le_bytes(x.len() as u32);
                assert(w.out + head + x =~= w.out + (head + x));
            },
            _ => {},
        },
        _ => {},
    }
}

proof fn lemma_write_record(s: SchemaView, v: ValueView, depth: nat, w: Written, max: nat)
    requires
        w.out.len() <= max,
        max <= 0x10_0000,
    ensures
        codec::write_record(s, v, depth, w, max) is Ok <==> record_conforms(s, v) && fits(
            w,
            depth,
            max,
            value_nodes(v),
            value_depth(v),
            layout(v).len(),
        ),
        codec::write_record(s, v, depth, w, max) matches Ok(n) ==> n == after(
            w,
            value_nodes(v),
            layout(v),
        ),
    decreases s, 0nat, 0nat,
{
    let w1 = Written { nodes: w.nodes + 1, ..w };
    match v {
        ValueView::Record(values) => {
            if values.len() == s.fields.len() {
                lemma_write_fields(s.fields, values, s.fields.len(), depth, w1, max);
            }
        },
        _ => {},
    }
}

proof fn lemma_write_fields(
    fields: Seq<FieldView>,
    values: Seq<ValueView>,
    count: nat,
    depth: nat,
    w: Written,
    max: nat,
)
    requires
        count <= fields.len(),
        count <= values.len(),
        w.out.len() <= max,
        max <= 0x10_0000,
    ensures
        w.nodes <= 4096 && depth <= MAX_DEPTH ==> (codec::write_fields(
            fields,
            values,
            count,
            depth,
            w,
            max,
        ) is Ok <==> fields_conform(fields, values, count) && fits(
            w,
            depth,
            max,
            list_nodes(values, count),
            list_depth(values, count),
            list_layout(values, count).len(),
        )),
        codec::write_fields(fields, values, count, depth, w, max) matches Ok(n) ==> n == after(
            w,
            list_nodes(values, count),
            list_layout(values, count),
        ) && n.out.len() <= max,
    decreases fields, count, 0nat,
{
    if count == 0 {
        assert(w.out + Seq::<u8>::empty() =~= w.out);
    } else {
        let n = (count - 1) as nat;
        lemma_write_fields(fields, values, n, depth, w, max);
        let before = codec::write_fields(fields, values, n, depth, w, max);
        if before is Ok {
            let mid = before->Ok_0;
            lemma_write_type(fields[count - 1].ty, values[count - 1], depth + 1, mid, max);
            assert(w.out + list_layout(values, n) + layout(values[count - 1]) =~= w.out + (
            list_layout(values, n) + layout(values[count - 1])));
        }
    }
}

proof fn lemma_write_items(
    item: TypeView,
    values: Seq<ValueView>,
    count: nat,
    depth: nat,
    w: Written,
    max: nat,
)
    requires
        count <= values.len(),
        depth > 0,
        w.out.len() <= max,
        max <= 0x10_0000,
    ensures
        w.nodes <= 4096 && depth <= MAX_DEPTH + 1 ==> (codec::write_items(
            item,
            values,
            count,
            depth,
            w,
            max,
        ) is Ok <==> items_conform(item, values, count) && fits(
            w,
            (depth - 1) as nat,
            max,
            list_nodes(values, count),
            list_depth(values, count),
            list_layout(values, count).len(),
        )),
        codec::write_items(item, values, count, depth, w, max) matches Ok(n) ==> n == after(
            w,
            list_nodes(values, count),
            list_layout(values, count),
        ) && n.out.len() <= max,
    decreases item, count, 1nat,
{
    if count == 0 {
        assert(w.out + Seq::<u8>::empty() =~= w.out);
    } else {
        let n = (count - 1) as nat;
        lemma_write_items(item, values, n, depth, w, max);
        let before = codec::write_items(item, values, n, depth, w, max);
        if before is Ok {
            let mid = before->Ok_0;
            lemma_write_type(item, values[count - 1], depth, mid, max);
            assert(w.out + list_layout(values, n) + layout(values[count - 1]) =~= w.out + (
            list_layout(values, n) + layout(values[count - 1])));
        }
    }
}

/// A value is encoded exactly if the schema is valid, the value conforms to it,
/// has no more values and levels than an event may have, and its bytes fit; its
/// encoding is the bytes that stand for it.
pub proof fn what_conforms_is_encoded(s: SchemaView, value: ValueView, max_bytes: usize)
    ensures
        s.encoding(value, max_bytes) is Ok <==> {
            &&& s.valid()
            &&& record_conforms(s, value)
            &&& value_nodes(value) <= 4096
            &&& value_depth(value) <= 16
            &&& layout(value).len() <= max_bytes <= 0x10_0000
        },
        s.encoding(value, max_bytes) matches Ok(bytes) ==> bytes == layout(value),
{
    if s.valid() && max_bytes <= 0x10_0000 {
        let w = Written { out: Seq::empty(), nodes: 0 };
        lemma_write_record(s, value, 0, w, max_bytes as nat);
        assert(w.out + layout(value) =~= layout(value));
    }
}

proof fn lemma_canonical(v: ValueView)
    ensures
        codec::canonical(v) == v <==> plain(v),
    decreases v, 0nat,
{
    match v {
        ValueView::Present(x) => lemma_canonical(*x),
        ValueView::Sequence(values) => {
            lemma_canonical_all(values);
            lemma_list_plain(values, values.len());
        },
        ValueView::Record(values) => {
            lemma_canonical_all(values);
            lemma_list_plain(values, values.len());
        },
        _ => {},
    }
}

proof fn lemma_list_plain(values: Seq<ValueView>, count: nat)
    requires
        count <= values.len(),
    ensures
        list_plain(values, count) <==> forall|i: int| 0 <= i < count ==> plain(#[trigger] values[i]),
    decreases count,
{
    if count > 0 {
        lemma_list_plain(values, (count - 1) as nat);
    }
}

proof fn lemma_canonical_each(values: Seq<ValueView>)
    ensures
        codec::canonical_all(values).len() == values.len(),
        forall|i: int|
            0 <= i < values.len() ==> #[trigger] codec::canonical_all(values)[i]
                == codec::canonical(values[i]),
    decreases values.len(),
{
    if values.len() > 0 {
        let rest = values.drop_last();
        lemma_canonical_each(rest);
        assert forall|i: int| 0 <= i < values.len() implies #[trigger] codec::canonical_all(
            values,
        )[i] == codec::canonical(values[i]) by {
            if i < rest.len() {
                assert(codec::canonical_all(rest)[i] == codec::canonical(rest[i]));
            }
        }
    }
}

proof fn lemma_canonical_all(values: Seq<ValueView>)
    ensures
        codec::canonical_all(values) == values <==> forall|i: int|
            0 <= i < values.len() ==> plain(#[trigger] values[i]),
    decreases values, 0nat,
{
    lemma_canonical_each(values);
    let all = codec::canonical_all(values);
    assert forall|i: int| 0 <= i < values.len() implies (codec::canonical(#[trigger] values[i])
        == values[i] <==> plain(values[i])) by {
        lemma_canonical(values[i]);
    }
    if all == values {
        assert forall|i: int| 0 <= i < values.len() implies plain(#[trigger] values[i]) by {
            assert(all[i] == codec::canonical(values[i]));
        }
    }
    if forall|i: int| 0 <= i < values.len() ==> plain(#[trigger] values[i]) {
        assert forall|i: int| 0 <= i < values.len() implies all[i] == values[i] by {
            assert(all[i] == codec::canonical(values[i]));
        }
        assert(all =~= values);
    }
}

/// Bytes are decoded to a value exactly if the schema is valid, the value
/// conforms to it, keeps the limits of an event, and the bytes are those that
/// stand for it.
pub proof fn what_is_decoded_conforms(s: SchemaView, bytes: Seq<u8>, value: ValueView)
    ensures
        s.decoding(bytes) == Ok::<ValueView, Seq<char>>(value) <==> {
            &&& s.valid()
            &&& record_conforms(s, value)
            &&& plain(value)
            &&& value_nodes(value) <= 4096
            &&& value_depth(value) <= 16
            &&& bytes == layout(value)
            &&& bytes.len() <= 0x10_0000
        },
{
    let top: usize = 0x10_0000;
    what_conforms_is_encoded(s, value, top);
    lemma_canonical(value);
    if s.decoding(bytes) == Ok::<ValueView, Seq<char>>(value) {
        codec::encode_inverts_decode(s, bytes, top);
        codec::decode_inverts_encode(s, value, top);
    }
    if s.encoding(value, top) is Ok && plain(value) && bytes == layout(value) {
        codec::decode_inverts_encode(s, value, top);
    }
}

} // verus!
