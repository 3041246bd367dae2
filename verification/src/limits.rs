//! The limits of schemas, said of the schema itself: names, counts, depth and
//! the number of nodes.
use vstd::prelude::*;
use crate::schema;
use crate::schema::{FieldView, SchemaView, TypeView, MAX_DEPTH, MAX_SCHEMA_NODES};
use crate::text;

verus! {

/// How many schemas and types a schema is made of, itself included.
pub open spec fn schema_nodes(s: SchemaView) -> nat
    decreases s, 0nat, 0nat,
{
    1 + fields_nodes(s.fields, s.fields.len())
}

pub open spec fn fields_nodes(fields: Seq<FieldView>, count: nat) -> nat
    decreases fields, count, 0nat,
{
    if count == 0 || count > fields.len() {
        0
    } else {
        fields_nodes(fields, (count - 1) as nat) + type_nodes(fields[count - 1].ty)
    }
}

pub open spec fn type_nodes(ty: TypeView) -> nat
    decreases ty, 0nat, 0nat,
{
    match ty {
        TypeView::Record(s) => schema_nodes(*s),
        TypeView::Optional(item) => 1 + type_nodes(*item),
        TypeView::Sequence { item, .. } => 1 + type_nodes(*item),
        _ => 1,
    }
}

/// How many levels lie below a schema.
pub open spec fn schema_depth(s: SchemaView) -> nat
    decreases s, 0nat, 0nat,
{
    fields_depth(s.fields, s.fields.len())
}

pub open spec fn fields_depth(fields: Seq<FieldView>, count: nat) -> nat
    decreases fields, count, 0nat,
{
    if count == 0 || count > fields.len() {
        0
    } else {
        let earlier = fields_depth(fields, (count - 1) as nat);
        let last = 1 + type_depth(fields[count - 1].ty);
        if earlier > last {
            earlier
        } else {
            last
        }
    }
}

pub open spec fn type_depth(ty: TypeView) -> nat
    decreases ty, 0nat, 0nat,
{
    match ty {
        TypeView::Record(s) => schema_depth(*s),
        TypeView::Optional(item) => 1 + type_depth(*item),
        TypeView::Sequence { item, .. } => 1 + type_depth(*item),
        _ => 0,
    }
}

/// Whether the names, the version, the number of fields and what each field
/// allows are in order.
pub open spec fn well_named(s: SchemaView) -> bool
    decreases s, 0nat, 0nat,
{
    &&& 1 <= text::utf8(s.name).len() <= 256
    &&& s.version != 0
    &&& s.fields.len() <= 256
    &&& fields_well_named(s.fields, s.fields.len())
}

pub open spec fn fields_well_named(fields: Seq<FieldView>, count: nat) -> bool
    decreases fields, count, 0nat,
{
    if count == 0 || count > fields.len() {
        true
    } else {
        let field = fields[count - 1];
        &&& fields_well_named(fields, (count - 1) as nat)
        &&& 1 <= text::utf8(field.name).len() <= 128
        &&& forall|j: int| 0 <= j < count - 1 ==> (#[trigger] fields[j]).name != field.name
        &&& type_well_named(field.ty)
    }
}

pub open spec fn type_well_named(ty: TypeView) -> bool
    decreases ty, 0nat, 0nat,
{
    match ty {
        TypeView::Int { min, max } => min <= max,
        TypeView::UInt { min, max } => min <= max,
        TypeView::String { max_bytes } => max_bytes <= 1024 * 1024,
        TypeView::Bytes { max_bytes } => max_bytes <= 1024 * 1024,
        TypeView::Enum { name, variants } => 1 <= text::utf8(name).len() <= 256
            && variants_well_named(variants),
        TypeView::Optional(item) => type_well_named(*item),
        TypeView::Sequence { item, max_len } => max_len <= 4096 && type_well_named(*item),
        TypeView::Record(s) => well_named(*s),
        _ => true,
    }
}

/// Whether some nodes more, and some levels more, keep the limits.
/// Whether the variants of an enumeration are named in ascending order, each once.
pub open spec fn variants_well_named(variants: Seq<Seq<char>>) -> bool {
    &&& 1 <= variants.len() <= 256
    &&& forall|i: int|
        0 <= i < variants.len() ==> 1 <= text::utf8(#[trigger] variants[i]).len() <= 256
    &&& forall|i: int|
        0 < i < variants.len() ==> text::bytes_lt(
            text::utf8(variants[i - 1]),
            text::utf8(#[trigger] variants[i]),
        )
}

spec fn fits(nodes: nat, depth: nat) -> bool {
    nodes <= MAX_SCHEMA_NODES && depth <= MAX_DEPTH
}

proof fn lemma_schema(s: SchemaView, depth: nat, nodes: nat)
    ensures
        schema::schema_fault(s, depth, nodes).0 is None <==> well_named(s) && fits(
            nodes + schema_nodes(s),
            depth + schema_depth(s),
        ),
        schema::schema_fault(s, depth, nodes).0 is None ==> schema::schema_fault(
            s,
            depth,
            nodes,
        ).1 == nodes + schema_nodes(s),
    decreases s, 0nat, 0nat,
{
    if depth <= MAX_DEPTH && nodes + 1 <= MAX_SCHEMA_NODES {
        lemma_fields(s.fields, s.fields.len(), depth, nodes + 1);
    }
}

proof fn lemma_fields(fields: Seq<FieldView>, count: nat, depth: nat, nodes: nat)
    requires
        count <= fields.len(),
        fits(nodes, depth),
    ensures
        schema::fields_fault(fields, count, depth, nodes).0 is None <==> fields_well_named(
            fields,
            count,
        ) && fits(nodes + fields_nodes(fields, count), depth + fields_depth(fields, count)),
        schema::fields_fault(fields, count, depth, nodes).0 is None ==> schema::fields_fault(
            fields,
            count,
            depth,
            nodes,
        ).1 == nodes + fields_nodes(fields, count),
    decreases fields, count, 0nat,
{
    if count > 0 {
        lemma_fields(fields, (count - 1) as nat, depth, nodes);
        let (earlier, after) = schema::fields_fault(fields, (count - 1) as nat, depth, nodes);
        if earlier is None {
            lemma_type(fields[count - 1].ty, depth + 1, after);
        }
    }
}

proof fn lemma_type(ty: TypeView, depth: nat, nodes: nat)
    ensures
        schema::type_fault(ty, depth, nodes).0 is None <==> type_well_named(ty) && fits(
            nodes + type_nodes(ty),
            depth + type_depth(ty),
        ),
        schema::type_fault(ty, depth, nodes).0 is None ==> schema::type_fault(ty, depth, nodes).1
            == nodes + type_nodes(ty),
    decreases ty, 0nat, 0nat,
{
    match ty {
        TypeView::Record(s) => {
            lemma_schema(*s, depth, nodes);
        },
        TypeView::Optional(item) => {
            lemma_type(*item, depth + 1, nodes + 1);
        },
        TypeView::Sequence { item, .. } => {
            lemma_type(*item, depth + 1, nodes + 1);
        },
        _ => {},
    }
}

/// A schema is valid exactly if its names and ranges are in order, it is made of
/// no more nodes than allowed, and it goes no deeper than allowed.
pub proof fn a_valid_schema_keeps_its_limits(s: SchemaView)
    ensures
        s.valid() <==> well_named(s) && schema_nodes(s) <= 1024 && schema_depth(s) <= 16,
{
    lemma_schema(s, 0, 0);
}

} // verus!
