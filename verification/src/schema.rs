//! Schemas of structured payloads: their shape, their limits, and the registry
//! that numbers them.
use vstd::prelude::*;
use vstd::string::*;
use std::sync::Arc;
use crate::text;
use crate::text::{byte_len, same_text, text_before};

verus! {

#[derive(Debug)]
pub struct Schema {
    pub name: String,
    pub version: u32,
    pub fields: Vec<Field>,
}

#[derive(Debug)]
pub struct Field {
    pub name: String,
    pub ty: FieldType,
}

#[derive(Debug)]
pub enum FieldType {
    Int { min: i64, max: i64 },
    UInt { min: u64, max: u64 },
    Float { allow_non_finite: bool },
    Bool,
    String { max_bytes: usize },
    Bytes { max_bytes: usize },
    Enum { name: String, variants: Vec<String> },
    Optional(Box<FieldType>),
    Sequence { item: Box<FieldType>, max_len: usize },
    Record(Box<Schema>),
}

/// A schema by its contents.
#[verifier::ext_equal]
pub struct SchemaView {
    pub name: Seq<char>,
    pub version: u32,
    pub fields: Seq<FieldView>,
}

#[verifier::ext_equal]
pub struct FieldView {
    pub name: Seq<char>,
    pub ty: TypeView,
}

#[verifier::ext_equal]
pub enum TypeView {
    Int { min: i64, max: i64 },
    UInt { min: u64, max: u64 },
    Float { allow_non_finite: bool },
    Bool,
    String { max_bytes: usize },
    Bytes { max_bytes: usize },
    Enum { name: Seq<char>, variants: Seq<Seq<char>> },
    Optional(Box<TypeView>),
    Sequence { item: Box<TypeView>, max_len: usize },
    Record(Box<SchemaView>),
}

pub open spec fn texts(list: Seq<String>) -> Seq<Seq<char>> {
    list.map_values(|s: String| s@)
}

pub open spec fn schema_view(s: Schema) -> SchemaView
    decreases s,
{
    SchemaView { name: s.name@, version: s.version, fields: fields_view(s.fields@) }
}

pub open spec fn fields_view(fields: Seq<Field>) -> Seq<FieldView>
    decreases fields,
{
    if fields.len() == 0 {
        Seq::empty()
    } else {
        fields_view(fields.drop_last()).push(field_view(fields.last()))
    }
}

pub open spec fn field_view(field: Field) -> FieldView
    decreases field,
{
    FieldView { name: field.name@, ty: type_view(field.ty) }
}

pub open spec fn type_view(ty: FieldType) -> TypeView
    decreases ty,
{
    match ty {
        FieldType::Int { min, max } => TypeView::Int { min, max },
        FieldType::UInt { min, max } => TypeView::UInt { min, max },
        FieldType::Float { allow_non_finite } => TypeView::Float { allow_non_finite },
        FieldType::Bool => TypeView::Bool,
        FieldType::String { max_bytes } => TypeView::String { max_bytes },
        FieldType::Bytes { max_bytes } => TypeView::Bytes { max_bytes },
        FieldType::Enum { name, variants } => TypeView::Enum {
            name: name@,
            variants: texts(variants@),
        },
        FieldType::Optional(item) => TypeView::Optional(Box::new(type_view(*item))),
        FieldType::Sequence { item, max_len } => TypeView::Sequence {
            item: Box::new(type_view(*item)),
            max_len,
        },
        FieldType::Record(schema) => TypeView::Record(Box::new(schema_view(*schema))),
    }
}

impl View for Schema {
    type V = SchemaView;

    open spec fn view(&self) -> SchemaView {
        schema_view(*self)
    }
}

impl View for FieldType {
    type V = TypeView;

    open spec fn view(&self) -> TypeView {
        type_view(*self)
    }
}

pub proof fn lemma_fields_view(fields: Seq<Field>)
    ensures
        fields_view(fields).len() == fields.len(),
        forall|i: int|
            0 <= i < fields.len() ==> #[trigger] fields_view(fields)[i] == field_view(fields[i]),
    decreases fields.len(),
{
    if fields.len() > 0 {
        lemma_fields_view(fields.drop_last());
        assert forall|i: int| 0 <= i < fields.len() implies #[trigger] fields_view(fields)[i]
            == field_view(fields[i]) by {
            if i < fields.len() - 1 {
                assert(fields_view(fields.drop_last())[i] == field_view(fields.drop_last()[i]));
            }
        }
    }
}

/// Why a schema or a value was refused, in at most 256 characters.
#[derive(Clone, Debug, PartialEq, Eq)]
pub struct SchemaError(pub String);

impl View for SchemaError {
    type V = Seq<char>;

    open spec fn view(&self) -> Seq<char> {
        self.0@
    }
}

/// The first 256 characters.
pub open spec fn clip(message: Seq<char>) -> Seq<char> {
    if message.len() <= 256 {
        message
    } else {
        message.take(256)
    }
}

/// A message with the field that it concerns before it.
pub open spec fn located(field: Seq<char>, message: Seq<char>) -> Seq<char> {
    clip(field + "."@ + message)
}

fn clipped(message: &str) -> (r: String)
    ensures
        r@ == clip(message@),
{
    if message.unicode_len() <= 256 {
        message.to_owned()
    } else {
        let short = message.substring_char(0, 256).to_owned();
        assert(short@ =~= message@.take(256));
        short
    }
}

impl SchemaError {
    pub fn new(message: &str) -> (r: Self)
        ensures
            r@ == clip(message@),
    {
        SchemaError(clipped(message))
    }

    /// Says in which field the fault lies.
    pub fn at(self, field: &str) -> (r: Self)
        ensures
            r@ == located(field@, self@),
    {
        let mut path = field.to_owned();
        path.append(".");
        path.append(self.0.as_str());
        SchemaError(clipped(path.as_str()))
    }

    pub fn message(&self) -> (r: &str)
        ensures
            r@ == self@,
    {
        self.0.as_str()
    }
}

pub const MAX_DEPTH: usize = 16;

pub const MAX_SCHEMA_NODES: usize = 1024;

pub const MAX_EVENT_BYTES: usize = 1048576;

pub open spec fn text_within(chars: Seq<char>, max: nat) -> bool {
    1 <= text::utf8(chars).len() <= max
}

fn is_text_within(chars: &str, max: usize) -> (r: bool)
    ensures
        r == text_within(chars@, max as nat),
{
    let n = byte_len(chars);
    1 <= n && n <= max
}

/// Variants come in strictly ascending byte order.
pub open spec fn variants_ok(variants: Seq<Seq<char>>) -> bool {
    &&& 1 <= variants.len() <= 256
    &&& forall|i: int| 0 <= i < variants.len() ==> text_within(#[trigger] variants[i], 256)
    &&& forall|i: int|
        0 < i < variants.len() ==> text::bytes_lt(
            text::utf8(variants[i - 1]),
            text::utf8(#[trigger] variants[i]),
        )
}

/// The fault of a schema, if it has one, and the number of nodes counted.
pub open spec fn schema_fault(s: SchemaView, depth: nat, nodes: nat) -> (Option<Seq<char>>, nat)
    decreases s, 0nat, 0nat,
{
    if depth > MAX_DEPTH {
        (Some(clip("schema depth limit"@)), nodes)
    } else if nodes + 1 > MAX_SCHEMA_NODES {
        (Some(clip("schema node limit"@)), nodes + 1)
    } else if !text_within(s.name, 256) || s.version == 0 || s.fields.len() > 256 {
        (Some(clip("invalid schema metadata"@)), nodes + 1)
    } else {
        fields_fault(s.fields, s.fields.len(), depth, nodes + 1)
    }
}

/// The first fault among the first `count` fields.
pub open spec fn fields_fault(fields: Seq<FieldView>, count: nat, depth: nat, nodes: nat) -> (
    Option<Seq<char>>,
    nat,
)
    decreases fields, count, 0nat,
{
    if count == 0 || count > fields.len() {
        (None, nodes)
    } else {
        let (earlier, after) = fields_fault(fields, (count - 1) as nat, depth, nodes);
        let field = fields[count - 1];
        if earlier is Some {
            (earlier, after)
        } else if !text_within(field.name, 128) {
            (Some(clip("invalid field metadata"@)), after)
        } else if exists|j: int| 0 <= j < count - 1 && (#[trigger] fields[j]).name == field.name {
            (Some(clip("duplicate field name"@)), after)
        } else {
            let (fault, total) = type_fault(field.ty, depth + 1, after);
            match fault {
                Some(message) => (Some(located(field.name, message)), total),
                None => (None, total),
            }
        }
    }
}

pub open spec fn type_fault(ty: TypeView, depth: nat, nodes: nat) -> (Option<Seq<char>>, nat)
    decreases ty, 0nat, 0nat,
{
    match ty {
        TypeView::Record(schema) => schema_fault(*schema, depth, nodes),
        _ => if nodes + 1 > MAX_SCHEMA_NODES {
            (Some(clip("schema node limit 1024"@)), nodes + 1)
        } else if depth > MAX_DEPTH {
            (Some(clip("schema depth limit"@)), nodes + 1)
        } else {
            match ty {
                TypeView::Int { min, max } => if min > max {
                    (Some(clip("invalid integer range"@)), nodes + 1)
                } else {
                    (None, nodes + 1)
                },
                TypeView::UInt { min, max } => if min > max {
                    (Some(clip("invalid unsigned range"@)), nodes + 1)
                } else {
                    (None, nodes + 1)
                },
                TypeView::String { max_bytes } => if max_bytes > MAX_EVENT_BYTES {
                    (Some(clip("byte limit"@)), nodes + 1)
                } else {
                    (None, nodes + 1)
                },
                TypeView::Bytes { max_bytes } => if max_bytes > MAX_EVENT_BYTES {
                    (Some(clip("byte limit"@)), nodes + 1)
                } else {
                    (None, nodes + 1)
                },
                TypeView::Enum { name, variants } => if !text_within(name, 256) || !variants_ok(
                    variants,
                ) {
                    (Some(clip("enum limit"@)), nodes + 1)
                } else {
                    (None, nodes + 1)
                },
                TypeView::Optional(item) => type_fault(*item, depth + 1, nodes + 1),
                TypeView::Sequence { item, max_len } => if max_len > 4096 {
                    (Some(clip("sequence limit"@)), nodes + 1)
                } else {
                    type_fault(*item, depth + 1, nodes + 1)
                },
                _ => (None, nodes + 1),
            }
        },
    }
}

impl SchemaView {
    /// Whether the schema keeps every limit.
    pub open spec fn valid(self) -> bool {
        schema_fault(self, 0, 0).0 is None
    }
}

pub open spec fn fault_of(r: Result<(), SchemaError>) -> Option<Seq<char>> {
    match r {
        Ok(_) => None,
        Err(e) => Some(e@),
    }
}

fn valid_variants(variants: &Vec<String>) -> (r: bool)
    ensures
        r == variants_ok(texts(variants@)),
{
    let ghost list = texts(variants@);
    if variants.len() == 0 || variants.len() > 256 {
        return false;
    }
    let mut i: usize = 0;
    while i < variants.len()
        invariant
            i <= variants.len(),
            list == texts(variants@),
            1 <= list.len() <= 256,
            forall|j: int| 0 <= j < i ==> text_within(#[trigger] list[j], 256),
            forall|j: int|
                0 < j < i ==> text::bytes_lt(text::utf8(list[j - 1]), text::utf8(#[trigger] list[j])),
        decreases variants.len() - i,
    {
        assert(list[i as int] == variants@[i as int]@);
        if !is_text_within(variants[i].as_str(), 256) {
            return false;
        }
        if i > 0 {
            assert(list[i - 1] == variants@[i - 1]@);
            if !text_before(variants[i - 1].as_str(), variants[i].as_str()) {
                return false;
            }
        }
        i += 1;
    }
    true
}

fn valid_schema(s: &Schema, depth: usize, nodes: &mut usize) -> (r: Result<(), SchemaError>)
    requires
        *old(nodes) <= MAX_SCHEMA_NODES,
        depth <= MAX_DEPTH + 1,
    ensures
        (fault_of(r), *final(nodes) as nat) == schema_fault(s@, depth as nat, *old(nodes) as nat),
        r is Ok ==> *final(nodes) <= MAX_SCHEMA_NODES,
    decreases s,
{
    proof {
        lemma_fields_view(s.fields@);
    }
    if depth > MAX_DEPTH {
        return Err(SchemaError::new("schema depth limit"));
    }
    *nodes = *nodes + 1;
    if *nodes > MAX_SCHEMA_NODES {
        return Err(SchemaError::new("schema node limit"));
    }
    if !is_text_within(s.name.as_str(), 256) || s.version == 0 || s.fields.len() > 256 {
        return Err(SchemaError::new("invalid schema metadata"));
    }
    let ghost start = *nodes as nat;
    let ghost fields = s@.fields;
    let mut i: usize = 0;
    while i < s.fields.len()
        invariant
            i <= s.fields.len(),
            fields == s@.fields,
            fields == fields_view(s.fields@),
            fields.len() == s.fields@.len(),
            forall|j: int| 0 <= j < s.fields@.len() ==> #[trigger] fields[j] == field_view(s.fields@[j]),
            depth <= MAX_DEPTH,
            *nodes <= MAX_SCHEMA_NODES,
            fields_fault(fields, i as nat, depth as nat, start) == (None::<Seq<char>>, *nodes as nat),
            start <= MAX_SCHEMA_NODES,
            schema_fault(s@, depth as nat, *old(nodes) as nat) == fields_fault(
                fields,
                fields.len(),
                depth as nat,
                start,
            ),
        decreases s.fields.len() - i,
    {
        let field = &s.fields[i];
        assert(fields[i as int] == field_view(s.fields@[i as int]));
        proof {
            lemma_first_fault(fields, (i + 1) as nat, fields.len(), depth as nat, start);
        }
        if !is_text_within(field.name.as_str(), 128) {
            return Err(SchemaError::new("invalid field metadata"));
        }
        let mut j: usize = 0;
        while j < i
            invariant
                j <= i,
                i < s.fields.len(),
                fields == s@.fields,
                fields.len() == s.fields@.len(),
                forall|k: int|
                    0 <= k < s.fields@.len() ==> #[trigger] fields[k] == field_view(s.fields@[k]),
                field == &s.fields@[i as int],
                forall|k: int| 0 <= k < j ==> (#[trigger] fields[k]).name != fields[i as int].name,
            ensures
                j < i ==> fields[j as int].name == fields[i as int].name,
            decreases i - j,
        {
            assert(fields[j as int] == field_view(s.fields@[j as int]));
            if same_text(s.fields[j].name.as_str(), field.name.as_str()) {
                break;
            }
            j += 1;
        }
        if j < i {
            return Err(SchemaError::new("duplicate field name"));
        }
        match valid_type(&field.ty, depth + 1, nodes) {
            Ok(_) => {},
            Err(e) => return Err(e.at(field.name.as_str())),
        }
        i += 1;
    }
    Ok(())
}

proof fn lemma_first_fault(fields: Seq<FieldView>, a: nat, b: nat, depth: nat, nodes: nat)
    requires
        0 < a <= b <= fields.len(),
    ensures
        fields_fault(fields, a, depth, nodes).0 is Some ==> fields_fault(fields, b, depth, nodes)
            == fields_fault(fields, a, depth, nodes),
    decreases b - a,
{
    if a < b {
        lemma_first_fault(fields, a, (b - 1) as nat, depth, nodes);
    }
}

fn valid_type(ty: &FieldType, depth: usize, nodes: &mut usize) -> (r: Result<(), SchemaError>)
    requires
        *old(nodes) <= MAX_SCHEMA_NODES,
        depth <= MAX_DEPTH + 1,
    ensures
        (fault_of(r), *final(nodes) as nat) == type_fault(ty@, depth as nat, *old(nodes) as nat),
        r is Ok ==> *final(nodes) <= MAX_SCHEMA_NODES,
    decreases ty,
{
    match ty {
        FieldType::Record(schema) => {
            return valid_schema(schema, depth, nodes);
        },
        _ => {},
    }
    *nodes = *nodes + 1;
    if *nodes > MAX_SCHEMA_NODES {
        return Err(SchemaError::new("schema node limit 1024"));
    }
    if depth > MAX_DEPTH {
        return Err(SchemaError::new("schema depth limit"));
    }
    match ty {
        FieldType::Int { min, max } => if *min > *max {
            Err(SchemaError::new("invalid integer range"))
        } else {
            Ok(())
        },
        FieldType::UInt { min, max } => if *min > *max {
            Err(SchemaError::new("invalid unsigned range"))
        } else {
            Ok(())
        },
        FieldType::String { max_bytes } => if *max_bytes > MAX_EVENT_BYTES {
            Err(SchemaError::new("byte limit"))
        } else {
            Ok(())
        },
        FieldType::Bytes { max_bytes } => if *max_bytes > MAX_EVENT_BYTES {
            Err(SchemaError::new("byte limit"))
        } else {
            Ok(())
        },
        FieldType::Enum { name, variants } => {
            if !is_text_within(name.as_str(), 256) || !valid_variants(variants) {
                Err(SchemaError::new("enum limit"))
            } else {
                Ok(())
            }
        },
        FieldType::Optional(item) => valid_type(item, depth + 1, nodes),
        FieldType::Sequence { item, max_len } => if *max_len > 4096 {
            Err(SchemaError::new("sequence limit"))
        } else {
            valid_type(item, depth + 1, nodes)
        },
        _ => Ok(()),
    }
}

impl Schema {
    /// Whether the schema keeps every limit, or what it breaks first.
    pub fn validate(&self) -> (r: Result<(), SchemaError>)
        ensures
            fault_of(r) == schema_fault(self@, 0, 0).0,
            r is Ok <==> self@.valid(),
    {
        let mut nodes: usize = 0;
        valid_schema(self, 0, &mut nodes)
    }
}

impl Schema {
    /// A copy whose texts own no spare memory.
    pub fn normalized_clone(&self) -> (r: Self)
        ensures
            r@ == self@,
        decreases self,
    {
        proof {
            lemma_fields_view(self.fields@);
        }
        let mut fields: Vec<Field> = Vec::new();
        let mut i: usize = 0;
        while i < self.fields.len()
            invariant
                i <= self.fields.len(),
                fields.len() == i,
                fields_view(self.fields@).len() == self.fields@.len(),
                forall|j: int|
                    0 <= j < i ==> field_view(#[trigger] fields@[j]) == field_view(self.fields@[j]),
            decreases self.fields.len() - i,
        {
            let field = &self.fields[i];
            let copy = Field { name: field.name.as_str().to_owned(), ty: field.ty.normalized() };
            fields.push(copy);
            i += 1;
        }
        let r = Schema { name: self.name.as_str().to_owned(), version: self.version, fields };
        proof {
            lemma_fields_view(r.fields@);
            assert(r@.fields =~= self@.fields);
        }
        r
    }
}

impl Clone for Schema {
    fn clone(&self) -> (r: Self)
        ensures
            r@ == self@,
    {
        self.normalized_clone()
    }
}

impl FieldType {
    fn normalized(&self) -> (r: Self)
        ensures
            r@ == self@,
        decreases self,
    {
        match self {
            FieldType::Int { min, max } => FieldType::Int { min: *min, max: *max },
            FieldType::UInt { min, max } => FieldType::UInt { min: *min, max: *max },
            FieldType::Float { allow_non_finite } => FieldType::Float {
                allow_non_finite: *allow_non_finite,
            },
            FieldType::Bool => FieldType::Bool,
            FieldType::String { max_bytes } => FieldType::String { max_bytes: *max_bytes },
            FieldType::Bytes { max_bytes } => FieldType::Bytes { max_bytes: *max_bytes },
            FieldType::Enum { name, variants } => {
                let mut list: Vec<String> = Vec::new();
                let mut i: usize = 0;
                while i < variants.len()
                    invariant
                        i <= variants.len(),
                        list.len() == i,
                        forall|j: int| 0 <= j < i ==> (#[trigger] list@[j])@ == variants@[j]@,
                    decreases variants.len() - i,
                {
                    list.push(variants[i].as_str().to_owned());
                    i += 1;
                }
                assert(texts(list@) =~= texts(variants@));
                FieldType::Enum { name: name.as_str().to_owned(), variants: list }
            },
            FieldType::Optional(item) => FieldType::Optional(Box::new(item.normalized())),
            FieldType::Sequence { item, max_len } => FieldType::Sequence {
                item: Box::new(item.normalized()),
                max_len: *max_len,
            },
            FieldType::Record(schema) => FieldType::Record(Box::new(schema.normalized_clone())),
        }
    }

    fn same(&self, other: &FieldType) -> (r: bool)
        ensures
            r == (self@ == other@),
        decreases self,
    {
        match (self, other) {
            (FieldType::Int { min: a, max: b }, FieldType::Int { min: c, max: d }) => *a == *c
                && *b == *d,
            (FieldType::UInt { min: a, max: b }, FieldType::UInt { min: c, max: d }) => *a == *c
                && *b == *d,
            (
                FieldType::Float { allow_non_finite: a },
                FieldType::Float { allow_non_finite: b },
            ) => *a == *b,
            (FieldType::Bool, FieldType::Bool) => true,
            (FieldType::String { max_bytes: a }, FieldType::String { max_bytes: b }) => *a == *b,
            (FieldType::Bytes { max_bytes: a }, FieldType::Bytes { max_bytes: b }) => *a == *b,
            (
                FieldType::Enum { name: a, variants: x },
                FieldType::Enum { name: b, variants: y },
            ) => same_text(a.as_str(), b.as_str()) && same_texts(x, y),
            (FieldType::Optional(a), FieldType::Optional(b)) => a.same(b),
            (
                FieldType::Sequence { item: a, max_len: m },
                FieldType::Sequence { item: b, max_len: n },
            ) => *m == *n && a.same(b),
            (FieldType::Record(a), FieldType::Record(b)) => a.same(b),
            _ => false,
        }
    }
}

fn same_texts(x: &Vec<String>, y: &Vec<String>) -> (r: bool)
    ensures
        r == (texts(x@) == texts(y@)),
{
    if x.len() != y.len() {
        assert(texts(x@).len() != texts(y@).len());
        return false;
    }
    let mut i: usize = 0;
    while i < x.len()
        invariant
            i <= x.len(),
            x.len() == y.len(),
            forall|j: int| 0 <= j < i ==> (#[trigger] x@[j])@ == y@[j]@,
        decreases x.len() - i,
    {
        if !same_text(x[i].as_str(), y[i].as_str()) {
            assert(texts(x@)[i as int] != texts(y@)[i as int]);
            return false;
        }
        i += 1;
    }
    assert(texts(x@) =~= texts(y@));
    true
}

impl Schema {
    /// Whether two schemas have the same contents.
    pub fn same(&self, other: &Schema) -> (r: bool)
        ensures
            r == (self@ == other@),
        decreases self,
    {
        proof {
            lemma_fields_view(self.fields@);
            lemma_fields_view(other.fields@);
        }
        if !same_text(self.name.as_str(), other.name.as_str()) || self.version != other.version
            || self.fields.len() != other.fields.len() {
            return false;
        }
        let mut i: usize = 0;
        while i < self.fields.len()
            invariant
                i <= self.fields.len(),
                self.fields.len() == other.fields.len(),
                self@.fields.len() == self.fields@.len(),
                other@.fields.len() == other.fields@.len(),
                forall|j: int|
                    0 <= j < self.fields@.len() ==> #[trigger] self@.fields[j] == field_view(
                        self.fields@[j],
                    ),
                forall|j: int|
                    0 <= j < other.fields@.len() ==> #[trigger] other@.fields[j] == field_view(
                        other.fields@[j],
                    ),
                forall|j: int| 0 <= j < i ==> #[trigger] self@.fields[j] == other@.fields[j],
            decreases self.fields.len() - i,
        {
            let a = &self.fields[i];
            let b = &other.fields[i];
            assert(self@.fields[i as int] == field_view(self.fields@[i as int]));
            assert(other@.fields[i as int] == field_view(other.fields@[i as int]));
            if !same_text(a.name.as_str(), b.name.as_str()) || !a.ty.same(&b.ty) {
                return false;
            }
            i += 1;
        }
        assert(self@.fields =~= other@.fields);
        true
    }

    /// Whether two schemas have the same name and version.
    fn same_identity(&self, other: &Schema) -> (r: bool)
        ensures
            r == (self@.identity() == other@.identity()),
    {
        self.version == other.version && same_text(self.name.as_str(), other.name.as_str())
    }
}

impl SchemaView {
    pub open spec fn identity(self) -> (Seq<char>, u32) {
        (self.name, self.version)
    }
}

/// A schema and every schema nested in it.
pub open spec fn nested_schema(s: SchemaView) -> Seq<SchemaView>
    decreases s, 0nat,
{
    seq![s] + nested_fields(s.fields, s.fields.len())
}

pub open spec fn nested_fields(fields: Seq<FieldView>, count: nat) -> Seq<SchemaView>
    decreases fields, count,
{
    if count == 0 || count > fields.len() {
        Seq::empty()
    } else {
        nested_fields(fields, (count - 1) as nat) + nested_type(fields[count - 1].ty)
    }
}

pub open spec fn nested_type(ty: TypeView) -> Seq<SchemaView>
    decreases ty, 0nat,
{
    match ty {
        TypeView::Optional(item) => nested_type(*item),
        TypeView::Sequence { item, .. } => nested_type(*item),
        TypeView::Record(schema) => nested_schema(*schema),
        _ => Seq::empty(),
    }
}

pub open spec fn nested_all(list: Seq<SchemaView>) -> Seq<SchemaView>
    decreases list.len(),
{
    if list.len() == 0 {
        Seq::empty()
    } else {
        nested_all(list.drop_last()) + nested_schema(list.last())
    }
}

/// No two schemas share an identity and differ.
pub open spec fn compatible(list: Seq<SchemaView>) -> bool {
    forall|i: int, j: int|
        0 <= i < j < list.len() && (#[trigger] list[i]).identity() == (
        #[trigger] list[j]).identity() ==> list[i] == list[j]
}

proof fn lemma_compatible_prefix(a: Seq<SchemaView>, b: Seq<SchemaView>)
    requires
        compatible(a + b),
    ensures
        compatible(a),
{
    assert forall|i: int, j: int|
        0 <= i < j < a.len() && (#[trigger] a[i]).identity() == (
        #[trigger] a[j]).identity() implies a[i] == a[j] by {
        assert((a + b)[i] == a[i]);
        assert((a + b)[j] == a[j]);
    }
}

pub open spec fn views(list: Seq<&Schema>) -> Seq<SchemaView> {
    list.map_values(|s: &Schema| s@)
}

/// Gathers a schema with all that is nested in it; whether none of them shares
/// an identity with a different one.
fn collect<'a>(s: &'a Schema, seen: &mut Vec<&'a Schema>) -> (ok: bool)
    requires
        compatible(views(old(seen)@)),
    ensures
        ok ==> views(final(seen)@) == views(old(seen)@) + nested_schema(s@) && compatible(
            views(final(seen)@),
        ),
        !ok ==> !compatible(views(old(seen)@) + nested_schema(s@)),
    decreases s,
{
    let ghost before = views(seen@);
    let ghost rest = nested_fields(s@.fields, s@.fields.len());
    proof {
        lemma_fields_view(s.fields@);
        assert(before + (seq![s@] + rest) =~= (before + seq![s@]) + rest);
    }
    let mut i: usize = 0;
    while i < seen.len()
        invariant
            i <= seen.len(),
            before == views(seen@),
            forall|j: int|
                0 <= j < i && (#[trigger] before[j]).identity() == s@.identity() ==> before[j] == s@,
            nested_schema(s@) == seq![s@] + rest,
            before + (seq![s@] + rest) == (before + seq![s@]) + rest,
        decreases seen.len() - i,
    {
        let other = seen[i];
        assert(before[i as int] == other@);
        if other.same_identity(s) && !other.same(s) {
            proof {
                let all = before + nested_schema(s@);
                assert(all[i as int] == other@);
                assert(all[before.len() as int] == s@);
            }
            return false;
        }
        i += 1;
    }
    seen.push(s);
    proof {
        assert(views(seen@) =~= before + seq![s@]);
        assert(compatible(views(seen@))) by {
            let now = views(seen@);
            assert forall|i: int, j: int|
                0 <= i < j < now.len() && (#[trigger] now[i]).identity() == (
                #[trigger] now[j]).identity() implies now[i] == now[j] by {
                assert(now[i] == before[i]);
                if j < before.len() {
                    assert(now[j] == before[j]);
                }
            }
        }
        assert(views(seen@) + nested_fields(s@.fields, 0) =~= views(seen@));
    }
    let ghost mid = views(seen@);
    let mut k: usize = 0;
    while k < s.fields.len()
        invariant
            k <= s.fields.len(),
            s@.fields.len() == s.fields@.len(),
            forall|j: int|
                0 <= j < s.fields@.len() ==> #[trigger] s@.fields[j] == field_view(s.fields@[j]),
            compatible(views(seen@)),
            before == views(old(seen)@),
            mid == before + seq![s@],
            views(seen@) == mid + nested_fields(s@.fields, k as nat),
            rest == nested_fields(s@.fields, s@.fields.len()),
            nested_schema(s@) == seq![s@] + rest,
            before + (seq![s@] + rest) == (before + seq![s@]) + rest,
        decreases s.fields.len() - k,
    {
        assert(s@.fields[k as int] == field_view(s.fields@[k as int]));
        let ghost prior = views(seen@);
        let ghost more = nested_type(s@.fields[k as int].ty);
        proof {
            assert(prior + more =~= mid + nested_fields(s@.fields, (k + 1) as nat));
        }
        if !collect_type(&s.fields[k].ty, seen) {
            proof {
                let tail = lemma_nested_grows(s@.fields, (k + 1) as nat, s@.fields.len());
                if compatible(before + nested_schema(s@)) {
                    assert(mid + (nested_fields(s@.fields, (k + 1) as nat) + tail) =~= (mid
                        + nested_fields(s@.fields, (k + 1) as nat)) + tail);
                    lemma_compatible_prefix(mid + nested_fields(s@.fields, (k + 1) as nat), tail);
                }
            }
            return false;
        }
        k += 1;
    }
    true
}

proof fn lemma_nested_grows(fields: Seq<FieldView>, a: nat, b: nat) -> (tail: Seq<SchemaView>)
    requires
        a <= b <= fields.len(),
    ensures
        nested_fields(fields, b) == nested_fields(fields, a) + tail,
    decreases b - a,
{
    if a == b {
        assert(nested_fields(fields, b) =~= nested_fields(fields, a) + Seq::<SchemaView>::empty());
        Seq::empty()
    } else {
        let tail = lemma_nested_grows(fields, a, (b - 1) as nat);
        let more = nested_type(fields[b - 1].ty);
        assert(nested_fields(fields, b) =~= nested_fields(fields, a) + (tail + more));
        tail + more
    }
}

fn collect_type<'a>(ty: &'a FieldType, seen: &mut Vec<&'a Schema>) -> (ok: bool)
    requires
        compatible(views(old(seen)@)),
    ensures
        ok ==> views(final(seen)@) == views(old(seen)@) + nested_type(ty@) && compatible(
            views(final(seen)@),
        ),
        !ok ==> !compatible(views(old(seen)@) + nested_type(ty@)),
    decreases ty,
{
    match ty {
        FieldType::Optional(item) => collect_type(item, seen),
        FieldType::Sequence { item, max_len: _ } => collect_type(item, seen),
        FieldType::Record(schema) => collect(schema, seen),
        _ => {
            assert(views(seen@) + nested_type(ty@) =~= views(seen@));
            true
        },
    }
}

/// Gathers several schemas.
fn collect_all<'a>(list: &'a Vec<Schema>, seen: &mut Vec<&'a Schema>) -> (ok: bool)
    requires
        compatible(views(old(seen)@)),
    ensures
        ok ==> views(final(seen)@) == views(old(seen)@) + nested_all(schemas_view(list@))
            && compatible(views(final(seen)@)),
        !ok ==> !compatible(views(old(seen)@) + nested_all(schemas_view(list@))),
{
    let ghost before = views(seen@);
    let ghost all = schemas_view(list@);
    let mut i: usize = 0;
    proof {
        assert(all.take(0) =~= Seq::<SchemaView>::empty());
        assert(before + nested_all(all.take(0)) =~= before);
    }
    while i < list.len()
        invariant
            i <= list.len(),
            all == schemas_view(list@),
            compatible(views(seen@)),
            before == views(old(seen)@),
            views(seen@) == before + nested_all(all.take(i as int)),
        decreases list.len() - i,
    {
        let ghost prior = views(seen@);
        proof {
            assert(all.take(i + 1).drop_last() =~= all.take(i as int));
            assert(all.take(i + 1).last() == list@[i as int]@);
            assert(prior + nested_schema(list@[i as int]@) =~= before + nested_all(all.take(i + 1)));
        }
        if !collect(&list[i], seen) {
            proof {
                let tail = lemma_nested_all_grows(all, i + 1);
                assert(before + nested_all(all) =~= (before + nested_all(all.take(i + 1))) + tail);
                if compatible(before + nested_all(all)) {
                    lemma_compatible_prefix(before + nested_all(all.take(i + 1)), tail);
                }
            }
            return false;
        }
        i += 1;
    }
    assert(all.take(i as int) =~= all);
    true
}

proof fn lemma_nested_all_grows(all: Seq<SchemaView>, n: int) -> (tail: Seq<SchemaView>)
    requires
        0 <= n <= all.len(),
    ensures
        nested_all(all) == nested_all(all.take(n)) + tail,
    decreases all.len() - n,
{
    if n == all.len() {
        assert(all.take(n) =~= all);
        assert(nested_all(all) =~= nested_all(all.take(n)) + Seq::<SchemaView>::empty());
        Seq::empty()
    } else {
        let rest = all.drop_last();
        let tail = lemma_nested_all_grows(rest, n);
        assert(rest.take(n) =~= all.take(n));
        let more = nested_schema(all.last());
        assert(nested_all(all) =~= nested_all(all.take(n)) + (tail + more));
        tail + more
    }
}

pub open spec fn schemas_view(list: Seq<Schema>) -> Seq<SchemaView> {
    list.map_values(|s: Schema| s@)
}

/// Numbered schemas: the first has number 1.
#[verifier::ext_equal]
pub struct RegistryView {
    pub max: usize,
    pub items: Seq<SchemaView>,
}

/// The position of the schema with an identity.
pub open spec fn position_of(items: Seq<SchemaView>, identity: (Seq<char>, u32)) -> Option<int>
    decreases items.len(),
{
    if items.len() == 0 {
        None
    } else if position_of(items.drop_last(), identity) is Some {
        position_of(items.drop_last(), identity)
    } else if items.last().identity() == identity {
        Some(items.len() - 1)
    } else {
        None
    }
}

/// What becomes of the items when schemas are added one by one: the items and
/// the numbers given out, or what went wrong.
pub open spec fn added(items: Seq<SchemaView>, batch: Seq<SchemaView>, max: usize) -> Result<
    (Seq<SchemaView>, Seq<u32>),
    Seq<char>,
>
    decreases batch.len(),
{
    if batch.len() == 0 {
        Ok((items, Seq::empty()))
    } else {
        match added(items, batch.drop_last(), max) {
            Err(message) => Err(message),
            Ok((staged, ids)) => {
                let s = batch.last();
                match position_of(staged, s.identity()) {
                    Some(i) => if staged[i] == s {
                        Ok((staged, ids.push((i + 1) as u32)))
                    } else {
                        Err(clip("schema identity collision"@))
                    },
                    None => if staged.len() >= max {
                        Err(clip("schema registry limit"@))
                    } else {
                        Ok((staged.push(s), ids.push((staged.len() + 1) as u32)))
                    },
                }
            },
        }
    }
}

/// The first fault among schemas.
pub open spec fn first_fault(batch: Seq<SchemaView>) -> Option<Seq<char>>
    decreases batch.len(),
{
    if batch.len() == 0 {
        None
    } else if first_fault(batch.drop_last()) is Some {
        first_fault(batch.drop_last())
    } else {
        schema_fault(batch.last(), 0, 0).0
    }
}

/// No two of some schemas have the same identity.
pub open spec fn one_number_each(items: Seq<SchemaView>) -> bool {
    forall|i: int, j: int|
        0 <= i < j < items.len() ==> (#[trigger] items[i]).identity() != (
        #[trigger] items[j]).identity()
}

impl RegistryView {
    /// The answer to a registration: the new items and the numbers, or what
    /// is wrong with the batch.
    pub open spec fn registering(self, batch: Seq<SchemaView>) -> Result<
        (Seq<SchemaView>, Seq<u32>),
        Seq<char>,
    > {
        if batch.len() > self.max {
            Err(clip("schema registration batch exceeds limit"@))
        } else if first_fault(batch) is Some {
            Err(first_fault(batch)->0)
        } else if !compatible(nested_all(batch) + nested_all(self.items)) {
            Err(clip("nested schema identity collision"@))
        } else {
            added(self.items, batch, self.max)
        }
    }

    /// After a registration: a refused batch leaves nothing behind.
    pub open spec fn registered(self, batch: Seq<SchemaView>) -> RegistryView {
        match self.registering(batch) {
            Ok((items, _)) => RegistryView { items, ..self },
            Err(_) => self,
        }
    }

    pub open spec fn has(self, id: u32) -> bool {
        1 <= id <= self.items.len()
    }

    /// What every registry keeps: its schemas are valid, each identity has one
    /// number, and no identity, nested ones among them, has two definitions.
    #[verifier::opaque]
    pub open spec fn sound(self) -> bool {
        &&& 0 < self.max <= 65536
        &&& self.items.len() <= self.max
        &&& forall|i: int| 0 <= i < self.items.len() ==> (#[trigger] self.items[i]).valid()
        &&& one_number_each(self.items)
        &&& compatible(nested_all(self.items))
    }

    pub open spec fn get(self, id: u32) -> SchemaView {
        self.items[id - 1]
    }
}

pub open spec fn arcs_view(list: Seq<Arc<Schema>>) -> Seq<SchemaView> {
    list.map_values(|s: Arc<Schema>| s@)
}

/// The schemas of a World, numbered in the order of their registration.
pub struct SchemaRegistry {
    max: usize,
    items: Vec<Arc<Schema>>,
}

impl View for SchemaRegistry {
    type V = RegistryView;

    closed spec fn view(&self) -> RegistryView {
        RegistryView { max: self.max, items: arcs_view(self.items@) }
    }
}

proof fn lemma_position(items: Seq<SchemaView>, identity: (Seq<char>, u32), at: int)
    requires
        0 <= at <= items.len(),
        forall|i: int| 0 <= i < at ==> (#[trigger] items[i]).identity() != identity,
        at < items.len() ==> items[at].identity() == identity,
    ensures
        position_of(items, identity) == (if at < items.len() {
            Some(at)
        } else {
            None
        }),
    decreases items.len(),
{
    if items.len() > 0 {
        let rest = items.drop_last();
        if at < items.len() - 1 {
            lemma_position(rest, identity, at);
        } else {
            lemma_position(rest, identity, rest.len() as int);
        }
    }
}

proof fn lemma_added_err(items: Seq<SchemaView>, batch: Seq<SchemaView>, n: int, max: usize)
    requires
        0 <= n <= batch.len(),
        added(items, batch.take(n), max) is Err,
    ensures
        added(items, batch, max) == added(items, batch.take(n), max),
    decreases batch.len() - n,
{
    if n == batch.len() {
        assert(batch.take(n) =~= batch);
    } else {
        assert(batch.drop_last().take(n) =~= batch.take(n));
        lemma_added_err(items, batch.drop_last(), n, max);
    }
}

proof fn lemma_first_fault_of(batch: Seq<SchemaView>, n: int)
    requires
        0 <= n < batch.len(),
        first_fault(batch.take(n)) is None,
        schema_fault(batch[n], 0, 0).0 is Some,
    ensures
        first_fault(batch) == schema_fault(batch[n], 0, 0).0,
    decreases batch.len() - n,
{
    if n == batch.len() - 1 {
        assert(batch.take(n) =~= batch.drop_last());
    } else {
        assert(batch.drop_last().take(n) =~= batch.take(n));
        lemma_first_fault_of(batch.drop_last(), n);
    }
}

impl SchemaRegistry {
    pub closed spec fn wf(self) -> bool {
        0 < self.max <= 65536 && self.items@.len() <= self.max && self@.sound()
    }

    pub proof fn lemma_sound(self)
        requires
            self.wf(),
        ensures
            self@.sound(),
    {
    }

    pub fn new(max: usize) -> (r: Result<Self, SchemaError>)
        ensures
            r is Ok <==> 0 < max <= 65536,
            r matches Ok(registry) ==> registry.wf() && registry@ == (RegistryView {
                max,
                items: Seq::empty(),
            }),
            r matches Err(e) ==> e@ == clip("schema registry limit"@),
    {
        if max == 0 || max > 65536 {
            return Err(SchemaError::new("schema registry limit"));
        }
        let r = SchemaRegistry { max, items: Vec::new() };
        proof {
            assert(r@.items =~= Seq::empty());
            reveal(RegistryView::sound);
        }
        Ok(r)
    }

    pub fn len(&self) -> (r: usize)
        ensures
            r == self@.items.len(),
    {
        self.items.len()
    }

    pub fn is_empty(&self) -> (r: bool)
        ensures
            r == (self@.items.len() == 0),
    {
        self.items.len() == 0
    }

    /// The schema with a number.
    pub fn schema(&self, id: u32) -> (r: Result<Arc<Schema>, SchemaError>)
        ensures
            r is Ok <==> self@.has(id),
            r matches Ok(schema) ==> schema@ == self@.get(id),
            r matches Err(e) ==> e@ == clip("unknown schema"@),
    {
        if id >= 1 && (id as usize) <= self.items.len() {
            Ok(self.items[id as usize - 1].clone())
        } else {
            Err(SchemaError::new("unknown schema"))
        }
    }

    pub fn register(&mut self, s: Schema) -> (r: Result<u32, SchemaError>)
        requires
            old(self).wf(),
        ensures
            final(self).wf(),
            final(self)@ == old(self)@.registered(seq![s@]),
            match r {
                Ok(id) => old(self)@.registering(seq![s@]) matches Ok((_, ids)) && ids == seq![id],
                Err(e) => old(self)@.registering(seq![s@]) == Err::<
                    (Seq<SchemaView>, Seq<u32>),
                    Seq<char>,
                >(e@),
            },
    {
        let ghost view = s@;
        let mut batch: Vec<Schema> = Vec::new();
        batch.push(s);
        assert(schemas_view(batch@) =~= seq![view]);
        match self.register_batch(batch) {
            Ok(ids) => {
                proof {
                    lemma_added_len(old(self)@.items, seq![view], old(self)@.max);
                    assert(ids@ =~= seq![ids@[0]]);
                }
                Ok(ids[0])
            },
            Err(e) => Err(e),
        }
    }

    /// Registers all schemas of a batch, or none of them.
    pub fn register_batch(&mut self, schemas: Vec<Schema>) -> (r: Result<Vec<u32>, SchemaError>)
        requires
            old(self).wf(),
        ensures
            final(self).wf(),
            final(self)@ == old(self)@.registered(schemas_view(schemas@)),
            match r {
                Ok(ids) => old(self)@.registering(schemas_view(schemas@)) matches Ok((_, told))
                    && told == ids@,
                Err(e) => old(self)@.registering(schemas_view(schemas@)) == Err::<
                    (Seq<SchemaView>, Seq<u32>),
                    Seq<char>,
                >(e@),
            },
    {
        let ghost batch = schemas_view(schemas@);
        if schemas.len() > self.max {
            return Err(SchemaError::new("schema registration batch exceeds limit"));
        }
        let mut i: usize = 0;
        assert(batch.take(0) =~= Seq::<SchemaView>::empty());
        while i < schemas.len()
            invariant
                i <= schemas.len(),
                schemas.len() <= self.max,
                *self == *old(self),
                self.wf(),
                batch == schemas_view(schemas@),
                first_fault(batch.take(i as int)) is None,
            decreases schemas.len() - i,
        {
            assert(batch.take(i + 1).drop_last() =~= batch.take(i as int));
            assert(batch[i as int] == schemas@[i as int]@);
            match schemas[i].validate() {
                Ok(_) => {},
                Err(e) => {
                    proof {
                        lemma_first_fault_of(batch, i as int);
                    }
                    return Err(e);
                },
            }
            i += 1;
        }
        assert(batch.take(i as int) =~= batch);
        let clash: bool;
        {
            let mut seen: Vec<&Schema> = Vec::new();
            assert(views(seen@) =~= Seq::<SchemaView>::empty());
            clash = !collect_all(&schemas, &mut seen) || !self.collect_items(&mut seen);
            proof {
                assert(Seq::<SchemaView>::empty() + nested_all(batch) =~= nested_all(batch));
                if !compatible(nested_all(batch)) {
                    if compatible(nested_all(batch) + nested_all(self@.items)) {
                        lemma_compatible_prefix(nested_all(batch), nested_all(self@.items));
                    }
                }
            }
        }
        if clash {
            return Err(SchemaError::new("nested schema identity collision"));
        }
        proof {
            lemma_registered_sound(self@, batch);
        }
        self.add_all(schemas)
    }

    /// Gathers the registered schemas.
    fn collect_items<'a>(&'a self, seen: &mut Vec<&'a Schema>) -> (ok: bool)
        requires
            compatible(views(old(seen)@)),
        ensures
            ok == compatible(views(old(seen)@) + nested_all(self@.items)),
    {
        let ghost before = views(seen@);
        let ghost all = self@.items;
        let mut i: usize = 0;
        proof {
            assert(all.take(0) =~= Seq::<SchemaView>::empty());
            assert(before + nested_all(all.take(0)) =~= before);
        }
        while i < self.items.len()
            invariant
                i <= self.items.len(),
                all == arcs_view(self.items@),
                all == self@.items,
                compatible(views(seen@)),
                before == views(old(seen)@),
                views(seen@) == before + nested_all(all.take(i as int)),
            decreases self.items.len() - i,
        {
            let ghost prior = views(seen@);
            proof {
                assert(all.take(i + 1).drop_last() =~= all.take(i as int));
                assert(all.take(i + 1).last() == self.items@[i as int]@);
                assert(prior + nested_schema(self.items@[i as int]@) =~= before + nested_all(
                    all.take(i + 1),
                ));
            }
            let item: &Schema = &*self.items[i];
            if !collect(item, seen) {
                proof {
                    let tail = lemma_nested_all_grows(all, i + 1);
                    assert(before + nested_all(all) =~= (before + nested_all(all.take(i + 1)))
                        + tail);
                    if compatible(before + nested_all(all)) {
                        lemma_compatible_prefix(before + nested_all(all.take(i + 1)), tail);
                    }
                }
                return false;
            }
            i += 1;
        }
        assert(all.take(i as int) =~= all);
        true
    }

    fn add_all(&mut self, schemas: Vec<Schema>) -> (r: Result<Vec<u32>, SchemaError>)
        requires
            old(self).wf(),
            added(old(self)@.items, schemas_view(schemas@), old(self)@.max) matches Ok((items, _))
                ==> (RegistryView { items, ..old(self)@ }).sound(),
        ensures
            final(self).wf(),
            final(self)@.max == old(self)@.max,
            match r {
                Ok(ids) => added(old(self)@.items, schemas_view(schemas@), old(self)@.max) == Ok::<
                    (Seq<SchemaView>, Seq<u32>),
                    Seq<char>,
                >((final(self)@.items, ids@)),
                Err(e) => added(old(self)@.items, schemas_view(schemas@), old(self)@.max) == Err::<
                    (Seq<SchemaView>, Seq<u32>),
                    Seq<char>,
                >(e@) && final(self)@ == old(self)@,
            },
    {
        let ghost batch = schemas_view(schemas@);
        let ghost items = self@.items;
        let mut fresh: Vec<Arc<Schema>> = Vec::new();
        let mut ids: Vec<u32> = Vec::new();
        let mut i: usize = 0;
        proof {
            assert(batch.take(0) =~= Seq::<SchemaView>::empty());
            assert(items + arcs_view(fresh@) =~= items);
        }
        while i < schemas.len()
            invariant
                i <= schemas.len(),
                *self == *old(self),
                self.wf(),
                items == self@.items,
                self.items@.len() + fresh@.len() <= self.max,
                batch == schemas_view(schemas@),
                added(items, batch.take(i as int), self.max) == Ok::<
                    (Seq<SchemaView>, Seq<u32>),
                    Seq<char>,
                >((items + arcs_view(fresh@), ids@)),
            decreases schemas.len() - i,
        {
            let s = &schemas[i];
            let ghost staged = items + arcs_view(fresh@);
            proof {
                assert(batch.take(i + 1).drop_last() =~= batch.take(i as int));
                assert(batch.take(i + 1).last() == s@);
            }
            let at = self.find(&fresh, s);
            if at < self.items.len() + fresh.len() {
                let same: bool = if at < self.items.len() {
                    self.items[at].same(s)
                } else {
                    fresh[at - self.items.len()].same(s)
                };
                if !same {
                    proof {
                        lemma_added_err(items, batch, i + 1, self.max);
                    }
                    return Err(SchemaError::new("schema identity collision"));
                }
                ids.push(at as u32 + 1);
            } else {
                if self.items.len() + fresh.len() >= self.max {
                    proof {
                        lemma_added_err(items, batch, i + 1, self.max);
                    }
                    return Err(SchemaError::new("schema registry limit"));
                }
                let copy = s.normalized_clone();
                fresh.push(Arc::new(copy));
                ids.push(at as u32 + 1);
                assert(items + arcs_view(fresh@) =~= staged.push(s@));
            }
            i += 1;
        }
        let ghost staged = items + arcs_view(fresh@);
        self.items.append(&mut fresh);
        proof {
            assert(self@.items =~= staged);
            assert(batch.take(i as int) =~= batch);
            assert(self@ == RegistryView { items: staged, ..old(self)@ });
        }
        Ok(ids)
    }

    /// The position of a schema's identity among the items and the fresh ones.
    fn find(&self, fresh: &Vec<Arc<Schema>>, s: &Schema) -> (at: usize)
        requires
            self.items@.len() + fresh@.len() <= usize::MAX,
        ensures
            at <= self.items@.len() + fresh@.len(),
            position_of(self@.items + arcs_view(fresh@), s@.identity()) == (if at
                < self.items@.len() + fresh@.len() {
                Some(at as int)
            } else {
                None
            }),
    {
        let ghost all = self@.items + arcs_view(fresh@);
        let count = self.items.len() + fresh.len();
        let mut i: usize = 0;
        while i < count
            invariant
                i <= count,
                count == self.items@.len() + fresh@.len(),
                all == self@.items + arcs_view(fresh@),
                all.len() == count,
                forall|j: int| 0 <= j < i ==> (#[trigger] all[j]).identity() != s@.identity(),
            ensures
                i < count ==> all[i as int].identity() == s@.identity(),
            decreases count - i,
        {
            let other: &Schema = if i < self.items.len() {
                &*self.items[i]
            } else {
                &*fresh[i - self.items.len()]
            };
            assert(all[i as int] == other@);
            if other.same_identity(s) {
                break;
            }
            i += 1;
        }
        proof {
            lemma_position(all, s@.identity(), i as int);
        }
        i
    }
}

/// What a batch adds: its schemas, each under the number that it is told.
proof fn lemma_added(items: Seq<SchemaView>, batch: Seq<SchemaView>, max: usize)
    requires
        items.len() <= max <= 65536,
        one_number_each(items),
        added(items, batch, max) is Ok,
    ensures
        ({
            let (staged, ids) = added(items, batch, max)->Ok_0;
            &&& items.len() <= staged.len() <= max
            &&& staged.take(items.len() as int) == items
            &&& one_number_each(staged)
            &&& ids.len() == batch.len()
            &&& forall|k: int|
                0 <= k < batch.len() ==> 1 <= #[trigger] ids[k] <= staged.len() && staged[ids[k] - 1]
                    == batch[k]
            &&& forall|j: int|
                items.len() <= j < staged.len() ==> batch.contains(#[trigger] staged[j])
        }),
    decreases batch.len(),
{
    if batch.len() == 0 {
        assert(items.take(items.len() as int) =~= items);
    } else {
        let rest = batch.drop_last();
        let s = batch.last();
        lemma_added(items, rest, max);
        let (before, told) = added(items, rest, max)->Ok_0;
        let (staged, ids) = added(items, batch, max)->Ok_0;
        lemma_found(before, s.identity());
        assert(staged.take(items.len() as int) =~= before.take(items.len() as int));
        assert forall|k: int| 0 <= k < batch.len() implies 1 <= #[trigger] ids[k] <= staged.len()
            && staged[ids[k] - 1] == batch[k] by {
            if k < rest.len() {
                assert(ids[k] == told[k]);
                assert(rest[k] == batch[k]);
            }
        }
        assert forall|j: int| items.len() <= j < staged.len() implies batch.contains(
            #[trigger] staged[j],
        ) by {
            if j < before.len() {
                assert(rest.contains(before[j]));
                let k = rest.index_of(before[j]);
                assert(batch[k] == before[j]);
            } else {
                assert(batch[batch.len() - 1] == s);
            }
        }
    }
}

/// Where an identity is found, it is; where it is not, nobody has it.
proof fn lemma_found(items: Seq<SchemaView>, identity: (Seq<char>, u32))
    ensures
        match position_of(items, identity) {
            Some(i) => 0 <= i < items.len() && items[i].identity() == identity,
            None => forall|i: int| 0 <= i < items.len() ==> (#[trigger] items[i]).identity() != identity,
        },
    decreases items.len(),
{
    if items.len() > 0 {
        let rest = items.drop_last();
        lemma_found(rest, identity);
        assert forall|i: int| 0 <= i < rest.len() implies rest[i] == #[trigger] items[i] by {}
    }
}

/// What is nested in some schemas is nested in one of them.
proof fn lemma_nested_in(list: Seq<SchemaView>, x: SchemaView)
    ensures
        nested_all(list).contains(x) <==> exists|i: int|
            0 <= i < list.len() && (#[trigger] nested_schema(list[i])).contains(x),
    decreases list.len(),
{
    if list.len() > 0 {
        let rest = list.drop_last();
        let last = list[list.len() - 1];
        lemma_nested_in(rest, x);
        let a = nested_all(rest);
        let b = nested_schema(last);
        assert(nested_all(list) == a + b);
        if nested_all(list).contains(x) {
            let k = nested_all(list).index_of(x);
            if k < a.len() {
                assert(a[k] == x);
                let i = choose|i: int|
                    0 <= i < rest.len() && (#[trigger] nested_schema(rest[i])).contains(x);
                assert(nested_schema(list[i]).contains(x));
            } else {
                assert(b[k - a.len()] == x);
                assert(nested_schema(list[list.len() - 1]).contains(x));
            }
        }
        if exists|i: int| 0 <= i < list.len() && (#[trigger] nested_schema(list[i])).contains(x) {
            let i = choose|i: int|
                0 <= i < list.len() && (#[trigger] nested_schema(list[i])).contains(x);
            if i < rest.len() {
                assert(nested_schema(rest[i]).contains(x));
                assert((a + b)[a.index_of(x)] == x);
            } else {
                assert((a + b)[a.len() + b.index_of(x)] == x);
            }
        }
    }
}

proof fn lemma_faultless(batch: Seq<SchemaView>)
    requires
        first_fault(batch) is None,
    ensures
        forall|k: int| 0 <= k < batch.len() ==> (#[trigger] batch[k]).valid(),
    decreases batch.len(),
{
    if batch.len() > 0 {
        lemma_faultless(batch.drop_last());
        assert forall|k: int| 0 <= k < batch.len() implies (#[trigger] batch[k]).valid() by {
            if k < batch.len() - 1 {
                assert(batch.drop_last()[k] == batch[k]);
            }
        }
    }
}

/// Two of some compatible schemas that share an identity are the same.
proof fn lemma_compatible(list: Seq<SchemaView>, a: SchemaView, b: SchemaView)
    requires
        compatible(list),
        list.contains(a),
        list.contains(b),
        a.identity() == b.identity(),
    ensures
        a == b,
{
    let i = list.index_of(a);
    let j = list.index_of(b);
    if i < j {
        assert(list[i] == list[j]);
    } else if j < i {
        assert(list[j] == list[i]);
    }
}

/// A registration keeps what every registry keeps.
proof fn lemma_registered_sound(registry: RegistryView, batch: Seq<SchemaView>)
    requires
        registry.sound(),
    ensures
        registry.registered(batch).sound(),
{
    reveal(RegistryView::sound);
    if registry.registering(batch) is Ok {
        let items = registry.items;
        lemma_added(items, batch, registry.max);
        lemma_faultless(batch);
        let staged = registry.registered(batch).items;
        assert forall|i: int| 0 <= i < staged.len() implies (#[trigger] staged[i]).valid() by {
            if i < items.len() {
                assert(staged.take(items.len() as int)[i] == items[i]);
            } else {
                let k = batch.index_of(staged[i]);
                assert(batch[k].valid());
            }
        }
        let all = nested_all(batch) + nested_all(items);
        let now = nested_all(staged);
        assert forall|x: SchemaView| #[trigger] now.contains(x) implies all.contains(x) by {
            lemma_nested_in(staged, x);
            lemma_nested_in(batch, x);
            lemma_nested_in(items, x);
            let i = choose|i: int|
                0 <= i < staged.len() && (#[trigger] nested_schema(staged[i])).contains(x);
            if i < items.len() {
                assert(staged.take(items.len() as int)[i] == items[i]);
                assert(nested_schema(items[i]).contains(x));
                let k = nested_all(items).index_of(x);
                assert(all[nested_all(batch).len() + k] == x);
            } else {
                let k = batch.index_of(staged[i]);
                assert(nested_schema(batch[k]).contains(x));
                let j = nested_all(batch).index_of(x);
                assert(all[j] == x);
            }
        }
        assert forall|i: int, j: int|
            0 <= i < j < now.len() && (#[trigger] now[i]).identity() == (
            #[trigger] now[j]).identity() implies now[i] == now[j] by {
            assert(now.contains(now[i]) && now.contains(now[j]));
            lemma_compatible(all, now[i], now[j]);
        }
    }
}

proof fn lemma_added_len(items: Seq<SchemaView>, batch: Seq<SchemaView>, max: usize)
    ensures
        added(items, batch, max) matches Ok((staged, ids)) ==> ids.len() == batch.len()
            && staged.len() >= items.len() && forall|i: int|
            0 <= i < items.len() ==> #[trigger] staged[i] == items[i],
    decreases batch.len(),
{
    if batch.len() > 0 {
        lemma_added_len(items, batch.drop_last(), max);
    }
}

/// Registration is all or nothing, and never renumbers what is registered.
pub proof fn registration_is_atomic(registry: RegistryView, batch: Seq<SchemaView>, id: u32)
    requires
        registry.has(id),
    ensures
        registry.registering(batch) is Err ==> registry.registered(batch) == registry,
        registry.registered(batch).has(id),
        registry.registered(batch).get(id) == registry.get(id),
{
    lemma_added_len(registry.items, batch, registry.max);
}

/// The numbers that a batch is told name its schemas: a schema that is there
/// keeps its number, and new ones follow the last number in the order of the
/// batch.
pub proof fn numbers_name_their_schemas(registry: RegistryView, batch: Seq<SchemaView>)
    requires
        registry.sound(),
        registry.registering(batch) is Ok,
    ensures
        ({
            let n = registry.registered(batch);
            let ids = registry.registering(batch)->Ok_0.1;
            &&& ids.len() == batch.len()
            &&& forall|k: int|
                0 <= k < batch.len() ==> n.has(#[trigger] ids[k]) && n.get(ids[k]) == batch[k]
            &&& forall|j: int|
                registry.items.len() <= j < n.items.len() ==> batch.contains(#[trigger] n.items[j])
            &&& forall|k: int|
                0 <= k < batch.len() ==> #[trigger] ids[k] <= numbered(registry, batch, k) + 1
            &&& n.items.len() <= n.max
        }),
{
    reveal(RegistryView::sound);
    lemma_added(registry.items, batch, registry.max);
    let ids = registry.registering(batch)->Ok_0.1;
    assert forall|k: int| 0 <= k < batch.len() implies #[trigger] ids[k] <= numbered(
        registry,
        batch,
        k,
    ) + 1 by {
        lemma_number_follows(registry, batch, k);
    }
}

/// How many numbers are given out before a schema of a batch is looked at.
pub open spec fn numbered(registry: RegistryView, batch: Seq<SchemaView>, k: int) -> nat {
    match added(registry.items, batch.take(k), registry.max) {
        Ok((items, _)) => items.len(),
        Err(_) => 0,
    }
}

proof fn lemma_number_follows(registry: RegistryView, batch: Seq<SchemaView>, k: int)
    requires
        registry.items.len() <= registry.max <= 65536,
        one_number_each(registry.items),
        added(registry.items, batch, registry.max) is Ok,
        0 <= k < batch.len(),
    ensures
        added(registry.items, batch, registry.max)->Ok_0.1[k] <= numbered(registry, batch, k) + 1,
    decreases batch.len(),
{
    let rest = batch.drop_last();
    lemma_added(registry.items, rest, registry.max);
    if k < rest.len() {
        assert(rest.take(k) =~= batch.take(k));
        lemma_number_follows(registry, rest, k);
    } else {
        assert(batch.take(k) =~= rest);
        lemma_found(added(registry.items, rest, registry.max)->Ok_0.0, batch.last().identity());
    }
}

/// No identity, nested ones among them, ever has two definitions.
pub proof fn an_identity_has_one_definition(registry: RegistryView, a: SchemaView, b: SchemaView)
    requires
        registry.sound(),
        nested_all(registry.items).contains(a),
        nested_all(registry.items).contains(b),
        a.identity() == b.identity(),
    ensures
        a == b,
{
    reveal(RegistryView::sound);
    lemma_compatible(nested_all(registry.items), a, b);
}

/// Registering one schema twice gives the same number twice.
pub proof fn registration_is_idempotent(registry: RegistryView, s: SchemaView, first: u32)
    requires
        registry.items.len() <= 65536,
        registry.registering(seq![s]) matches Ok((_, ids)) && ids == seq![first],
    ensures
        added(registry.registered(seq![s]).items, seq![s], registry.max) == Ok::<
            (Seq<SchemaView>, Seq<u32>),
            Seq<char>,
        >((registry.registered(seq![s]).items, seq![first])),
{
    reveal_with_fuel(added, 2);
    reveal_with_fuel(position_of, 2);
    let none = Seq::<SchemaView>::empty();
    assert(seq![s].drop_last() =~= none);
    let items = registry.items;
    let after = registry.registered(seq![s]).items;
    assert(Seq::<u32>::empty().push(first) =~= seq![first]);
    match position_of(items, s.identity()) {
        Some(i) => {
            assert(after == items);
            assert(seq![first][0] == Seq::<u32>::empty().push((i + 1) as u32)[0]);
        },
        None => {
            assert(after == items.push(s));
            assert(seq![first][0] == Seq::<u32>::empty().push((items.len() + 1) as u32)[0]);
            assert(items.push(s).drop_last() =~= items);
        },
    }
}

/// An error says where it is and what it is, as far as 256 characters go.
pub proof fn an_error_names_its_place(field: Seq<char>, message: Seq<char>)
    ensures
        located(field, message).len() <= 256,
        located(field, message).is_prefix_of(field + "."@ + message),
        field.len() + "."@.len() + message.len() <= 256 ==> located(field, message) == field + "."@
            + message,
        message.len() <= 256 ==> clip(message) == message,
        message.len() > 256 ==> clip(message) == message.take(256),
{
}

proof fn lemma_place(items: Seq<SchemaView>, identity: (Seq<char>, u32))
    ensures
        position_of(items, identity) matches Some(i) ==> 0 <= i < items.len()
            && items[i].identity() == identity,
        position_of(items, identity) is None ==> forall|i: int|
            0 <= i < items.len() ==> (#[trigger] items[i]).identity() != identity,
    decreases items.len(),
{
    if items.len() > 0 {
        let rest = items.drop_last();
        lemma_place(rest, identity);
        assert forall|i: int| 0 <= i < rest.len() implies #[trigger] items[i] == rest[i] by {}
    }
}

/// Whether schemas of one name and version are the same.
pub open spec fn names_are_unambiguous(list: Seq<SchemaView>) -> bool {
    forall|i: int, j: int|
        0 <= i < j < list.len() && (#[trigger] list[i]).name == (#[trigger] list[j]).name
            && list[i].version == list[j].version ==> list[i] == list[j]
}

/// A schema is registered exactly if it is valid, it and what is nested in it
/// agree with each other and with all that is there, and it is there already or
/// there is room for it.
pub proof fn a_schema_is_registered_exactly_if_it_may_be(registry: RegistryView, s: SchemaView)
    requires
        registry.sound(),
    ensures
        registry.registering(seq![s]) is Ok <==> {
            &&& s.valid()
            &&& names_are_unambiguous(nested_all(seq![s]) + nested_all(registry.items))
            &&& registry.items.contains(s) || registry.items.len() < registry.max
        },
{
    reveal(RegistryView::sound);
    reveal_with_fuel(added, 2);
    reveal_with_fuel(first_fault, 2);
    let items = registry.items;
    let all = nested_all(seq![s]) + nested_all(items);
    assert(seq![s].drop_last() =~= Seq::<SchemaView>::empty());
    lemma_place(items, s.identity());
    lemma_nested_in(seq![s], s);
    assert(nested_schema(seq![s][0])[0] == s);
    assert(nested_schema(seq![s][0]).contains(s));
    if compatible(all) {
        match position_of(items, s.identity()) {
            Some(i) => {
                lemma_nested_in(items, items[i]);
                assert(nested_schema(items[i])[0] == items[i]);
                assert(nested_schema(items[i]).contains(items[i]));
                let a = nested_all(seq![s]).index_of(s);
                let b = nested_all(items).index_of(items[i]);
                assert(all[a] == s);
                assert(all[nested_all(seq![s]).len() + b] == items[i]);
                lemma_compatible(all, s, items[i]);
            },
            None => {
                if items.contains(s) {
                    let k = items.index_of(s);
                    assert(items[k].identity() == s.identity());
                }
            },
        }
    }
    if names_are_unambiguous(all) {
        assert forall|i: int, j: int|
            0 <= i < j < all.len() && (#[trigger] all[i]).identity() == (
            #[trigger] all[j]).identity() implies all[i] == all[j] by {
            assert(all[i].name == all[j].name);
        }
    }
    if compatible(all) {
        assert forall|i: int, j: int|
            0 <= i < j < all.len() && (#[trigger] all[i]).name == (#[trigger] all[j]).name
                && all[i].version == all[j].version implies all[i] == all[j] by {
            assert(all[i].identity() == all[j].identity());
        }
    }
}

} // verus!
