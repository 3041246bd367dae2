//! Byte-level helpers on UTF-8 text.
use vstd::prelude::*;
use vstd::utf8::*;

verus! {

/// The bytes of a text.
pub open spec fn utf8(chars: Seq<char>) -> Seq<u8> {
    encode_utf8(chars)
}

/// The last character boundary at or before `end`.
pub open spec fn boundary_before(bytes: Seq<u8>, end: int) -> int
    decreases end,
{
    if end <= 0 || is_char_boundary(bytes, end) {
        end
    } else {
        boundary_before(bytes, end - 1)
    }
}

/// The longest prefix of whole characters within `max` bytes.
pub open spec fn bounded_bytes(bytes: Seq<u8>, max: nat) -> Seq<u8> {
    bytes.take(boundary_before(bytes, if bytes.len() <= max { bytes.len() as int } else { max as int }))
}

/// Lexicographic order of bytes.
pub open spec fn bytes_lt(a: Seq<u8>, b: Seq<u8>) -> bool
    decreases a.len(),
{
    if b.len() == 0 {
        false
    } else if a.len() == 0 {
        true
    } else if a[0] != b[0] {
        a[0] < b[0]
    } else {
        bytes_lt(a.drop_first(), b.drop_first())
    }
}

pub proof fn lemma_bytes_lt_irreflexive(a: Seq<u8>)
    ensures
        !bytes_lt(a, a),
    decreases a.len(),
{
    if a.len() > 0 {
        lemma_bytes_lt_irreflexive(a.drop_first());
    }
}

pub proof fn lemma_bytes_lt_transitive(a: Seq<u8>, b: Seq<u8>, c: Seq<u8>)
    requires
        bytes_lt(a, b),
        bytes_lt(b, c),
    ensures
        bytes_lt(a, c),
    decreases a.len(),
{
    if a.len() > 0 && a[0] == b[0] && b[0] == c[0] {
        lemma_bytes_lt_transitive(a.drop_first(), b.drop_first(), c.drop_first());
    }
}

pub proof fn lemma_bytes_lt_total(a: Seq<u8>, b: Seq<u8>)
    ensures
        a == b || bytes_lt(a, b) || bytes_lt(b, a),
    decreases a.len(),
{
    if a.len() > 0 && b.len() > 0 && a[0] == b[0] {
        lemma_bytes_lt_total(a.drop_first(), b.drop_first());
        if a.drop_first() == b.drop_first() {
            assert(a =~= seq![a[0]] + a.drop_first());
            assert(b =~= seq![b[0]] + b.drop_first());
        }
    } else if a.len() == 0 && b.len() == 0 {
        assert(a =~= b);
    }
}

/// Texts with the same bytes are the same.
pub proof fn lemma_utf8_injective(a: Seq<char>, b: Seq<char>)
    ensures
        utf8(a) == utf8(b) ==> a == b,
{
    encode_utf8_decode_utf8(a);
    encode_utf8_decode_utf8(b);
}

proof fn lemma_boundary(bytes: Seq<u8>, end: int)
    requires
        valid_utf8(bytes),
        0 <= end <= bytes.len(),
    ensures
        0 <= boundary_before(bytes, end) <= end,
        is_char_boundary(bytes, boundary_before(bytes, end)),
    decreases end,
{
    is_char_boundary_start_end_of_seq(bytes);
    if end > 0 && !is_char_boundary(bytes, end) {
        lemma_boundary(bytes, end - 1);
    }
}

/// A bounded prefix fits its bound.
pub proof fn lemma_bounded_len(chars: Seq<char>, max: nat)
    ensures
        bounded_bytes(utf8(chars), max).len() <= max,
        utf8(chars).len() <= max ==> bounded_bytes(utf8(chars), max) == utf8(chars),
{
    encode_utf8_valid_utf8(chars);
    let b = utf8(chars);
    let end = if b.len() <= max { b.len() as int } else { max as int };
    lemma_boundary(b, end);
    is_char_boundary_start_end_of_seq(b);
    if b.len() <= max {
        assert(b.take(b.len() as int) =~= b);
    }
}

/// The longest prefix of a text that fits in a number of bytes.
pub open spec fn bounded_text(chars: Seq<char>, max: nat) -> Seq<char> {
    choose|kept: Seq<char>| utf8(kept) == bounded_bytes(utf8(chars), max)
}

pub proof fn lemma_bounded_text(chars: Seq<char>, kept: Seq<char>, max: nat)
    requires
        utf8(kept) == bounded_bytes(utf8(chars), max),
    ensures
        bounded_text(chars, max) == kept,
{
    let chosen = bounded_text(chars, max);
    assert(utf8(chosen) == bounded_bytes(utf8(chars), max));
    lemma_utf8_injective(chosen, kept);
}

/// The number of bytes of a text.
pub fn byte_len(text: &str) -> (n: usize)
    ensures
        n == utf8(text@).len(),
{
    text.as_bytes().len()
}

fn same_bytes(x: &[u8], y: &[u8]) -> (r: bool)
    ensures
        r == (x@ == y@),
{
    if x.len() != y.len() {
        return false;
    }
    let mut i: usize = 0;
    while i < x.len()
        invariant
            i <= x.len() == y.len(),
            forall|j: int| 0 <= j < i ==> x@[j] == y@[j],
        decreases x.len() - i,
    {
        if x[i] != y[i] {
            return false;
        }
        i += 1;
    }
    assert(x@ =~= y@);
    true
}

pub fn same_text(a: &str, b: &str) -> (r: bool)
    ensures
        r == (a@ == b@),
{
    proof {
        lemma_utf8_injective(a@, b@);
    }
    same_bytes(a.as_bytes(), b.as_bytes())
}

/// Whether a text comes before another in byte order.
pub fn text_before(a: &str, b: &str) -> (r: bool)
    ensures
        r == bytes_lt(utf8(a@), utf8(b@)),
{
    let x = a.as_bytes();
    let y = b.as_bytes();
    let mut i: usize = 0;
    assert(x@.skip(0) =~= x@);
    assert(y@.skip(0) =~= y@);
    while i < x.len() && i < y.len()
        invariant
            x@ == utf8(a@),
            y@ == utf8(b@),
            i <= x.len(),
            i <= y.len(),
            bytes_lt(x@, y@) == bytes_lt(x@.skip(i as int), y@.skip(i as int)),
        decreases x.len() - i,
    {
        assert(x@.skip(i as int).drop_first() =~= x@.skip(i + 1));
        assert(y@.skip(i as int).drop_first() =~= y@.skip(i + 1));
        if x[i] != y[i] {
            return x[i] < y[i];
        }
        i += 1;
    }
    i < y.len()
}

/// A copy of the longest prefix of whole characters within `max` bytes. The
/// copy does not keep spare capacity of the original alive.
pub fn bounded(value: &str, max: usize) -> (r: String)
    ensures
        utf8(r@) == bounded_bytes(utf8(value@), max as nat),
        utf8(r@).len() <= max,
{
    let len = byte_len(value);
    let mut end: usize = if len <= max {
        len
    } else {
        max
    };
    let ghost start: int = end as int;
    proof {
        encode_utf8_valid_utf8(value@);
        is_char_boundary_start_end_of_seq(utf8(value@));
        lemma_bounded_len(value@, max as nat);
    }
    while !value.is_char_boundary(end)
        invariant
            0 <= end <= start <= utf8(value@).len(),
            is_char_boundary(utf8(value@), 0),
            boundary_before(utf8(value@), start) == boundary_before(
                utf8(value@),
                end as int,
            ),
        decreases end,
    {
        end -= 1;
    }
    let (head, _tail) = value.split_at(end);
    head.to_owned()
}

/// A text is cut behind the last character that still fits: what is kept is a
/// beginning of it, and no longer beginning ends between two characters and fits.
pub proof fn a_cut_keeps_what_fits(bytes: Seq<u8>, max: nat)
    ensures
        bounded_bytes(bytes, max).len() <= max,
        bounded_bytes(bytes, max).is_prefix_of(bytes),
        bounded_bytes(bytes, max).len() > 0 ==> is_char_boundary(
            bytes,
            bounded_bytes(bytes, max).len() as int,
        ),
        forall|end: int|
            bounded_bytes(bytes, max).len() < end <= max && end <= bytes.len()
                ==> !#[trigger] is_char_boundary(bytes, end),
{
    let end = if bytes.len() <= max {
        bytes.len() as int
    } else {
        max as int
    };
    lemma_last_boundary(bytes, end);
}

proof fn lemma_last_boundary(bytes: Seq<u8>, end: int)
    requires
        0 <= end <= bytes.len(),
    ensures
        0 <= boundary_before(bytes, end) <= end,
        boundary_before(bytes, end) > 0 ==> is_char_boundary(bytes, boundary_before(bytes, end)),
        forall|k: int|
            boundary_before(bytes, end) < k <= end ==> !#[trigger] is_char_boundary(bytes, k),
    decreases end,
{
    if end > 0 && !is_char_boundary(bytes, end) {
        lemma_last_boundary(bytes, end - 1);
    }
}

/// One text comes before another where the first byte in which they differ is
/// the smaller, or where it is a beginning of the other.
pub proof fn texts_are_ordered_by_their_first_difference(a: Seq<u8>, b: Seq<u8>, at: int)
    requires
        0 <= at <= a.len(),
        at <= b.len(),
        forall|i: int| 0 <= i < at ==> a[i] == b[i],
        at < a.len() && at < b.len() ==> a[at] != b[at],
    ensures
        at < a.len() && at < b.len() ==> bytes_lt(a, b) == (a[at] < b[at]),
        at == a.len() ==> bytes_lt(a, b) == (a.len() < b.len()),
        at == b.len() ==> !bytes_lt(a, b),
    decreases at,
{
    if at > 0 {
        assert forall|i: int| 0 <= i < at - 1 implies a.drop_first()[i] == b.drop_first()[i] by {
            assert(a[i + 1] == b[i + 1]);
        }
        assert(a[0] == b[0]);
        texts_are_ordered_by_their_first_difference(a.drop_first(), b.drop_first(), at - 1);
    }
}

} // verus!
