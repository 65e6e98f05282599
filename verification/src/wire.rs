//! Byte-level building blocks shared by the wire protocol and the text formats:
//! big-endian integers, UTF-8 text, ASCII keywords.
use vstd::prelude::*;
use vstd::utf8::*;

verus! {

broadcast use vstd::string::is_ascii_spec_bytes;

/// Big-endian bytes of a `u32`.
pub open spec fn be_u32(v: u32) -> Seq<u8> {
    seq![(v >> 24u32) as u8, (v >> 16u32) as u8, (v >> 8u32) as u8, v as u8]
}

/// Big-endian bytes of a `u64`.
pub open spec fn be_u64(v: u64) -> Seq<u8> {
    seq![
        (v >> 56u64) as u8,
        (v >> 48u64) as u8,
        (v >> 40u64) as u8,
        (v >> 32u64) as u8,
        (v >> 24u64) as u8,
        (v >> 16u64) as u8,
        (v >> 8u64) as u8,
        v as u8,
    ]
}

/// The `u32` whose big-endian bytes start `b`.
pub open spec fn u32_of_be(b: Seq<u8>) -> u32 {
    ((b[0] as u32) << 24u32) | ((b[1] as u32) << 16u32) | ((b[2] as u32) << 8u32) | (b[3] as u32)
}

/// The `u64` whose big-endian bytes start `b`.
pub open spec fn u64_of_be(b: Seq<u8>) -> u64 {
    ((b[0] as u64) << 56u64) | ((b[1] as u64) << 48u64) | ((b[2] as u64) << 40u64) | ((b[3] as u64)
        << 32u64) | ((b[4] as u64) << 24u64) | ((b[5] as u64) << 16u64) | ((b[6] as u64) << 8u64)
        | (b[7] as u64)
}

/// The bytes of an ASCII character sequence.
pub open spec fn ascii_bytes(s: Seq<char>) -> Seq<u8> {
    Seq::new(s.len(), |i: int| s[i] as u8)
}

pub proof fn lemma_u32_round_trip(v: u32)
    ensures
        u32_of_be(be_u32(v)) == v,
        be_u32(v).len() == 4,
{
    let b = be_u32(v);
    assert(b[0] == (v >> 24u32) as u8 && b[1] == (v >> 16u32) as u8 && b[2] == (v >> 8u32) as u8 && b[3]
        == v as u8);
    assert(((((v >> 24u32) as u8) as u32) << 24u32) | ((((v >> 16u32) as u8) as u32) << 16u32) | ((((v
        >> 8u32) as u8) as u32) << 8u32) | ((v as u8) as u32) == v) by (bit_vector);
}

pub proof fn lemma_u64_round_trip(v: u64)
    ensures
        u64_of_be(be_u64(v)) == v,
        be_u64(v).len() == 8,
{
    let b = be_u64(v);
    assert(b[0] == (v >> 56u64) as u8 && b[1] == (v >> 48u64) as u8 && b[2] == (v >> 40u64) as u8
        && b[3] == (v >> 32u64) as u8 && b[4] == (v >> 24u64) as u8 && b[5] == (v >> 16u64) as u8
        && b[6] == (v >> 8u64) as u8 && b[7] == v as u8);
    assert(((((v >> 56u64) as u8) as u64) << 56u64) | ((((v >> 48u64) as u8) as u64) << 48u64) | ((((v
        >> 40u64) as u8) as u64) << 40u64) | ((((v >> 32u64) as u8) as u64) << 32u64) | ((((v >> 24u64)
        as u8) as u64) << 24u64) | ((((v >> 16u64) as u8) as u64) << 16u64) | ((((v >> 8u64) as u8)
        as u64) << 8u64) | ((v as u8) as u64) == v) by (bit_vector);
}

pub proof fn lemma_u32_canonical(b: Seq<u8>)
    requires
        b.len() == 4,
    ensures
        be_u32(u32_of_be(b)) == b,
{
    let (b0, b1, b2, b3) = (b[0], b[1], b[2], b[3]);
    let v = u32_of_be(b);
    assert(v == ((b0 as u32) << 24u32) | ((b1 as u32) << 16u32) | ((b2 as u32) << 8u32) | (b3 as u32));
    assert((v >> 24u32) as u8 == b0 && (v >> 16u32) as u8 == b1 && (v >> 8u32) as u8 == b2 && v as u8
        == b3) by (bit_vector)
        requires
            v == ((b0 as u32) << 24u32) | ((b1 as u32) << 16u32) | ((b2 as u32) << 8u32) | (b3 as u32),
    ;
    assert(be_u32(v) =~= b);
}

pub proof fn lemma_u64_canonical(b: Seq<u8>)
    requires
        b.len() == 8,
    ensures
        be_u64(u64_of_be(b)) == b,
{
    let (b0, b1, b2, b3, b4, b5, b6, b7) = (b[0], b[1], b[2], b[3], b[4], b[5], b[6], b[7]);
    let v = u64_of_be(b);
    assert((v >> 56u64) as u8 == b0 && (v >> 48u64) as u8 == b1 && (v >> 40u64) as u8 == b2 && (v
        >> 32u64) as u8 == b3 && (v >> 24u64) as u8 == b4 && (v >> 16u64) as u8 == b5 && (v >> 8u64)
        as u8 == b6 && v as u8 == b7) by (bit_vector)
        requires
            v == ((b0 as u64) << 56u64) | ((b1 as u64) << 48u64) | ((b2 as u64) << 40u64) | ((b3
                as u64) << 32u64) | ((b4 as u64) << 24u64) | ((b5 as u64) << 16u64) | ((b6 as u64)
                << 8u64) | (b7 as u64),
    ;
    assert(be_u64(v) =~= b);
}

pub proof fn lemma_i32_round_trip(v: i32)
    ensures
        (v as u32) as i32 == v,
{
    assert((v as u32) as i32 == v) by (bit_vector);
}

pub proof fn lemma_i32_canonical(u: u32)
    ensures
        ((u as i32) as u32) == u,
{
    assert(((u as i32) as u32) == u) by (bit_vector);
}

/// Appends the big-endian bytes of `v`.
pub fn put_u32(buffer: &mut Vec<u8>, v: u32)
    ensures
        final(buffer)@ == old(buffer)@ + be_u32(v),
{
    buffer.push((v >> 24u32) as u8);
    buffer.push((v >> 16u32) as u8);
    buffer.push((v >> 8u32) as u8);
    buffer.push(v as u8);
    assert(buffer@ =~= old(buffer)@ + be_u32(v));
}

/// Appends the big-endian bytes of `v`.
pub fn put_u64(buffer: &mut Vec<u8>, v: u64)
    ensures
        final(buffer)@ == old(buffer)@ + be_u64(v),
{
    buffer.push((v >> 56u64) as u8);
    buffer.push((v >> 48u64) as u8);
    buffer.push((v >> 40u64) as u8);
    buffer.push((v >> 32u64) as u8);
    buffer.push((v >> 24u64) as u8);
    buffer.push((v >> 16u64) as u8);
    buffer.push((v >> 8u64) as u8);
    buffer.push(v as u8);
    assert(buffer@ =~= old(buffer)@ + be_u64(v));
}

/// Appends all of `bytes`.
pub fn put_slice(buffer: &mut Vec<u8>, bytes: &[u8])
    ensures
        final(buffer)@ == old(buffer)@ + bytes@,
{
    let mut i: usize = 0;
    while i < bytes.len()
        invariant
            i <= bytes.len(),
            buffer@ =~= old(buffer)@ + bytes@.take(i as int),
        decreases bytes.len() - i,
    {
        buffer.push(bytes[i]);
        i += 1;
    }
    assert(bytes@.take(bytes@.len() as int) =~= bytes@);
}

/// The `u32` stored big-endian in `b[at..at + 4]`.
pub fn get_u32(b: &[u8], at: usize) -> (v: u32)
    requires
        at + 4 <= b@.len(),
    ensures
        v == u32_of_be(b@.subrange(at as int, at + 4)),
{
    ((b[at] as u32) << 24u32) | ((b[at + 1] as u32) << 16u32) | ((b[at + 2] as u32) << 8u32) | (b[at
        + 3] as u32)
}

/// The `u64` stored big-endian in `b[at..at + 8]`.
pub fn get_u64(b: &[u8], at: usize) -> (v: u64)
    requires
        at + 8 <= b@.len(),
    ensures
        v == u64_of_be(b@.subrange(at as int, at + 8)),
{
    ((b[at] as u64) << 56u64) | ((b[at + 1] as u64) << 48u64) | ((b[at + 2] as u64) << 40u64) | ((b[at
        + 3] as u64) << 32u64) | ((b[at + 4] as u64) << 24u64) | ((b[at + 5] as u64) << 16u64) | ((b[at
        + 6] as u64) << 8u64) | (b[at + 7] as u64)
}

/// Wraps `std::str::from_utf8`: the bytes as text when they are valid UTF-8.
#[verifier::external_body]
pub(crate) fn str_from_utf8(bytes: &[u8]) -> (r: Option<&str>)
    ensures
        r is Some <==> valid_utf8(bytes@),
        r matches Some(s) ==> s@ == decode_utf8(bytes@),
{
    std::str::from_utf8(bytes).ok()
}

/// The text encoded by valid UTF-8 `bytes`, or `None` when they are not valid UTF-8.
pub fn utf8_string(bytes: &[u8]) -> (r: Option<String>)
    ensures
        r is Some <==> valid_utf8(bytes@),
        r matches Some(s) ==> s@ == decode_utf8(bytes@) && encode_utf8(s@) == bytes@,
{
    match str_from_utf8(bytes) {
        Some(s) => {
            proof {
                decode_utf8_encode_utf8(bytes@);
            }
            Some(s.to_owned())
        },
        None => None,
    }
}

/// The bytes of an ASCII literal.
pub fn ascii_word(s: &str) -> (r: &[u8])
    requires
        vstd::string::is_ascii(s),
    ensures
        r@ == ascii_bytes(s@),
{
    s.as_bytes()
}

/// Whether two byte slices are equal.
pub fn bytes_equal(a: &[u8], b: &[u8]) -> (r: bool)
    ensures
        r == (a@ == b@),
{
    if a.len() != b.len() {
        return false;
    }
    let mut i: usize = 0;
    while i < a.len()
        invariant
            a.len() == b.len(),
            i <= a.len(),
            forall|j: int| 0 <= j < i ==> a@[j] == b@[j],
        decreases a.len() - i,
    {
        if a[i] != b[i] {
            return false;
        }
        i += 1;
    }
    assert(a@ =~= b@);
    true
}

} // verus!
