//! Bytes in canonical form and their hash.

use vstd::bytes::u64_to_le_bytes;
use vstd::prelude::*;

verus! {

/// The xxHash64 value of some bytes under a seed.
pub uninterp spec fn xxh64_of(bytes: Seq<u8>, seed: u64) -> u64;

/// `xxhash_rust::xxh64::xxh64` hashes bytes under a seed. The result is named,
/// not spelled out: it depends on the bytes and the seed alone.
pub assume_specification[ xxhash_rust::xxh64::xxh64 ](input: &[u8], seed: u64) -> (hash: u64)
    ensures
        hash == xxh64_of(input@, seed),
;

/// A number as eight bytes, the lowest first.
pub open spec fn number_bytes(n: u64) -> Seq<u8> {
    vstd::bytes::spec_u64_to_le_bytes(n)
}

/// A signed number as eight bytes in two's complement, the lowest first.
pub open spec fn signed_bytes(n: i64) -> Seq<u8> {
    vstd::bytes::spec_u64_to_le_bytes(n as u64)
}

/// Some bytes behind their length.
pub open spec fn framed_bytes(bytes: Seq<u8>) -> Seq<u8> {
    number_bytes(bytes.len() as u64) + bytes
}

/// A text in UTF-8 behind its length in bytes.
pub open spec fn text_bytes(text: Seq<char>) -> Seq<u8> {
    framed_bytes(vstd::utf8::encode_utf8(text))
}

/// Append the bytes of a number.
pub fn push_number(out: &mut Vec<u8>, n: u64)
    ensures
        final(out)@ == old(out)@ + number_bytes(n),
{
    let bytes = u64_to_le_bytes(n);
    out.extend_from_slice(bytes.as_slice());
}

/// Append the bytes of a signed number.
pub fn push_signed(out: &mut Vec<u8>, n: i64)
    ensures
        final(out)@ == old(out)@ + signed_bytes(n),
{
    push_number(out, n as u64);
}

/// Append the framed bytes of a text.
pub fn push_text(out: &mut Vec<u8>, text: &str)
    ensures
        final(out)@ == old(out)@ + text_bytes(text@),
{
    let bytes = text.as_bytes();
    push_number(out, bytes.len() as u64);
    out.extend_from_slice(bytes);
    assert(out@ =~= old(out)@ + text_bytes(text@));
}

/// Equal bytes that start with a number start with the same number.
pub proof fn lemma_number_bytes(a: u64, b: u64, x: Seq<u8>, y: Seq<u8>)
    requires
        number_bytes(a) + x == number_bytes(b) + y,
    ensures
        a == b,
        x == y,
{
    vstd::bytes::lemma_auto_spec_u64_to_from_le_bytes();
    let left = number_bytes(a) + x;
    let right = number_bytes(b) + y;
    assert(left.take(8) =~= number_bytes(a));
    assert(right.take(8) =~= number_bytes(b));
    assert(left.skip(8) =~= x);
    assert(right.skip(8) =~= y);
    assert(vstd::bytes::spec_u64_from_le_bytes(number_bytes(a)) == a);
    assert(vstd::bytes::spec_u64_from_le_bytes(number_bytes(b)) == b);
}

/// Equal bytes that start with a signed number start with the same number.
pub proof fn lemma_signed_bytes(a: i64, b: i64, x: Seq<u8>, y: Seq<u8>)
    requires
        signed_bytes(a) + x == signed_bytes(b) + y,
    ensures
        a == b,
        x == y,
{
    lemma_number_bytes(a as u64, b as u64, x, y);
    assert(a as u64 == b as u64 ==> a == b) by (bit_vector);
}

/// Equal bytes that start with a text start with the same text, where the
/// lengths fit in a machine integer.
pub proof fn lemma_text_bytes(a: Seq<char>, b: Seq<char>, x: Seq<u8>, y: Seq<u8>)
    requires
        text_bytes(a) + x == text_bytes(b) + y,
        vstd::utf8::encode_utf8(a).len() <= u64::MAX,
        vstd::utf8::encode_utf8(b).len() <= u64::MAX,
    ensures
        a == b,
        x == y,
{
    let p = vstd::utf8::encode_utf8(a);
    let q = vstd::utf8::encode_utf8(b);
    assert(text_bytes(a) + x =~= number_bytes(p.len() as u64) + (p + x));
    assert(text_bytes(b) + y =~= number_bytes(q.len() as u64) + (q + y));
    lemma_number_bytes(p.len() as u64, q.len() as u64, p + x, q + y);
    assert((p + x).take(p.len() as int) =~= p);
    assert((q + y).take(q.len() as int) =~= q);
    assert((p + x).skip(p.len() as int) =~= x);
    assert((q + y).skip(q.len() as int) =~= y);
    vstd::utf8::encode_utf8_decode_utf8(a);
    vstd::utf8::encode_utf8_decode_utf8(b);
}

} // verus!
