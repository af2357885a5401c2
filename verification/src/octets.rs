//! Octet buffers: `bytes::Bytes` and `bytes::BytesMut`, and big-endian integers.
//!
//! Both types are opaque to the verifier. What one holds is given by
//! [`octets`] and [`buffered`], and every operation the engine performs on
//! them is described below in those terms. As with any growable buffer, an
//! append whose allocation fails ends the process; no contract speaks of that.

use bytes::{BufMut, Bytes, BytesMut};
use vstd::prelude::*;
use vstd::utf8::encode_utf8;

verus! {

#[verifier::external_type_specification]
#[verifier::external_body]
pub struct ExBytes(bytes::Bytes);

#[verifier::external_type_specification]
#[verifier::external_body]
pub struct ExBytesMut(bytes::BytesMut);

/// The octets an immutable `Bytes` holds, first octet first.
pub uninterp spec fn octets(b: Bytes) -> Seq<u8>;

/// The octets a growable `BytesMut` holds, first octet first.
pub uninterp spec fn buffered(b: BytesMut) -> Seq<u8>;

// ---------------------------------------------------------------------------
// Bytes
// ---------------------------------------------------------------------------

/// `Bytes::new` makes an empty buffer.
pub assume_specification[ Bytes::new ]() -> (b: Bytes)
    ensures
        octets(b) == Seq::<u8>::empty(),
;

/// `Bytes::len` counts the octets held.
pub assume_specification[ Bytes::len ](b: &Bytes) -> (n: usize)
    ensures
        n == octets(*b).len(),
;

/// `Bytes::is_empty` tells whether no octet is held.
pub assume_specification[ Bytes::is_empty ](b: &Bytes) -> (r: bool)
    ensures
        r == (octets(*b).len() == 0),
;

/// `Bytes::copy_from_slice` copies the slice into a new buffer.
pub assume_specification[ Bytes::copy_from_slice ](data: &[u8]) -> (b: Bytes)
    ensures
        octets(b) == data@,
;

/// `Bytes::clone` hands out a second handle on the same octets.
pub assume_specification[ <Bytes as Clone>::clone ](b: &Bytes) -> (r: Bytes)
    ensures
        octets(r) == octets(*b),
;

/// `Bytes::split_to` takes the first `at` octets off the front; it panics when
/// `at` is past the end.
pub assume_specification[ Bytes::split_to ](b: &mut Bytes, at: usize) -> (r: Bytes)
    requires
        at <= octets(*old(b)).len(),
    ensures
        octets(r) == octets(*old(b)).subrange(0, at as int),
        octets(*final(b)) == octets(*old(b)).subrange(at as int, octets(*old(b)).len() as int),
;

/// `Bytes::slice` on a half-open range: a handle on the octets in it. It
/// panics on a range that is reversed or runs past the end.
#[verifier::external_body]
pub(crate) fn slice_of(b: &Bytes, from: usize, to: usize) -> (r: Bytes)
    requires
        from <= to <= octets(*b).len(),
    ensures
        octets(r) == octets(*b).subrange(from as int, to as int),
{
    b.slice(from..to)
}

/// `Bytes::deref`: the octets as a slice.
#[verifier::external_body]
pub(crate) fn as_slice(b: &Bytes) -> (s: &[u8])
    ensures
        s@ == octets(*b),
{
    b.as_ref()
}

/// `Bytes::from(&'static str)` holds the string's UTF-8 octets.
#[verifier::external_body]
pub(crate) fn from_static(s: &'static str) -> (b: Bytes)
    ensures
        octets(b) == encode_utf8(s@),
{
    Bytes::from(s)
}

/// `Bytes::from(Vec<u8>)` keeps the vector's octets.
#[verifier::external_body]
pub(crate) fn from_vec(v: Vec<u8>) -> (b: Bytes)
    ensures
        octets(b) == v@,
{
    Bytes::from(v)
}

// ---------------------------------------------------------------------------
// BytesMut
// ---------------------------------------------------------------------------

/// `BytesMut::new` makes an empty buffer.
pub assume_specification[ BytesMut::new ]() -> (b: BytesMut)
    ensures
        buffered(b) == Seq::<u8>::empty(),
;

/// `BytesMut::len` counts the octets held.
pub assume_specification[ BytesMut::len ](b: &BytesMut) -> (n: usize)
    ensures
        n == buffered(*b).len(),
;

/// `BytesMut::split_to` takes the first `at` octets off the front; it panics
/// when `at` is past the end.
pub assume_specification[ BytesMut::split_to ](b: &mut BytesMut, at: usize) -> (r: BytesMut)
    requires
        at <= buffered(*old(b)).len(),
    ensures
        buffered(r) == buffered(*old(b)).subrange(0, at as int),
        buffered(*final(b)) == buffered(*old(b)).subrange(
            at as int,
            buffered(*old(b)).len() as int,
        ),
;

/// `BytesMut::split` takes everything, leaving the buffer empty.
pub assume_specification[ BytesMut::split ](b: &mut BytesMut) -> (r: BytesMut)
    ensures
        buffered(r) == buffered(*old(b)),
        buffered(*final(b)) == Seq::<u8>::empty(),
;

/// `BytesMut::clear` empties the buffer.
pub assume_specification[ BytesMut::clear ](b: &mut BytesMut)
    ensures
        buffered(*final(b)) == Seq::<u8>::empty(),
;

/// `BytesMut::freeze` turns the buffer into an immutable one with the same
/// octets.
pub assume_specification[ BytesMut::freeze ](b: BytesMut) -> (r: Bytes)
    ensures
        octets(r) == buffered(b),
;

/// `BytesMut::deref`: the octets as a slice.
#[verifier::external_body]
pub(crate) fn as_slice_mut(b: &BytesMut) -> (s: &[u8])
    ensures
        s@ == buffered(*b),
{
    b.as_ref()
}

/// `BufMut::put_u8` appends one octet.
#[verifier::external_body]
pub(crate) fn put_u8(b: &mut BytesMut, n: u8)
    ensures
        buffered(*final(b)) == buffered(*old(b)).push(n),
{
    b.put_u8(n)
}

/// `BufMut::put_u16` appends the two octets of `n`, most significant first.
#[verifier::external_body]
pub(crate) fn put_u16(b: &mut BytesMut, n: u16)
    ensures
        buffered(*final(b)) == buffered(*old(b)) + be16(n),
{
    b.put_u16(n)
}

/// `BufMut::put_u32` appends the four octets of `n`, most significant first.
#[verifier::external_body]
pub(crate) fn put_u32(b: &mut BytesMut, n: u32)
    ensures
        buffered(*final(b)) == buffered(*old(b)) + be32(n),
{
    b.put_u32(n)
}

/// `BufMut::put_slice` appends the slice.
#[verifier::external_body]
pub(crate) fn put_slice(b: &mut BytesMut, s: &[u8])
    ensures
        buffered(*final(b)) == buffered(*old(b)) + s@,
{
    b.put_slice(s)
}

// ---------------------------------------------------------------------------
// Big-endian integers
// ---------------------------------------------------------------------------

/// The octets of a 16-bit integer in network order.
pub open spec fn be16(n: u16) -> Seq<u8> {
    seq![(n / 256) as u8, (n % 256) as u8]
}

/// The octets of a 32-bit integer in network order.
pub open spec fn be32(n: u32) -> Seq<u8> {
    seq![
        (n / 0x100_0000) as u8,
        (n / 0x1_0000 % 256) as u8,
        (n / 256 % 256) as u8,
        (n % 256) as u8,
    ]
}

/// The 16-bit integer that the octets at `at` spell in network order.
pub open spec fn be16_at(s: Seq<u8>, at: int) -> int {
    s[at] * 256 + s[at + 1]
}

/// The 32-bit integer that the octets at `at` spell in network order.
pub open spec fn be32_at(s: Seq<u8>, at: int) -> int {
    s[at] * 0x100_0000 + s[at + 1] * 0x1_0000 + s[at + 2] * 256 + s[at + 3]
}

/// Reads the 16-bit integer at `at`.
pub fn read_u16(s: &[u8], at: usize) -> (n: u16)
    requires
        at + 2 <= s@.len(),
    ensures
        n == be16_at(s@, at as int),
{
    s[at] as u16 * 256 + s[at + 1] as u16
}

/// Reads the 32-bit integer at `at`.
pub fn read_u32(s: &[u8], at: usize) -> (n: u32)
    requires
        at + 4 <= s@.len(),
    ensures
        n == be32_at(s@, at as int),
{
    s[at] as u32 * 0x100_0000 + s[at + 1] as u32 * 0x1_0000 + s[at + 2] as u32 * 256
        + s[at + 3] as u32
}

/// Reading at the start of what was written gives the integer back.
pub proof fn be32_round_trip(n: u32)
    ensures
        be32(n).len() == 4,
        be32_at(be32(n), 0) == n,
{
}

/// Reading at the start of what was written gives the integer back.
pub proof fn be16_round_trip(n: u16)
    ensures
        be16(n).len() == 2,
        be16_at(be16(n), 0) == n,
{
}

/// Whether two octet strings are equal.
pub fn same_octets(a: &[u8], b: &[u8]) -> (r: bool)
    ensures
        r == (a@ == b@),
{
    if a.len() != b.len() {
        return false;
    }
    let mut i: usize = 0;
    while i < a.len()
        invariant
            i <= a@.len() == b@.len(),
            forall|k: int| 0 <= k < i ==> a@[k] == b@[k],
        decreases a@.len() - i,
    {
        if a[i] != b[i] {
            return false;
        }
        i += 1;
    }
    assert(a@ =~= b@);
    true
}

} // verus!
