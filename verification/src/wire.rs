//! Byte-level primitives of the table format: big-endian 16-bit fields, and
//! the byte buffers that carry encoded blocks and keys.

use vstd::prelude::*;
use bytes::{Buf, BufMut, Bytes, BytesMut};

verus! {

/// Largest value that a 16-bit length or offset field can hold.
pub const FIELD_MAX: usize = 65535;

/// High byte of a 16-bit field.
pub open spec fn hi(n: u16) -> u8 {
    (n / 256) as u8
}

/// Low byte of a 16-bit field.
pub open spec fn lo(n: u16) -> u8 {
    (n % 256) as u8
}

/// The two bytes of `n`, most significant first.
pub open spec fn be16(n: u16) -> Seq<u8> {
    seq![hi(n), lo(n)]
}

/// The 16-bit value whose big-endian bytes are `a`, `b`.
pub open spec fn from_be16(a: u8, b: u8) -> u16 {
    (a * 256 + b) as u16
}

/// The 16-bit field stored at position `at` of `s`.
pub open spec fn field_at(s: Seq<u8>, at: int) -> u16 {
    from_be16(s[at], s[at + 1])
}

/// Splitting a 16-bit value into its bytes and joining them gives it back.
pub proof fn lemma_field_round_trip(n: u16)
    ensures
        from_be16(hi(n), lo(n)) == n,
        field_at(be16(n), 0) == n,
{
}

/// Joining two bytes and splitting the value gives them back.
pub proof fn lemma_bytes_round_trip(a: u8, b: u8)
    ensures
        hi(from_be16(a, b)) == a,
        lo(from_be16(a, b)) == b,
{
}

/// The 16-bit field stored at position `at` of `data`.
pub(crate) fn read_u16(data: &[u8], at: usize) -> (n: u16)
    requires
        at + 2 <= data@.len(),
    ensures
        n == field_at(data@, at as int),
{
    let a: u16 = data[at] as u16;
    let b: u16 = data[at + 1] as u16;
    a * 256 + b
}

/// A vector with the bytes of `slice`.
pub(crate) fn slice_to_vec(slice: &[u8]) -> (v: Vec<u8>)
    ensures
        v@ == slice@,
{
    let mut v: Vec<u8> = Vec::with_capacity(slice.len());
    let mut i: usize = 0;
    while i < slice.len()
        invariant
            i <= slice.len(),
            v@ == slice@.take(i as int),
        decreases slice.len() - i,
    {
        v.push(slice[i]);
        assert(slice@.take(i + 1) =~= slice@.take(i as int).push(slice@[i as int]));
        i = i + 1;
    }
    assert(slice@.take(slice.len() as int) =~= slice@);
    v
}

/// `bytes::Bytes`: an immutable buffer, known here by the bytes it holds.
#[verifier::external_type_specification]
#[verifier::external_body]
pub struct ExBytes(Bytes);

/// `bytes::BytesMut`: a growable buffer, known here by the bytes it holds.
#[verifier::external_type_specification]
#[verifier::external_body]
pub struct ExBytesMut(BytesMut);

/// The bytes that an immutable buffer holds, first to last.
pub uninterp spec fn bytes_view(b: Bytes) -> Seq<u8>;

/// The bytes that a growable buffer holds, first to last.
pub uninterp spec fn bytes_mut_view(b: BytesMut) -> Seq<u8>;

/// `BytesMut::with_capacity`: a buffer that holds no bytes yet. The call
/// panics on a capacity beyond `isize::MAX`.
#[verifier::external_body]
pub(crate) fn buffer_with_capacity(capacity: usize) -> (buf: BytesMut)
    requires
        capacity <= isize::MAX,
    ensures
        bytes_mut_view(buf) == Seq::<u8>::empty(),
{
    BytesMut::with_capacity(capacity)
}

/// `BytesMut::extend_from_slice`: the bytes of `extend` are appended. The
/// call panics when the buffer would grow beyond `isize::MAX` bytes.
#[verifier::external_body]
pub(crate) fn buffer_extend(buf: &mut BytesMut, extend: &[u8])
    requires
        bytes_mut_view(*old(buf)).len() + extend@.len() <= isize::MAX,
    ensures
        bytes_mut_view(*final(buf)) == bytes_mut_view(*old(buf)) + extend@,
{
    buf.extend_from_slice(extend)
}

/// `BufMut::put_u16` on a `BytesMut`: the two big-endian bytes of `n` are
/// appended. The call panics when the buffer would grow beyond
/// `isize::MAX` bytes.
#[verifier::external_body]
pub(crate) fn buffer_put_u16(buf: &mut BytesMut, n: u16)
    requires
        bytes_mut_view(*old(buf)).len() + 2 <= isize::MAX,
    ensures
        bytes_mut_view(*final(buf)) == bytes_mut_view(*old(buf)) + be16(n),
{
    buf.put_u16(n)
}

/// `BytesMut::freeze`: the same bytes, now immutable.
#[verifier::external_body]
pub(crate) fn buffer_freeze(buf: BytesMut) -> (b: Bytes)
    ensures
        bytes_view(b) == bytes_mut_view(buf),
{
    buf.freeze()
}

/// `BufMut::put` on a `BytesMut`, with a slice as the source: the bytes of
/// `src` are appended. The call panics when the buffer would grow beyond
/// `isize::MAX` bytes.
#[verifier::external_body]
pub(crate) fn buffer_put(buf: &mut BytesMut, src: &[u8])
    requires
        bytes_mut_view(*old(buf)).len() + src@.len() <= isize::MAX,
    ensures
        bytes_mut_view(*final(buf)) == bytes_mut_view(*old(buf)) + src@,
{
    buf.put(src)
}

/// The `Deref` of `BytesMut`: a slice over the bytes that it holds.
#[verifier::external_body]
pub(crate) fn buffer_as_slice(buf: &BytesMut) -> (s: &[u8])
    ensures
        s@ == bytes_mut_view(*buf),
{
    buf
}

/// `BufMut::put_u16` on a `Vec<u8>`: the two big-endian bytes of `n` are
/// appended, as by `Vec::extend_from_slice`, which the call comes down to.
#[verifier::external_body]
pub(crate) fn vec_put_u16(v: &mut Vec<u8>, n: u16)
    ensures
        final(v)@ == old(v)@ + be16(n),
{
    v.put_u16(n)
}

/// `Bytes::from` a `Vec<u8>`: an immutable buffer with the vector's bytes.
#[verifier::external_body]
pub(crate) fn bytes_from_vec(v: Vec<u8>) -> (b: Bytes)
    ensures
        bytes_view(b) == v@,
{
    Bytes::from(v)
}

/// The `Deref` of `Bytes`: a slice over the bytes that it holds.
#[verifier::external_body]
pub(crate) fn bytes_as_slice(b: &Bytes) -> (s: &[u8])
    ensures
        s@ == bytes_view(*b),
{
    b
}

/// `Bytes::clone`: a second handle on the same bytes.
#[verifier::external_body]
pub(crate) fn bytes_clone(b: &Bytes) -> (c: Bytes)
    ensures
        bytes_view(c) == bytes_view(*b),
{
    b.clone()
}

/// `Buf::remaining` on a `Bytes`: the number of bytes not yet consumed.
#[verifier::external_body]
pub(crate) fn bytes_remaining(b: &Bytes) -> (n: usize)
    ensures
        n == bytes_view(*b).len(),
{
    b.remaining()
}

/// `Buf::get_u16` on a `Bytes`: reads the first two bytes as a big-endian
/// value and consumes them. The call panics on fewer than two bytes.
#[verifier::external_body]
pub(crate) fn bytes_get_u16(b: &mut Bytes) -> (n: u16)
    requires
        bytes_view(*old(b)).len() >= 2,
    ensures
        n == field_at(bytes_view(*old(b)), 0),
        bytes_view(*final(b)) == bytes_view(*old(b)).skip(2),
{
    b.get_u16()
}

/// `Buf::copy_to_bytes` on a `Bytes`: splits off the first `len` bytes and
/// consumes them. The call panics when fewer than `len` bytes remain.
#[verifier::external_body]
pub(crate) fn bytes_copy_to_bytes(b: &mut Bytes, len: usize) -> (head: Bytes)
    requires
        len <= bytes_view(*old(b)).len(),
    ensures
        bytes_view(head) == bytes_view(*old(b)).take(len as int),
        bytes_view(*final(b)) == bytes_view(*old(b)).skip(len as int),
{
    b.copy_to_bytes(len)
}

} // verus!
