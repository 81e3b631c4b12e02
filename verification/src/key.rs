//! Keys: ordered byte sequences in three presentations, all compared by their
//! raw bytes under one total order.

use vstd::prelude::*;
use bytes::Bytes;
use crate::wire::{bytes_as_slice, bytes_clone, bytes_from_vec, bytes_view, slice_to_vec};

verus! {

/// `a` sorts strictly before `b`: at the first position where they differ
/// `a` has the smaller byte, or `a` is a proper prefix of `b`.
pub open spec fn key_lt(a: Seq<u8>, b: Seq<u8>) -> bool
    decreases a.len(),
{
    if b.len() == 0 {
        false
    } else if a.len() == 0 {
        true
    } else if a[0] != b[0] {
        a[0] < b[0]
    } else {
        key_lt(a.skip(1), b.skip(1))
    }
}

/// `a` sorts before `b` or equals it.
pub open spec fn key_le(a: Seq<u8>, b: Seq<u8>) -> bool {
    a == b || key_lt(a, b)
}

/// No key sorts before itself.
pub proof fn lemma_key_lt_irreflexive(a: Seq<u8>)
    ensures
        !key_lt(a, a),
    decreases a.len(),
{
    if a.len() > 0 {
        lemma_key_lt_irreflexive(a.skip(1));
    }
}

/// Of two different keys exactly one sorts before the other.
pub proof fn lemma_key_lt_total(a: Seq<u8>, b: Seq<u8>)
    ensures
        a == b || key_lt(a, b) || key_lt(b, a),
        !(key_lt(a, b) && key_lt(b, a)),
    decreases a.len(),
{
    if a.len() == 0 || b.len() == 0 {
        if a.len() == 0 && b.len() == 0 {
            assert(a =~= b);
        }
    } else if a[0] == b[0] {
        lemma_key_lt_total(a.skip(1), b.skip(1));
        if a.skip(1) == b.skip(1) {
            assert(a =~= seq![a[0]] + a.skip(1));
            assert(b =~= seq![b[0]] + b.skip(1));
        }
    }
}

/// The order is transitive.
pub proof fn lemma_key_lt_transitive(a: Seq<u8>, b: Seq<u8>, c: Seq<u8>)
    requires
        key_lt(a, b),
        key_lt(b, c),
    ensures
        key_lt(a, c),
    decreases a.len(),
{
    if a.len() > 0 && a[0] == b[0] && b[0] == c[0] {
        lemma_key_lt_transitive(a.skip(1), b.skip(1), c.skip(1));
    }
}

/// `key_le` is transitive too.
pub proof fn lemma_key_le_transitive(a: Seq<u8>, b: Seq<u8>, c: Seq<u8>)
    requires
        key_le(a, b),
        key_le(b, c),
    ensures
        key_le(a, c),
{
    if a != b && b != c {
        lemma_key_lt_transitive(a, b, c);
    }
}

/// Whether the bytes of `a` sort strictly before those of `b`.
pub fn bytes_lt(a: &[u8], b: &[u8]) -> (r: bool)
    ensures
        r == key_lt(a@, b@),
{
    let mut i: usize = 0;
    assert(a@.skip(0) =~= a@ && b@.skip(0) =~= b@);
    while i < a.len() && i < b.len()
        invariant
            i <= a.len(),
            i <= b.len(),
            key_lt(a@, b@) == key_lt(a@.skip(i as int), b@.skip(i as int)),
        decreases a.len() - i,
    {
        proof {
            let sa = a@.skip(i as int);
            let sb = b@.skip(i as int);
            assert(sa[0] == a@[i as int]);
            assert(sb[0] == b@[i as int]);
            assert(sa.skip(1) =~= a@.skip(i + 1));
            assert(sb.skip(1) =~= b@.skip(i + 1));
        }
        if a[i] != b[i] {
            return a[i] < b[i];
        }
        i = i + 1;
    }
    i < b.len()
}

/// Whether the bytes of `a` sort before those of `b` or equal them.
pub fn bytes_le(a: &[u8], b: &[u8]) -> (r: bool)
    ensures
        r == key_le(a@, b@),
{
    proof {
        lemma_key_lt_total(a@, b@);
    }
    !bytes_lt(b, a)
}

/// A key borrowed from a buffer that somebody else owns.
#[derive(Clone, Copy, Debug)]
pub struct KeySlice<'a>(&'a [u8]);

/// A key in a buffer of its own that can be overwritten.
#[derive(Debug)]
pub struct KeyVec(Vec<u8>);

/// A key in an immutable, cheaply shared buffer.
#[derive(Debug, PartialEq, Eq)]
pub struct KeyBytes(Bytes);

impl<'a> View for KeySlice<'a> {
    type V = Seq<u8>;

    closed spec fn view(&self) -> Seq<u8> {
        self.0@
    }
}

impl View for KeyVec {
    type V = Seq<u8>;

    closed spec fn view(&self) -> Seq<u8> {
        self.0@
    }
}

impl View for KeyBytes {
    type V = Seq<u8>;

    closed spec fn view(&self) -> Seq<u8> {
        bytes_view(self.0)
    }
}

impl<'a> KeySlice<'a> {
    /// The key made of the bytes of `slice`.
    pub fn from_slice(slice: &'a [u8]) -> (key: Self)
        ensures
            key@ == slice@,
    {
        KeySlice(slice)
    }

    /// The bytes of the key.
    pub fn raw_ref(self) -> (slice: &'a [u8])
        ensures
            slice@ == self@,
    {
        self.0
    }

    /// The number of bytes in the key.
    pub fn len(&self) -> (n: usize)
        ensures
            n == self@.len(),
    {
        self.0.len()
    }

    /// Whether this is the empty key, which marks "no key".
    pub fn is_empty(&self) -> (r: bool)
        ensures
            r == (self@.len() == 0),
    {
        self.0.len() == 0
    }

    /// A copy of the key in a buffer of its own.
    pub fn to_key_vec(self) -> (key: KeyVec)
        ensures
            key@ == self@,
    {
        KeyVec(slice_to_vec(self.0))
    }

    /// Whether this key sorts strictly before `other`.
    pub fn lt(&self, other: &KeySlice) -> (r: bool)
        ensures
            r == key_lt(self@, other@),
    {
        bytes_lt(self.0, other.0)
    }

    /// Whether this key sorts before `other` or equals it.
    pub fn le(&self, other: &KeySlice) -> (r: bool)
        ensures
            r == key_le(self@, other@),
    {
        bytes_le(self.0, other.0)
    }
}

impl KeyVec {
    /// The empty key.
    pub fn new() -> (key: Self)
        ensures
            key@ == Seq::<u8>::empty(),
    {
        KeyVec(Vec::new())
    }

    /// The key made of the bytes of `bytes`.
    pub fn from_vec(bytes: Vec<u8>) -> (key: Self)
        ensures
            key@ == bytes@,
    {
        KeyVec(bytes)
    }

    /// The bytes of the key.
    pub fn raw_ref(&self) -> (slice: &[u8])
        ensures
            slice@ == self@,
    {
        self.0.as_slice()
    }

    /// The key, borrowed.
    pub fn as_key_slice(&self) -> (key: KeySlice<'_>)
        ensures
            key@ == self@,
    {
        KeySlice(self.0.as_slice())
    }

    /// The number of bytes in the key.
    pub fn len(&self) -> (n: usize)
        ensures
            n == self@.len(),
    {
        self.0.len()
    }

    /// Whether this is the empty key.
    pub fn is_empty(&self) -> (r: bool)
        ensures
            r == (self@.len() == 0),
    {
        self.0.len() == 0
    }

    /// Makes this the empty key.
    pub fn clear(&mut self)
        ensures
            final(self)@ == Seq::<u8>::empty(),
    {
        self.0.clear();
    }

    /// Overwrites this key with the bytes of `key`.
    pub fn set_from_slice(&mut self, key: KeySlice)
        ensures
            final(self)@ == key@,
    {
        self.0 = slice_to_vec(key.0);
    }

    /// The key in an immutable, shareable buffer.
    pub fn into_key_bytes(self) -> (key: KeyBytes)
        ensures
            key@ == self@,
    {
        KeyBytes(bytes_from_vec(self.0))
    }
}

impl KeyBytes {
    /// The key made of the bytes that `bytes` holds.
    pub fn from_bytes(bytes: Bytes) -> (key: Self)
        ensures
            key@ == bytes_view(bytes),
    {
        KeyBytes(bytes)
    }

    /// The bytes of the key.
    pub fn raw_ref(&self) -> (slice: &[u8])
        ensures
            slice@ == self@,
    {
        bytes_as_slice(&self.0)
    }

    /// The key, borrowed.
    pub fn as_key_slice(&self) -> (key: KeySlice<'_>)
        ensures
            key@ == self@,
    {
        KeySlice(bytes_as_slice(&self.0))
    }

    /// The number of bytes in the key.
    pub fn len(&self) -> (n: usize)
        ensures
            n == self@.len(),
    {
        bytes_as_slice(&self.0).len()
    }

    /// Whether this is the empty key.
    pub fn is_empty(&self) -> (r: bool)
        ensures
            r == (self@.len() == 0),
    {
        bytes_as_slice(&self.0).len() == 0
    }
}

impl Clone for KeyBytes {
    /// A second handle on the same key.
    fn clone(&self) -> (key: Self)
        ensures
            key@ == self@,
    {
        KeyBytes(bytes_clone(&self.0))
    }
}

} // verus!
