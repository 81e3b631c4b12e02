//! A block: the unit of reading and caching. It holds key/value entries in
//! one byte buffer, with the offset of each entry beside it.

use vstd::prelude::*;
use bytes::Bytes;
use crate::error::TableError;
use crate::wire::{be16, bytes_view, field_at, hi, lo, read_u16, slice_to_vec, FIELD_MAX};
use crate::wire::{buffer_with_capacity, buffer_extend, buffer_put_u16, buffer_freeze};
use crate::wire::lemma_field_round_trip;

pub mod builder;
pub mod iterator;

pub use builder::BlockBuilder;
pub use iterator::BlockIterator;

verus! {

/// One key with its value.
pub type Entry = (Seq<u8>, Seq<u8>);

/// The bytes of one entry: key length, key, value length, value.
pub open spec fn encode_entry(key: Seq<u8>, value: Seq<u8>) -> Seq<u8> {
    be16(key.len() as u16) + key + be16(value.len() as u16) + value
}

/// Entries encoded one after another.
pub open spec fn entries_bytes(entries: Seq<Entry>) -> Seq<u8>
    decreases entries.len(),
{
    if entries.len() == 0 {
        Seq::empty()
    } else {
        entries_bytes(entries.drop_last()) + encode_entry(entries.last().0, entries.last().1)
    }
}

/// What a block is: the entry bytes, and where each entry starts in them.
pub struct BlockView {
    pub data: Seq<u8>,
    pub offsets: Seq<u16>,
}

impl BlockView {
    /// The block without entries.
    pub open spec fn empty() -> BlockView {
        BlockView { data: Seq::empty(), offsets: Seq::empty() }
    }

    /// The number of entries.
    pub open spec fn len(self) -> nat {
        self.offsets.len()
    }

    /// Where entry `i` starts.
    pub open spec fn start(self, i: int) -> int {
        self.offsets[i] as int
    }

    /// Where the key of entry `i` ends.
    pub open spec fn key_end(self, i: int) -> int {
        self.start(i) + 2 + field_at(self.data, self.start(i))
    }

    /// Where entry `i` ends.
    pub open spec fn entry_end(self, i: int) -> int {
        self.key_end(i) + 2 + field_at(self.data, self.key_end(i))
    }

    /// Where entry `i` has to end: at the start of the next entry, or at the
    /// end of the data.
    pub open spec fn limit(self, i: int) -> int {
        if i + 1 < self.len() {
            self.start(i + 1)
        } else {
            self.data.len() as int
        }
    }

    /// Entry `i` lies within the data and fills its place exactly.
    pub open spec fn entry_ok(self, i: int) -> bool {
        &&& self.key_end(i) + 2 <= self.data.len()
        &&& self.entry_end(i) == self.limit(i)
    }

    /// The data is the entries one after another, and the offsets are where
    /// they start.
    pub open spec fn wf(self) -> bool {
        &&& self.len() <= FIELD_MAX
        &&& self.len() == 0 ==> self.data.len() == 0
        &&& self.len() > 0 ==> self.start(0) == 0
        &&& forall|i: int| 0 <= i < self.len() ==> #[trigger] self.entry_ok(i)
    }

    /// The key of entry `i`.
    pub open spec fn key(self, i: int) -> Seq<u8> {
        self.data.subrange(self.start(i) + 2, self.key_end(i))
    }

    /// The value of entry `i`.
    pub open spec fn value(self, i: int) -> Seq<u8> {
        self.data.subrange(self.key_end(i) + 2, self.entry_end(i))
    }

    /// The entries in order.
    pub open spec fn entries(self) -> Seq<Entry> {
        Seq::new(self.len(), |i: int| (self.key(i), self.value(i)))
    }

    /// The block with one more entry at its end.
    pub open spec fn push(self, key: Seq<u8>, value: Seq<u8>) -> BlockView {
        BlockView {
            data: self.data + encode_entry(key, value),
            offsets: self.offsets.push(self.data.len() as u16),
        }
    }

    /// The offsets as bytes, each big-endian.
    pub open spec fn offsets_bytes(self) -> Seq<u8> {
        Seq::new(
            2 * self.len(),
            |j: int| if j % 2 == 0 { hi(self.offsets[j / 2]) } else { lo(self.offsets[j / 2]) },
        )
    }

    /// The encoded block: the data, the offsets, the number of entries.
    pub open spec fn encode(self) -> Seq<u8> {
        self.data + self.offsets_bytes() + be16(self.len() as u16)
    }

    /// The block that `b` encodes, if it encodes one.
    pub open spec fn decode(b: Seq<u8>) -> Option<BlockView> {
        if b.len() < 2 {
            None
        } else {
            let n = field_at(b, b.len() - 2) as int;
            let at = b.len() - 2 - 2 * n;
            let v = BlockView {
                data: b.take(at),
                offsets: Seq::new(n as nat, |i: int| field_at(b, at + 2 * i)),
            };
            if at >= 0 && v.wf() {
                Some(v)
            } else {
                None
            }
        }
    }
}

impl BlockView {
    /// The data of a well-formed block is bounded: every entry starts within
    /// the reach of a 16-bit offset and has 16-bit lengths.
    pub proof fn lemma_data_bound(self)
        requires
            self.wf(),
        ensures
            self.data.len() <= 3 * FIELD_MAX + 4,
    {
        if self.len() > 0 {
            assert(self.entry_ok(self.len() - 1));
        }
    }

    /// The keys and values of a well-formed block have 16-bit lengths.
    pub proof fn lemma_entry_lengths(self, i: int)
        requires
            self.wf(),
            0 <= i < self.len(),
        ensures
            self.key(i).len() <= FIELD_MAX,
            self.value(i).len() <= FIELD_MAX,
            self.key(i).len() == field_at(self.data, self.start(i)),
            self.value(i).len() == field_at(self.data, self.key_end(i)),
    {
        assert(self.entry_ok(i));
        if i + 1 < self.len() {
            assert(self.entry_ok(i + 1));
        }
    }

    /// The offsets ascend strictly: an entry starts no earlier than where
    /// the entries before it end.
    pub proof fn lemma_starts_increase(self, i: int, j: int)
        requires
            self.wf(),
            0 <= i < j < self.len(),
        ensures
            self.entry_end(i) <= self.start(j),
            self.start(i) < self.start(j),
        decreases j - i,
    {
        assert(self.entry_ok(i));
        if i + 1 < j {
            assert(self.entry_ok(i + 1));
            self.lemma_starts_increase(i + 1, j);
        }
    }

    /// The block without its last entry.
    pub open spec fn drop_last(self) -> BlockView {
        BlockView {
            data: self.data.take(self.start(self.len() - 1)),
            offsets: self.offsets.drop_last(),
        }
    }

    /// A well-formed block without its last entry is well-formed, holds
    /// the other entries, and gives the block back when the entry is put
    /// at its end again.
    pub proof fn lemma_drop_last(self)
        requires
            self.wf(),
            self.len() > 0,
        ensures
            self.drop_last().wf(),
            self.drop_last().entries() == self.entries().drop_last(),
            self.drop_last().push(self.entries().last().0, self.entries().last().1) == self,
    {
        let front = self.drop_last();
        let n = self.len() - 1;
        let cut = self.start(n);
        assert(self.entry_ok(n));
        assert forall|i: int| 0 <= i < n implies #[trigger] front.entry_ok(i) && front.key(i)
            == self.key(i) && front.value(i) == self.value(i) by {
            assert(self.entry_ok(i));
            self.lemma_starts_increase(i, n);
            assert(front.start(i) == self.start(i));
            assert(field_at(front.data, self.start(i)) == field_at(self.data, self.start(i)));
            assert(field_at(front.data, self.key_end(i)) == field_at(self.data, self.key_end(i)));
            assert(front.key(i) =~= self.key(i));
            assert(front.value(i) =~= self.value(i));
        }
        assert forall|i: int| 0 <= i < n implies front.entries()[i] == self.entries().drop_last()[i] by {
            assert(front.entry_ok(i));
        }
        assert(front.entries() =~= self.entries().drop_last());
        let key = self.key(n);
        let value = self.value(n);
        self.lemma_entry_lengths(n);
        crate::wire::lemma_bytes_round_trip(self.data[cut], self.data[cut + 1]);
        crate::wire::lemma_bytes_round_trip(
            self.data[self.key_end(n)],
            self.data[self.key_end(n) + 1],
        );
        assert(front.push(key, value).data =~= self.data);
        assert(front.push(key, value).offsets =~= self.offsets);
    }

    /// The data of a well-formed block is its entries, encoded one after
    /// another, and each offset is the length of the entries before it.
    pub proof fn lemma_data_is_entries(self)
        requires
            self.wf(),
        ensures
            self.data == entries_bytes(self.entries()),
            forall|i: int|
                0 <= i < self.len() ==> #[trigger] self.start(i) == entries_bytes(
                    self.entries().take(i),
                ).len(),
        decreases self.len(),
    {
        if self.len() == 0 {
            assert(self.entries() =~= Seq::<Entry>::empty());
        } else {
            let front = self.drop_last();
            let n = self.len() - 1;
            self.lemma_drop_last();
            front.lemma_data_is_entries();
            assert forall|i: int| 0 <= i < self.len() implies #[trigger] self.start(i)
                == entries_bytes(self.entries().take(i)).len() by {
                if i < n {
                    assert(front.start(i) == self.start(i));
                    assert(front.entries().take(i) =~= self.entries().take(i));
                } else {
                    assert(self.entries().take(i) =~= front.entries());
                }
            }
        }
    }

    /// A well-formed block is determined by its entries.
    pub proof fn lemma_entries_determine(self, other: BlockView)
        requires
            self.wf(),
            other.wf(),
            self.entries() == other.entries(),
        ensures
            self == other,
    {
        self.lemma_data_is_entries();
        other.lemma_data_is_entries();
        assert(self.len() == self.entries().len() && other.len() == other.entries().len());
        assert forall|i: int| 0 <= i < self.len() implies self.offsets[i] == other.offsets[i] by {
            assert(self.start(i) == other.start(i));
        }
        assert(self.offsets =~= other.offsets);
    }

    /// A well-formed block stays well-formed when an entry that fits the
    /// format is put at its end, and keeps the entries it had.
    pub proof fn lemma_push(self, key: Seq<u8>, value: Seq<u8>)
        requires
            self.wf(),
            key.len() <= FIELD_MAX,
            value.len() <= FIELD_MAX,
            self.data.len() <= FIELD_MAX,
            self.len() < FIELD_MAX,
        ensures
            self.push(key, value).wf(),
            self.push(key, value).entries() == self.entries().push((key, value)),
    {
        let next = self.push(key, value);
        let n = self.len() as int;
        let at = self.data.len() as int;
        let e = encode_entry(key, value);
        lemma_field_round_trip(key.len() as u16);
        lemma_field_round_trip(value.len() as u16);
        assert(next.start(n) == at);
        assert(next.data[at] == e[0] && next.data[at + 1] == e[1]);
        assert(field_at(next.data, at) == key.len());
        assert(next.key_end(n) == at + 2 + key.len());
        let ke = next.key_end(n);
        assert(next.data[ke] == e[ke - at] && next.data[ke + 1] == e[ke - at + 1]);
        assert(field_at(next.data, ke) == value.len());
        assert(next.entry_ok(n));
        assert(next.key(n) =~= key);
        assert(next.value(n) =~= value);
        assert forall|i: int| 0 <= i < n implies #[trigger] next.entry_ok(i) && next.key(i)
            == self.key(i) && next.value(i) == self.value(i) by {
            assert(self.entry_ok(i));
            assert(self.limit(i) <= self.data.len()) by {
                if i + 1 < n {
                    assert(self.entry_ok(i + 1));
                }
            }
            assert(next.start(i) == self.start(i));
            assert(field_at(next.data, self.start(i)) == field_at(self.data, self.start(i)));
            assert(next.key_end(i) == self.key_end(i));
            assert(field_at(next.data, self.key_end(i)) == field_at(self.data, self.key_end(i)));
            assert(next.key(i) =~= self.key(i));
            assert(next.value(i) =~= self.value(i));
        }
        assert forall|i: int| 0 <= i < next.len() implies next.entries()[i]
            == self.entries().push((key, value))[i] by {
            if i < n {
                assert(next.entry_ok(i));
            }
        }
        assert(next.entries() =~= self.entries().push((key, value)));
    }

    /// Decoding the encoding of a well-formed block gives the block back.
    pub proof fn lemma_decode_encode(self)
        requires
            self.wf(),
        ensures
            BlockView::decode(self.encode()) == Some(self),
    {
        let b = self.encode();
        let n = self.len() as int;
        let at = self.data.len() as int;
        lemma_field_round_trip(n as u16);
        assert(b.len() == at + 2 * n + 2);
        assert(b[b.len() - 2] == hi(n as u16) && b[b.len() - 1] == lo(n as u16));
        assert(field_at(b, b.len() - 2) == n);
        let offsets = Seq::new(n as nat, |i: int| field_at(b, at + 2 * i));
        assert forall|i: int| 0 <= i < n implies offsets[i] == self.offsets[i] by {
            lemma_field_round_trip(self.offsets[i]);
            assert(b[at + 2 * i] == self.offsets_bytes()[2 * i]);
            assert(b[at + 2 * i + 1] == self.offsets_bytes()[2 * i + 1]);
        }
        assert(offsets =~= self.offsets);
        assert(b.take(at) =~= self.data);
    }

    /// Encoding the block that bytes decode to gives the bytes back.
    pub proof fn lemma_encode_decode(b: Seq<u8>)
        requires
            BlockView::decode(b) is Some,
        ensures
            BlockView::decode(b).unwrap().encode() == b,
    {
        let v = BlockView::decode(b).unwrap();
        let n = v.len() as int;
        let at = b.len() - 2 - 2 * n;
        let e = v.encode();
        assert(e.len() == b.len());
        assert forall|j: int| 0 <= j < b.len() implies e[j] == b[j] by {
            if j < at {
            } else if j < at + 2 * n {
                let k = j - at;
                let i = k / 2;
                crate::wire::lemma_bytes_round_trip(b[at + 2 * i], b[at + 2 * i + 1]);
                assert(e[j] == v.offsets_bytes()[k]);
                assert(v.offsets[i] == field_at(b, at + 2 * i));
            } else {
                crate::wire::lemma_bytes_round_trip(b[b.len() - 2], b[b.len() - 1]);
            }
        }
        assert(e =~= b);
    }
}

/// A block of sorted key/value entries, immutable once built or decoded.
pub struct Block {
    pub(crate) data: Vec<u8>,
    pub(crate) offsets: Vec<u16>,
}

impl View for Block {
    type V = BlockView;

    open(crate) spec fn view(&self) -> BlockView {
        BlockView { data: self.data@, offsets: self.offsets@ }
    }
}

/// Whether `offsets` are the starts of entries that fill `data` exactly.
pub(crate) fn layout_ok(data: &[u8], offsets: &[u16]) -> (ok: bool)
    ensures
        ok == (BlockView { data: data@, offsets: offsets@ }).wf(),
{
    let ghost v = BlockView { data: data@, offsets: offsets@ };
    let n = offsets.len();
    let len = data.len();
    if n == 0 {
        return len == 0;
    }
    if n > FIELD_MAX || offsets[0] != 0 {
        return false;
    }
    let mut i: usize = 0;
    while i < n
        invariant
            i <= n,
            n == offsets@.len(),
            len == data@.len(),
            v == (BlockView { data: data@, offsets: offsets@ }),
            forall|j: int| 0 <= j < i ==> #[trigger] v.entry_ok(j),
        decreases n - i,
    {
        let start = offsets[i] as usize;
        let limit = if i + 1 < n { offsets[i + 1] as usize } else { len };
        if len < 4 || start > len - 4 {
            assert(!v.entry_ok(i as int));
            return false;
        }
        let key_len = read_u16(data, start) as usize;
        let key_end = start + 2 + key_len;
        if key_end > len - 2 {
            assert(!v.entry_ok(i as int));
            return false;
        }
        let value_len = read_u16(data, key_end) as usize;
        if key_end + 2 + value_len != limit {
            assert(!v.entry_ok(i as int));
            return false;
        }
        i = i + 1;
    }
    true
}

impl Block {
    #[verifier::type_invariant]
    spec fn well_formed(self) -> bool {
        self@.wf()
    }

    /// Encodes the block: the entry bytes as they are, then each offset as
    /// a big-endian 16-bit value, then the number of entries as one.
    pub fn encode(&self) -> (bytes: Bytes)
        ensures
            bytes_view(bytes) == self@.encode(),
    {
        proof {
            use_type_invariant(self);
            self@.lemma_data_bound();
        }
        let n = self.offsets.len();
        let buf_size = self.data.len() + n * 2 + 2;
        let mut buf = buffer_with_capacity(buf_size);
        buffer_extend(&mut buf, self.data.as_slice());
        let mut i: usize = 0;
        while i < n
            invariant
                i <= n,
                n == self.offsets@.len(),
                n <= FIELD_MAX,
                self.data@.len() <= 3 * FIELD_MAX + 4,
                crate::wire::bytes_mut_view(buf) == self.data@ + self@.offsets_bytes().take(2 * i),
            decreases n - i,
        {
            buffer_put_u16(&mut buf, self.offsets[i]);
            assert(self@.offsets_bytes().take(2 * (i + 1)) =~= self@.offsets_bytes().take(2 * i)
                + be16(self.offsets@[i as int]));
            i = i + 1;
        }
        assert(self@.offsets_bytes().take(2 * n) =~= self@.offsets_bytes());
        buffer_put_u16(&mut buf, n as u16);
        buffer_freeze(buf)
    }

    /// Decodes a block from its encoding. Bytes that are too short for the
    /// count they end with, or whose offsets do not mark entries that fill
    /// the data exactly, are refused.
    pub fn decode(data: &[u8]) -> (res: Result<Block, TableError>)
        ensures
            match res {
                Ok(block) => BlockView::decode(data@) == Some(block@),
                Err(e) => e == TableError::CorruptFormat && BlockView::decode(data@) is None,
            },
    {
        let len = data.len();
        if len < 2 {
            return Err(TableError::CorruptFormat);
        }
        let total_records = read_u16(data, len - 2) as usize;
        if len - 2 < total_records * 2 {
            return Err(TableError::CorruptFormat);
        }
        let off_start = len - 2 - total_records * 2;
        let ghost want = Seq::new(total_records as nat, |i: int| field_at(data@, off_start + 2 * i));
        let mut offsets: Vec<u16> = Vec::with_capacity(total_records);
        let mut idx: usize = 0;
        while idx < total_records
            invariant
                idx <= total_records,
                len == data@.len(),
                off_start + 2 * total_records + 2 == len,
                offsets@ == want.take(idx as int),
                want == Seq::new(total_records as nat, |i: int| field_at(data@, off_start + 2 * i)),
            decreases total_records - idx,
        {
            let off_value = read_u16(data, off_start + idx * 2);
            offsets.push(off_value);
            assert(want.take(idx + 1) =~= want.take(idx as int).push(off_value));
            idx = idx + 1;
        }
        assert(want.take(total_records as int) =~= want);
        let entry_data = slice_to_vec(&data[0..off_start]);
        assert(entry_data@ =~= data@.take(off_start as int));
        if !layout_ok(entry_data.as_slice(), offsets.as_slice()) {
            return Err(TableError::CorruptFormat);
        }
        Ok(Block { data: entry_data, offsets })
    }
}

} // verus!
