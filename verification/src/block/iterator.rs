//! A cursor over the entries of one block.

use std::sync::Arc;
use vstd::prelude::*;
use crate::block::{Block, BlockView};
use crate::key::{key_le, key_lt, lemma_key_lt_total, KeySlice, KeyVec};
use crate::wire::read_u16;

verus! {

impl BlockView {
    /// No entry has the empty key, which a cursor uses to say "no entry".
    pub open spec fn keys_nonempty(self) -> bool {
        forall|i: int| 0 <= i < self.len() ==> (#[trigger] self.key(i)).len() > 0
    }

    /// The keys ascend strictly: the entries are sorted and no key occurs
    /// twice.
    pub open spec fn sorted(self) -> bool {
        forall|i: int, j: int|
            0 <= i < j < self.len() ==> key_lt(#[trigger] self.key(i), #[trigger] self.key(j))
    }

    /// Where a scan from the front for `target` stops: at `at`, after only
    /// keys that sort before `target`, and on a key that does not.
    pub open spec fn seek_stops_at(self, target: Seq<u8>, at: int) -> bool {
        &&& 0 <= at <= self.len()
        &&& forall|j: int| 0 <= j < at ==> key_lt(#[trigger] self.key(j), target)
        &&& at < self.len() ==> key_le(target, self.key(at))
    }
}

impl BlockView {
    /// A scan stops at one place only.
    pub proof fn lemma_seek_unique(self, target: Seq<u8>, a: int, b: int)
        requires
            self.seek_stops_at(target, a),
            self.seek_stops_at(target, b),
        ensures
            a == b,
    {
        if a < b {
            lemma_key_lt_total(self.key(a), target);
        } else if b < a {
            lemma_key_lt_total(self.key(b), target);
        }
    }

    /// In a sorted block a scan for `target` stops on the smallest key
    /// that does not sort before `target`, and past the end exactly when
    /// every key sorts before `target`.
    pub proof fn lemma_seek_smallest(self, target: Seq<u8>, at: int)
        requires
            self.sorted(),
            self.seek_stops_at(target, at),
        ensures
            at < self.len() ==> key_le(target, self.key(at)),
            forall|i: int|
                0 <= i < self.len() && key_le(target, #[trigger] self.key(i)) ==> at < self.len()
                    && key_le(self.key(at), self.key(i)),
            at == self.len() <==> forall|i: int|
                0 <= i < self.len() ==> key_lt(#[trigger] self.key(i), target),
    {
        assert forall|i: int| 0 <= i < self.len() && key_le(target, #[trigger] self.key(i)) implies at
            < self.len() && key_le(self.key(at), self.key(i)) by {
            lemma_key_lt_total(self.key(i), target);
        }
        if at < self.len() {
            lemma_key_lt_total(self.key(at), target);
        }
    }
}

/// What a cursor is: the block it reads, and the index it stands at. The
/// index of an exhausted cursor is the number of entries.
pub struct BlockIteratorView {
    pub block: BlockView,
    pub idx: nat,
}

impl BlockIteratorView {
    /// Whether the cursor stands at an entry.
    pub open spec fn in_range(self) -> bool {
        self.idx < self.block.len()
    }

    /// The key that the cursor shows: that of its entry, or the empty key.
    pub open spec fn key(self) -> Seq<u8> {
        if self.in_range() {
            self.block.key(self.idx as int)
        } else {
            Seq::empty()
        }
    }

    /// The value that the cursor shows: that of its entry, or no bytes.
    pub open spec fn value(self) -> Seq<u8> {
        if self.in_range() {
            self.block.value(self.idx as int)
        } else {
            Seq::empty()
        }
    }

    /// Whether the cursor shows a key: an exhausted cursor shows the empty
    /// key, which stands for "no entry".
    pub open spec fn valid(self) -> bool {
        self.key().len() > 0
    }

    /// The cursor one entry further; an exhausted cursor stays exhausted.
    pub open spec fn step(self) -> BlockIteratorView {
        BlockIteratorView {
            block: self.block,
            idx: if self.in_range() {
                self.idx + 1
            } else {
                self.idx
            },
        }
    }
}

/// Iterates on a block.
pub struct BlockIterator {
    /// The block, shared with whoever else reads it.
    block: Arc<Block>,
    /// The current key; empty when the cursor is exhausted.
    key: KeyVec,
    /// Where the current value lies in the block's data.
    value_range: (usize, usize),
    /// The index of the current entry.
    idx: usize,
    /// The first key in the block, once the cursor has stood there.
    first_key: KeyVec,
}

impl View for BlockIterator {
    type V = BlockIteratorView;

    closed spec fn view(&self) -> BlockIteratorView {
        BlockIteratorView { block: self.block@, idx: self.idx as nat }
    }
}

impl BlockIterator {
    /// The block is well-formed, the index is within it or just past it,
    /// and the key and the value range held are those of the index.
    pub closed spec fn wf(&self) -> bool {
        &&& self.block@.wf()
        &&& self.idx <= self.block@.len()
        &&& self.key@ == self@.key()
        &&& self.value_range == if self@.in_range() {
            (
                (self.block@.key_end(self.idx as int) + 2) as usize,
                self.block@.entry_end(self.idx as int) as usize,
            )
        } else {
            (0usize, 0usize)
        }
    }

    fn new(block: Arc<Block>) -> (iter: Self)
        ensures
            iter.block == block,
            iter.idx == 0,
    {
        BlockIterator {
            block,
            key: KeyVec::new(),
            value_range: (0, 0),
            idx: 0,
            first_key: KeyVec::new(),
        }
    }

    /// Reads the key and the value range of the entry at the index, or
    /// clears them when the index is past the last entry.
    fn load_current(&mut self)
        requires
            old(self).idx <= old(self).block@.len(),
        ensures
            final(self).wf(),
            final(self)@ == old(self)@,
    {
        proof {
            use_type_invariant(&*self.block);
        }
        if self.idx >= self.block.offsets.len() {
            self.key.clear();
            self.value_range = (0, 0);
            return;
        }
        proof {
            assert(self.block@.entry_ok(self.idx as int));
            self.block@.lemma_data_bound();
        }
        let off = self.block.offsets[self.idx] as usize;
        let key_len = read_u16(self.block.data.as_slice(), off) as usize;
        let key_start = off + 2;
        let key_end = key_start + key_len;
        self.key.set_from_slice(KeySlice::from_slice(&self.block.data.as_slice()[key_start..key_end]));
        if 0 == self.idx {
            self.first_key = self.key.as_key_slice().to_key_vec();
        }
        let off = key_end;
        let val_len = read_u16(self.block.data.as_slice(), off) as usize;
        let val_start = off + 2;
        let val_end = val_start + val_len;
        self.value_range = (val_start, val_end);
    }

    /// Creates a cursor on the first entry of `block`.
    pub fn create_and_seek_to_first(block: Arc<Block>) -> (iter: Self)
        ensures
            iter.wf(),
            iter@ == (BlockIteratorView { block: block@, idx: 0 }),
    {
        let mut iter = Self::new(block);
        iter.seek_to_first();
        iter
    }

    /// Creates a cursor on the first entry of `block` whose key does not
    /// sort before `target`.
    pub fn create_and_seek_to_key(block: Arc<Block>, target: KeySlice) -> (iter: Self)
        ensures
            iter.wf(),
            iter@.block == block@,
            block@.seek_stops_at(target@, iter@.idx as int),
    {
        let mut iter = Self::new(block);
        iter.seek_to_key(target);
        iter
    }

    /// The key of the current entry; the empty key when exhausted.
    pub fn key(&self) -> (key: KeySlice<'_>)
        requires
            self.wf(),
        ensures
            key@ == self@.key(),
    {
        self.key.as_key_slice()
    }

    /// The value of the current entry; no bytes when exhausted.
    pub fn value(&self) -> (value: &[u8])
        requires
            self.wf(),
        ensures
            value@ == self@.value(),
    {
        proof {
            if self@.in_range() {
                assert(self.block@.entry_ok(self.idx as int));
                self.block@.lemma_data_bound();
                if self.idx + 1 < self.block@.len() {
                    assert(self.block@.entry_ok(self.idx + 1));
                }
            }
        }
        let value = &self.block.data.as_slice()[self.value_range.0..self.value_range.1];
        assert(value@ =~= self@.value());
        value
    }

    /// Whether the cursor shows a key. In a block without empty keys that
    /// is so exactly while the cursor stands at an entry.
    pub fn is_valid(&self) -> (r: bool)
        requires
            self.wf(),
        ensures
            r == self@.valid(),
            self@.block.keys_nonempty() ==> r == self@.in_range(),
    {
        !self.key.is_empty()
    }

    /// Moves to the first entry.
    pub fn seek_to_first(&mut self)
        ensures
            final(self).wf(),
            final(self)@ == (BlockIteratorView { block: old(self)@.block, idx: 0 }),
    {
        self.idx = 0;
        self.load_current();
    }

    /// Moves to the next entry. After the last entry the cursor is
    /// exhausted, and stays so.
    pub fn next(&mut self)
        requires
            old(self).wf(),
        ensures
            final(self).wf(),
            final(self)@ == old(self)@.step(),
    {
        if self.idx < self.block.offsets.len() {
            self.idx += 1;
        }
        self.load_current();
    }

    /// Moves to the first entry, from the front, whose key does not sort
    /// before `key`; the cursor is exhausted if there is none.
    pub fn seek_to_key(&mut self, key: KeySlice)
        ensures
            final(self).wf(),
            final(self)@.block == old(self)@.block,
            old(self)@.block.seek_stops_at(key@, final(self)@.idx as int),
    {
        self.idx = 0;
        while self.idx < self.block.offsets.len()
            invariant
                self.block@ == old(self).block@,
                self.idx <= self.block@.len(),
                forall|j: int| 0 <= j < self.idx ==> key_lt(#[trigger] self.block@.key(j), key@),
            decreases self.block@.len() - self.idx,
        {
            self.load_current();
            if !self.key().lt(&key) {
                proof {
                    lemma_key_lt_total(self.block@.key(self.idx as int), key@);
                }
                return;
            }
            self.idx += 1;
        }
        self.load_current();
    }

    /// A well-formed cursor reads a well-formed block and stands within it
    /// or just past its end.
    pub proof fn lemma_wf_block(&self)
        requires
            self.wf(),
        ensures
            self@.block.wf(),
            self@.idx <= self@.block.len(),
    {
    }
}

} // verus!
