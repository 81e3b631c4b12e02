//! Filling a block entry by entry under a byte budget.

use vstd::prelude::*;
use crate::block::{Block, BlockView};
use crate::error::TableError;
use crate::key::{KeySlice, KeyVec};
use crate::wire::{vec_put_u16, FIELD_MAX};

verus! {

/// The budget that an entry takes: its two length fields, its bytes, and
/// the slot for its offset.
pub open spec fn entry_need(key: Seq<u8>, value: Seq<u8>) -> nat {
    key.len() + value.len() + 6
}

/// What a block builder is: the block so far, and the budget it was given.
pub struct BlockBuilderView {
    pub block: BlockView,
    pub capacity: nat,
}

impl BlockBuilderView {
    /// The budget used so far: the entry bytes and one offset slot each.
    pub open spec fn used(self) -> nat {
        self.block.data.len() + 2 * self.block.len()
    }

    /// The budget that is left. An entry larger than the whole budget,
    /// accepted as the first one, leaves none.
    pub open spec fn remaining(self) -> nat {
        if self.used() <= self.capacity {
            (self.capacity - self.used()) as nat
        } else {
            0
        }
    }

    /// The key or the value is longer than a 16-bit length can say.
    pub open spec fn too_long(key: Seq<u8>, value: Seq<u8>) -> bool {
        key.len() > FIELD_MAX || value.len() > FIELD_MAX
    }

    /// The block holds an entry already and the new one is over the budget.
    pub open spec fn full_for(self, key: Seq<u8>, value: Seq<u8>) -> bool {
        self.block.len() > 0 && self.remaining() < entry_need(key, value)
    }

    /// A further entry would start beyond the reach of a 16-bit offset, or
    /// be one more than a 16-bit count can say.
    pub open spec fn out_of_reach(self) -> bool {
        self.block.len() > 0 && (self.block.data.len() > FIELD_MAX || self.block.len()
            >= FIELD_MAX)
    }

    /// What `add` answers for an entry.
    pub open spec fn add_outcome(self, key: Seq<u8>, value: Seq<u8>) -> Result<bool, TableError> {
        if Self::too_long(key, value) {
            Err(TableError::CapacityExceeded)
        } else if self.full_for(key, value) {
            Ok(false)
        } else if self.out_of_reach() {
            Err(TableError::CapacityExceeded)
        } else {
            Ok(true)
        }
    }

    /// The builder after it has accepted an entry.
    pub open spec fn push(self, key: Seq<u8>, value: Seq<u8>) -> BlockBuilderView {
        BlockBuilderView { block: self.block.push(key, value), capacity: self.capacity }
    }
}

impl BlockBuilderView {
    /// An entry that fits the format is turned away as "full" exactly
    /// when the block holds an entry and the new one would take the bytes
    /// used beyond the budget.
    pub proof fn lemma_full_exactly_over_budget(self, key: Seq<u8>, value: Seq<u8>)
        requires
            !Self::too_long(key, value),
        ensures
            self.add_outcome(key, value) == Ok::<bool, TableError>(false) <==> self.block.len() > 0
                && self.used() + entry_need(key, value) > self.capacity,
    {
    }

    /// A builder that has accepted an entry is not empty.
    pub proof fn lemma_accepted_not_empty(self, key: Seq<u8>, value: Seq<u8>)
        ensures
            self.push(key, value).block.len() == self.block.len() + 1,
    {
    }

    /// An empty block accepts any entry that fits the format, whatever
    /// the budget.
    pub proof fn lemma_first_entry_accepted(self, key: Seq<u8>, value: Seq<u8>)
        requires
            self.block.len() == 0,
            !Self::too_long(key, value),
        ensures
            self.add_outcome(key, value) == Ok::<bool, TableError>(true),
    {
    }
}

/// Builds a block.
pub struct BlockBuilder {
    /// Offsets of the entries.
    offsets: Vec<u16>,
    /// The entries, encoded one after another.
    data: Vec<u8>,
    /// The budget that is left.
    block_size: usize,
    /// The first key in the block.
    first_key: KeyVec,
    /// The budget that the builder started with.
    capacity: Ghost<nat>,
}

impl View for BlockBuilder {
    type V = BlockBuilderView;

    closed spec fn view(&self) -> BlockBuilderView {
        BlockBuilderView {
            block: BlockView { data: self.data@, offsets: self.offsets@ },
            capacity: self.capacity@,
        }
    }
}

impl BlockBuilder {
    /// The entries are laid out as a block's are, and the budget left is
    /// what the entries have not used.
    pub closed spec fn wf(&self) -> bool {
        &&& self@.block.wf()
        &&& self.block_size == self@.remaining()
        &&& self.first_key@ == if self@.block.len() > 0 {
            self@.block.key(0)
        } else {
            Seq::<u8>::empty()
        }
    }

    /// A well-formed builder holds a well-formed block.
    pub proof fn lemma_wf_block(&self)
        requires
            self.wf(),
        ensures
            self@.block.wf(),
    {
    }

    /// Creates a builder for a block of `block_size` bytes, two of which
    /// are kept for the entry count.
    pub fn new(block_size: usize) -> (builder: Self)
        requires
            block_size >= 2,
        ensures
            builder.wf(),
            builder@.block == BlockView::empty(),
            builder@.capacity == block_size - 2,
    {
        let rest_space = block_size - 2;
        BlockBuilder {
            offsets: Vec::new(),
            data: Vec::new(),
            block_size: rest_space,
            first_key: KeyVec::new(),
            capacity: Ghost(rest_space as nat),
        }
    }

    /// Adds an entry at the end of the block. `Ok(false)` says that the
    /// block is full and was left as it was. The first entry of a block is
    /// accepted whatever its size.
    pub fn add(&mut self, key: KeySlice, value: &[u8]) -> (res: Result<bool, TableError>)
        requires
            old(self).wf(),
        ensures
            final(self).wf(),
            res == old(self)@.add_outcome(key@, value@),
            res == Ok::<bool, TableError>(true) ==> final(self)@ == old(self)@.push(key@, value@)
                && final(self)@.block.entries() == old(self)@.block.entries().push(
                (key@, value@),
            ),
            res != Ok::<bool, TableError>(true) ==> final(self)@ == old(self)@,
    {
        let key_len = key.len();
        let value_len = value.len();
        if key_len > FIELD_MAX || value_len > FIELD_MAX {
            return Err(TableError::CapacityExceeded);
        }
        let need_space = 2 + key_len + 2 + value_len + 2;
        let non_empty = !self.is_empty();
        if non_empty && self.block_size < need_space {
            return Ok(false);
        }
        if non_empty && (self.data.len() > FIELD_MAX || self.offsets.len() >= FIELD_MAX) {
            return Err(TableError::CapacityExceeded);
        }
        proof {
            if !non_empty {
                assert(self@.block.data.len() == 0);
            }
            self@.block.lemma_push(key@, value@);
        }
        let ghost before = self@;
        let cur_pos = self.data.len() as u16;
        if cur_pos == 0 {
            self.first_key = key.to_key_vec();
        }
        self.offsets.push(cur_pos);
        vec_put_u16(&mut self.data, key_len as u16);
        self.data.extend_from_slice(key.raw_ref());
        vec_put_u16(&mut self.data, value_len as u16);
        self.data.extend_from_slice(value);
        self.block_size = self.block_size.saturating_sub(need_space);
        proof {
            assert(self@.block.data =~= before.push(key@, value@).block.data);
            assert(self@ == before.push(key@, value@));
            let now = self@.block;
            assert(now.entries()[0] == (now.key(0), now.value(0)));
            if before.block.len() > 0 {
                assert(before.block.entries()[0] == (before.block.key(0), before.block.value(
                    0,
                )));
                assert(before.block.entry_ok(0));
            }
        }
        Ok(true)
    }

    /// The number of bytes that the block takes when encoded.
    pub fn encoded_size(&self) -> (n: usize)
        requires
            self.wf(),
        ensures
            n == self@.block.encode().len(),
            n == self@.used() + 2,
    {
        proof {
            self@.block.lemma_data_bound();
        }
        self.data.len() + self.offsets.len() * 2 + 2
    }

    /// Whether the block has no entry yet.
    pub fn is_empty(&self) -> (r: bool)
        ensures
            r == (self@.block.len() == 0),
    {
        self.offsets.is_empty()
    }

    /// Finishes the block.
    pub fn build(self) -> (block: Block)
        requires
            self.wf(),
        ensures
            block@ == self@.block,
            block@.wf(),
    {
        Block { data: self.data, offsets: self.offsets }
    }
}

} // verus!
