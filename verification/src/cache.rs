//! The block cache: decoded blocks kept by table and block index, so that
//! a block is read from its file once.

use std::collections::HashMap;
use std::sync::Arc;
use vstd::prelude::*;
use crate::block::{Block, BlockView};

verus! {

/// What a block cache is: the blocks it holds, each under the identifier of
/// its table and its index in that table.
pub type BlockCacheView = Map<(nat, nat), BlockView>;

/// The key under which the map of a cache holds a block: the table
/// identifier in the upper half, the block index in the lower.
pub open spec fn slot(table_id: nat, block_idx: nat) -> u128 {
    (table_id * 0x1_0000_0000_0000_0000 + block_idx) as u128
}

/// `after` holds all that `before` held, and besides that only blocks of
/// table `table_id`.
pub open spec fn grown_for(before: BlockCacheView, after: BlockCacheView, table_id: nat) -> bool {
    &&& forall|k: (nat, nat)| #[trigger]
        before.contains_key(k) ==> after.contains_key(k) && after[k] == before[k]
    &&& forall|k: (nat, nat)| #[trigger]
        after.contains_key(k) && !before.contains_key(k) ==> k.0 == table_id
}

/// `Arc::clone`: a second handle on the same block.
#[verifier::external_body]
pub(crate) fn share(block: &Arc<Block>) -> (shared: Arc<Block>)
    ensures
        shared == *block,
{
    block.clone()
}

/// A store of decoded blocks.
pub struct BlockCache {
    blocks: HashMap<u128, Arc<Block>>,
}

impl View for BlockCache {
    type V = BlockCacheView;

    closed spec fn view(&self) -> BlockCacheView {
        Map::new(
            |k: (nat, nat)|
                k.0 <= usize::MAX && k.1 <= usize::MAX && self.blocks@.contains_key(
                    slot(k.0, k.1),
                ),
            |k: (nat, nat)| self.blocks@[slot(k.0, k.1)]@,
        )
    }
}

impl BlockCache {
    /// An empty cache.
    pub fn new() -> (cache: Self)
        ensures
            cache@ == Map::<(nat, nat), BlockView>::empty(),
    {
        let cache = BlockCache { blocks: HashMap::new() };
        assert(cache@ =~= Map::<(nat, nat), BlockView>::empty());
        cache
    }

    /// The key of a block in the map.
    fn slot_of(table_id: usize, block_idx: usize) -> (key: u128)
        ensures
            key == slot(table_id as nat, block_idx as nat),
    {
        (table_id as u128) * 0x1_0000_0000_0000_0000u128 + (block_idx as u128)
    }

    /// The block held for block `block_idx` of table `table_id`, if any.
    pub fn get(&self, table_id: usize, block_idx: usize) -> (res: Option<Arc<Block>>)
        ensures
            match res {
                Some(block) => self@.contains_key((table_id as nat, block_idx as nat))
                    && self@[(table_id as nat, block_idx as nat)] == block@,
                None => !self@.contains_key((table_id as nat, block_idx as nat)),
            },
    {
        let key = Self::slot_of(table_id, block_idx);
        match self.blocks.get(&key) {
            Some(block) => Some(share(block)),
            None => None,
        }
    }

    /// Holds `block` for block `block_idx` of table `table_id` from now
    /// on, in place of the one held for it before, if any.
    pub fn insert(&mut self, table_id: usize, block_idx: usize, block: Arc<Block>)
        ensures
            final(self)@ == old(self)@.insert((table_id as nat, block_idx as nat), block@),
    {
        let key = Self::slot_of(table_id, block_idx);
        self.blocks.insert(key, block);
        proof {
            let want = old(self)@.insert((table_id as nat, block_idx as nat), block@);
            assert forall|k: (nat, nat)| k.0 <= usize::MAX && k.1 <= usize::MAX implies (slot(
                k.0,
                k.1,
            ) == key <==> k == (table_id as nat, block_idx as nat)) by {}
            assert(self@ =~= want);
        }
    }
}

} // verus!
