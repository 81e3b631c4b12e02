//! A cursor over all entries of a table, block after block.

use std::sync::Arc;
use vstd::prelude::*;
use crate::block::iterator::{BlockIterator, BlockIteratorView};
use crate::block::BlockView;
use crate::cache::{grown_for, BlockCache};
use crate::error::TableError;
use crate::key::{key_le, key_lt, lemma_key_lt_total, lemma_key_lt_transitive, KeySlice};
use crate::table::builder::{built_table, entries_sorted, lemma_built_block};
use crate::table::builder::{lemma_entries_ascend, lemma_entry_in_table, table_entries};
use crate::table::{SsTable, SsTableView};
use crate::wire::FIELD_MAX;

verus! {

/// A place in a table: a block, and a cursor in that block.
pub type Place = (nat, BlockIteratorView);

impl SsTableView {
    /// Where a cursor comes to rest: where it is, if it shows a key or
    /// stands in the last block; else in the first block behind it in
    /// which the cursor on the first entry shows a key, or at the end of
    /// the last block.
    pub open spec fn settle(self, blk: nat, cursor: BlockIteratorView) -> Result<Place, TableError>
        decreases self.metas.len() - blk,
    {
        if cursor.valid() || blk + 1 >= self.metas.len() {
            Ok((blk, cursor))
        } else {
            match self.block(blk + 1) {
                Ok(block) => self.settle(blk + 1, BlockIteratorView { block, idx: 0 }),
                Err(e) => Err(e),
            }
        }
    }

    /// Where a cursor set on the first entry of the table rests.
    pub open spec fn first_place(self) -> Result<Place, TableError> {
        match self.block(0) {
            Ok(block) => self.settle(0, BlockIteratorView { block, idx: 0 }),
            Err(e) => Err(e),
        }
    }

    /// The block in which a search for `key` begins: the one that
    /// `found` names, or the first block if `found` names none.
    pub open spec fn seek_block(self, found: nat) -> nat {
        if found < self.metas.len() {
            found
        } else {
            0
        }
    }

    /// Where a cursor rests that begins in the block that `found` names
    /// and is set on entry `at` of that block.
    pub open spec fn seek_from(self, found: nat, at: int) -> Result<Place, TableError> {
        match self.block(self.seek_block(found)) {
            Ok(block) => self.settle(
                self.seek_block(found),
                BlockIteratorView { block, idx: at as nat },
            ),
            Err(e) => Err(e),
        }
    }

    /// `place` is where a cursor rests that was sent to `key`: the
    /// search begins in the last block whose first key does not sort
    /// behind `key`, stops there as a scan of that block does, and
    /// settles.
    pub open spec fn seek_rests_at(self, key: Seq<u8>, place: Result<Place, TableError>) -> bool {
        exists|found: nat, at: int|
            {
                &&& self.finds(key, found)
                &&& self.block(self.seek_block(found)) is Ok ==> self.block(
                    self.seek_block(found),
                ).unwrap().seek_stops_at(key, at)
                &&& place == #[trigger] self.seek_from(found, at)
            }
    }
}

impl SsTableView {
    /// A cursor sent to `key` rests at one place only.
    pub proof fn lemma_seek_rests_unique(
        self,
        key: Seq<u8>,
        a: Result<Place, TableError>,
        b: Result<Place, TableError>,
    )
        requires
            self.seek_rests_at(key, a),
            self.seek_rests_at(key, b),
        ensures
            a == b,
    {
        let (found_a, at_a) = choose|found: nat, at: int|
            {
                &&& self.finds(key, found)
                &&& self.block(self.seek_block(found)) is Ok ==> self.block(
                    self.seek_block(found),
                ).unwrap().seek_stops_at(key, at)
                &&& a == #[trigger] self.seek_from(found, at)
            };
        let (found_b, at_b) = choose|found: nat, at: int|
            {
                &&& self.finds(key, found)
                &&& self.block(self.seek_block(found)) is Ok ==> self.block(
                    self.seek_block(found),
                ).unwrap().seek_stops_at(key, at)
                &&& b == #[trigger] self.seek_from(found, at)
            };
        self.lemma_finds_unique(key, found_a, found_b);
        if self.block(self.seek_block(found_a)) is Ok {
            self.block(self.seek_block(found_a)).unwrap().lemma_seek_unique(key, at_a, at_b);
        }
    }
}

/// Every block is well-formed, holds an entry, has no empty key, and
/// fits a frame: what a cursor needs to pass through all of a table.
pub open spec fn scannable(blocks: Seq<BlockView>) -> bool {
    forall|i: int|
        0 <= i < blocks.len() ==> {
            &&& (#[trigger] blocks[i]).wf()
            &&& blocks[i].len() > 0
            &&& blocks[i].keys_nonempty()
            &&& blocks[i].encode().len() <= FIELD_MAX
        }
}

/// How many entries of the table lie before a place.
pub open spec fn scan_position(blocks: Seq<BlockView>, place: Place) -> nat {
    table_entries(blocks.take(place.0 as int)).len() + place.1.idx
}

/// In a built table a cursor set on the first entry rests there, before
/// which no entry lies.
pub proof fn lemma_scan_first(blocks: Seq<BlockView>, id: nat)
    requires
        scannable(blocks),
        blocks.len() > 0,
    ensures
        built_table(blocks, id).first_place() == Ok::<Place, TableError>(
            (0, BlockIteratorView { block: blocks[0], idx: 0 }),
        ),
        scan_position(blocks, (0, BlockIteratorView { block: blocks[0], idx: 0 })) == 0,
{
    lemma_built_block(blocks, id, 0);
    assert(blocks[0].key(0).len() > 0);
    assert(blocks.take(0) =~= Seq::<BlockView>::empty());
}

/// In a built table a cursor on entry `idx` of block `blk` shows the
/// entry of the table that has as many entries before it as the place
/// says, and `next` moves it to the place that has one more before it:
/// on the following entry while there is one, else at the end of the
/// table, where it shows no key.
pub proof fn lemma_scan_next(blocks: Seq<BlockView>, id: nat, blk: nat, idx: nat)
    requires
        scannable(blocks),
        blk < blocks.len(),
        idx < blocks[blk as int].len(),
    ensures
        ({
            let table = built_table(blocks, id);
            let entries = table_entries(blocks);
            let cursor = BlockIteratorView { block: blocks[blk as int], idx };
            let here = scan_position(blocks, (blk, cursor));
            let next = table.settle(blk, cursor.step());
            &&& here < entries.len()
            &&& cursor.valid()
            &&& (cursor.key(), cursor.value()) == entries[here as int]
            &&& next is Ok
            &&& scan_position(blocks, next.unwrap()) == here + 1
            &&& next.unwrap().0 < blocks.len()
            &&& next.unwrap().1.block == blocks[next.unwrap().0 as int]
            &&& here + 1 < entries.len() ==> next.unwrap().1.in_range() && next.unwrap().1.valid()
            &&& here + 1 == entries.len() ==> !next.unwrap().1.valid()
        }),
{
    let table = built_table(blocks, id);
    let block = blocks[blk as int];
    let cursor = BlockIteratorView { block, idx };
    let n = blocks.len() as int;
    let b = blk as int;
    let i = idx as int;
    lemma_entry_in_table(blocks, b, i);
    assert(block.key(i).len() > 0);
    lemma_entry_in_table(blocks, n - 1, 0);
    assert(blocks.take(n) =~= blocks);
    let entries = table_entries(blocks);
    let here = scan_position(blocks, (blk, cursor));
    assert(cursor.valid());
    assert((cursor.key(), cursor.value()) == entries[here as int]);
    let stepped = cursor.step();
    let next = table.settle(blk, stepped);
    if i + 1 < block.len() {
        assert(block.key(i + 1).len() > 0);
        lemma_entry_in_table(blocks, b, i + 1);
        assert(stepped.valid());
        assert(next == Ok::<Place, TableError>((blk, stepped)));
    } else if b + 1 < n {
        lemma_built_block(blocks, id, b + 1);
        let following = blocks[b + 1];
        assert(following.key(0).len() > 0);
        lemma_entry_in_table(blocks, b + 1, 0);
        let start = BlockIteratorView { block: following, idx: 0 };
        assert(!stepped.valid());
        assert(start.valid());
        assert(table.settle((blk + 1) as nat, start) == Ok::<Place, TableError>(
            ((blk + 1) as nat, start),
        ));
        assert(next == Ok::<Place, TableError>(((blk + 1) as nat, start)));
        assert(scan_position(blocks, next.unwrap()) == here + 1);
    } else {
        assert(!stepped.valid());
        assert(next == Ok::<Place, TableError>((blk, stepped)));
        assert(here + 1 == entries.len());
    }
}

/// In a table built from a stream of strictly ascending keys, a cursor
/// sent to `key` rests where the entries that sort before `key` end: every
/// entry before the place sorts before `key`, no entry from the place on
/// does, and the cursor shows a key unless it rests at the end of the
/// table.
pub proof fn lemma_seek_lands(
    blocks: Seq<BlockView>,
    id: nat,
    key: Seq<u8>,
    place: Result<Place, TableError>,
)
    requires
        scannable(blocks),
        blocks.len() > 0,
        entries_sorted(table_entries(blocks)),
        built_table(blocks, id).seek_rests_at(key, place),
    ensures
        place is Ok,
        ({
            let (blk, cursor) = place.unwrap();
            &&& blk < blocks.len()
            &&& cursor.block == blocks[blk as int]
            &&& cursor.idx <= cursor.block.len()
            &&& cursor.valid() == cursor.in_range()
            &&& cursor.in_range() || blk + 1 == blocks.len()
            &&& forall|b: int, j: int|
                0 <= b < blocks.len() && 0 <= j < blocks[b].len() && (b < blk || (b == blk && j
                    < cursor.idx)) ==> key_lt(#[trigger] blocks[b].key(j), key)
            &&& forall|b: int, j: int|
                0 <= b < blocks.len() && 0 <= j < blocks[b].len() && (b > blk || (b == blk && j
                    >= cursor.idx)) ==> key_le(key, #[trigger] blocks[b].key(j))
        }),
{
    let table = built_table(blocks, id);
    let n = blocks.len() as int;
    let (found, at) = choose|found: nat, at: int|
        {
            &&& table.finds(key, found)
            &&& table.block(table.seek_block(found)) is Ok ==> table.block(
                table.seek_block(found),
            ).unwrap().seek_stops_at(key, at)
            &&& place == #[trigger] table.seek_from(found, at)
        };
    let start = table.seek_block(found) as int;
    lemma_built_block(blocks, id, start);
    let block = blocks[start];
    let cursor = BlockIteratorView { block, idx: at as nat };
    assert(block.seek_stops_at(key, at));
    assert(place == table.settle(start as nat, cursor));
    assert forall|i: int| 0 <= i < n implies (#[trigger] table.metas[i]).first_key == blocks[i].key(
        0,
    ) by {}
    if found >= n {
        // every block begins behind `key`
        assert(!key_le(table.metas[0].first_key, key));
        lemma_key_lt_total(block.key(0), key);
        if at > 0 {
            assert(key_lt(block.key(0), key));
        }
        assert(at == 0);
        assert(block.key(0).len() > 0);
        assert(cursor.valid());
        assert forall|b: int, j: int|
            0 <= b < n && 0 <= j < blocks[b].len() implies key_le(
            key,
            #[trigger] blocks[b].key(j),
        ) by {
            if b > 0 || j > 0 {
                lemma_entries_ascend(blocks, 0, 0, b, j);
                lemma_key_lt_transitive(key, block.key(0), blocks[b].key(j));
            }
        }
    } else {
        assert(key_le(block.key(0), key));
        assert forall|b: int, j: int| 0 <= b < start && 0 <= j < blocks[b].len() implies key_lt(
            #[trigger] blocks[b].key(j),
            key,
        ) by {
            lemma_entries_ascend(blocks, b, j, start, 0);
            if block.key(0) != key {
                lemma_key_lt_transitive(blocks[b].key(j), block.key(0), key);
            }
        }
        if at < block.len() {
            assert(block.key(at).len() > 0);
            assert(cursor.valid());
            assert forall|b: int, j: int|
                0 <= b < n && 0 <= j < blocks[b].len() && (b > start || (b == start && j
                    >= at)) implies key_le(key, #[trigger] blocks[b].key(j)) by {
                if b > start || j > at {
                    lemma_entries_ascend(blocks, start, at, b, j);
                    if key != block.key(at) {
                        lemma_key_lt_transitive(key, block.key(at), blocks[b].key(j));
                    }
                }
            }
        } else {
            assert(!cursor.valid());
            if start + 1 < n {
                lemma_built_block(blocks, id, start + 1);
                let following = blocks[start + 1];
                let first = BlockIteratorView { block: following, idx: 0 };
                assert(following.key(0).len() > 0);
                assert(first.valid());
                assert(table.settle((start + 1) as nat, first) == Ok::<Place, TableError>(
                    ((start + 1) as nat, first),
                ));
                assert(place == Ok::<Place, TableError>(((start + 1) as nat, first)));
                assert(!key_le(table.metas[start + 1].first_key, key));
                lemma_key_lt_total(following.key(0), key);
                assert forall|b: int, j: int|
                    0 <= b < n && 0 <= j < blocks[b].len() && b > start implies key_le(
                    key,
                    #[trigger] blocks[b].key(j),
                ) by {
                    if b > start + 1 || j > 0 {
                        lemma_entries_ascend(blocks, start + 1, 0, b, j);
                        lemma_key_lt_transitive(key, following.key(0), blocks[b].key(j));
                    }
                }
            } else {
                assert(place == Ok::<Place, TableError>((start as nat, cursor)));
            }
        }
    }
}

/// What a table cursor is: the table, the block it stands in, and the
/// cursor in that block.
pub struct SsTableIteratorView {
    pub table: SsTableView,
    pub blk_idx: nat,
    pub cursor: BlockIteratorView,
}

impl SsTableIteratorView {
    /// The place of the cursor.
    pub open spec fn place(self) -> Place {
        (self.blk_idx, self.cursor)
    }

    /// The cursor is at rest: it shows a key, or stands at the end of
    /// the table.
    pub open spec fn at_rest(self) -> bool {
        self.cursor.valid() || self.blk_idx + 1 >= self.table.metas.len()
    }
}

/// Iterates on the entries of a table.
pub struct SsTableIterator {
    table: Arc<SsTable>,
    blk_iter: BlockIterator,
    blk_idx: usize,
}

impl View for SsTableIterator {
    type V = SsTableIteratorView;

    closed spec fn view(&self) -> SsTableIteratorView {
        SsTableIteratorView {
            table: self.table@,
            blk_idx: self.blk_idx as nat,
            cursor: self.blk_iter@,
        }
    }
}

impl SsTableIterator {
    /// The cursor stands in a block of the table, and the block cursor
    /// reads that block.
    pub closed spec fn wf(&self) -> bool {
        &&& self.blk_iter.wf()
        &&& self.blk_idx < self.table@.metas.len()
        &&& self.table@.block(self.blk_idx as nat) == Ok::<BlockView, TableError>(
            self.blk_iter@.block,
        )
    }

    /// A well-formed cursor stands in a block of its table, over that
    /// block.
    pub proof fn lemma_wf_place(&self)
        requires
            self.wf(),
        ensures
            self@.blk_idx < self@.table.metas.len(),
            self@.table.block(self@.blk_idx) == Ok::<BlockView, TableError>(self@.cursor.block),
            self@.cursor.block.wf(),
            self@.cursor.idx <= self@.cursor.block.len(),
    {
        self.blk_iter.lemma_wf_block();
    }

    /// Moves a block cursor that shows no key on to the first entry of
    /// the next block, and so on, until it shows a key or stands in the
    /// last block.
    fn settle(table: &SsTable, blk_idx: usize, iter: BlockIterator, cache: &mut BlockCache) -> (res:
        Result<(usize, BlockIterator), TableError>)
        requires
            iter.wf(),
            blk_idx < table@.metas.len(),
            table@.block(blk_idx as nat) == Ok::<BlockView, TableError>(iter@.block),
            table@.cached_in(old(cache)@),
        ensures
            table@.cached_in(final(cache)@),
            grown_for(old(cache)@, final(cache)@, table@.id),
            match res {
                Ok((idx, it)) => {
                    &&& table@.settle(blk_idx as nat, iter@) == Ok::<Place, TableError>(
                        (idx as nat, it@),
                    )
                    &&& it@.valid() || idx + 1 >= table@.metas.len()
                    &&& it.wf()
                    &&& idx < table@.metas.len()
                    &&& table@.block(idx as nat) == Ok::<BlockView, TableError>(it@.block)
                },
                Err(e) => table@.settle(blk_idx as nat, iter@) == Err::<Place, TableError>(e),
            },
    {
        let n = table.num_of_blocks();
        let mut at = blk_idx;
        let mut cursor = iter;
        while !cursor.is_valid() && at + 1 < n
            invariant
                cursor.wf(),
                n == table@.metas.len(),
                at < n,
                table@.block(at as nat) == Ok::<BlockView, TableError>(cursor@.block),
                table@.settle(blk_idx as nat, iter@) == table@.settle(at as nat, cursor@),
                table@.cached_in(cache@),
                grown_for(old(cache)@, cache@, table@.id),
            decreases n - at,
        {
            let block = match table.read_block_cached(at + 1, cache) {
                Ok(block) => block,
                Err(e) => {
                    return Err(e);
                },
            };
            cursor = BlockIterator::create_and_seek_to_first(block);
            at = at + 1;
        }
        Ok((at, cursor))
    }

    /// Creates a cursor on the first entry of `table`. Blocks are read
    /// through `cache`, which must be in step with the table.
    pub fn create_and_seek_to_first(table: Arc<SsTable>, cache: &mut BlockCache) -> (res: Result<
        Self,
        TableError,
    >)
        requires
            table@.cached_in(old(cache)@),
        ensures
            table@.cached_in(final(cache)@),
            grown_for(old(cache)@, final(cache)@, table@.id),
            match res {
                Ok(iter) => iter.wf() && iter@.table == table@ && iter@.at_rest()
                    && table@.first_place() == Ok::<Place, TableError>(iter@.place()),
                Err(e) => table@.first_place() == Err::<Place, TableError>(e),
            },
    {
        let block = match table.read_block_cached(0, cache) {
            Ok(block) => block,
            Err(e) => {
                return Err(e);
            },
        };
        let iter = BlockIterator::create_and_seek_to_first(block);
        match Self::settle(&table, 0, iter, cache) {
            Ok((blk_idx, blk_iter)) => Ok(SsTableIterator { table, blk_iter, blk_idx }),
            Err(e) => Err(e),
        }
    }

    /// Moves to the first entry of the table. When a block cannot be
    /// read the cursor stays where it was.
    pub fn seek_to_first(&mut self, cache: &mut BlockCache) -> (res: Result<(), TableError>)
        requires
            old(self).wf(),
            old(self)@.table.cached_in(old(cache)@),
        ensures
            final(self).wf(),
            final(self)@.table == old(self)@.table,
            old(self)@.table.cached_in(final(cache)@),
            grown_for(old(cache)@, final(cache)@, old(self)@.table.id),
            match res {
                Ok(()) => final(self)@.at_rest() && old(self)@.table.first_place() == Ok::<
                    Place,
                    TableError,
                >(final(self)@.place()),
                Err(e) => old(self)@.table.first_place() == Err::<Place, TableError>(e)
                    && final(self)@ == old(self)@,
            },
    {
        let block = match self.table.read_block_cached(0, cache) {
            Ok(block) => block,
            Err(e) => {
                return Err(e);
            },
        };
        let iter = BlockIterator::create_and_seek_to_first(block);
        match Self::settle(&self.table, 0, iter, cache) {
            Ok((blk_idx, blk_iter)) => {
                self.blk_idx = blk_idx;
                self.blk_iter = blk_iter;
                Ok(())
            },
            Err(e) => Err(e),
        }
    }

    /// Sends a block cursor to `key`: into the last block whose first
    /// key does not sort behind `key`, or into the first block if every
    /// block begins behind `key`; there to the first entry whose key
    /// does not sort before `key`; and on to the next block where that
    /// block has no such entry.
    fn seek_place(table: &SsTable, key: KeySlice, cache: &mut BlockCache) -> (res: Result<
        (usize, BlockIterator),
        TableError,
    >)
        requires
            table@.cached_in(old(cache)@),
        ensures
            table@.cached_in(final(cache)@),
            grown_for(old(cache)@, final(cache)@, table@.id),
            match res {
                Ok((idx, it)) => {
                    &&& table@.seek_rests_at(key@, Ok::<Place, TableError>((idx as nat, it@)))
                    &&& it@.valid() || idx + 1 >= table@.metas.len()
                    &&& it.wf()
                    &&& idx < table@.metas.len()
                    &&& table@.block(idx as nat) == Ok::<BlockView, TableError>(it@.block)
                },
                Err(e) => table@.seek_rests_at(key@, Err::<Place, TableError>(e)),
            },
    {
        let found = table.find_block_idx(key);
        let start = if found < table.num_of_blocks() {
            found
        } else {
            0
        };
        assert(start == table@.seek_block(found as nat));
        let block = match table.read_block_cached(start, cache) {
            Ok(block) => block,
            Err(e) => {
                assert(table@.finds(key@, found as nat));
                assert(table@.seek_from(found as nat, 0) == Err::<Place, TableError>(e));
                return Err(e);
            },
        };
        let iter = BlockIterator::create_and_seek_to_key(block, key);
        let ghost at = iter@.idx as int;
        let ghost cursor = iter@;
        proof {
            assert(table@.finds(key@, found as nat));
            assert(table@.block(table@.seek_block(found as nat)) == Ok::<BlockView, TableError>(
                cursor.block,
            ));
            assert(cursor == (BlockIteratorView { block: cursor.block, idx: at as nat }));
            assert(cursor.block.seek_stops_at(key@, at));
        }
        match Self::settle(table, start, iter, cache) {
            Ok((idx, it)) => {
                assert(table@.seek_from(found as nat, at) == Ok::<Place, TableError>(
                    (idx as nat, it@),
                ));
                Ok((idx, it))
            },
            Err(e) => {
                assert(table@.seek_from(found as nat, at) == Err::<Place, TableError>(e));
                Err(e)
            },
        }
    }

    /// Creates a cursor on the first entry of `table` whose key does not
    /// sort before `key`. Blocks are read through `cache`, which must be
    /// in step with the table.
    pub fn create_and_seek_to_key(table: Arc<SsTable>, key: KeySlice, cache: &mut BlockCache) -> (res:
        Result<Self, TableError>)
        requires
            table@.cached_in(old(cache)@),
        ensures
            table@.cached_in(final(cache)@),
            grown_for(old(cache)@, final(cache)@, table@.id),
            match res {
                Ok(iter) => iter.wf() && iter@.table == table@ && iter@.at_rest()
                    && table@.seek_rests_at(key@, Ok::<Place, TableError>(iter@.place())),
                Err(e) => table@.seek_rests_at(key@, Err::<Place, TableError>(e)),
            },
    {
        match Self::seek_place(&table, key, cache) {
            Ok((blk_idx, blk_iter)) => Ok(SsTableIterator { table, blk_iter, blk_idx }),
            Err(e) => Err(e),
        }
    }

    /// Moves to the first entry whose key does not sort before `key`.
    /// When a block cannot be read the cursor stays where it was.
    pub fn seek_to_key(&mut self, key: KeySlice, cache: &mut BlockCache) -> (res: Result<
        (),
        TableError,
    >)
        requires
            old(self).wf(),
            old(self)@.table.cached_in(old(cache)@),
        ensures
            final(self).wf(),
            final(self)@.table == old(self)@.table,
            old(self)@.table.cached_in(final(cache)@),
            grown_for(old(cache)@, final(cache)@, old(self)@.table.id),
            match res {
                Ok(()) => final(self)@.at_rest() && old(self)@.table.seek_rests_at(
                    key@,
                    Ok::<Place, TableError>(final(self)@.place()),
                ),
                Err(e) => old(self)@.table.seek_rests_at(key@, Err::<Place, TableError>(e))
                    && final(self)@ == old(self)@,
            },
    {
        match Self::seek_place(&self.table, key, cache) {
            Ok((blk_idx, blk_iter)) => {
                self.blk_idx = blk_idx;
                self.blk_iter = blk_iter;
                Ok(())
            },
            Err(e) => Err(e),
        }
    }

    /// The key of the current entry; the empty key at the end of the
    /// table.
    pub fn key(&self) -> (key: KeySlice<'_>)
        requires
            self.wf(),
        ensures
            key@ == self@.cursor.key(),
    {
        self.blk_iter.key()
    }

    /// The value of the current entry; no bytes at the end of the table.
    pub fn value(&self) -> (value: &[u8])
        requires
            self.wf(),
        ensures
            value@ == self@.cursor.value(),
    {
        self.blk_iter.value()
    }

    /// Whether the cursor shows a key.
    pub fn is_valid(&self) -> (r: bool)
        requires
            self.wf(),
        ensures
            r == self@.cursor.valid(),
    {
        self.blk_iter.is_valid()
    }

    /// Moves to the next entry: the next one of the block, or the first
    /// one of the next block. At the end of the table the cursor stays.
    /// When a block cannot be read the cursor is left at the end of the
    /// block it was in.
    pub fn next(&mut self, cache: &mut BlockCache) -> (res: Result<(), TableError>)
        requires
            old(self).wf(),
            old(self)@.table.cached_in(old(cache)@),
        ensures
            final(self).wf(),
            final(self)@.table == old(self)@.table,
            old(self)@.table.cached_in(final(cache)@),
            grown_for(old(cache)@, final(cache)@, old(self)@.table.id),
            match res {
                Ok(()) => old(self)@.table.settle(old(self)@.blk_idx, old(self)@.cursor.step())
                    == Ok::<Place, TableError>(final(self)@.place()) && final(self)@.at_rest(),
                Err(e) => old(self)@.table.settle(old(self)@.blk_idx, old(self)@.cursor.step())
                    == Err::<Place, TableError>(e) && final(self)@.place() == (
                    old(self)@.blk_idx,
                    old(self)@.cursor.step(),
                ),
            },
    {
        let n = self.table.num_of_blocks();
        self.blk_iter.next();
        if self.blk_iter.is_valid() || self.blk_idx + 1 >= n {
            return Ok(());
        }
        let block = match self.table.read_block_cached(self.blk_idx + 1, cache) {
            Ok(block) => block,
            Err(e) => {
                return Err(e);
            },
        };
        let iter = BlockIterator::create_and_seek_to_first(block);
        match Self::settle(&self.table, self.blk_idx + 1, iter, cache) {
            Ok((blk_idx, blk_iter)) => {
                self.blk_idx = blk_idx;
                self.blk_iter = blk_iter;
                Ok(())
            },
            Err(e) => Err(e),
        }
    }
}

} // verus!
