//! Packing a sorted stream of entries into the blocks of a table.

use vstd::prelude::*;
use crate::block::builder::{BlockBuilder, BlockBuilderView};
use crate::block::{BlockView, Entry};
use crate::error::TableError;
use crate::key::{key_le, key_lt, KeyBytes, KeySlice};
use crate::table::{encode_metas, lemma_decode_encode_metas, metas_encodable, meta_views};
use crate::table::{BlockMeta, BlockMetaView, FileObject, FileObjectView, SsTable, SsTableView};
use crate::wire::{be16, bytes_as_slice, bytes_from_vec, field_at, slice_to_vec, vec_put_u16};
use crate::wire::FIELD_MAX;
use crate::wire::lemma_field_round_trip;

verus! {

/// A block as it stands in the body of a table: behind its length.
pub open spec fn frame(block: BlockView) -> Seq<u8> {
    be16(block.encode().len() as u16) + block.encode()
}

/// The body of a table: the frames of its blocks, one after another.
pub open spec fn table_body(blocks: Seq<BlockView>) -> Seq<u8>
    decreases blocks.len(),
{
    if blocks.len() == 0 {
        Seq::empty()
    } else {
        table_body(blocks.drop_last()) + frame(blocks.last())
    }
}

/// The entries of a table: those of its blocks, one block after another.
pub open spec fn table_entries(blocks: Seq<BlockView>) -> Seq<Entry>
    decreases blocks.len(),
{
    if blocks.len() == 0 {
        Seq::empty()
    } else {
        table_entries(blocks.drop_last()) + blocks.last().entries()
    }
}

/// The index entry of block `i`: where its frame starts, and its first
/// and last key.
pub open spec fn index_entry(blocks: Seq<BlockView>, i: int) -> BlockMetaView {
    BlockMetaView {
        offset: table_body(blocks.take(i)).len(),
        first_key: blocks[i].key(0),
        last_key: blocks[i].key(blocks[i].len() - 1),
    }
}

/// The index of a table.
pub open spec fn table_index_of(blocks: Seq<BlockView>) -> Seq<BlockMetaView> {
    Seq::new(blocks.len(), |i: int| index_entry(blocks, i))
}

/// The file of a table: the body, the index, and the footer that says
/// where the index begins.
pub open spec fn table_file(blocks: Seq<BlockView>) -> Seq<u8> {
    table_body(blocks) + encode_metas(table_index_of(blocks)) + be16(
        table_body(blocks).len() as u16,
    )
}

/// The table that is built from `blocks` under `id`.
pub open spec fn built_table(blocks: Seq<BlockView>, id: nat) -> SsTableView {
    SsTableView {
        file: FileObjectView {
            content: Some(table_file(blocks)),
            size: table_file(blocks).len(),
        },
        metas: table_index_of(blocks),
        meta_offset: table_body(blocks).len(),
        id,
        first_key: blocks[0].key(0),
        last_key: blocks.last().key(blocks.last().len() - 1),
        max_ts: 0,
    }
}

/// What a table builder is: the blocks that are sealed, the block that
/// is being filled, and the block size asked for.
pub struct SsTableBuilderView {
    pub sealed: Seq<BlockView>,
    pub active: BlockBuilderView,
    pub block_size: nat,
}

impl SsTableBuilderView {
    /// A builder that has received nothing.
    pub open spec fn fresh(block_size: nat) -> SsTableBuilderView {
        SsTableBuilderView {
            sealed: Seq::empty(),
            active: BlockBuilderView {
                block: BlockView::empty(),
                capacity: (block_size - 2) as nat,
            },
            block_size,
        }
    }

    /// All entries received, in the order in which they came.
    pub open spec fn entries(self) -> Seq<Entry> {
        table_entries(self.sealed) + self.active.block.entries()
    }

    /// The block being filled can be sealed: its offset in the body and
    /// its encoded length fit their 16-bit fields.
    pub open spec fn sealable(self) -> bool {
        table_body(self.sealed).len() <= FIELD_MAX && self.active.block.encode().len()
            <= FIELD_MAX
    }

    /// The builder after the block being filled has been sealed and an
    /// empty one begun.
    pub open spec fn seal(self) -> SsTableBuilderView {
        SsTableBuilderView {
            sealed: self.sealed.push(self.active.block),
            active: Self::fresh(self.block_size).active,
            block_size: self.block_size,
        }
    }

    /// The builder after the block being filled has taken an entry.
    pub open spec fn push(self, key: Seq<u8>, value: Seq<u8>) -> SsTableBuilderView {
        SsTableBuilderView {
            sealed: self.sealed,
            active: self.active.push(key, value),
            block_size: self.block_size,
        }
    }

    /// What `add` makes of the builder: the entry goes into the block
    /// being filled, or, where that block is full, into a new one after
    /// the full one has been sealed.
    pub open spec fn add_outcome(self, key: Seq<u8>, value: Seq<u8>) -> Result<
        SsTableBuilderView,
        TableError,
    > {
        match self.active.add_outcome(key, value) {
            Err(e) => Err(e),
            Ok(accepted) => if accepted {
                Ok(self.push(key, value))
            } else if self.sealable() {
                Ok(self.seal().push(key, value))
            } else {
                Err(TableError::CapacityExceeded)
            },
        }
    }

    /// The blocks of the finished table: the sealed ones, and the one
    /// being filled if it holds anything.
    pub open spec fn finished(self) -> Seq<BlockView> {
        if self.active.block.len() > 0 {
            self.sealed.push(self.active.block)
        } else {
            self.sealed
        }
    }

    /// What `build` makes of the builder under `id`.
    pub open spec fn build_outcome(self, id: nat) -> Result<SsTableView, TableError> {
        if self.finished().len() == 0 {
            Err(TableError::EmptyTableBuild)
        } else if self.active.block.len() > 0 && !self.sealable() {
            Err(TableError::CapacityExceeded)
        } else if table_body(self.finished()).len() > FIELD_MAX || !metas_encodable(
            table_index_of(self.finished()),
        ) {
            Err(TableError::CapacityExceeded)
        } else {
            Ok(built_table(self.finished(), id))
        }
    }
}

/// One more block at the end of a table adds its frame to the body and
/// its entries to the entries, and leaves the index entries before it
/// as they were.
pub proof fn lemma_push_block(blocks: Seq<BlockView>, block: BlockView)
    ensures
        table_body(blocks.push(block)) == table_body(blocks) + frame(block),
        table_entries(blocks.push(block)) == table_entries(blocks) + block.entries(),
        table_index_of(blocks.push(block)) == table_index_of(blocks).push(
            index_entry(blocks.push(block), blocks.len() as int),
        ),
        index_entry(blocks.push(block), blocks.len() as int).offset == table_body(blocks).len(),
{
    let all = blocks.push(block);
    let n = blocks.len() as int;
    assert(all.drop_last() =~= blocks);
    assert(all.take(n) =~= blocks);
    assert forall|i: int| 0 <= i < n implies index_entry(all, i) == index_entry(blocks, i) by {
        assert(all.take(i) =~= blocks.take(i));
    }
    assert(table_index_of(all) =~= table_index_of(blocks).push(index_entry(all, n)));
}

/// The keys of `entries` ascend strictly: the stream is sorted and no
/// key occurs twice.
pub open spec fn entries_sorted(entries: Seq<Entry>) -> bool {
    forall|i: int, j: int|
        0 <= i < j < entries.len() ==> key_lt((#[trigger] entries[i]).0, (#[trigger] entries[j]).0)
}

/// In a stream of strictly ascending keys the first key is the smallest
/// and the last key the largest.
pub proof fn lemma_sorted_bounds(entries: Seq<Entry>, i: int)
    requires
        entries_sorted(entries),
        0 <= i < entries.len(),
    ensures
        key_le(entries.first().0, entries[i].0),
        key_le(entries[i].0, entries.last().0),
{
}

/// Entry `j` of block `i` stands in the entries of the table behind all
/// entries of the blocks before block `i`.
pub proof fn lemma_entry_in_table(blocks: Seq<BlockView>, i: int, j: int)
    requires
        0 <= i < blocks.len(),
        0 <= j < blocks[i].len(),
    ensures
        table_entries(blocks.take(i + 1)).len() == table_entries(blocks.take(i)).len()
            + blocks[i].len(),
        table_entries(blocks.take(i)).len() + j < table_entries(blocks).len(),
        table_entries(blocks)[table_entries(blocks.take(i)).len() + j] == blocks[i].entries()[j],
    decreases blocks.len(),
{
    let front = blocks.drop_last();
    assert(blocks.take(i + 1).drop_last() =~= blocks.take(i));
    if i == blocks.len() - 1 {
        assert(blocks.take(i) =~= front);
    } else {
        assert(front.take(i) =~= blocks.take(i));
        assert(front.take(i + 1) =~= blocks.take(i + 1));
        lemma_entry_in_table(front, i, j);
    }
}

/// In a table built from a stream of strictly ascending keys, an entry
/// sorts before every entry of a later block, and before every later
/// entry of its block.
pub proof fn lemma_entries_ascend(blocks: Seq<BlockView>, a: int, i: int, b: int, j: int)
    requires
        entries_sorted(table_entries(blocks)),
        0 <= a <= b < blocks.len(),
        0 <= i < blocks[a].len(),
        0 <= j < blocks[b].len(),
        a < b || i < j,
    ensures
        key_lt(blocks[a].key(i), blocks[b].key(j)),
    decreases b - a,
{
    let entries = table_entries(blocks);
    lemma_entry_in_table(blocks, a, i);
    lemma_entry_in_table(blocks, b, j);
    if a < b {
        lemma_blocks_follow(blocks, a, b);
    }
    let p = table_entries(blocks.take(a)).len() + i;
    let q = table_entries(blocks.take(b)).len() + j;
    assert(key_lt(entries[p].0, entries[q].0));
}

/// The entries of a block stand in the table behind those of every
/// earlier block.
pub proof fn lemma_blocks_follow(blocks: Seq<BlockView>, a: int, b: int)
    requires
        0 <= a < b <= blocks.len(),
    ensures
        table_entries(blocks.take(a)).len() + blocks[a].len() <= table_entries(blocks.take(b)).len(),
    decreases b - a,
{
    assert(blocks.take(a + 1).drop_last() =~= blocks.take(a));
    if a + 1 < b {
        lemma_blocks_follow(blocks, a + 1, b);
    }
}

/// In a table built from a stream of strictly ascending keys, the last
/// key of each block sorts before the first key of the next block.
pub proof fn lemma_index_ascends(blocks: Seq<BlockView>, i: int)
    requires
        forall|k: int| 0 <= k < blocks.len() ==> (#[trigger] blocks[k]).len() > 0,
        entries_sorted(table_entries(blocks)),
        0 <= i,
        i + 1 < blocks.len(),
    ensures
        key_lt(table_index_of(blocks)[i].last_key, table_index_of(blocks)[i + 1].first_key),
        key_le(table_index_of(blocks)[i].last_key, table_index_of(blocks)[i + 1].first_key),
{
    let entries = table_entries(blocks);
    let last = blocks[i].len() - 1;
    lemma_entry_in_table(blocks, i, last);
    lemma_entry_in_table(blocks, i + 1, 0);
    let p = table_entries(blocks.take(i)).len() + last;
    let q = table_entries(blocks.take(i + 1)).len() as int;
    assert(key_lt(entries[p].0, entries[q].0));
}

/// In a table built from a stream of strictly ascending keys, every
/// block is sorted, and the keys of block `i` lie between the first and
/// the last key that the index records for it.
pub proof fn lemma_block_within_index(blocks: Seq<BlockView>, i: int, j: int)
    requires
        entries_sorted(table_entries(blocks)),
        0 <= i < blocks.len(),
        0 <= j < blocks[i].len(),
    ensures
        blocks[i].sorted(),
        key_le(table_index_of(blocks)[i].first_key, blocks[i].key(j)),
        key_le(blocks[i].key(j), table_index_of(blocks)[i].last_key),
{
    let entries = table_entries(blocks);
    let base = table_entries(blocks.take(i)).len();
    assert forall|a: int, b: int| 0 <= a < b < blocks[i].len() implies key_lt(
        #[trigger] blocks[i].key(a),
        #[trigger] blocks[i].key(b),
    ) by {
        lemma_entry_in_table(blocks, i, a);
        lemma_entry_in_table(blocks, i, b);
        assert(key_lt(entries[base + a].0, entries[base + b].0));
    }
}

/// The frame of block `i` stands in the body at the offset that the
/// index records for the block.
pub proof fn lemma_frame_in_body(blocks: Seq<BlockView>, i: int)
    requires
        0 <= i < blocks.len(),
    ensures
        table_index_of(blocks)[i].offset + frame(blocks[i]).len() <= table_body(blocks).len(),
        table_body(blocks).subrange(
            table_index_of(blocks)[i].offset as int,
            (table_index_of(blocks)[i].offset + frame(blocks[i]).len()) as int,
        ) == frame(blocks[i]),
    decreases blocks.len(),
{
    let front = blocks.drop_last();
    let at = table_body(blocks.take(i)).len() as int;
    let len = frame(blocks[i]).len() as int;
    if i == blocks.len() - 1 {
        assert(blocks.take(i) =~= front);
        assert(table_body(blocks).subrange(at, at + len) =~= frame(blocks[i]));
    } else {
        assert(front.take(i) =~= blocks.take(i));
        lemma_frame_in_body(front, i);
        assert(table_body(blocks).subrange(at, at + len) =~= table_body(front).subrange(
            at,
            at + len,
        ));
    }
}

/// Reading block `i` of a built table gives block `i` as it was sealed.
pub proof fn lemma_built_block(blocks: Seq<BlockView>, id: nat, i: int)
    requires
        0 <= i < blocks.len(),
        blocks[i].wf(),
        blocks[i].encode().len() <= FIELD_MAX,
    ensures
        built_table(blocks, id).block(i as nat) == Ok::<BlockView, TableError>(blocks[i]),
{
    let table = built_table(blocks, id);
    let file = table_file(blocks);
    let at = table.metas[i].offset as int;
    let encoded = blocks[i].encode();
    lemma_frame_in_body(blocks, i);
    lemma_field_round_trip(encoded.len() as u16);
    let framed = frame(blocks[i]);
    assert(table_body(blocks)[at] == framed[0] && table_body(blocks)[at + 1] == framed[1]) by {
        assert(table_body(blocks).subrange(at, at + framed.len())[0] == framed[0]);
        assert(table_body(blocks).subrange(at, at + framed.len())[1] == framed[1]);
    }
    assert(file[at] == framed[0] && file[at + 1] == framed[1]);
    assert(field_at(file, at) == encoded.len());
    assert(file.subrange(at + 2, at + 2 + encoded.len()) =~= encoded) by {
        assert forall|k: int| 0 <= k < encoded.len() implies file[at + 2 + k] == encoded[k] by {
            assert(table_body(blocks).subrange(at, at + framed.len())[k + 2] == framed[k + 2]);
        }
    }
    blocks[i].lemma_decode_encode();
}

/// Opening the file of a built table gives the table that was built.
pub proof fn lemma_open_built(blocks: Seq<BlockView>, id: nat)
    requires
        blocks.len() > 0,
        table_body(blocks).len() <= FIELD_MAX,
        metas_encodable(table_index_of(blocks)),
    ensures
        SsTableView::opened(id, built_table(blocks, id).file) == Some(built_table(blocks, id)),
{
    let file = table_file(blocks);
    let body = table_body(blocks);
    let index = table_index_of(blocks);
    let encoded = encode_metas(index);
    lemma_field_round_trip(body.len() as u16);
    let footer = be16(body.len() as u16);
    assert(file[file.len() - 2] == footer[0] && file[file.len() - 1] == footer[1]);
    assert(field_at(file, file.len() - 2) == body.len());
    assert(file.subrange(body.len() as int, file.len() - 2) =~= encoded + Seq::<u8>::empty());
    lemma_decode_encode_metas(index, Seq::empty());
}

impl SsTableBuilderView {
    /// The entries of the finished table are the entries received.
    pub proof fn lemma_finished_entries(self)
        ensures
            table_entries(self.finished()) == self.entries(),
    {
        if self.active.block.len() > 0 {
            lemma_push_block(self.sealed, self.active.block);
        } else {
            assert(self.active.block.entries() =~= Seq::<Entry>::empty());
            assert(self.entries() =~= table_entries(self.sealed));
        }
    }

    /// An entry that is accepted comes last in the entries received.
    pub proof fn lemma_add_appends(self, key: Seq<u8>, value: Seq<u8>)
        requires
            self.active.block.wf(),
            self.add_outcome(key, value) is Ok,
        ensures
            self.add_outcome(key, value).unwrap().entries() == self.entries().push((key, value)),
    {
        let next = self.add_outcome(key, value).unwrap();
        if self.active.add_outcome(key, value) == Ok::<bool, TableError>(true) {
            self.active.block.lemma_push(key, value);
            assert(next.entries() =~= self.entries().push((key, value)));
        } else {
            lemma_push_block(self.sealed, self.active.block);
            BlockView::empty().lemma_push(key, value);
            assert(BlockView::empty().entries() =~= Seq::<Entry>::empty());
            assert(next.entries() =~= self.entries().push((key, value)));
        }
    }
}

/// Builds an SSTable from key-value pairs.
pub struct SsTableBuilder {
    builder: BlockBuilder,
    first_key: Vec<u8>,
    last_key: Vec<u8>,
    data: Vec<u8>,
    pub(crate) meta: Vec<BlockMeta>,
    block_size: usize,
    /// The blocks sealed so far.
    sealed: Ghost<Seq<BlockView>>,
}

impl View for SsTableBuilder {
    type V = SsTableBuilderView;

    closed spec fn view(&self) -> SsTableBuilderView {
        SsTableBuilderView {
            sealed: self.sealed@,
            active: self.builder@,
            block_size: self.block_size as nat,
        }
    }
}

impl SsTableBuilder {
    /// The sealed blocks are well-formed, hold an entry each, and fit
    /// the format; the body and the index are those of the sealed
    /// blocks; and the first and last key kept are those of the block
    /// being filled.
    pub closed spec fn wf(&self) -> bool {
        &&& self.block_size >= 2
        &&& self.builder.wf()
        &&& self.builder@.capacity == self.block_size - 2
        &&& forall|i: int|
            0 <= i < self.sealed@.len() ==> {
                &&& (#[trigger] self.sealed@[i]).wf()
                &&& self.sealed@[i].len() > 0
                &&& self.sealed@[i].encode().len() <= FIELD_MAX
            }
        &&& self.data@ == table_body(self.sealed@)
        &&& meta_views(self.meta@) == table_index_of(self.sealed@)
        &&& forall|i: int|
            0 <= i < self.sealed@.len() ==> (#[trigger] table_index_of(self.sealed@)[i]).offset
                <= FIELD_MAX
        &&& self.builder@.block.len() > 0 ==> {
            &&& self.first_key@ == self.builder@.block.key(0)
            &&& self.last_key@ == self.builder@.block.key(self.builder@.block.len() - 1)
        }
    }

    /// In a well-formed builder the block being filled is well-formed,
    /// and every sealed block is well-formed and holds an entry.
    pub proof fn lemma_wf_blocks(&self)
        requires
            self.wf(),
        ensures
            self@.block_size >= 2,
            self@.active.block.wf(),
            self@.active.capacity == self@.block_size - 2,
            forall|i: int|
                0 <= i < self@.sealed.len() ==> (#[trigger] self@.sealed[i]).wf()
                    && self@.sealed[i].len() > 0 && self@.sealed[i].encode().len() <= FIELD_MAX,
    {
        self.builder.lemma_wf_block();
    }

    /// The table that a well-formed builder builds holds what the builder
    /// received: its blocks are the sealed blocks and the block being
    /// filled, their entries are the entries received, its first and last
    /// key are the keys of the first and the last entry, every block reads
    /// back as it was sealed, and opening its file gives the table again.
    pub proof fn lemma_built_table(&self, id: nat)
        requires
            self.wf(),
            self@.build_outcome(id) is Ok,
        ensures
            ({
                let table = self@.build_outcome(id).unwrap();
                let blocks = self@.finished();
                &&& table == built_table(blocks, id)
                &&& table_entries(blocks) == self@.entries()
                &&& self@.entries().len() > 0
                &&& table.first_key == self@.entries().first().0
                &&& table.last_key == self@.entries().last().0
                &&& forall|i: int|
                    0 <= i < blocks.len() ==> table.block(i as nat) == Ok::<BlockView, TableError>(
                        #[trigger] blocks[i],
                    )
                &&& SsTableView::opened(id, table.file) == Some(table)
            }),
    {
        let table = self@.build_outcome(id).unwrap();
        let blocks = self@.finished();
        let n = blocks.len() as int;
        self.lemma_wf_blocks();
        self@.lemma_finished_entries();
        lemma_open_built(blocks, id);
        assert forall|i: int| 0 <= i < blocks.len() implies table.block(i as nat) == Ok::<
            BlockView,
            TableError,
        >(#[trigger] blocks[i]) by {
            lemma_built_block(blocks, id, i);
        }
        lemma_entry_in_table(blocks, 0, 0);
        assert(blocks.take(0) =~= Seq::<BlockView>::empty());
        lemma_entry_in_table(blocks, n - 1, blocks[n - 1].len() - 1);
        assert(blocks.take(n) =~= blocks);
    }

    /// In the table built from entries whose keys ascend strictly, the
    /// last key of each block does not sort behind the first key of the
    /// next block.
    pub proof fn lemma_built_index_ascends(&self, id: nat, i: int)
        requires
            self.wf(),
            entries_sorted(self@.entries()),
            self@.build_outcome(id) is Ok,
            0 <= i,
            i + 1 < self@.build_outcome(id).unwrap().metas.len(),
        ensures
            key_le(
                self@.build_outcome(id).unwrap().metas[i].last_key,
                self@.build_outcome(id).unwrap().metas[i + 1].first_key,
            ),
    {
        self.lemma_wf_blocks();
        self@.lemma_finished_entries();
        lemma_index_ascends(self@.finished(), i);
    }

    /// Creates a builder for blocks of `block_size` bytes.
    pub fn new(block_size: usize) -> (builder: Self)
        requires
            block_size >= 2,
        ensures
            builder.wf(),
            builder@ == SsTableBuilderView::fresh(block_size as nat),
    {
        let builder = SsTableBuilder {
            builder: BlockBuilder::new(block_size),
            first_key: Vec::new(),
            last_key: Vec::new(),
            data: Vec::new(),
            meta: Vec::new(),
            block_size,
            sealed: Ghost(Seq::empty()),
        };
        assert(meta_views(builder.meta@) =~= table_index_of(builder.sealed@));
        builder
    }

    /// Whether the block being filled can be sealed.
    fn can_seal(&self) -> (r: bool)
        requires
            self.wf(),
        ensures
            r == self@.sealable(),
    {
        self.data.len() <= FIELD_MAX && self.builder.encoded_size() <= FIELD_MAX
    }

    /// Seals the block being filled: appends its frame to the body,
    /// records its index entry, and begins an empty block.
    fn finish_block(&mut self)
        requires
            old(self).wf(),
            old(self)@.active.block.len() > 0,
            old(self)@.sealable(),
        ensures
            final(self).wf(),
            final(self)@ == old(self)@.seal(),
    {
        let ghost block_view = self@.active.block;
        let mut block_builder = BlockBuilder::new(self.block_size);
        std::mem::swap(&mut self.builder, &mut block_builder);
        let encoded_bytes = block_builder.build().encode();
        let encoded = bytes_as_slice(&encoded_bytes);
        let off = self.data.len();
        let first_key = KeyBytes::from_bytes(bytes_from_vec(self.first_key.clone()));
        let last_key = KeyBytes::from_bytes(bytes_from_vec(self.last_key.clone()));
        assert(first_key@ =~= block_view.key(0));
        assert(last_key@ =~= block_view.key(block_view.len() - 1));
        let meta = BlockMeta { offset: off, first_key, last_key };
        proof {
            lemma_push_block(self.sealed@, block_view);
            assert(meta@ == index_entry(self.sealed@.push(block_view), self.sealed@.len() as int));
            assert(meta_views(self.meta@.push(meta)) =~= meta_views(self.meta@).push(meta@));
        }
        self.meta.push(meta);
        vec_put_u16(&mut self.data, encoded.len() as u16);
        self.data.extend_from_slice(encoded);
        proof {
            assert(self.data@ =~= table_body(self.sealed@) + frame(block_view));
        }
        self.sealed = Ghost(self.sealed@.push(block_view));
    }

    /// Adds an entry to the table. When the block being filled is full
    /// it is sealed, and the entry goes into a new block. An entry or a
    /// block that does not fit the format is refused, and the builder is
    /// left as it was.
    pub fn add(&mut self, key: KeySlice, value: &[u8]) -> (res: Result<(), TableError>)
        requires
            old(self).wf(),
        ensures
            final(self).wf(),
            res is Ok ==> final(self)@.entries() == old(self)@.entries().push((key@, value@)),
            match res {
                Ok(()) => old(self)@.add_outcome(key@, value@) == Ok::<
                    SsTableBuilderView,
                    TableError,
                >(final(self)@),
                Err(e) => old(self)@.add_outcome(key@, value@) == Err::<
                    SsTableBuilderView,
                    TableError,
                >(e) && final(self)@ == old(self)@,
            },
    {
        let was_empty = self.builder.is_empty();
        let ghost before = self.builder@.block;
        proof {
            self.builder.lemma_wf_block();
            if self@.add_outcome(key@, value@) is Ok {
                self@.lemma_add_appends(key@, value@);
            }
        }
        let accepted = match self.builder.add(key, value) {
            Ok(accepted) => accepted,
            Err(e) => {
                return Err(e);
            },
        };
        if !accepted {
            if !self.can_seal() {
                return Err(TableError::CapacityExceeded);
            }
            self.finish_block();
            let ghost empty = self.builder@.block;
            let again = self.builder.add(key, value);
            assert(again == Ok::<bool, TableError>(true));
            proof {
                empty.lemma_push(key@, value@);
                let now = self.builder@.block;
                assert(now.entries()[0] == (now.key(0), now.value(0)));
            }
            self.first_key = slice_to_vec(key.raw_ref());
            self.last_key = slice_to_vec(key.raw_ref());
            return Ok(());
        }
        proof {
            before.lemma_push(key@, value@);
            let now = self.builder@.block;
            let n = before.len() as int;
            assert(now.entries()[n] == (now.key(n), now.value(n)));
            if n > 0 {
                assert(now.entries()[0] == (now.key(0), now.value(0)));
                assert(before.entries()[0] == (before.key(0), before.value(0)));
            }
        }
        self.last_key = slice_to_vec(key.raw_ref());
        if was_empty {
            self.first_key = slice_to_vec(key.raw_ref());
        }
        Ok(())
    }

    /// Builds the table: seals the block being filled if it holds
    /// anything, appends the index to the body, and behind it the footer
    /// with the offset of the index. A builder that received no entry is
    /// refused, and so is a table that does not fit the format.
    pub fn build(self, id: usize) -> (res: Result<SsTable, TableError>)
        requires
            self.wf(),
        ensures
            match res {
                Ok(table) => self@.build_outcome(id as nat) == Ok::<SsTableView, TableError>(
                    table@,
                ),
                Err(e) => self@.build_outcome(id as nat) == Err::<SsTableView, TableError>(e),
            },
    {
        let mut this = self;
        if this.builder.is_empty() && this.meta.len() == 0 {
            return Err(TableError::EmptyTableBuild);
        }
        if !this.builder.is_empty() {
            if !this.can_seal() {
                return Err(TableError::CapacityExceeded);
            }
            this.finish_block();
        }
        let ghost blocks = this.sealed@;
        assert(blocks == self@.finished());
        let meta_offset = this.data.len();
        if meta_offset > FIELD_MAX {
            return Err(TableError::CapacityExceeded);
        }
        let mut buf: Vec<u8> = Vec::new();
        match BlockMeta::encode_block_meta(this.meta.as_slice(), &mut buf) {
            Ok(()) => {},
            Err(e) => {
                return Err(e);
            },
        }
        this.data.append(&mut buf);
        vec_put_u16(&mut this.data, meta_offset as u16);
        assert(this.data@ =~= table_file(blocks));
        let file = FileObject::create(this.data);
        let first_key = this.meta[0].first_key.clone();
        let last_key = this.meta[this.meta.len() - 1].last_key.clone();
        proof {
            let index = table_index_of(blocks);
            assert(meta_views(this.meta@)[0] == index[0]);
            assert(meta_views(this.meta@)[blocks.len() - 1] == index[blocks.len() - 1]);
        }
        Ok(SsTable::from_parts(file, this.meta, meta_offset, id, first_key, last_key))
    }

    /// The estimated size of the table: that of the sealed blocks, which
    /// outweigh the index.
    pub fn estimated_size(&self) -> (n: usize)
        requires
            self.wf(),
        ensures
            n == table_body(self@.sealed).len(),
    {
        self.data.len()
    }
}

} // verus!
