//! A sorted table: blocks one after another in one file, the index of
//! their first and last keys behind them, and a footer that says where the
//! index begins.

use std::sync::Arc;
use vstd::prelude::*;
use bytes::Bytes;
use crate::block::{Block, BlockView};
use crate::cache::{grown_for, share, BlockCache, BlockCacheView};
use crate::error::TableError;
use crate::key::{key_le, key_lt, lemma_key_le_transitive, lemma_key_lt_total, KeyBytes, KeySlice};
use crate::wire::{be16, bytes_mut_view, bytes_view, field_at, read_u16, slice_to_vec, FIELD_MAX};
use crate::wire::{buffer_with_capacity, buffer_put_u16, buffer_put, buffer_as_slice, vec_put_u16};
use crate::wire::{bytes_remaining, bytes_get_u16, bytes_copy_to_bytes, bytes_from_vec};
use crate::wire::lemma_field_round_trip;

pub mod builder;
pub mod iterator;

pub use builder::SsTableBuilder;
pub use iterator::SsTableIterator;

verus! {

/// What an index entry is: where a block's frame starts in the table's
/// body, and the first and the last key of the block.
pub struct BlockMetaView {
    pub offset: nat,
    pub first_key: Seq<u8>,
    pub last_key: Seq<u8>,
}

impl BlockMetaView {
    /// The offset and the key lengths fit their 16-bit fields.
    pub open spec fn encodable(self) -> bool {
        &&& self.offset <= FIELD_MAX
        &&& self.first_key.len() <= FIELD_MAX
        &&& self.last_key.len() <= FIELD_MAX
    }

    /// The bytes of the entry: offset, then each key behind its length.
    pub open spec fn encode(self) -> Seq<u8> {
        be16(self.offset as u16) + be16(self.first_key.len() as u16) + self.first_key + be16(
            self.last_key.len() as u16,
        ) + self.last_key
    }

    /// The entry at the front of `b` and the bytes behind it, if `b` is
    /// long enough for the lengths it states.
    pub open spec fn decode(b: Seq<u8>) -> Option<(BlockMetaView, Seq<u8>)> {
        if b.len() < 4 {
            None
        } else {
            let first_len = field_at(b, 2) as int;
            if b.len() < 6 + first_len {
                None
            } else {
                let last_len = field_at(b, 4 + first_len) as int;
                if b.len() < 6 + first_len + last_len {
                    None
                } else {
                    Some(
                        (
                            BlockMetaView {
                                offset: field_at(b, 0) as nat,
                                first_key: b.subrange(4, 4 + first_len),
                                last_key: b.subrange(6 + first_len, 6 + first_len + last_len),
                            },
                            b.skip(6 + first_len + last_len),
                        ),
                    )
                }
            }
        }
    }

    /// Decoding an encoded entry gives the entry, and leaves what followed
    /// it.
    pub proof fn lemma_decode_encode(self, rest: Seq<u8>)
        requires
            self.encodable(),
        ensures
            BlockMetaView::decode(self.encode() + rest) == Some((self, rest)),
    {
        let b = self.encode() + rest;
        let first_len = self.first_key.len() as int;
        let last_len = self.last_key.len() as int;
        lemma_field_round_trip(self.offset as u16);
        lemma_field_round_trip(first_len as u16);
        lemma_field_round_trip(last_len as u16);
        assert(b[0] == be16(self.offset as u16)[0] && b[1] == be16(self.offset as u16)[1]);
        assert(b[2] == be16(first_len as u16)[0] && b[3] == be16(first_len as u16)[1]);
        assert(field_at(b, 2) == first_len);
        assert(b[4 + first_len] == be16(last_len as u16)[0]);
        assert(b[5 + first_len] == be16(last_len as u16)[1]);
        assert(field_at(b, 4 + first_len) == last_len);
        assert(b.subrange(4, 4 + first_len) =~= self.first_key);
        assert(b.subrange(6 + first_len, 6 + first_len + last_len) =~= self.last_key);
        assert(b.skip(6 + first_len + last_len) =~= rest);
    }
}

/// The entries of an index, encoded one after another.
pub open spec fn metas_bytes(metas: Seq<BlockMetaView>) -> Seq<u8>
    decreases metas.len(),
{
    if metas.len() == 0 {
        Seq::empty()
    } else {
        metas[0].encode() + metas_bytes(metas.skip(1))
    }
}

/// An encoded index: the number of entries, then the entries.
pub open spec fn encode_metas(metas: Seq<BlockMetaView>) -> Seq<u8> {
    be16(metas.len() as u16) + metas_bytes(metas)
}

/// The number of entries and every field of every entry fit the format.
pub open spec fn metas_encodable(metas: Seq<BlockMetaView>) -> bool {
    &&& metas.len() <= FIELD_MAX
    &&& forall|i: int| 0 <= i < metas.len() ==> (#[trigger] metas[i]).encodable()
}

/// The `count` entries at the front of `b` and the bytes behind them.
pub open spec fn parse_metas(b: Seq<u8>, count: nat) -> Option<(Seq<BlockMetaView>, Seq<u8>)>
    decreases count,
{
    if count == 0 {
        Some((Seq::empty(), b))
    } else {
        match BlockMetaView::decode(b) {
            None => None,
            Some((meta, rest)) => match parse_metas(rest, (count - 1) as nat) {
                None => None,
                Some((metas, rest)) => Some((seq![meta] + metas, rest)),
            },
        }
    }
}

/// The index at the front of `b` and the bytes behind it.
pub open spec fn decode_metas(b: Seq<u8>) -> Option<(Seq<BlockMetaView>, Seq<u8>)> {
    if b.len() < 2 {
        None
    } else {
        parse_metas(b.skip(2), field_at(b, 0) as nat)
    }
}

/// One more entry at the end of an index adds its bytes at the end.
pub proof fn lemma_metas_bytes_push(metas: Seq<BlockMetaView>, meta: BlockMetaView)
    ensures
        metas_bytes(metas.push(meta)) == metas_bytes(metas) + meta.encode(),
    decreases metas.len(),
{
    let all = metas.push(meta);
    if metas.len() == 0 {
        assert(all.skip(1) =~= Seq::<BlockMetaView>::empty());
        assert(metas_bytes(all.skip(1)) =~= Seq::<u8>::empty());
        assert(metas_bytes(all) =~= meta.encode());
        assert(metas_bytes(metas) + meta.encode() =~= meta.encode());
    } else {
        assert(all.skip(1) =~= metas.skip(1).push(meta));
        lemma_metas_bytes_push(metas.skip(1), meta);
        assert(metas_bytes(all) =~= metas_bytes(metas) + meta.encode());
    }
}

/// Parsing encoded entries gives the entries, and leaves what followed
/// them.
pub proof fn lemma_parse_encode(metas: Seq<BlockMetaView>, rest: Seq<u8>)
    requires
        forall|i: int| 0 <= i < metas.len() ==> (#[trigger] metas[i]).encodable(),
    ensures
        parse_metas(metas_bytes(metas) + rest, metas.len()) == Some((metas, rest)),
    decreases metas.len(),
{
    if metas.len() == 0 {
        assert(metas_bytes(metas) + rest =~= rest);
        assert(metas =~= Seq::<BlockMetaView>::empty());
    } else {
        let tail = metas.skip(1);
        let tail_bytes = metas_bytes(tail) + rest;
        assert(metas_bytes(metas) + rest =~= metas[0].encode() + tail_bytes);
        metas[0].lemma_decode_encode(tail_bytes);
        assert forall|i: int| 0 <= i < tail.len() implies (#[trigger] tail[i]).encodable() by {
            assert(tail[i] == metas[i + 1]);
        }
        lemma_parse_encode(tail, rest);
        assert(seq![metas[0]] + tail =~= metas);
    }
}

/// Decoding an encoded index gives the index, and leaves what followed
/// it.
pub proof fn lemma_decode_encode_metas(metas: Seq<BlockMetaView>, rest: Seq<u8>)
    requires
        metas_encodable(metas),
    ensures
        decode_metas(encode_metas(metas) + rest) == Some((metas, rest)),
{
    let b = encode_metas(metas) + rest;
    lemma_field_round_trip(metas.len() as u16);
    assert(b[0] == be16(metas.len() as u16)[0] && b[1] == be16(metas.len() as u16)[1]);
    assert(b.skip(2) =~= metas_bytes(metas) + rest);
    lemma_parse_encode(metas, rest);
}

/// The index entry of one block.
#[derive(Debug, PartialEq, Eq)]
pub struct BlockMeta {
    /// Offset of the block's frame in the table's body.
    pub offset: usize,
    /// The first key of the block.
    pub first_key: KeyBytes,
    /// The last key of the block.
    pub last_key: KeyBytes,
}

impl View for BlockMeta {
    type V = BlockMetaView;

    open spec fn view(&self) -> BlockMetaView {
        BlockMetaView {
            offset: self.offset as nat,
            first_key: self.first_key@,
            last_key: self.last_key@,
        }
    }
}

impl Clone for BlockMeta {
    /// A copy that shares the key buffers.
    fn clone(&self) -> (meta: Self)
        ensures
            meta@ == self@,
    {
        BlockMeta {
            offset: self.offset,
            first_key: self.first_key.clone(),
            last_key: self.last_key.clone(),
        }
    }
}

/// What each index entry of `metas` is.
pub open spec fn meta_views(metas: Seq<BlockMeta>) -> Seq<BlockMetaView> {
    Seq::new(metas.len(), |i: int| metas[i]@)
}

/// What is parsed when `done` has been parsed already and `tail` is what
/// parsing the bytes behind it gives.
spec fn parsed_after(
    done: Seq<BlockMetaView>,
    tail: Option<(Seq<BlockMetaView>, Seq<u8>)>,
) -> Option<(Seq<BlockMetaView>, Seq<u8>)> {
    match tail {
        None => None,
        Some((metas, rest)) => Some((done + metas, rest)),
    }
}

impl BlockMeta {
    /// Whether the offset and the key lengths fit their 16-bit fields.
    pub fn is_encodable(&self) -> (r: bool)
        ensures
            r == self@.encodable(),
    {
        self.offset <= FIELD_MAX && self.first_key.len() <= FIELD_MAX && self.last_key.len()
            <= FIELD_MAX
    }

    /// Appends the encoded index to `buf`: the number of entries, then for
    /// each its offset and its two keys, each key behind its length. An
    /// index that does not fit the 16-bit fields is refused, and `buf` is
    /// left as it was.
    pub fn encode_block_meta(block_meta: &[BlockMeta], buf: &mut Vec<u8>) -> (res: Result<
        (),
        TableError,
    >)
        ensures
            match res {
                Ok(()) => metas_encodable(meta_views(block_meta@)) && final(buf)@ == old(buf)@
                    + encode_metas(meta_views(block_meta@)),
                Err(e) => e == TableError::CapacityExceeded && !metas_encodable(
                    meta_views(block_meta@),
                ) && final(buf)@ == old(buf)@,
            },
    {
        let ghost views = meta_views(block_meta@);
        let n = block_meta.len();
        if n > FIELD_MAX {
            return Err(TableError::CapacityExceeded);
        }
        let mut i: usize = 0;
        while i < n
            invariant
                i <= n,
                n == block_meta@.len(),
                views == meta_views(block_meta@),
                buf@ == old(buf)@,
                forall|j: int| 0 <= j < i ==> (#[trigger] views[j]).encodable(),
            decreases n - i,
        {
            if !block_meta[i].is_encodable() {
                assert(!views[i as int].encodable());
                return Err(TableError::CapacityExceeded);
            }
            i = i + 1;
        }
        vec_put_u16(buf, n as u16);
        let mut i: usize = 0;
        assert(metas_bytes(views.take(0)) =~= Seq::<u8>::empty());
        while i < n
            invariant
                i <= n,
                n == block_meta@.len(),
                n <= FIELD_MAX,
                views == meta_views(block_meta@),
                metas_encodable(views),
                buf@ == old(buf)@ + be16(n as u16) + metas_bytes(views.take(i as int)),
            decreases n - i,
        {
            let meta = &block_meta[i];
            assert(views[i as int].encodable());
            let first = meta.first_key.raw_ref();
            let last = meta.last_key.raw_ref();
            let mut byte_buf = buffer_with_capacity(6 + first.len() + last.len());
            buffer_put_u16(&mut byte_buf, meta.offset as u16);
            buffer_put_u16(&mut byte_buf, first.len() as u16);
            buffer_put(&mut byte_buf, first);
            buffer_put_u16(&mut byte_buf, last.len() as u16);
            buffer_put(&mut byte_buf, last);
            assert(bytes_mut_view(byte_buf) =~= views[i as int].encode());
            buf.extend_from_slice(buffer_as_slice(&byte_buf));
            proof {
                lemma_metas_bytes_push(views.take(i as int), views[i as int]);
                assert(views.take(i + 1) =~= views.take(i as int).push(views[i as int]));
                assert(buf@ =~= old(buf)@ + be16(n as u16) + metas_bytes(views.take(i + 1)));
            }
            i = i + 1;
        }
        proof {
            assert(views.take(n as int) =~= views);
            assert(buf@ =~= old(buf)@ + encode_metas(views));
        }
        Ok(())
    }

    /// Decodes the index at the front of `buf`. Bytes that end before the
    /// entries they announce do are refused.
    pub fn decode_block_meta(buf: Bytes) -> (res: Result<Vec<BlockMeta>, TableError>)
        ensures
            match res {
                Ok(metas) => decode_metas(bytes_view(buf)) is Some && decode_metas(
                    bytes_view(buf),
                ).unwrap().0 == meta_views(metas@),
                Err(e) => e == TableError::CorruptFormat && decode_metas(bytes_view(buf)) is None,
            },
    {
        let ghost whole = bytes_view(buf);
        let mut cursor = buf;
        let mut block_metas: Vec<BlockMeta> = Vec::new();
        if bytes_remaining(&cursor) < 2 {
            return Err(TableError::CorruptFormat);
        }
        let num_metas = bytes_get_u16(&mut cursor) as usize;
        let ghost start = bytes_view(cursor);
        let mut idx: usize = 0;
        assert(meta_views(block_metas@) + Seq::<BlockMetaView>::empty() =~= meta_views(
            block_metas@,
        ));
        while idx < num_metas
            invariant
                idx <= num_metas,
                idx == block_metas@.len(),
                whole == bytes_view(buf),
                decode_metas(whole) == parse_metas(start, num_metas as nat),
                parse_metas(start, num_metas as nat) == parsed_after(
                    meta_views(block_metas@),
                    parse_metas(bytes_view(cursor), (num_metas - idx) as nat),
                ),
            decreases num_metas - idx,
        {
            let ghost cur = bytes_view(cursor);
            let ghost done = meta_views(block_metas@);
            if bytes_remaining(&cursor) < 4 {
                return Err(TableError::CorruptFormat);
            }
            let offset = bytes_get_u16(&mut cursor) as usize;
            let first_key_len = bytes_get_u16(&mut cursor) as usize;
            assert(first_key_len == field_at(cur, 2));
            if bytes_remaining(&cursor) < first_key_len + 2 {
                return Err(TableError::CorruptFormat);
            }
            let first_key = KeyBytes::from_bytes(bytes_copy_to_bytes(&mut cursor, first_key_len));
            let last_key_len = bytes_get_u16(&mut cursor) as usize;
            assert(last_key_len == field_at(cur, 4 + first_key_len));
            if bytes_remaining(&cursor) < last_key_len {
                return Err(TableError::CorruptFormat);
            }
            let last_key = KeyBytes::from_bytes(bytes_copy_to_bytes(&mut cursor, last_key_len));
            let meta = BlockMeta { offset, first_key, last_key };
            proof {
                let rest = bytes_view(cursor);
                assert(meta@.first_key =~= cur.subrange(4, 4 + first_key_len));
                assert(meta@.last_key =~= cur.subrange(
                    6 + first_key_len,
                    6 + first_key_len + last_key_len,
                ));
                assert(rest =~= cur.skip(6 + first_key_len + last_key_len));
                assert(BlockMetaView::decode(cur) == Some((meta@, rest)));
                let tail = parse_metas(rest, (num_metas - idx - 1) as nat);
                if tail is Some {
                    assert((done + seq![meta@]) + tail.unwrap().0 =~= done + (seq![meta@]
                        + tail.unwrap().0));
                }
                assert(meta_views(block_metas@.push(meta)) =~= done + seq![meta@]);
            }
            block_metas.push(meta);
            idx = idx + 1;
        }
        assert(meta_views(block_metas@) + Seq::<BlockMetaView>::empty() =~= meta_views(
            block_metas@,
        ));
        Ok(block_metas)
    }
}

/// What a file object is: the bytes of the file, if it is at hand, and
/// the size recorded for it.
pub struct FileObjectView {
    pub content: Option<Seq<u8>>,
    pub size: nat,
}

impl FileObjectView {
    /// The size recorded is that of the bytes at hand.
    pub open spec fn wf(self) -> bool {
        self.content is Some ==> self.content.unwrap().len() == self.size
    }

    /// The `len` bytes at `offset`, if the file holds that range.
    pub open spec fn read(self, offset: nat, len: nat) -> Option<Seq<u8>> {
        if self.content is Some && offset + len <= self.content.unwrap().len() {
            Some(self.content.unwrap().subrange(offset as int, (offset + len) as int))
        } else {
            None
        }
    }
}

/// The image of one immutable table file: its bytes and its size. One
/// made for a table of which only the key range is known has a size and
/// no bytes.
pub struct FileObject(Option<Vec<u8>>, u64);

impl View for FileObject {
    type V = FileObjectView;

    closed spec fn view(&self) -> FileObjectView {
        FileObjectView {
            content: match self.0 {
                Some(data) => Some(data@),
                None => None,
            },
            size: self.1 as nat,
        }
    }
}

impl FileObject {
    #[verifier::type_invariant]
    spec fn sized(self) -> bool {
        self@.wf()
    }

    /// The file object over the bytes of a file.
    pub fn create(data: Vec<u8>) -> (file: Self)
        ensures
            file@ == (FileObjectView { content: Some(data@), size: data@.len() }),
    {
        let size = data.len() as u64;
        FileObject(Some(data), size)
    }

    /// Reads exactly `len` bytes at `offset`. A range that the file does
    /// not hold is refused.
    pub fn read(&self, offset: u64, len: u64) -> (res: Result<Vec<u8>, TableError>)
        ensures
            match res {
                Ok(bytes) => self@.read(offset as nat, len as nat) == Some(bytes@),
                Err(e) => e == TableError::CorruptFormat && self@.read(offset as nat, len as nat)
                    is None,
            },
    {
        match &self.0 {
            None => Err(TableError::CorruptFormat),
            Some(data) => {
                let size = data.len() as u64;
                if offset > size || len > size - offset {
                    return Err(TableError::CorruptFormat);
                }
                let from = offset as usize;
                let to = (offset + len) as usize;
                Ok(slice_to_vec(&data.as_slice()[from..to]))
            },
        }
    }

    /// The size of the file, as recorded when the object was made.
    pub fn size(&self) -> (n: u64)
        ensures
            n == self@.size,
            self@.wf(),
    {
        proof {
            use_type_invariant(self);
        }
        self.1
    }
}

/// The bytes of the block whose frame starts at `offset` of `bytes`: a
/// 16-bit length, then that many bytes.
pub open spec fn framed_block(bytes: Seq<u8>, offset: nat) -> Option<Seq<u8>> {
    if offset + 2 > bytes.len() {
        None
    } else {
        let len = field_at(bytes, offset as int) as int;
        if offset + 2 + len > bytes.len() {
            None
        } else {
            Some(bytes.subrange((offset + 2) as int, offset + 2 + len))
        }
    }
}

/// Where the index of the table file `bytes` begins, and the index: the
/// footer gives the place, the index lies between it and the footer, and
/// has at least one entry.
pub open spec fn table_index(bytes: Seq<u8>) -> Option<(nat, Seq<BlockMetaView>)> {
    if bytes.len() < 2 {
        None
    } else {
        let meta_offset = field_at(bytes, bytes.len() - 2) as int;
        if meta_offset > bytes.len() - 2 {
            None
        } else {
            let index = decode_metas(bytes.subrange(meta_offset, bytes.len() - 2));
            if index is Some && index.unwrap().0.len() > 0 {
                Some((meta_offset as nat, index.unwrap().0))
            } else {
                None
            }
        }
    }
}

/// What a table is.
pub struct SsTableView {
    pub file: FileObjectView,
    pub metas: Seq<BlockMetaView>,
    pub meta_offset: nat,
    pub id: nat,
    pub first_key: Seq<u8>,
    pub last_key: Seq<u8>,
    pub max_ts: nat,
}

impl SsTableView {
    /// The table that opening `file` under `id` gives.
    pub open spec fn opened(id: nat, file: FileObjectView) -> Option<SsTableView> {
        if file.content is Some && table_index(file.content.unwrap()) is Some {
            let (meta_offset, metas) = table_index(file.content.unwrap()).unwrap();
            Some(
                SsTableView {
                    file,
                    metas,
                    meta_offset,
                    id,
                    first_key: metas[0].first_key,
                    last_key: metas[metas.len() - 1].last_key,
                    max_ts: 0,
                },
            )
        } else {
            None
        }
    }

    /// What reading block `idx` gives.
    pub open spec fn block(self, idx: nat) -> Result<BlockView, TableError> {
        if idx >= self.metas.len() {
            Err(TableError::InvalidBlockIndex)
        } else if self.file.content is None {
            Err(TableError::CorruptFormat)
        } else {
            let framed = framed_block(self.file.content.unwrap(), self.metas[idx as int].offset);
            if framed is Some && BlockView::decode(framed.unwrap()) is Some {
                Ok(BlockView::decode(framed.unwrap()).unwrap())
            } else {
                Err(TableError::CorruptFormat)
            }
        }
    }

    /// Every block that `cache` holds for this table is the block that
    /// reading it from the file gives.
    pub open spec fn cached_in(self, cache: BlockCacheView) -> bool {
        forall|idx: nat| #[trigger]
            cache.contains_key((self.id, idx)) ==> self.block(idx) == Ok::<BlockView, TableError>(
                cache[(self.id, idx)],
            )
    }

    /// `idx` is the last block whose first key does not sort behind
    /// `key`, or the number of blocks if there is no such block.
    pub open spec fn finds(self, key: Seq<u8>, idx: nat) -> bool {
        &&& idx <= self.metas.len()
        &&& idx < self.metas.len() ==> key_le(self.metas[idx as int].first_key, key)
        &&& forall|i: int|
            0 <= i < self.metas.len() && #[trigger] key_le(self.metas[i].first_key, key) ==> idx
                < self.metas.len() && i <= idx
    }
}

impl SsTableView {
    /// A block put into a cache for one table leaves the cache in step
    /// with every table of another identifier.
    pub proof fn lemma_cached_in_after_insert(
        self,
        cache: BlockCacheView,
        table_id: nat,
        block_idx: nat,
        block: BlockView,
    )
        requires
            self.cached_in(cache),
            self.id != table_id || self.block(block_idx) == Ok::<BlockView, TableError>(block),
        ensures
            self.cached_in(cache.insert((table_id, block_idx), block)),
    {
        let after = cache.insert((table_id, block_idx), block);
        assert forall|idx: nat| #[trigger] after.contains_key((self.id, idx)) implies self.block(idx)
            == Ok::<BlockView, TableError>(after[(self.id, idx)]) by {
            if (self.id, idx) != (table_id, block_idx) {
                assert(cache.contains_key((self.id, idx)));
            }
        }
    }

    /// A search stops at one block only.
    pub proof fn lemma_finds_unique(self, key: Seq<u8>, a: nat, b: nat)
        requires
            self.finds(key, a),
            self.finds(key, b),
        ensures
            a == b,
    {
    }

    /// For a key that sorts before the first key of every block, the
    /// search gives the number of blocks.
    pub proof fn lemma_finds_none_below(self, key: Seq<u8>, idx: nat)
        requires
            self.finds(key, idx),
            forall|i: int| 0 <= i < self.metas.len() ==> key_lt(key, (#[trigger] self.metas[i]).first_key),
        ensures
            idx == self.metas.len(),
    {
        if idx < self.metas.len() {
            lemma_key_lt_total(key, self.metas[idx as int].first_key);
        }
    }

    /// Where the first keys of the index ascend strictly, the blocks
    /// whose first key does not sort behind `key` are exactly those up to
    /// the block that the search gives.
    pub proof fn lemma_finds_in_ascending(self, key: Seq<u8>, idx: nat, i: int)
        requires
            self.finds(key, idx),
            forall|a: int, b: int|
                0 <= a < b < self.metas.len() ==> key_lt(
                    (#[trigger] self.metas[a]).first_key,
                    (#[trigger] self.metas[b]).first_key,
                ),
            0 <= i < self.metas.len(),
        ensures
            key_le(self.metas[i].first_key, key) <==> idx < self.metas.len() && i <= idx,
    {
        if idx < self.metas.len() && i < idx {
            lemma_key_le_transitive(
                self.metas[i].first_key,
                self.metas[idx as int].first_key,
                key,
            );
        }
    }
}

/// An SSTable.
pub struct SsTable {
    /// The image of the table's file.
    pub(crate) file: FileObject,
    /// The index: one entry for each block.
    pub(crate) block_meta: Vec<BlockMeta>,
    /// The offset in the file at which the index begins.
    pub(crate) block_meta_offset: usize,
    id: usize,
    first_key: KeyBytes,
    last_key: KeyBytes,
    /// The largest timestamp stored in the table.
    max_ts: u64,
}

impl View for SsTable {
    type V = SsTableView;

    closed spec fn view(&self) -> SsTableView {
        SsTableView {
            file: self.file@,
            metas: meta_views(self.block_meta@),
            meta_offset: self.block_meta_offset as nat,
            id: self.id as nat,
            first_key: self.first_key@,
            last_key: self.last_key@,
            max_ts: self.max_ts as nat,
        }
    }
}

impl SsTable {
    /// Opens a table from the image of its file: reads the footer, then
    /// the index that it points to. A file too short for its footer or
    /// its index, or with an empty index, is refused.
    pub fn open(id: usize, file: FileObject) -> (res: Result<SsTable, TableError>)
        ensures
            match res {
                Ok(table) => SsTableView::opened(id as nat, file@) == Some(table@),
                Err(e) => e == TableError::CorruptFormat && SsTableView::opened(id as nat, file@)
                    is None,
            },
    {
        let size = file.size();
        if size < 2 {
            assert(file@.read(0, 0) is Some ==> file@.content.unwrap().len() < 2);
            return Err(TableError::CorruptFormat);
        }
        let footer = match file.read(size - 2, 2) {
            Ok(footer) => footer,
            Err(e) => {
                return Err(e);
            },
        };
        let ghost bytes = file@.content.unwrap();
        let meta_offset = read_u16(footer.as_slice(), 0) as u64;
        assert(meta_offset == field_at(bytes, bytes.len() - 2));
        if meta_offset > size - 2 {
            return Err(TableError::CorruptFormat);
        }
        let raw = match file.read(meta_offset, size - 2 - meta_offset) {
            Ok(raw) => raw,
            Err(e) => {
                return Err(e);
            },
        };
        let block_meta = match BlockMeta::decode_block_meta(bytes_from_vec(raw)) {
            Ok(block_meta) => block_meta,
            Err(e) => {
                return Err(e);
            },
        };
        if block_meta.len() == 0 {
            return Err(TableError::CorruptFormat);
        }
        let first_key = block_meta[0].first_key.clone();
        let last_key = block_meta[block_meta.len() - 1].last_key.clone();
        Ok(
            SsTable {
                file,
                block_meta,
                block_meta_offset: meta_offset as usize,
                id,
                first_key,
                last_key,
                max_ts: 0,
            },
        )
    }

    /// The table over `file` with the index `block_meta`.
    pub(crate) fn from_parts(
        file: FileObject,
        block_meta: Vec<BlockMeta>,
        block_meta_offset: usize,
        id: usize,
        first_key: KeyBytes,
        last_key: KeyBytes,
    ) -> (table: Self)
        ensures
            table@ == (SsTableView {
                file: file@,
                metas: meta_views(block_meta@),
                meta_offset: block_meta_offset as nat,
                id: id as nat,
                first_key: first_key@,
                last_key: last_key@,
                max_ts: 0,
            }),
    {
        SsTable { file, block_meta, block_meta_offset, id, first_key, last_key, max_ts: 0 }
    }

    /// A table of which only the key range and the file size are known: it
    /// has no blocks and no file content.
    pub fn create_meta_only(id: usize, file_size: u64, first_key: KeyBytes, last_key: KeyBytes) -> (table:
        Self)
        ensures
            table@ == (SsTableView {
                file: FileObjectView { content: None, size: file_size as nat },
                metas: Seq::empty(),
                meta_offset: 0,
                id: id as nat,
                first_key: first_key@,
                last_key: last_key@,
                max_ts: 0,
            }),
    {
        let table = SsTable {
            file: FileObject(None, file_size),
            block_meta: Vec::new(),
            block_meta_offset: 0,
            id,
            first_key,
            last_key,
            max_ts: 0,
        };
        assert(meta_views(table.block_meta@) =~= Seq::<BlockMetaView>::empty());
        table
    }

    /// Reads block `block_idx` from the file: the 16-bit length at the
    /// block's offset, then that many bytes, decoded.
    pub fn read_block(&self, block_idx: usize) -> (res: Result<Arc<Block>, TableError>)
        ensures
            match res {
                Ok(block) => self@.block(block_idx as nat) == Ok::<BlockView, TableError>(block@),
                Err(e) => self@.block(block_idx as nat) == Err::<BlockView, TableError>(e),
            },
    {
        if block_idx >= self.block_meta.len() {
            return Err(TableError::InvalidBlockIndex);
        }
        let meta = &self.block_meta[block_idx];
        assert(meta@ == self@.metas[block_idx as int]);
        let off = meta.offset as u64;
        let block_len_bytes = match self.file.read(off, 2) {
            Ok(bytes) => bytes,
            Err(e) => {
                return Err(e);
            },
        };
        let block_len = read_u16(block_len_bytes.as_slice(), 0);
        proof {
            use_type_invariant(&self.file);
        }
        let block_data = match self.file.read(off + 2, block_len as u64) {
            Ok(bytes) => bytes,
            Err(e) => {
                return Err(e);
            },
        };
        match Block::decode(block_data.as_slice()) {
            Ok(block) => Ok(Arc::new(block)),
            Err(e) => Err(e),
        }
    }

    /// Reads block `block_idx` through `cache`: the block that the cache
    /// holds for it is returned and the file is left alone; else the
    /// block is read from the file and, once decoded, put into the cache.
    /// The cache must be in step with the table: what it holds under the
    /// table's identifier are blocks of this table.
    pub fn read_block_cached(&self, block_idx: usize, cache: &mut BlockCache) -> (res: Result<
        Arc<Block>,
        TableError,
    >)
        requires
            self@.cached_in(old(cache)@),
        ensures
            self@.cached_in(final(cache)@),
            match res {
                Ok(block) => self@.block(block_idx as nat) == Ok::<BlockView, TableError>(block@)
                    && final(cache)@ == old(cache)@.insert((self@.id, block_idx as nat), block@),
                Err(e) => self@.block(block_idx as nat) == Err::<BlockView, TableError>(e)
                    && final(cache)@ == old(cache)@,
            },
            old(cache)@.contains_key((self@.id, block_idx as nat)) ==> final(cache)@ == old(
                cache,
            )@,
            grown_for(old(cache)@, final(cache)@, self@.id),
    {
        match cache.get(self.id, block_idx) {
            Some(block) => {
                assert(old(cache)@ =~= old(cache)@.insert(
                    (self@.id, block_idx as nat),
                    block@,
                ));
                Ok(block)
            },
            None => {
                let block = match self.read_block(block_idx) {
                    Ok(block) => block,
                    Err(e) => {
                        return Err(e);
                    },
                };
                proof {
                    self@.lemma_cached_in_after_insert(
                        old(cache)@,
                        self@.id,
                        block_idx as nat,
                        block@,
                    );
                }
                cache.insert(self.id, block_idx, share(&block));
                Ok(block)
            },
        }
    }

    /// Finds the block that may contain `key`: the last one whose first
    /// key does not sort behind `key`. The number of blocks is returned
    /// when every block starts behind `key`.
    pub fn find_block_idx(&self, key: KeySlice) -> (idx: usize)
        ensures
            self@.finds(key@, idx as nat),
    {
        let metas = &self.block_meta;
        let n = metas.len();
        let mut found = n;
        let mut idx: usize = 0;
        while idx < n
            invariant
                idx <= n,
                n == metas@.len(),
                metas == &self.block_meta,
                found <= n,
                found < n ==> found < idx && key_le(self@.metas[found as int].first_key, key@),
                forall|i: int|
                    0 <= i < idx && #[trigger] key_le(self@.metas[i].first_key, key@) ==> found
                        < n && i <= found,
            decreases n - idx,
        {
            let meta = &metas[idx];
            assert(meta@ == self@.metas[idx as int]);
            if meta.first_key.as_key_slice().le(&key) {
                found = idx;
            }
            idx = idx + 1;
        }
        found
    }

    /// The image of the table's file.
    pub fn file(&self) -> (file: &FileObject)
        ensures
            file@ == self@.file,
    {
        &self.file
    }

    /// The index of the table.
    pub fn block_meta(&self) -> (metas: &[BlockMeta])
        ensures
            meta_views(metas@) == self@.metas,
    {
        self.block_meta.as_slice()
    }

    /// The offset in the file at which the index begins.
    pub fn block_meta_offset(&self) -> (offset: usize)
        ensures
            offset == self@.meta_offset,
    {
        self.block_meta_offset
    }

    /// The number of data blocks.
    pub fn num_of_blocks(&self) -> (n: usize)
        ensures
            n == self@.metas.len(),
    {
        self.block_meta.len()
    }

    /// The first key of the table.
    pub fn first_key(&self) -> (key: &KeyBytes)
        ensures
            key@ == self@.first_key,
    {
        &self.first_key
    }

    /// The last key of the table.
    pub fn last_key(&self) -> (key: &KeyBytes)
        ensures
            key@ == self@.last_key,
    {
        &self.last_key
    }

    /// The size of the table's file.
    pub fn table_size(&self) -> (n: u64)
        ensures
            n == self@.file.size,
    {
        self.file.1
    }

    /// The identifier of the table.
    pub fn sst_id(&self) -> (id: usize)
        ensures
            id == self@.id,
    {
        self.id
    }

    /// The largest timestamp stored in the table.
    pub fn max_ts(&self) -> (ts: u64)
        ensures
            ts == self@.max_ts,
    {
        self.max_ts
    }
}

} // verus!
