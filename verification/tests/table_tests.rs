use std::sync::Arc;

use bytes::Bytes;
use lsm_sstable::block::BlockIterator;
use lsm_sstable::cache::BlockCache;
use lsm_sstable::error::TableError;
use lsm_sstable::key::{bytes_le, KeyBytes, KeySlice};
use lsm_sstable::table::SsTableBuilder;
use lsm_sstable::table::SsTableIterator;
use lsm_sstable::table::{BlockMeta, FileObject, SsTable};

fn key(bytes: &[u8]) -> KeySlice<'_> {
    KeySlice::from_slice(bytes)
}

fn key_bytes(bytes: &[u8]) -> KeyBytes {
    KeyBytes::from_bytes(Bytes::copy_from_slice(bytes))
}

fn five_key_table() -> SsTable {
    let mut builder = SsTableBuilder::new(64);
    for k in [b"a", b"b", b"c", b"d", b"e"] {
        let value = [k[0]; 10];
        assert_eq!(builder.add(key(k), &value), Ok(()));
    }
    builder.build(7).unwrap()
}

fn image_of(table: &SsTable) -> Vec<u8> {
    table.file().read(0, table.table_size()).unwrap()
}

fn scan(table: SsTable) -> Vec<(Vec<u8>, Vec<u8>)> {
    let mut cache = BlockCache::new();
    let mut iter =
        SsTableIterator::create_and_seek_to_first(Arc::new(table), &mut cache).unwrap();
    let mut out = Vec::new();
    while iter.is_valid() {
        out.push((iter.key().raw_ref().to_vec(), iter.value().to_vec()));
        iter.next(&mut cache).unwrap();
    }
    out
}

#[test]
fn five_keys_span_blocks_and_scan_in_order() {
    let table = five_key_table();
    // each entry takes 1 + 10 + 6 = 17 of the 62 bytes of a block: three fit
    assert_eq!(table.num_of_blocks(), 2);
    assert_eq!(table.sst_id(), 7);
    assert_eq!(table.max_ts(), 0);
    assert_eq!(table.first_key().raw_ref(), b"a");
    assert_eq!(table.last_key().raw_ref(), b"e");

    let idx = table.find_block_idx(key(b"c"));
    assert_eq!(idx, 0);
    let block = table.read_block(idx).unwrap();
    let iter = BlockIterator::create_and_seek_to_key(block, key(b"c"));
    assert!(iter.is_valid());
    assert_eq!(iter.key().raw_ref(), b"c");
    assert_eq!(iter.value(), &[b'c'; 10]);

    let want: Vec<(Vec<u8>, Vec<u8>)> = [b'a', b'b', b'c', b'd', b'e']
        .iter()
        .map(|c| (vec![*c], vec![*c; 10]))
        .collect();
    assert_eq!(scan(table), want);
}

#[test]
fn the_file_is_frames_then_index_then_footer() {
    let mut builder = SsTableBuilder::new(16);
    assert_eq!(builder.add(key(b"a"), b"1"), Ok(()));
    assert_eq!(builder.add(key(b"b"), b"2"), Ok(()));
    assert_eq!(builder.add(key(b"c"), b"3"), Ok(()));
    let table = builder.build(1).unwrap();
    // capacity 14, an entry needs 8: one entry a block
    let frame = |k: u8, v: u8| -> Vec<u8> { vec![0, 10, 0, 1, k, 0, 1, v, 0, 0, 0, 1] };
    let mut want = Vec::new();
    want.extend(frame(b'a', b'1'));
    want.extend(frame(b'b', b'2'));
    want.extend(frame(b'c', b'3'));
    want.extend([0, 3]);
    want.extend([0, 0, 0, 1, b'a', 0, 1, b'a']);
    want.extend([0, 12, 0, 1, b'b', 0, 1, b'b']);
    want.extend([0, 24, 0, 1, b'c', 0, 1, b'c']);
    want.extend([0, 36]);
    assert_eq!(image_of(&table), want);
    assert_eq!(table.table_size(), want.len() as u64);
    assert_eq!(table.block_meta_offset(), 36);
    assert_eq!(table.num_of_blocks(), 3);
}

#[test]
fn the_index_records_each_block() {
    let table = five_key_table();
    let metas = table.block_meta();
    assert_eq!(metas.len(), 2);
    assert_eq!(metas[0].offset, 0);
    assert_eq!(metas[0].first_key.raw_ref(), b"a");
    assert_eq!(metas[0].last_key.raw_ref(), b"c");
    // three entries of 15 bytes, three offsets, the count, the length prefix
    assert_eq!(metas[1].offset, 45 + 6 + 2 + 2);
    assert_eq!(metas[1].first_key.raw_ref(), b"d");
    assert_eq!(metas[1].last_key.raw_ref(), b"e");
}

#[test]
fn last_keys_do_not_pass_the_next_first_key() {
    let mut builder = SsTableBuilder::new(48);
    let mut keys = Vec::new();
    for i in 0..200u32 {
        keys.push(format!("key{:05}", i).into_bytes());
    }
    for k in &keys {
        assert_eq!(builder.add(key(k), b"value"), Ok(()));
    }
    let table = builder.build(0).unwrap();
    let metas = table.block_meta();
    assert!(metas.len() > 10);
    for i in 0..metas.len() {
        assert!(bytes_le(metas[i].first_key.raw_ref(), metas[i].last_key.raw_ref()));
        if i + 1 < metas.len() {
            assert!(bytes_le(metas[i].last_key.raw_ref(), metas[i + 1].first_key.raw_ref()));
            assert!(metas[i].offset < metas[i + 1].offset);
        }
    }
    let got: Vec<Vec<u8>> = scan(table).into_iter().map(|(k, _)| k).collect();
    assert_eq!(got, keys);
}

#[test]
fn find_block_idx_gives_the_last_block_that_starts_at_or_before() {
    let mut builder = SsTableBuilder::new(16);
    for k in [b"b", b"d", b"f"] {
        assert_eq!(builder.add(key(k), b"v"), Ok(()));
    }
    let table = builder.build(0).unwrap();
    assert_eq!(table.num_of_blocks(), 3);
    assert_eq!(table.find_block_idx(key(b"b")), 0);
    assert_eq!(table.find_block_idx(key(b"c")), 0);
    assert_eq!(table.find_block_idx(key(b"d")), 1);
    assert_eq!(table.find_block_idx(key(b"e")), 1);
    assert_eq!(table.find_block_idx(key(b"f")), 2);
    assert_eq!(table.find_block_idx(key(b"zzz")), 2);
}

#[test]
fn find_block_idx_below_every_first_key_gives_the_number_of_blocks() {
    let mut builder = SsTableBuilder::new(16);
    for k in [b"b", b"d", b"f"] {
        assert_eq!(builder.add(key(k), b"v"), Ok(()));
    }
    let table = builder.build(0).unwrap();
    assert_eq!(table.find_block_idx(key(b"a")), table.num_of_blocks());
    assert_eq!(table.find_block_idx(key(b"")), 3);
    assert_eq!(table.find_block_idx(key(b"azzz")), 3);
}

#[test]
fn find_block_idx_agrees_with_a_binary_search() {
    let mut builder = SsTableBuilder::new(40);
    for i in 0..60u32 {
        let k = format!("k{:03}", i * 3).into_bytes();
        assert_eq!(builder.add(key(&k), b"v"), Ok(()));
    }
    let table = builder.build(0).unwrap();
    let firsts: Vec<Vec<u8>> =
        table.block_meta().iter().map(|m| m.first_key.raw_ref().to_vec()).collect();
    for i in 0..200u32 {
        let probe = format!("k{:03}", i).into_bytes();
        let upper = firsts.partition_point(|f| f.as_slice() <= probe.as_slice());
        let want = if upper == 0 { firsts.len() } else { upper - 1 };
        assert_eq!(table.find_block_idx(key(&probe)), want);
    }
}

#[test]
fn read_block_refuses_an_index_out_of_range() {
    let table = five_key_table();
    assert!(matches!(table.read_block(2), Err(TableError::InvalidBlockIndex)));
    let sentinel = table.find_block_idx(key(b""));
    assert!(matches!(table.read_block(sentinel), Err(TableError::InvalidBlockIndex)));
    assert!(matches!(table.read_block(usize::MAX), Err(TableError::InvalidBlockIndex)));
}

#[test]
fn open_reads_back_what_build_wrote() {
    let table = five_key_table();
    let reopened = SsTable::open(3, FileObject::create(image_of(&table))).unwrap();
    assert_eq!(reopened.sst_id(), 3);
    assert_eq!(reopened.num_of_blocks(), table.num_of_blocks());
    assert_eq!(reopened.block_meta(), table.block_meta());
    assert_eq!(reopened.block_meta_offset(), table.block_meta_offset());
    assert_eq!(reopened.table_size(), table.table_size());
    assert_eq!(reopened.first_key().raw_ref(), b"a");
    assert_eq!(reopened.last_key().raw_ref(), b"e");
    for i in 0..table.num_of_blocks() {
        let a = table.read_block(i).unwrap().encode();
        let b = reopened.read_block(i).unwrap().encode();
        assert_eq!(a, b);
    }
    assert_eq!(scan(reopened), scan(table));
}

#[test]
fn open_refuses_files_without_a_footer_or_an_index() {
    let open = |bytes: Vec<u8>| SsTable::open(0, FileObject::create(bytes));
    assert!(matches!(open(vec![]), Err(TableError::CorruptFormat)));
    assert!(matches!(open(vec![0]), Err(TableError::CorruptFormat)));
    // the footer points behind itself
    assert!(matches!(open(vec![0, 1]), Err(TableError::CorruptFormat)));
    // the footer points at an index of no bytes
    assert!(matches!(open(vec![0, 0]), Err(TableError::CorruptFormat)));
    // an index without entries
    assert!(matches!(open(vec![0, 0, 0, 0]), Err(TableError::CorruptFormat)));
    // an index that announces one entry and holds half of it
    assert!(matches!(open(vec![0, 1, 0, 0, 0, 1, 0, 0]), Err(TableError::CorruptFormat)));
}

#[test]
fn open_refuses_every_truncation_of_a_table() {
    let image = image_of(&five_key_table());
    for cut in 0..image.len() {
        let res = SsTable::open(0, FileObject::create(image[..cut].to_vec()));
        assert!(matches!(res, Err(TableError::CorruptFormat)), "{} bytes were accepted", cut);
    }
}

#[test]
fn read_block_refuses_a_damaged_block() {
    let table = five_key_table();
    let mut image = image_of(&table);
    // the length prefix of the first block now says more than the file holds
    image[0] = 0xff;
    let damaged = SsTable::open(0, FileObject::create(image.clone())).unwrap();
    assert!(matches!(damaged.read_block(0), Err(TableError::CorruptFormat)));
    assert!(damaged.read_block(1).is_ok());
    // the count at the end of the second block is off by one
    let mut image = image_of(&table);
    let end_of_second = table.block_meta_offset();
    image[end_of_second - 1] += 1;
    let damaged = SsTable::open(0, FileObject::create(image)).unwrap();
    assert!(damaged.read_block(0).is_ok());
    assert!(matches!(damaged.read_block(1), Err(TableError::CorruptFormat)));
}

#[test]
fn file_object_reads_ranges_within_the_file() {
    let file = FileObject::create(vec![10, 11, 12, 13, 14]);
    assert_eq!(file.size(), 5);
    assert_eq!(file.read(0, 5), Ok(vec![10, 11, 12, 13, 14]));
    assert_eq!(file.read(1, 3), Ok(vec![11, 12, 13]));
    assert_eq!(file.read(4, 1), Ok(vec![14]));
    assert_eq!(file.read(5, 0), Ok(vec![]));
    assert_eq!(file.read(0, 0), Ok(vec![]));
    assert_eq!(file.read(0, 6), Err(TableError::CorruptFormat));
    assert_eq!(file.read(5, 1), Err(TableError::CorruptFormat));
    assert_eq!(file.read(6, 0), Err(TableError::CorruptFormat));
    assert_eq!(file.read(u64::MAX, 2), Err(TableError::CorruptFormat));
    assert_eq!(file.read(2, u64::MAX), Err(TableError::CorruptFormat));
}

#[test]
fn a_table_of_key_range_only_has_no_blocks() {
    let table = SsTable::create_meta_only(9, 1234, key_bytes(b"low"), key_bytes(b"top"));
    assert_eq!(table.sst_id(), 9);
    assert_eq!(table.table_size(), 1234);
    assert_eq!(table.first_key().raw_ref(), b"low");
    assert_eq!(table.last_key().raw_ref(), b"top");
    assert_eq!(table.num_of_blocks(), 0);
    assert_eq!(table.max_ts(), 0);
    assert_eq!(table.block_meta_offset(), 0);
    assert_eq!(table.find_block_idx(key(b"mid")), 0);
    assert!(matches!(table.read_block(0), Err(TableError::InvalidBlockIndex)));
    assert_eq!(table.file().size(), 1234);
    assert_eq!(table.file().read(0, 1), Err(TableError::CorruptFormat));
    assert!(matches!(
        SsTableIterator::create_and_seek_to_first(Arc::new(table), &mut BlockCache::new()),
        Err(TableError::InvalidBlockIndex)
    ));
}

#[test]
fn block_meta_codec_layout() {
    let metas = vec![
        BlockMeta { offset: 0, first_key: key_bytes(b"a"), last_key: key_bytes(b"bc") },
        BlockMeta { offset: 258, first_key: key_bytes(b"d"), last_key: key_bytes(b"") },
    ];
    let mut buf = vec![9u8];
    assert_eq!(BlockMeta::encode_block_meta(&metas, &mut buf), Ok(()));
    let expected: Vec<u8> =
        vec![9, 0, 2, 0, 0, 0, 1, b'a', 0, 2, b'b', b'c', 1, 2, 0, 1, b'd', 0, 0];
    assert_eq!(buf, expected);
    let decoded = BlockMeta::decode_block_meta(Bytes::copy_from_slice(&buf[1..])).unwrap();
    assert_eq!(decoded, metas);
    assert_eq!(decoded[1].clone(), metas[1]);
}

#[test]
fn block_meta_decode_leaves_what_follows_the_index() {
    let bytes: Vec<u8> = vec![0, 1, 0, 7, 0, 1, b'k', 0, 1, b'l', 42, 43];
    let decoded = BlockMeta::decode_block_meta(Bytes::from(bytes)).unwrap();
    assert_eq!(decoded.len(), 1);
    assert_eq!(decoded[0].offset, 7);
    assert_eq!(decoded[0].first_key.raw_ref(), b"k");
    assert_eq!(decoded[0].last_key.raw_ref(), b"l");
    let none = BlockMeta::decode_block_meta(Bytes::from(vec![0u8, 0])).unwrap();
    assert!(none.is_empty());
}

#[test]
fn block_meta_decode_refuses_every_truncation() {
    let metas = vec![
        BlockMeta { offset: 1, first_key: key_bytes(b"aa"), last_key: key_bytes(b"bb") },
        BlockMeta { offset: 2, first_key: key_bytes(b"cc"), last_key: key_bytes(b"dd") },
    ];
    let mut buf = Vec::new();
    assert_eq!(BlockMeta::encode_block_meta(&metas, &mut buf), Ok(()));
    for cut in 0..buf.len() {
        let res = BlockMeta::decode_block_meta(Bytes::copy_from_slice(&buf[..cut]));
        assert!(matches!(res, Err(TableError::CorruptFormat)), "{} bytes were accepted", cut);
    }
}

#[test]
fn block_meta_beyond_the_format_is_refused() {
    let far = vec![BlockMeta { offset: 65536, first_key: key_bytes(b"a"), last_key: key_bytes(b"b") }];
    let mut buf = vec![1u8, 2, 3];
    assert_eq!(BlockMeta::encode_block_meta(&far, &mut buf), Err(TableError::CapacityExceeded));
    assert_eq!(buf, vec![1, 2, 3]);
    assert!(!far[0].is_encodable());
    let long = vec![
        BlockMeta { offset: 0, first_key: key_bytes(b"a"), last_key: key_bytes(b"b") },
        BlockMeta { offset: 1, first_key: key_bytes(&[0u8; 65536]), last_key: key_bytes(b"b") },
    ];
    assert_eq!(BlockMeta::encode_block_meta(&long, &mut buf), Err(TableError::CapacityExceeded));
    assert_eq!(buf, vec![1, 2, 3]);
    let edge = vec![BlockMeta {
        offset: 65535,
        first_key: key_bytes(&[0u8; 65535]),
        last_key: key_bytes(b""),
    }];
    assert!(edge[0].is_encodable());
    assert_eq!(BlockMeta::encode_block_meta(&edge, &mut buf), Ok(()));
    assert_eq!(buf.len(), 3 + 2 + 6 + 65535);
    assert_eq!(&buf[3..9], &[0, 1, 255, 255, 255, 255]);
}

#[test]
fn empty_builder_is_refused() {
    let builder = SsTableBuilder::new(64);
    assert_eq!(builder.estimated_size(), 0);
    assert!(matches!(builder.build(0), Err(TableError::EmptyTableBuild)));
}

#[test]
fn estimated_size_counts_the_sealed_blocks() {
    let mut builder = SsTableBuilder::new(16);
    assert_eq!(builder.add(key(b"a"), b"1"), Ok(()));
    assert_eq!(builder.estimated_size(), 0);
    assert_eq!(builder.add(key(b"b"), b"2"), Ok(()));
    assert_eq!(builder.estimated_size(), 12);
    assert_eq!(builder.add(key(b"c"), b"3"), Ok(()));
    assert_eq!(builder.estimated_size(), 24);
}

#[test]
fn an_entry_beyond_the_format_is_refused_by_the_table() {
    let too_long = vec![0u8; 65536];
    let mut builder = SsTableBuilder::new(64);
    assert_eq!(builder.add(key(&too_long), b"v"), Err(TableError::CapacityExceeded));
    assert_eq!(builder.add(key(b"k"), &too_long), Err(TableError::CapacityExceeded));
    assert_eq!(builder.add(key(b"k"), b"v"), Ok(()));
    let table = builder.build(0).unwrap();
    assert_eq!(scan(table), vec![(b"k".to_vec(), b"v".to_vec())]);
}

#[test]
fn a_block_too_large_for_its_length_prefix_is_refused() {
    let big = vec![0u8; 40000];
    let mut builder = SsTableBuilder::new(64);
    // accepted as the first entry of its block, but the block cannot be framed
    assert_eq!(builder.add(key(&big), &big), Ok(()));
    assert_eq!(builder.add(key(b"z"), b""), Err(TableError::CapacityExceeded));
    assert!(matches!(builder.build(0), Err(TableError::CapacityExceeded)));
}

#[test]
fn a_body_beyond_the_reach_of_an_offset_is_refused() {
    let value = vec![0u8; 1000];
    let mut builder = SsTableBuilder::new(1024);
    let mut accepted = 0u32;
    let mut refused = None;
    for i in 0..100u32 {
        let k = format!("{:04}", i).into_bytes();
        match builder.add(key(&k), &value) {
            Ok(()) => accepted += 1,
            Err(e) => {
                refused = Some(e);
                break;
            }
        }
    }
    // a frame takes 2 + 1008 + 2 + 2 = 1014 bytes: the 66th block would
    // start at 65910, so the 67th entry cannot seal it
    assert_eq!(refused, Some(TableError::CapacityExceeded));
    assert_eq!(accepted, 66);
    assert_eq!(builder.estimated_size(), 65 * 1014);
    assert!(matches!(builder.build(0), Err(TableError::CapacityExceeded)));
}

#[test]
fn the_largest_table_that_fits_is_built() {
    let value = vec![0u8; 1000];
    let mut builder = SsTableBuilder::new(1024);
    for i in 0..64u32 {
        let k = format!("{:04}", i).into_bytes();
        assert_eq!(builder.add(key(&k), &value), Ok(()));
    }
    let table = builder.build(0).unwrap();
    assert_eq!(table.num_of_blocks(), 64);
    assert_eq!(table.block_meta_offset(), 64 * 1014);
    assert_eq!(scan(table).len(), 64);
}

#[test]
fn table_cursor_seeks_across_blocks() {
    let mut builder = SsTableBuilder::new(16);
    for k in [b"b", b"d", b"f"] {
        assert_eq!(builder.add(key(k), k), Ok(()));
    }
    let table = Arc::new(builder.build(0).unwrap());
    let mut cache = BlockCache::new();
    let cases: Vec<(&[u8], Option<&[u8]>)> = vec![
        (b"", Some(b"b")),
        (b"a", Some(b"b")),
        (b"b", Some(b"b")),
        (b"c", Some(b"d")),
        (b"d", Some(b"d")),
        (b"e", Some(b"f")),
        (b"f", Some(b"f")),
        (b"g", None),
    ];
    for (target, want) in cases {
        let iter =
            SsTableIterator::create_and_seek_to_key(table.clone(), key(target), &mut cache)
                .unwrap();
        match want {
            Some(k) => {
                assert!(iter.is_valid());
                assert_eq!(iter.key().raw_ref(), k);
                assert_eq!(iter.value(), k);
            }
            None => assert!(!iter.is_valid()),
        }
    }
}

#[test]
fn table_cursor_moves_and_stays_at_the_end() {
    let table = Arc::new(five_key_table());
    let mut cache = BlockCache::new();
    let mut iter = SsTableIterator::create_and_seek_to_key(table, key(b"c"), &mut cache).unwrap();
    assert_eq!(iter.key().raw_ref(), b"c");
    assert_eq!(iter.next(&mut cache), Ok(()));
    assert_eq!(iter.key().raw_ref(), b"d");
    assert_eq!(iter.next(&mut cache), Ok(()));
    assert_eq!(iter.key().raw_ref(), b"e");
    assert_eq!(iter.next(&mut cache), Ok(()));
    assert!(!iter.is_valid());
    assert!(iter.key().is_empty());
    assert_eq!(iter.value(), b"");
    assert_eq!(iter.next(&mut cache), Ok(()));
    assert!(!iter.is_valid());
    assert_eq!(iter.seek_to_first(&mut cache), Ok(()));
    assert_eq!(iter.key().raw_ref(), b"a");
    assert_eq!(iter.seek_to_key(key(b"cc"), &mut cache), Ok(()));
    assert_eq!(iter.key().raw_ref(), b"d");
    assert_eq!(iter.seek_to_key(key(b"zz"), &mut cache), Ok(()));
    assert!(!iter.is_valid());
    assert_eq!(iter.seek_to_key(key(b"a"), &mut cache), Ok(()));
    assert_eq!(iter.key().raw_ref(), b"a");
}

#[test]
fn table_cursor_reports_a_damaged_block_and_stays() {
    let table = five_key_table();
    let mut image = image_of(&table);
    let end_of_second = table.block_meta_offset();
    image[end_of_second - 1] += 1;
    let damaged = Arc::new(SsTable::open(0, FileObject::create(image)).unwrap());
    let mut cache = BlockCache::new();
    let mut iter = SsTableIterator::create_and_seek_to_first(damaged.clone(), &mut cache).unwrap();
    assert_eq!(iter.next(&mut cache), Ok(()));
    assert_eq!(iter.next(&mut cache), Ok(()));
    assert_eq!(iter.key().raw_ref(), b"c");
    assert_eq!(iter.next(&mut cache), Err(TableError::CorruptFormat));
    assert!(!iter.is_valid());
    assert_eq!(iter.seek_to_key(key(b"e"), &mut cache), Err(TableError::CorruptFormat));
    assert_eq!(iter.seek_to_key(key(b"b"), &mut cache), Ok(()));
    assert_eq!(iter.key().raw_ref(), b"b");
    assert!(matches!(
        SsTableIterator::create_and_seek_to_key(damaged, key(b"d"), &mut cache),
        Err(TableError::CorruptFormat)
    ));
    assert!(cache.get(0, 0).is_some());
    assert!(cache.get(0, 1).is_none());
}

#[test]
fn a_cached_read_gives_the_block_of_the_file() {
    let table = five_key_table();
    let mut cache = BlockCache::new();
    assert!(cache.get(7, 0).is_none());
    let first = table.read_block_cached(0, &mut cache).unwrap();
    assert_eq!(first.encode(), table.read_block(0).unwrap().encode());
    // the block is now held, and a second read hands out the same one
    let held = cache.get(7, 0).unwrap();
    assert!(Arc::ptr_eq(&held, &first));
    let again = table.read_block_cached(0, &mut cache).unwrap();
    assert!(Arc::ptr_eq(&again, &first));
    assert!(cache.get(7, 1).is_none());
    assert!(cache.get(8, 0).is_none());
    let second = table.read_block_cached(1, &mut cache).unwrap();
    assert_eq!(second.encode(), table.read_block(1).unwrap().encode());
    assert!(Arc::ptr_eq(&cache.get(7, 1).unwrap(), &second));
    assert!(Arc::ptr_eq(&cache.get(7, 0).unwrap(), &first));
}

#[test]
fn a_cached_read_that_fails_leaves_the_cache_alone() {
    let table = five_key_table();
    let mut cache = BlockCache::new();
    assert!(matches!(
        table.read_block_cached(2, &mut cache),
        Err(TableError::InvalidBlockIndex)
    ));
    assert!(cache.get(7, 2).is_none());
    let mut image = image_of(&table);
    image[0] = 0xff;
    let damaged = SsTable::open(5, FileObject::create(image)).unwrap();
    assert!(matches!(damaged.read_block_cached(0, &mut cache), Err(TableError::CorruptFormat)));
    assert!(cache.get(5, 0).is_none());
    assert!(damaged.read_block_cached(1, &mut cache).is_ok());
    assert!(cache.get(5, 1).is_some());
}

#[test]
fn a_cache_keeps_tables_apart() {
    let one = five_key_table();
    let mut builder = SsTableBuilder::new(64);
    assert_eq!(builder.add(key(b"x"), b"y"), Ok(()));
    let other = builder.build(8).unwrap();
    let mut cache = BlockCache::new();
    let a = one.read_block_cached(0, &mut cache).unwrap();
    let b = other.read_block_cached(0, &mut cache).unwrap();
    assert_ne!(a.encode(), b.encode());
    assert!(Arc::ptr_eq(&cache.get(7, 0).unwrap(), &a));
    assert!(Arc::ptr_eq(&cache.get(8, 0).unwrap(), &b));
    let replaced = Arc::new(lsm_sstable::block::BlockBuilder::new(8).build());
    cache.insert(7, 0, replaced.clone());
    assert!(Arc::ptr_eq(&cache.get(7, 0).unwrap(), &replaced));
    assert!(Arc::ptr_eq(&cache.get(8, 0).unwrap(), &b));
}

#[test]
fn a_table_cursor_fills_the_cache_as_it_goes() {
    let table = Arc::new(five_key_table());
    let mut cache = BlockCache::new();
    let mut iter = SsTableIterator::create_and_seek_to_first(table.clone(), &mut cache).unwrap();
    let first = cache.get(7, 0).unwrap();
    assert!(cache.get(7, 1).is_none());
    assert_eq!(iter.next(&mut cache), Ok(()));
    assert_eq!(iter.next(&mut cache), Ok(()));
    assert!(cache.get(7, 1).is_none());
    assert_eq!(iter.next(&mut cache), Ok(()));
    assert_eq!(iter.key().raw_ref(), b"d");
    let second = cache.get(7, 1).unwrap();
    // a second pass reads nothing anew
    assert_eq!(iter.seek_to_first(&mut cache), Ok(()));
    assert_eq!(iter.seek_to_key(key(b"e"), &mut cache), Ok(()));
    assert_eq!(iter.key().raw_ref(), b"e");
    assert!(Arc::ptr_eq(&cache.get(7, 0).unwrap(), &first));
    assert!(Arc::ptr_eq(&cache.get(7, 1).unwrap(), &second));
    assert!(Arc::ptr_eq(&table.read_block_cached(1, &mut cache).unwrap(), &second));
}
