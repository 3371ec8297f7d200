use std::ops::Bound;
use std::sync::Arc;

use mini_lsm::error::StorageError;
use mini_lsm::iterators::StorageIterator;
use mini_lsm::key::KeySlice;
use mini_lsm::mem_table::MemTable;
use mini_lsm::table::{BlockMeta, SsTable, SsTableBuilder, SsTableIterator};

fn key(k: &[u8]) -> KeySlice<'_> {
    KeySlice::from_slice(k)
}

fn key_of(i: usize) -> Vec<u8> {
    format!("key_{:03}", i * 5).into_bytes()
}

fn value_of(i: usize) -> Vec<u8> {
    format!("value_{:010}", i).into_bytes()
}

fn num_of_keys() -> usize {
    100
}

fn generate_sst() -> SsTable {
    let mut builder = SsTableBuilder::new(128);
    for i in 0..num_of_keys() {
        builder.add(key(&key_of(i)), &value_of(i));
    }
    builder.build_for_test()
}

#[test]
fn a_table_with_one_entry() {
    let mut builder = SsTableBuilder::new(16);
    builder.add(key(b"233"), b"233333");
    let table = builder.build(7);
    assert_eq!(table.sst_id(), 7);
    assert_eq!(table.num_of_blocks(), 1);
    assert_eq!(table.first_key().as_key_slice().raw_ref(), b"233");
    assert_eq!(table.last_key().as_key_slice().raw_ref(), b"233");
}

#[test]
fn small_blocks_hold_one_entry_each() {
    let mut builder = SsTableBuilder::new(16);
    for k in ["11", "22", "33", "44", "55", "66"] {
        builder.add(key(k.as_bytes()), k.as_bytes());
    }
    // the open block does not count
    assert_eq!(builder.estimated_size(), 5 * 12);
    let table = builder.build_for_test();
    assert_eq!(table.num_of_blocks(), 6);
    assert_eq!(table.block_meta[1].offset, 12);
    assert_eq!(table.block_meta[1].first_key.as_key_slice().raw_ref(), b"22");
    assert_eq!(table.block_meta[1].last_key.as_key_slice().raw_ref(), b"22");
    assert_eq!(table.block_meta_offset, 72);
}

#[test]
fn the_file_is_blocks_descriptions_and_where_these_start() {
    let mut builder = SsTableBuilder::new(4096);
    builder.add(key(b"a"), b"xyz");
    builder.add(key(b"bc"), b"");
    let table = builder.build(1);
    let mut expected: Vec<u8> = Vec::new();
    expected.extend_from_slice(&1u16.to_ne_bytes());
    expected.extend_from_slice(b"a");
    expected.extend_from_slice(&3u16.to_ne_bytes());
    expected.extend_from_slice(b"xyz");
    expected.extend_from_slice(&2u16.to_ne_bytes());
    expected.extend_from_slice(b"bc");
    expected.extend_from_slice(&0u16.to_ne_bytes());
    for n in [0u16, 8, 2] {
        expected.extend_from_slice(&n.to_ne_bytes());
    }
    let data_len = expected.len();
    assert_eq!(table.file[..data_len], expected[..]);
    assert_eq!(table.file[table.file.len() - 4..], (data_len as u32).to_ne_bytes());
    assert_eq!(table.block_meta_offset, data_len);
}

#[test]
fn a_table_without_entries_has_one_empty_block() {
    let table = SsTableBuilder::new(100).build_for_test();
    assert_eq!(table.num_of_blocks(), 1);
    assert!(table.first_key().as_key_slice().is_empty());
    assert!(!SsTableIterator::create_and_seek_to_first(Arc::new(table)).is_valid());
}

#[test]
fn a_table_reads_back_as_what_was_added() {
    let table = Arc::new(generate_sst());
    let mut iter = SsTableIterator::create_and_seek_to_first(table);
    for i in 0..num_of_keys() {
        assert!(iter.is_valid());
        assert_eq!(iter.key().raw_ref(), &key_of(i)[..]);
        assert_eq!(iter.value(), &value_of(i)[..]);
        iter.next().unwrap();
    }
    assert!(!iter.is_valid());
}

#[test]
fn seeking_in_a_table_finds_the_first_key_not_before_the_target() {
    let table = Arc::new(generate_sst());
    for i in 0..num_of_keys() {
        for offset in 0..5 {
            let target = format!("key_{:03}", i * 5 + offset).into_bytes();
            let iter = SsTableIterator::create_and_seek_to_key(table.clone(), key(&target));
            let expected = if offset == 0 { i } else { i + 1 };
            if expected < num_of_keys() {
                assert_eq!(iter.key().raw_ref(), &key_of(expected)[..]);
                assert_eq!(iter.value(), &value_of(expected)[..]);
            } else {
                assert!(!iter.is_valid());
            }
        }
    }
    let iter = SsTableIterator::create_and_seek_to_key(table.clone(), key(b"a"));
    assert_eq!(iter.key().raw_ref(), &key_of(0)[..]);
    assert!(!SsTableIterator::create_and_seek_to_key(table, key(b"l")).is_valid());
}

#[test]
fn blocks_are_found_by_their_first_keys() {
    let table = generate_sst();
    let n = table.num_of_blocks();
    assert!(n > 1);
    assert_eq!(table.find_block_idx(key(b"a")), 0);
    assert_eq!(table.find_block_idx(key(b"z")), n - 1);
    for i in 0..n {
        let first = table.block_meta[i].first_key.as_key_slice().raw_ref().to_vec();
        let last = table.block_meta[i].last_key.as_key_slice().raw_ref().to_vec();
        assert_eq!(table.find_block_idx(key(&first)), i);
        assert_eq!(table.find_block_idx(key(&last)), i);
        assert!(!table.read_block(i).offsets.is_empty());
    }
}

#[test]
fn a_mem_table_keeps_the_last_value_of_each_key() {
    let mut table = MemTable::create(3);
    assert!(table.is_empty());
    table.put(b"b", b"1").unwrap();
    table.put(b"a", b"2").unwrap();
    table.put(b"b", b"345").unwrap();
    assert!(!table.is_empty());
    assert_eq!(&table.get(b"b").unwrap()[..], b"345");
    assert_eq!(&table.get(b"a").unwrap()[..], b"2");
    assert!(table.get(b"c").is_none());
    assert_eq!(table.approximate_size(), 2 + 2 + 4);
}

#[test]
fn a_mem_table_scans_a_range() {
    let mut table = MemTable::create(0);
    for k in ["a", "b", "c", "d"] {
        table.put(k.as_bytes(), k.as_bytes()).unwrap();
    }
    let mut iter = table.scan(Bound::Excluded(b"a"), Bound::Included(b"c"));
    assert_eq!(iter.key().raw_ref(), b"b");
    iter.next().unwrap();
    assert_eq!(iter.key().raw_ref(), b"c");
    iter.next().unwrap();
    assert!(!iter.is_valid());
    assert!(!table.scan(Bound::Included(b"c"), Bound::Excluded(b"a")).is_valid());
}

#[test]
fn a_mem_table_fits_in_a_table_if_lengths_and_offsets_do() {
    let mut table = MemTable::create(0);
    assert!(table.fits_in_table(4096));
    table.put(b"k", b"v").unwrap();
    assert!(table.fits_in_table(0));
    assert!(table.fits_in_table(usize::MAX));
    table.put(b"l", &[0; 65535]).unwrap();
    assert!(table.fits_in_table(4096));
    assert!(table.fits_in_table(usize::MAX));
    table.put(b"m", b"").unwrap();
    assert!(table.fits_in_table(4096));
    // in one block, the third entry starts too late
    assert!(!table.fits_in_table(usize::MAX));
    table.put(b"l", &[0; 65536]).unwrap();
    assert!(!table.fits_in_table(4096));
}

#[test]
fn a_mem_table_with_a_long_key_does_not_fit_in_a_table() {
    let mut table = MemTable::create(0);
    table.put(b"", b"v").unwrap();
    assert!(table.fits_in_table(4096));
    table.put(&[1; 65535], b"v").unwrap();
    assert!(table.fits_in_table(4096));
    table.put(&[1; 65536], b"v").unwrap();
    assert!(!table.fits_in_table(4096));
}

#[test]
fn a_table_reads_back_an_empty_key() {
    let mut builder = SsTableBuilder::new(1);
    builder.add(key(b""), b"nothing");
    builder.add(key(b"a"), b"1");
    let table = Arc::new(builder.build(1));
    assert_eq!(table.num_of_blocks(), 2);
    let mut iter = SsTableIterator::create_and_seek_to_first(table.clone());
    assert!(iter.is_valid());
    assert!(iter.key().is_empty());
    assert_eq!(iter.value(), b"nothing");
    iter.next().unwrap();
    assert_eq!(iter.key().raw_ref(), b"a");
    iter.next().unwrap();
    assert!(!iter.is_valid());
    let iter = SsTableIterator::create_and_seek_to_key(table.clone(), key(b""));
    assert_eq!(iter.value(), b"nothing");
    let iter = SsTableIterator::create_and_seek_to_key(table, key(b"a"));
    assert_eq!(iter.value(), b"1");
}

#[test]
fn a_table_is_opened_from_its_file() {
    let table = generate_sst();
    let opened = SsTable::open(9, table.file.clone()).unwrap();
    assert_eq!(opened.sst_id(), 9);
    assert_eq!(opened.file, table.file);
    assert_eq!(opened.block_meta_offset, table.block_meta_offset);
    assert_eq!(opened.num_of_blocks(), table.num_of_blocks());
    assert_eq!(opened.first_key().as_key_slice().raw_ref(), &key_of(0)[..]);
    assert_eq!(opened.last_key().as_key_slice().raw_ref(), &key_of(99)[..]);
    let mut iter = SsTableIterator::create_and_seek_to_first(Arc::new(opened));
    for i in 0..num_of_keys() {
        assert_eq!(iter.key().raw_ref(), &key_of(i)[..]);
        assert_eq!(iter.value(), &value_of(i)[..]);
        iter.next().unwrap();
    }
    assert!(!iter.is_valid());
    let empty = SsTableBuilder::new(100).build(2);
    assert!(SsTable::open(2, empty.file).is_ok());
}

#[test]
fn a_file_that_is_not_one_of_a_table_is_refused() {
    let file = generate_sst().file;
    assert!(matches!(SsTable::open(3, vec![]), Err(StorageError::Corrupt(3))));
    assert!(matches!(SsTable::open(3, vec![1, 2, 3, 4, 5]), Err(StorageError::Corrupt(3))));
    assert!(SsTable::open(3, file[1..].to_vec()).is_err());
    assert!(SsTable::open(3, file[..file.len() - 1].to_vec()).is_err());
    // the keys of a block do not ascend
    let mut builder = SsTableBuilder::new(4096);
    builder.add(key(b"b"), b"1");
    builder.add(key(b"a"), b"2");
    assert!(SsTable::open(3, builder.build(3).file).is_err());
    // a block starts before the one before it ends
    let mut builder = SsTableBuilder::new(1);
    builder.add(key(b"b"), b"1");
    builder.add(key(b"b"), b"2");
    assert!(SsTable::open(3, builder.build(3).file).is_err());
}

#[test]
fn descriptions_of_blocks_can_be_decoded() {
    let table = generate_sst();
    let mut buf = Vec::new();
    BlockMeta::encode_block_meta(&table.block_meta, &mut buf);
    let metas = BlockMeta::decode_block_meta(&buf).unwrap();
    assert_eq!(metas.len(), table.block_meta.len());
    for (a, b) in metas.iter().zip(table.block_meta.iter()) {
        assert_eq!(a.offset, b.offset);
        assert_eq!(a.first_key.as_key_slice().raw_ref(), b.first_key.as_key_slice().raw_ref());
        assert_eq!(a.last_key.as_key_slice().raw_ref(), b.last_key.as_key_slice().raw_ref());
    }
    assert!(BlockMeta::decode_block_meta(&buf[..buf.len() - 1]).is_none());
    assert!(BlockMeta::decode_block_meta(&[]).unwrap().is_empty());
}

#[test]
fn a_table_keeps_the_order_in_which_entries_were_added() {
    let mut builder = SsTableBuilder::new(25);
    for k in ["c", "a", "b"] {
        builder.add(key(k.as_bytes()), k.as_bytes());
    }
    let table = builder.build(1);
    let mut found = Vec::new();
    for i in 0..table.num_of_blocks() {
        let block = table.read_block(i);
        for j in 0..block.offsets.len() {
            found.push(block.key_of(j).raw_ref().to_vec());
        }
    }
    assert_eq!(found, vec![b"c".to_vec(), b"a".to_vec(), b"b".to_vec()]);
}
