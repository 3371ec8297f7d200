use std::sync::Arc;

use mini_lsm::block::{Block, BlockBuilder, BlockIterator};
use mini_lsm::key::KeySlice;

fn key(k: &[u8]) -> KeySlice<'_> {
    KeySlice::from_slice(k)
}

fn u16s(ns: &[u16]) -> Vec<u8> {
    let mut v = Vec::new();
    for n in ns {
        v.extend_from_slice(&n.to_ne_bytes());
    }
    v
}

fn entry(k: &[u8], v: &[u8]) -> Vec<u8> {
    let mut e = u16s(&[k.len() as u16]);
    e.extend_from_slice(k);
    e.extend_from_slice(&u16s(&[v.len() as u16]));
    e.extend_from_slice(v);
    e
}

fn key_of(i: usize) -> Vec<u8> {
    format!("key_{:03}", i * 5).into_bytes()
}

fn value_of(i: usize) -> Vec<u8> {
    format!("value_{:010}", i).into_bytes()
}

fn num_of_keys() -> usize {
    100
}

fn generate_block() -> Block {
    let mut builder = BlockBuilder::new(10000);
    for i in 0..num_of_keys() {
        assert!(builder.add(key(&key_of(i)), &value_of(i)));
    }
    builder.build()
}

#[test]
fn a_block_takes_one_entry() {
    let mut builder = BlockBuilder::new(16);
    assert!(builder.is_empty());
    assert!(builder.add(key(b"233"), b"233333"));
    assert!(!builder.is_empty());
    let block = builder.build();
    assert_eq!(block.data, entry(b"233", b"233333"));
    assert_eq!(block.offsets, vec![0]);
}

#[test]
fn a_full_block_refuses_an_entry_and_stays_as_it_is() {
    let mut builder = BlockBuilder::new(16);
    assert!(builder.add(key(b"11"), b"11"));
    assert!(!builder.add(key(b"22"), b"22"));
    let block = builder.build();
    assert_eq!(block.data, entry(b"11", b"11"));
    assert_eq!(block.offsets, vec![0]);
}

#[test]
fn the_block_size_is_exact() {
    // 2 bytes for the number of entries, then 6 bytes and both strings for each
    let mut fits = BlockBuilder::new(2 + 2 * (6 + 2 + 2));
    assert!(fits.add(key(b"11"), b"11"));
    assert!(fits.add(key(b"22"), b"22"));
    let mut too_small = BlockBuilder::new(2 + 2 * (6 + 2 + 2) - 1);
    assert!(too_small.add(key(b"11"), b"11"));
    assert!(!too_small.add(key(b"22"), b"22"));
}

#[test]
fn the_first_entry_may_be_larger_than_the_block() {
    let mut builder = BlockBuilder::new(1);
    assert!(builder.add(key(b"1"), &[7; 100]));
    assert!(!builder.add(key(b"2"), b""));
}

#[test]
fn a_pair_with_an_empty_key_counts() {
    let mut builder = BlockBuilder::new(1);
    assert!(builder.is_empty());
    assert!(builder.add(key(b""), b"x"));
    assert!(!builder.is_empty());
    assert!(!builder.add(key(b"k"), b"y"));
    let block = builder.build();
    assert_eq!(block.offsets, vec![0]);
    assert!(block.key_of(0).is_empty());
}

#[test]
fn the_size_of_a_block_is_the_length_of_its_encoding() {
    // a block of exactly this size takes the second entry, a smaller one does not
    let mut builder = BlockBuilder::new(1000);
    assert_eq!(builder.size(), 2);
    assert!(builder.add(key(b"abc"), b"12"));
    assert!(builder.add(key(b"d"), b""));
    let stated = builder.size();
    let size = builder.build().encode().len();
    assert_eq!(stated, size as u128);
    assert_eq!(size, 2 + (6 + 5) + (6 + 1));
    for (block_size, fits) in [(size, true), (size - 1, false)] {
        let mut builder = BlockBuilder::new(block_size);
        assert!(builder.add(key(b"abc"), b"12"));
        assert_eq!(builder.add(key(b"d"), b""), fits);
    }
}

#[test]
fn a_block_whose_offsets_miss_its_entries_is_not_readable() {
    let good = generate_block();
    assert!(good.is_readable());
    assert_eq!(good.key_of(3).raw_ref(), &key_of(3)[..]);
    let bad = Block { data: entry(b"a", b"1"), offsets: vec![0, 6] };
    assert!(!bad.is_readable());
    let cut = Block { data: entry(b"a", b"1")[..5].to_vec(), offsets: vec![0] };
    assert!(!cut.is_readable());
    assert!(Block { data: vec![], offsets: vec![] }.is_readable());
}

#[test]
fn lengths_and_offsets_are_stored_modulo_65536() {
    let mut builder = BlockBuilder::new(1 << 30);
    let long = vec![b'k'; 65537];
    assert!(builder.add(key(&long), b"v"));
    assert!(builder.add(key(b"l"), b"w"));
    let block = builder.build();
    assert_eq!(block.data[..2], 1u16.to_ne_bytes());
    assert_eq!(block.data.len(), 2 + 65537 + 2 + 1 + 6);
    assert_eq!(block.offsets, vec![0, 6]);
}

#[test]
fn the_encoding_is_entries_offsets_and_count() {
    let mut builder = BlockBuilder::new(1000);
    assert!(builder.add(key(b"a"), b"xyz"));
    assert!(builder.add(key(b"bc"), b""));
    let block = builder.build();
    let mut expected = entry(b"a", b"xyz");
    expected.extend_from_slice(&entry(b"bc", b""));
    expected.extend_from_slice(&u16s(&[0, 8, 2]));
    assert_eq!(&block.encode()[..], &expected[..]);
}

#[test]
fn decoding_gives_back_what_was_encoded() {
    let block = generate_block();
    let encoded = block.encode();
    let decoded = Block::decode(&encoded);
    assert_eq!(block.offsets, decoded.offsets);
    assert_eq!(block.data, decoded.data);
    assert_eq!(decoded.encode(), encoded);
}

#[test]
fn encoding_gives_back_what_was_decoded() {
    let mut bytes = vec![9, 8, 7];
    bytes.extend_from_slice(&u16s(&[513, 2, 2]));
    let block = Block::decode(&bytes);
    assert_eq!(block.data, vec![9, 8, 7]);
    assert_eq!(block.offsets, vec![513, 2]);
    assert_eq!(&block.encode()[..], &bytes[..]);
}

#[test]
fn an_empty_block_encodes_its_count() {
    let block = BlockBuilder::new(10).build();
    assert_eq!(&block.encode()[..], &u16s(&[0])[..]);
    let decoded = Block::decode(&u16s(&[0]));
    assert!(decoded.data.is_empty());
    assert!(decoded.offsets.is_empty());
}

#[test]
fn an_iterator_walks_through_all_entries() {
    let block = Arc::new(generate_block());
    let mut iter = BlockIterator::create_and_seek_to_first(block);
    for _ in 0..5 {
        for i in 0..num_of_keys() {
            assert!(iter.is_valid());
            assert_eq!(iter.key().raw_ref(), &key_of(i)[..]);
            assert_eq!(iter.value(), &value_of(i)[..]);
            iter.next();
        }
        assert!(!iter.is_valid());
        iter.next();
        assert!(!iter.is_valid());
        iter.seek_to_first();
    }
}

#[test]
fn an_iterator_seeks_to_the_first_key_not_before_the_target() {
    let block = Arc::new(generate_block());
    let mut iter = BlockIterator::create_and_seek_to_key(block, key(&key_of(0)));
    for offset in 1..=5 {
        for i in 0..num_of_keys() {
            assert_eq!(iter.key().raw_ref(), &key_of(i)[..]);
            assert_eq!(iter.value(), &value_of(i)[..]);
            iter.seek_to_key(key(format!("key_{:03}", i * 5 + offset).as_bytes()));
        }
        iter.seek_to_key(key(b"k"));
    }
    iter.seek_to_key(key(b"l"));
    assert!(!iter.is_valid());
}

#[test]
fn seeking_finds_the_first_of_equal_keys() {
    let mut builder = BlockBuilder::new(1000);
    for (k, v) in [("a", "0"), ("b", "1"), ("b", "2"), ("b", "3"), ("c", "4")] {
        assert!(builder.add(key(k.as_bytes()), v.as_bytes()));
    }
    let iter = BlockIterator::create_and_seek_to_key(Arc::new(builder.build()), key(b"b"));
    assert_eq!(iter.key().raw_ref(), b"b");
    assert_eq!(iter.value(), b"1");
}

#[test]
fn seeking_reads_only_where_the_offsets_point() {
    let mut data = vec![255, 255, 255];
    data.extend_from_slice(&entry(b"a", b"1"));
    data.extend_from_slice(&entry(b"b", b"2"));
    let block = Arc::new(Block { data, offsets: vec![3, 9] });
    let iter = BlockIterator::create_and_seek_to_key(block, key(b"b"));
    assert_eq!(iter.key().raw_ref(), b"b");
    assert_eq!(iter.value(), b"2");
}

#[test]
fn an_iterator_on_an_empty_block_is_invalid() {
    let block = Arc::new(BlockBuilder::new(10).build());
    let mut iter = BlockIterator::create_and_seek_to_first(block.clone());
    assert!(!iter.is_valid());
    iter.seek_to_first();
    assert!(!iter.is_valid());
    iter.seek_to_key(key(b"a"));
    assert!(!iter.is_valid());
    iter.next();
    assert!(!iter.is_valid());
    assert!(iter.value().is_empty());
    assert!(!BlockIterator::create_and_seek_to_key(block, key(b"a")).is_valid());
}
