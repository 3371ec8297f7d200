use std::cmp::Ordering;
use std::ops::Bound;

use bytes::Bytes;
use mini_lsm::error::StorageError;
use mini_lsm::iterators::merge_iterator::{HeapWrapper, MergeIterator};
use mini_lsm::iterators::two_merge_iterator::TwoMergeIterator;
use mini_lsm::iterators::{Contents, StorageIterator};
use mini_lsm::key::KeySlice;
use mini_lsm::lsm_iterator::{FusedIterator, LsmIterator};
use mini_lsm::mem_table::{MemTable, MemTableIterator};

fn mem(pairs: &[(&str, &str)]) -> MemTableIterator {
    let mut table = MemTable::create(0);
    for (k, v) in pairs {
        table.put(k.as_bytes(), v.as_bytes()).unwrap();
    }
    table.scan(Bound::Unbounded, Bound::Unbounded)
}

fn merge(parts: &[&[(&str, &str)]]) -> MergeIterator<MemTableIterator> {
    let mut iters = Vec::new();
    for p in parts {
        iters.push(Box::new(mem(p)));
    }
    MergeIterator::create(iters)
}

fn drain<I: StorageIterator>(iter: &mut I) -> Vec<(String, String)> {
    let mut found = Vec::new();
    while iter.is_valid() {
        found.push((
            String::from_utf8(iter.key().raw_ref().to_vec()).unwrap(),
            String::from_utf8(iter.value().to_vec()).unwrap(),
        ));
        iter.next().unwrap();
    }
    found
}

fn pairs(expected: &[(&str, &str)]) -> Vec<(String, String)> {
    let mut v = Vec::new();
    for (k, w) in expected {
        v.push((k.to_string(), w.to_string()));
    }
    v
}

/// Yields the keys it was made with, then fails when it is moved on.
struct Failing {
    keys: Vec<Vec<u8>>,
    at: usize,
    fail_at: usize,
}

impl StorageIterator for Failing {
    fn wf(&self) -> bool {
        unreachable!()
    }

    fn rest(&self) -> Contents {
        unreachable!()
    }

    fn infallible(&self) -> bool {
        unreachable!()
    }

    fn may_fail_with(&self, _e: StorageError) -> bool {
        unreachable!()
    }

    fn lemma_finite(&self) {}

    fn key(&self) -> KeySlice<'_> {
        KeySlice::from_slice(&self.keys[self.at])
    }

    fn value(&self) -> &[u8] {
        b"value"
    }

    fn is_valid(&self) -> bool {
        self.at < self.keys.len()
    }

    fn next(&mut self) -> Result<(), StorageError> {
        if self.at == self.fail_at {
            return Err(StorageError::Io("disk gone".to_string()));
        }
        self.at += 1;
        Ok(())
    }
}

fn failing(keys: &[&str], fail_at: usize) -> Failing {
    let mut v = Vec::new();
    for k in keys {
        v.push(k.as_bytes().to_vec());
    }
    Failing { keys: v, at: 0, fail_at }
}

#[test]
fn merging_prefers_the_smaller_index() {
    let i1: &[(&str, &str)] = &[("a", "1.1"), ("b", "2.1"), ("c", "3.1"), ("e", "")];
    let i2: &[(&str, &str)] = &[("a", "1.2"), ("b", "2.2"), ("c", "3.2"), ("d", "4.2")];
    let i3: &[(&str, &str)] = &[("b", "2.3"), ("c", "3.3"), ("d", "4.3")];
    assert_eq!(
        drain(&mut merge(&[i1, i2, i3])),
        pairs(&[("a", "1.1"), ("b", "2.1"), ("c", "3.1"), ("d", "4.2"), ("e", "")])
    );
    assert_eq!(
        drain(&mut merge(&[i3, i1, i2])),
        pairs(&[("a", "1.1"), ("b", "2.3"), ("c", "3.3"), ("d", "4.3"), ("e", "")])
    );
}

#[test]
fn merging_nothing_yields_nothing() {
    assert!(!merge(&[]).is_valid());
    assert!(!merge(&[&[], &[]]).is_valid());
    assert_eq!(drain(&mut merge(&[&[], &[("a", "1")], &[]])), pairs(&[("a", "1")]));
}

#[test]
fn a_merge_hands_on_the_failure_of_the_current_iterator() {
    let mut iter = MergeIterator::create(vec![Box::new(failing(&["a", "b"], 0))]);
    assert!(iter.is_valid());
    match iter.next() {
        Err(StorageError::Io(m)) => assert_eq!(m, "disk gone"),
        _ => panic!(),
    }
}

#[test]
fn a_merge_hands_on_the_failure_of_an_iterator_with_the_same_key() {
    let mut iter = MergeIterator::create(vec![
        Box::new(failing(&["a", "b"], 9)),
        Box::new(failing(&["a", "c"], 0)),
        Box::new(failing(&["d"], 9)),
    ]);
    assert!(matches!(iter.next(), Err(StorageError::Io(_))));
}

#[test]
fn after_a_failure_the_current_pair_stays_and_only_the_failed_iterator_is_lost() {
    let mut iter = MergeIterator::create(vec![
        Box::new(failing(&["a", "b"], 9)),
        Box::new(failing(&["a", "c"], 9)),
        Box::new(failing(&["a", "d"], 0)),
        Box::new(failing(&["a", "e"], 9)),
    ]);
    match iter.next() {
        Err(StorageError::Io(m)) => assert_eq!(m, "disk gone"),
        _ => panic!(),
    }
    let mut keys = Vec::new();
    while iter.is_valid() {
        keys.push(iter.key().raw_ref().to_vec());
        iter.next().unwrap();
    }
    assert_eq!(keys, vec![b"a".to_vec(), b"b".to_vec(), b"c".to_vec(), b"e".to_vec()]);
}

#[test]
fn the_smaller_key_and_then_the_smaller_index_is_the_greater_one() {
    let wrap = |i: usize, k: &str| HeapWrapper(i, Box::new(mem(&[(k, "v")])));
    assert_eq!(wrap(1, "a").cmp(&wrap(0, "b")), Ordering::Greater);
    assert_eq!(wrap(0, "b").cmp(&wrap(1, "a")), Ordering::Less);
    assert_eq!(wrap(0, "a").cmp(&wrap(1, "a")), Ordering::Greater);
    assert_eq!(wrap(1, "a").cmp(&wrap(0, "a")), Ordering::Less);
    assert_eq!(wrap(1, "a").cmp(&wrap(1, "a")), Ordering::Equal);
}

#[test]
fn two_iterators_prefer_the_first() {
    let a: &[(&str, &str)] = &[("a", "1.1"), ("b", "2.1"), ("c", "3.1")];
    let b: &[(&str, &str)] = &[("a", "1.2"), ("b", "2.2"), ("c", "3.2"), ("d", "4.2")];
    let mut iter = TwoMergeIterator::create(mem(a), mem(b)).unwrap();
    assert_eq!(drain(&mut iter), pairs(&[("a", "1.1"), ("b", "2.1"), ("c", "3.1"), ("d", "4.2")]));
    let mut iter = TwoMergeIterator::create(mem(b), mem(a)).unwrap();
    assert_eq!(drain(&mut iter), pairs(&[("a", "1.2"), ("b", "2.2"), ("c", "3.2"), ("d", "4.2")]));
    let mut iter = TwoMergeIterator::create(mem(&[]), mem(a)).unwrap();
    assert_eq!(drain(&mut iter), pairs(a));
    let mut iter = TwoMergeIterator::create(mem(a), mem(&[])).unwrap();
    assert_eq!(drain(&mut iter), pairs(a));
}

#[test]
fn an_iterator_of_a_scan_ends_at_its_bound_and_leaves_deleted_keys_out() {
    let top: &[(&str, &str)] = &[("a", ""), ("c", "3"), ("d", "")];
    let bottom: &[(&str, &str)] = &[("a", "1"), ("b", "2"), ("d", "4"), ("e", "5"), ("f", "6")];
    for (bound, expected) in [
        (Bound::Included("e"), pairs(&[("b", "2"), ("c", "3"), ("e", "5")])),
        (Bound::Excluded("e"), pairs(&[("b", "2"), ("c", "3")])),
        (Bound::Unbounded, pairs(&[("b", "2"), ("c", "3"), ("e", "5"), ("f", "6")])),
    ] {
        let mut engine = mini_lsm::lsm_storage::LsmStorageInner::open(
            mini_lsm::lsm_storage::LsmStorageOptions::default_for_week1_test(),
            vec![],
        )
        .unwrap();
        for (k, v) in bottom {
            engine.put(k.as_bytes(), v.as_bytes()).unwrap();
        }
        engine.force_freeze_memtable().unwrap();
        let table = engine.force_flush_next_imm_memtable().unwrap();
        engine.finish_flush_next_imm_memtable(table, Ok(())).unwrap();
        let table = engine.state.sstables[&engine.state.l0_sstables[0]].clone();
        let tables = MergeIterator::create(vec![Box::new(
            mini_lsm::table::SsTableIterator::create_and_seek_to_first(table),
        )]);
        let inner = TwoMergeIterator::create(merge(&[top]), tables).unwrap();
        let end = bound.map(|b| Bytes::copy_from_slice(b.as_bytes()));
        let mut iter = LsmIterator::new(inner, end).unwrap();
        assert_eq!(drain(&mut iter), expected);
    }
}

#[test]
fn a_fused_iterator_does_nothing_when_it_is_invalid() {
    let mut iter = FusedIterator::new(failing(&[], 0));
    assert!(!iter.is_valid());
    iter.next().unwrap();
    iter.next().unwrap();
    assert!(!iter.is_valid());
}

#[test]
fn a_fused_iterator_keeps_failing() {
    let mut iter = FusedIterator::new(failing(&["a", "b"], 1));
    assert!(iter.is_valid());
    assert_eq!(iter.key().raw_ref(), b"a");
    assert_eq!(iter.value(), b"value");
    iter.next().unwrap();
    assert!(iter.is_valid());
    assert!(matches!(iter.next(), Err(StorageError::Io(_))));
    assert!(!iter.is_valid());
    assert!(matches!(iter.next(), Err(StorageError::Tainted)));
    assert!(matches!(iter.next(), Err(StorageError::Tainted)));
    assert!(!iter.is_valid());
}
