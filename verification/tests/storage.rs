use std::ops::Bound;

use bytes::Bytes;
use mini_lsm::compact::{
    CompactionController, CompactionOptions, LeveledCompactionOptions,
    SimpleLeveledCompactionOptions, TieredCompactionOptions,
};
use mini_lsm::error::StorageError;
use mini_lsm::file_name::{sst_file_name, sst_id_of, wal_file_name};
use mini_lsm::key::KeySlice;
use mini_lsm::lsm_storage::{
    key_within, range_overlap, CompactionFilter, LsmStorageInner, LsmStorageOptions,
    LsmStorageState, WriteBatchRecord,
};

fn open(options: LsmStorageOptions) -> LsmStorageInner {
    LsmStorageInner::open(options, vec![]).unwrap()
}

fn engine() -> LsmStorageInner {
    open(LsmStorageOptions::default_for_week1_test())
}

fn files(engine: &LsmStorageInner) -> Vec<(usize, Vec<u8>)> {
    let mut files = Vec::new();
    for (id, table) in &engine.state.sstables {
        files.push((*id, table.file.clone()));
    }
    files
}

fn flush(engine: &mut LsmStorageInner) {
    if let Some(table) = engine.force_flush_next_imm_memtable() {
        engine.finish_flush_next_imm_memtable(table, Ok(())).unwrap();
    }
}

fn get(engine: &LsmStorageInner, k: &str) -> Option<String> {
    engine
        .get(k.as_bytes())
        .unwrap()
        .map(|v| String::from_utf8(v.to_vec()).unwrap())
}

fn scan(engine: &LsmStorageInner, lower: Bound<&[u8]>, upper: Bound<&[u8]>) -> String {
    let mut iter = engine.scan(lower, upper).unwrap();
    let mut found = String::new();
    while iter.is_valid() {
        found.push_str(&String::from_utf8(iter.key().raw_ref().to_vec()).unwrap());
        found.push('=');
        found.push_str(&String::from_utf8(iter.value().to_vec()).unwrap());
        found.push(' ');
        iter.next().unwrap();
    }
    found
}

fn key(k: &str) -> KeySlice<'_> {
    KeySlice::from_slice(k.as_bytes())
}

#[test]
fn options_for_the_first_steps() {
    let o = LsmStorageOptions::default_for_week1_test();
    assert_eq!(o.block_size, 4096);
    assert_eq!(o.target_sst_size, 2 << 20);
    assert_eq!(o.num_memtable_limit, 50);
    assert!(matches!(o.compaction_options, CompactionOptions::NoCompaction));
    assert!(!o.enable_wal);
    assert!(!o.serializable);
    let o = LsmStorageOptions::default_for_week1_day6_test();
    assert_eq!(o.target_sst_size, 2 << 20);
    assert_eq!(o.num_memtable_limit, 2);
    let o = LsmStorageOptions::default_for_week2_test(CompactionOptions::Tiered(
        TieredCompactionOptions {
            num_tiers: 3,
            max_size_amplification_percent: 200,
            size_ratio: 1,
            min_merge_width: 2,
            max_merge_width: None,
        },
    ));
    assert_eq!(o.target_sst_size, 1 << 20);
    assert_eq!(o.num_memtable_limit, 2);
    match o.compaction_options {
        CompactionOptions::Tiered(t) => assert_eq!(t.num_tiers, 3),
        _ => panic!(),
    }
}

#[test]
fn the_levels_follow_the_compaction_options() {
    let mut o = LsmStorageOptions::default_for_week1_test();
    assert_eq!(LsmStorageState::create(&o).levels, vec![(1, vec![])]);
    o.compaction_options = CompactionOptions::Simple(SimpleLeveledCompactionOptions {
        size_ratio_percent: 200,
        level0_file_num_compaction_trigger: 2,
        max_levels: 3,
    });
    assert_eq!(LsmStorageState::create(&o).levels, vec![(1, vec![]), (2, vec![]), (3, vec![])]);
    assert!(matches!(
        open(o).compaction_controller,
        CompactionController::Simple(_)
    ));
    o.compaction_options = CompactionOptions::Leveled(LeveledCompactionOptions {
        level_size_multiplier: 2,
        level0_file_num_compaction_trigger: 2,
        max_levels: 2,
        base_level_size_mb: 20,
    });
    assert_eq!(LsmStorageState::create(&o).levels, vec![(1, vec![]), (2, vec![])]);
    assert!(matches!(
        open(o).compaction_controller,
        CompactionController::Leveled(_)
    ));
    o.compaction_options = CompactionOptions::Tiered(TieredCompactionOptions {
        num_tiers: 3,
        max_size_amplification_percent: 200,
        size_ratio: 1,
        min_merge_width: 2,
        max_merge_width: None,
    });
    assert!(LsmStorageState::create(&o).levels.is_empty());
}

#[test]
fn a_new_engine_holds_nothing() {
    let engine = engine();
    assert_eq!(get(&engine, "0"), None);
    assert_eq!(scan(&engine, Bound::Unbounded, Bound::Unbounded), "");
    assert_eq!(engine.next_sst_id, 1);
    assert!(engine.new_txn().is_ok());
}

#[test]
fn a_key_reads_as_what_was_written_last() {
    let mut engine = engine();
    engine.put(b"1", b"233").unwrap();
    engine.put(b"2", b"2333").unwrap();
    engine.put(b"3", b"23333").unwrap();
    assert_eq!(get(&engine, "1"), Some("233".to_string()));
    assert_eq!(get(&engine, "2"), Some("2333".to_string()));
    engine.delete(b"2").unwrap();
    assert_eq!(get(&engine, "2"), None);
    engine.delete(b"0").unwrap();
    assert_eq!(get(&engine, "0"), None);
    engine.put(b"1", b"new").unwrap();
    assert_eq!(get(&engine, "1"), Some("new".to_string()));
    assert_eq!(get(&engine, "3"), Some("23333".to_string()));
    engine.put(b"3", b"").unwrap();
    assert_eq!(get(&engine, "3"), None);
}

#[test]
fn freezing_keeps_what_the_engine_holds() {
    let mut engine = engine();
    engine.put(b"1", b"233").unwrap();
    engine.put(b"2", b"2333").unwrap();
    engine.force_freeze_memtable().unwrap();
    assert_eq!(engine.state.imm_memtables.len(), 1);
    assert!(engine.state.memtable.is_empty());
    assert_eq!(engine.next_sst_id, 2);
    assert_eq!(get(&engine, "1"), Some("233".to_string()));
    engine.delete(b"1").unwrap();
    engine.put(b"2", b"new").unwrap();
    engine.force_freeze_memtable().unwrap();
    assert_eq!(engine.state.imm_memtables.len(), 2);
    assert_eq!(&engine.state.imm_memtables[0].get(b"2").unwrap()[..], b"new");
    assert_eq!(&engine.state.imm_memtables[1].get(b"2").unwrap()[..], b"2333");
    assert_eq!(get(&engine, "1"), None);
    assert_eq!(get(&engine, "2"), Some("new".to_string()));
}

#[test]
fn flushing_keeps_what_the_engine_holds() {
    let mut engine = engine();
    for i in 0..1000 {
        engine.put(format!("key{:04}", i).as_bytes(), format!("v{}", i).as_bytes()).unwrap();
    }
    engine.force_freeze_memtable().unwrap();
    engine.delete(b"key0007").unwrap();
    engine.put(b"key0008", b"new").unwrap();
    engine.force_freeze_memtable().unwrap();
    let all = scan(&engine, Bound::Unbounded, Bound::Unbounded);
    assert!(engine.next_flush_fits());
    flush(&mut engine);
    assert_eq!(engine.state.l0_sstables, vec![3]);
    assert_eq!(engine.state.imm_memtables.len(), 1);
    assert_eq!(scan(&engine, Bound::Unbounded, Bound::Unbounded), all);
    flush(&mut engine);
    assert_eq!(engine.state.l0_sstables, vec![4, 3]);
    assert!(engine.state.imm_memtables.is_empty());
    assert_eq!(scan(&engine, Bound::Unbounded, Bound::Unbounded), all);
    assert_eq!(get(&engine, "key0007"), None);
    assert_eq!(get(&engine, "key0008"), Some("new".to_string()));
    assert_eq!(get(&engine, "key0999"), Some("v999".to_string()));
    assert_eq!(get(&engine, "key1000"), None);
    assert!(engine.force_flush_next_imm_memtable().is_none());
    assert_eq!(engine.next_sst_id, 5);
}

#[test]
fn a_failed_flush_changes_nothing_but_the_next_number() {
    let mut engine = engine();
    engine.put(b"a", b"1").unwrap();
    engine.force_freeze_memtable().unwrap();
    let table = engine.force_flush_next_imm_memtable().unwrap();
    let failed = Err(StorageError::Io("disk full".to_string()));
    match engine.finish_flush_next_imm_memtable(table, failed) {
        Err(StorageError::Io(m)) => assert_eq!(m, "disk full"),
        _ => panic!(),
    }
    assert_eq!(engine.state.imm_memtables.len(), 1);
    assert!(engine.state.l0_sstables.is_empty());
    assert_eq!(engine.next_sst_id, 3);
    assert_eq!(get(&engine, "a"), Some("1".to_string()));
}

#[test]
fn a_large_memtable_is_frozen() {
    let mut options = LsmStorageOptions::default_for_week1_test();
    options.target_sst_size = 10;
    options.num_memtable_limit = 2;
    let mut engine = open(options);
    engine.put(b"12345", b"12345").unwrap();
    assert!(engine.state.imm_memtables.is_empty());
    assert!(!engine.exceeds_memtable_limit());
    engine.put(b"1", b"").unwrap();
    assert_eq!(engine.state.imm_memtables.len(), 1);
    assert!(engine.state.memtable.is_empty());
    assert!(!engine.exceeds_memtable_limit());
    engine.delete(b"12345678901").unwrap();
    assert_eq!(engine.state.imm_memtables.len(), 2);
    assert!(engine.exceeds_memtable_limit());
}

#[test]
fn a_memtable_is_frozen_only_if_both_sizes_are_large() {
    let mut options = LsmStorageOptions::default_for_week1_test();
    options.target_sst_size = 10;
    let mut engine = open(options);
    engine.put(b"12345", b"1234").unwrap();
    engine.try_freeze_memtable(11).unwrap();
    assert!(engine.state.imm_memtables.is_empty());
    engine.put(b"1", b"").unwrap();
    engine.try_freeze_memtable(10).unwrap();
    assert!(engine.state.imm_memtables.is_empty());
    engine.try_freeze_memtable(11).unwrap();
    assert_eq!(engine.state.imm_memtables.len(), 1);
}

#[test]
fn an_empty_memtable_is_left_alone() {
    let mut engine = engine();
    engine.freeze_unless_empty().unwrap();
    assert!(engine.state.imm_memtables.is_empty());
    engine.put(b"a", b"1").unwrap();
    engine.freeze_unless_empty().unwrap();
    assert_eq!(engine.state.imm_memtables.len(), 1);
}

#[test]
fn later_memtables_and_tables_have_larger_numbers() {
    let mut engine = engine();
    for k in ["a", "b", "c", "d"] {
        engine.put(k.as_bytes(), b"v").unwrap();
        engine.force_freeze_memtable().unwrap();
    }
    flush(&mut engine);
    flush(&mut engine);
    assert_eq!(engine.state.l0_sstables, vec![6, 5]);
    assert_eq!(engine.next_sst_id, 7);
    assert!(engine.state.imm_memtables[0].get(b"d").is_some());
    assert!(engine.state.imm_memtables[1].get(b"c").is_some());
}

#[test]
fn numbers_start_over_behind_the_largest() {
    let mut engine = engine();
    assert_eq!(engine.next_sst_id(), 1);
    assert_eq!(engine.next_sst_id(), 2);
    engine.next_sst_id = usize::MAX;
    assert_eq!(engine.next_sst_id(), usize::MAX);
    assert_eq!(engine.next_sst_id(), 0);
}

#[test]
fn a_scan_merges_all_layers() {
    let mut engine = engine();
    engine.put(b"0", b"2333333").unwrap();
    engine.put(b"00", b"2333333").unwrap();
    engine.put(b"4", b"23").unwrap();
    engine.force_freeze_memtable().unwrap();
    flush(&mut engine);
    engine.delete(b"4").unwrap();
    engine.force_freeze_memtable().unwrap();
    flush(&mut engine);
    engine.put(b"1", b"233").unwrap();
    engine.put(b"2", b"2333").unwrap();
    engine.force_freeze_memtable().unwrap();
    engine.put(b"00", b"2333").unwrap();
    engine.put(b"3", b"23333").unwrap();
    engine.delete(b"1").unwrap();
    assert_eq!(
        scan(&engine, Bound::Unbounded, Bound::Unbounded),
        "0=2333333 00=2333 2=2333 3=23333 "
    );
    assert_eq!(scan(&engine, Bound::Included(b"1"), Bound::Included(b"2")), "2=2333 ");
    assert_eq!(scan(&engine, Bound::Excluded(b"1"), Bound::Excluded(b"3")), "2=2333 ");
    assert_eq!(scan(&engine, Bound::Excluded(b"0"), Bound::Included(b"00")), "00=2333 ");
    assert_eq!(scan(&engine, Bound::Included(b"4"), Bound::Unbounded), "");
    assert_eq!(get(&engine, "0"), Some("2333333".to_string()));
    assert_eq!(get(&engine, "00"), Some("2333".to_string()));
    assert_eq!(get(&engine, "1"), None);
    assert_eq!(get(&engine, "4"), None);
}

#[test]
fn a_scan_respects_its_bounds_within_a_table() {
    let mut engine = engine();
    for k in ["b", "d", "f"] {
        engine.put(k.as_bytes(), k.as_bytes()).unwrap();
    }
    engine.force_freeze_memtable().unwrap();
    flush(&mut engine);
    assert_eq!(scan(&engine, Bound::Included(b"b"), Bound::Excluded(b"f")), "b=b d=d ");
    assert_eq!(scan(&engine, Bound::Excluded(b"b"), Bound::Included(b"f")), "d=d f=f ");
    assert_eq!(scan(&engine, Bound::Excluded(b"c"), Bound::Unbounded), "d=d f=f ");
    assert_eq!(scan(&engine, Bound::Excluded(b"f"), Bound::Unbounded), "");
    assert_eq!(scan(&engine, Bound::Unbounded, Bound::Excluded(b"b")), "");
    assert_eq!(scan(&engine, Bound::Unbounded, Bound::Included(b"b")), "b=b ");
    assert_eq!(scan(&engine, Bound::Included(b"g"), Bound::Included(b"h")), "");
}

#[test]
fn scans_and_lookups_agree() {
    let mut engine = engine();
    for i in 0..60u32 {
        let k = format!("{:02}", (i * 37) % 50);
        if i % 7 == 3 {
            engine.delete(k.as_bytes()).unwrap();
        } else {
            engine.put(k.as_bytes(), format!("v{}", i).as_bytes()).unwrap();
        }
        if i % 11 == 10 {
            engine.force_freeze_memtable().unwrap();
        }
        if i % 22 == 21 {
            flush(&mut engine);
        }
    }
    let mut expected = String::new();
    for j in 0..50 {
        let k = format!("{:02}", j);
        if let Some(v) = get(&engine, &k) {
            expected.push_str(&format!("{}={} ", k, v));
        }
    }
    assert_eq!(scan(&engine, Bound::Unbounded, Bound::Unbounded), expected);
}

#[test]
fn ranges_overlap_a_table_at_its_ends() {
    let (f, l) = (key("b"), key("d"));
    let overlap = |lower: Bound<&[u8]>, upper: Bound<&[u8]>| range_overlap(f, l, lower, upper);
    assert!(overlap(Bound::Unbounded, Bound::Unbounded));
    assert!(overlap(Bound::Unbounded, Bound::Included(b"b")));
    assert!(!overlap(Bound::Unbounded, Bound::Excluded(b"b")));
    assert!(!overlap(Bound::Unbounded, Bound::Included(b"a")));
    assert!(overlap(Bound::Included(b"d"), Bound::Unbounded));
    assert!(!overlap(Bound::Excluded(b"d"), Bound::Unbounded));
    assert!(!overlap(Bound::Included(b"e"), Bound::Unbounded));
    assert!(overlap(Bound::Included(b"d"), Bound::Included(b"e")));
    assert!(overlap(Bound::Excluded(b"c"), Bound::Excluded(b"c")));
    assert!(!overlap(Bound::Included(b"a"), Bound::Excluded(b"b")));
    assert!(!overlap(Bound::Excluded(b"d"), Bound::Included(b"e")));
}

#[test]
fn keys_lie_within_a_table_at_its_ends() {
    let (f, l) = (key("b"), key("d"));
    assert!(!key_within(f, l, b"a"));
    assert!(key_within(f, l, b"b"));
    assert!(key_within(f, l, b"c"));
    assert!(key_within(f, l, b"d"));
    assert!(!key_within(f, l, b"d0"));
}

#[test]
fn compaction_filters_are_kept_in_order() {
    let mut engine = engine();
    engine.add_compaction_filter(CompactionFilter::Prefix(Bytes::from_static(b"x")));
    engine.add_compaction_filter(CompactionFilter::Prefix(Bytes::from_static(b"yz")));
    assert_eq!(engine.compaction_filters.len(), 2);
    let CompactionFilter::Prefix(p) = engine.compaction_filters[1].clone();
    assert_eq!(&p[..], b"yz");
}

#[test]
fn what_does_not_fit_in_a_table_is_noticed() {
    let mut engine = engine();
    assert!(engine.next_flush_fits());
    engine.put(b"", b"v").unwrap();
    engine.force_freeze_memtable().unwrap();
    assert!(engine.next_flush_fits());
    flush(&mut engine);
    engine.put(b"k", &[0; 65536]).unwrap();
    engine.force_freeze_memtable().unwrap();
    assert!(!engine.next_flush_fits());
}

#[test]
fn an_empty_key_survives_a_flush() {
    let mut engine = engine();
    engine.put(b"", b"nothing").unwrap();
    engine.put(b"a", b"1").unwrap();
    engine.force_freeze_memtable().unwrap();
    flush(&mut engine);
    assert_eq!(get(&engine, ""), Some("nothing".to_string()));
    assert_eq!(get(&engine, "a"), Some("1".to_string()));
    assert_eq!(scan(&engine, Bound::Unbounded, Bound::Unbounded), "=nothing a=1 ");
    assert_eq!(scan(&engine, Bound::Excluded(b""), Bound::Unbounded), "a=1 ");
    engine.delete(b"").unwrap();
    assert_eq!(get(&engine, ""), None);
}

#[test]
fn an_engine_loads_the_files_of_another() {
    let mut first = engine();
    for i in 0..200 {
        first.put(format!("key{:03}", i).as_bytes(), format!("v{}", i).as_bytes()).unwrap();
    }
    first.force_freeze_memtable().unwrap();
    flush(&mut first);
    first.delete(b"key007").unwrap();
    first.put(b"key008", b"new").unwrap();
    first.force_freeze_memtable().unwrap();
    flush(&mut first);
    first.put(b"lost", b"not flushed").unwrap();

    let mut found = files(&first);
    found.sort();
    for order in 0..2 {
        let mut given = found.clone();
        if order == 1 {
            given.reverse();
        }
        let second =
            LsmStorageInner::open(LsmStorageOptions::default_for_week1_test(), given).unwrap();
        assert_eq!(second.state.l0_sstables, first.state.l0_sstables);
        assert_eq!(second.next_sst_id, first.state.l0_sstables[0] + 1);
        assert_eq!(get(&second, "key007"), None);
        assert_eq!(get(&second, "key008"), Some("new".to_string()));
        assert_eq!(get(&second, "key199"), Some("v199".to_string()));
        assert_eq!(get(&second, "lost"), None);
    }
}

#[test]
fn files_that_cannot_be_loaded_together_are_refused() {
    let options = LsmStorageOptions::default_for_week1_test();
    let mut engine = engine();
    engine.put(b"a", b"1").unwrap();
    engine.force_freeze_memtable().unwrap();
    flush(&mut engine);
    let file = files(&engine)[0].1.clone();
    assert!(LsmStorageInner::open(options, vec![(1, file.clone()), (2, file.clone())]).is_ok());
    for bad in [
        vec![(1, file.clone()), (4, vec![0])],
        vec![(4, file.clone()), (1, file.clone()), (4, file.clone())],
    ] {
        match LsmStorageInner::open(options, bad) {
            Err(StorageError::Corrupt(id)) => assert_eq!(id, 4),
            _ => panic!(),
        }
    }
    assert!(LsmStorageInner::open(options, vec![(usize::MAX, file)]).is_err());
}

#[test]
fn a_batch_is_written_in_its_order() {
    let mut engine = engine();
    engine.put(b"a", b"0").unwrap();
    let batch: Vec<WriteBatchRecord<&[u8]>> = vec![
        WriteBatchRecord::Put(b"b", b"1"),
        WriteBatchRecord::Del(b"a"),
        WriteBatchRecord::Put(b"c", b"2"),
        WriteBatchRecord::Put(b"b", b"3"),
        WriteBatchRecord::Del(b"c"),
    ];
    engine.write_batch(&batch).unwrap();
    assert_eq!(scan(&engine, Bound::Unbounded, Bound::Unbounded), "b=3 ");
}

#[test]
fn forcing_a_flush_moves_the_earliest_memtable_to_the_front_of_l0() {
    let mut engine = engine();
    engine.freeze_unless_empty().unwrap();
    flush(&mut engine);
    assert!(engine.state.l0_sstables.is_empty());
    engine.put(b"a", b"1").unwrap();
    engine.force_freeze_memtable().unwrap();
    engine.put(b"b", b"2").unwrap();
    engine.freeze_unless_empty().unwrap();
    flush(&mut engine);
    assert!(engine.state.memtable.is_empty());
    assert_eq!(engine.state.imm_memtables.len(), 1);
    assert!(engine.state.imm_memtables[0].get(b"b").is_some());
    assert_eq!(engine.state.l0_sstables.len(), 1);
    let table = &engine.state.sstables[&engine.state.l0_sstables[0]];
    assert_eq!(table.first_key().as_key_slice().raw_ref(), b"a");
    assert_eq!(table.last_key().as_key_slice().raw_ref(), b"a");
}

#[test]
fn the_number_of_a_table_is_read_from_the_name_of_its_file() {
    for id in [0, 7, 99999, 100000, usize::MAX] {
        assert_eq!(sst_id_of(&sst_file_name(id)), Some(id));
    }
    for name in [
        "", ".sst", "7.sst", "000007.sst", "00007.wal", "00007sst", "0000a.sst", "00007.sst ",
        "99999999999999999999999.sst", "-0001.sst",
    ] {
        assert_eq!(sst_id_of(name), None);
    }
}

#[test]
fn files_are_named_by_their_number() {
    assert_eq!(sst_file_name(0), "00000.sst");
    assert_eq!(sst_file_name(7), "00007.sst");
    assert_eq!(sst_file_name(12345), "12345.sst");
    assert_eq!(sst_file_name(1234567), "1234567.sst");
    assert_eq!(wal_file_name(40), "00040.wal");
}
