//! The storage engine.
use bytes::Bytes;
use std::collections::HashMap;
use std::ops::Bound;
use std::sync::Arc;
use vstd::prelude::*;

use crate::buffer;
use crate::buffer::{arc_clone, bytes_clone, bytes_copy_from_slice};
use crate::compact::{
    CompactionController, CompactionOptions, LeveledCompactionController,
    SimpleLeveledCompactionController, TieredCompactionController,
};
use crate::error::StorageError;
use crate::history;
use crate::iterators;
use crate::iterators::merge_iterator::MergeIterator;
use crate::iterators::two_merge_iterator::TwoMergeIterator;
use crate::iterators::{Contents, StorageIterator};
use crate::key;
use crate::key::KeySlice;
use crate::lsm_iterator::{FusedIterator, LsmIterator};
use crate::mem_table::{MemTable, MemTableIterator};
use crate::range;
use crate::range::{is_above, is_below, own_bound};
use crate::sorted;
use crate::table;
use crate::table::builder;
use crate::table::{SsTable, SsTableBuilder, SsTableIterator};

verus! {

broadcast use {crate::key::group_key_order, vstd::std_specs::hash::group_hash_axioms};

/// Represents the state of the storage engine.
pub struct LsmStorageState {
    /// The current memtable.
    pub memtable: MemTable,
    /// Immutable memtables, from latest to earliest.
    pub imm_memtables: Vec<Arc<MemTable>>,
    /// L0 SSTs, from latest to earliest.
    pub l0_sstables: Vec<usize>,
    /// SsTables sorted by key range; L1 - L_max for leveled compaction, or tiers for tiered
    /// compaction.
    pub levels: Vec<(usize, Vec<usize>)>,
    /// SST objects.
    pub sstables: HashMap<usize, Arc<SsTable>>,
}

/// A write of a batch.
pub enum WriteBatchRecord<T> {
    Put(T, T),
    Del(T),
}

/// The options of the storage engine.
#[derive(Debug, Clone, Copy)]
pub struct LsmStorageOptions {
    /// Block size in bytes
    pub block_size: usize,
    /// SST size in bytes, also the approximate memtable capacity limit
    pub target_sst_size: usize,
    /// Maximum number of memtables in memory, flush to L0 when exceeding this limit
    pub num_memtable_limit: usize,
    pub compaction_options: CompactionOptions,
    pub enable_wal: bool,
    pub serializable: bool,
}

impl LsmStorageOptions {
    pub fn default_for_week1_test() -> (o: Self)
        ensures
            o == (LsmStorageOptions {
                block_size: 4096,
                target_sst_size: 2097152,
                num_memtable_limit: 50,
                compaction_options: CompactionOptions::NoCompaction,
                enable_wal: false,
                serializable: false,
            }),
    {
        LsmStorageOptions {
            block_size: 4096,
            target_sst_size: 2097152,
            compaction_options: CompactionOptions::NoCompaction,
            enable_wal: false,
            num_memtable_limit: 50,
            serializable: false,
        }
    }

    pub fn default_for_week1_day6_test() -> (o: Self)
        ensures
            o == (LsmStorageOptions {
                block_size: 4096,
                target_sst_size: 2097152,
                num_memtable_limit: 2,
                compaction_options: CompactionOptions::NoCompaction,
                enable_wal: false,
                serializable: false,
            }),
    {
        LsmStorageOptions {
            block_size: 4096,
            target_sst_size: 2097152,
            compaction_options: CompactionOptions::NoCompaction,
            enable_wal: false,
            num_memtable_limit: 2,
            serializable: false,
        }
    }

    pub fn default_for_week2_test(compaction_options: CompactionOptions) -> (o: Self)
        ensures
            o == (LsmStorageOptions {
                block_size: 4096,
                target_sst_size: 1048576,
                num_memtable_limit: 2,
                compaction_options,
                enable_wal: false,
                serializable: false,
            }),
    {
        LsmStorageOptions {
            block_size: 4096,
            target_sst_size: 1048576,  // 1MB
            compaction_options,
            enable_wal: false,
            num_memtable_limit: 2,
            serializable: false,
        }
    }
}

/// Which keys a compaction may drop.
#[derive(Debug)]
pub enum CompactionFilter {
    Prefix(Bytes),
}

impl CompactionFilter {
    /// The bytes with which the keys start that may be dropped.
    pub open spec fn prefix(&self) -> Seq<u8> {
        match self {
            CompactionFilter::Prefix(prefix) => buffer::bytes_content(*prefix),
        }
    }
}

impl Clone for CompactionFilter {
    fn clone(&self) -> (f: Self)
        ensures
            f.prefix() == self.prefix(),
    {
        match self {
            CompactionFilter::Prefix(prefix) => CompactionFilter::Prefix(bytes_clone(prefix)),
        }
    }
}

/// What a lookup finds in pairs: an empty value stands for a deleted key.
pub open spec fn lookup(m: Contents, k: Seq<u8>) -> Option<Seq<u8>> {
    if m.contains_key(k) && m[k].len() > 0 {
        Some(m[k])
    } else {
        None
    }
}

/// The number that follows a number; the first follows the largest.
pub open spec fn id_after(id: usize) -> usize {
    if id == usize::MAX {
        0
    } else {
        (id + 1) as usize
    }
}

/// A key reads as what was written for it last; the other keys read as before.
/// What was deleted, that is written with an empty value, is not there.
pub proof fn law_read_after_write(m: Contents, k: Seq<u8>, v: Seq<u8>, j: Seq<u8>)
    ensures
        lookup(m.insert(k, v), j) == if j != k {
            lookup(m, j)
        } else if v.len() > 0 {
            Some(v)
        } else {
            None
        },
{
}

/// A lookup finds the value of a key unless that is empty.
pub proof fn law_lookup(m: Contents, k: Seq<u8>, v: Seq<u8>)
    ensures
        (lookup(m, k) == Some(v)) == (m.contains_key(k) && m[k] == v && v.len() > 0),
        lookup(m, k) is None == !(m.contains_key(k) && m[k].len() > 0),
{
}

/// The levels of a new engine are empty and numbered from 1; the options say how
/// many there are.
pub proof fn law_initial_levels(
    options: CompactionOptions,
    levels: Seq<(usize, Vec<usize>)>,
    i: int,
)
    requires
        LsmStorageState::initial_levels(options, levels),
    ensures
        match options {
            CompactionOptions::Leveled(o) => levels.len() == o.max_levels,
            CompactionOptions::Simple(o) => levels.len() == o.max_levels,
            CompactionOptions::Tiered(_) => levels.len() == 0,
            CompactionOptions::NoCompaction => levels.len() == 1,
        },
        0 <= i < levels.len() ==> levels[i].0 == i + 1 && levels[i].1@.len() == 0,
{
}

/// An engine holds of every key what the memtable has of it; else what the
/// latest immutable memtable has that has it; else what the latest table of L0
/// has that has it.
pub proof fn law_contents(s: &LsmStorageState, k: Seq<u8>, n: int)
    ensures
        s.memtable.contents().contains_key(k) ==> s.contents().contains_key(k) && s.contents()[k]
            == s.memtable.contents()[k],
        ({
            let none_before = !s.memtable.contents().contains_key(k) && forall|i: int|
                0 <= i < n && i < s.imm_memtables@.len() ==> !(
                #[trigger] s.imm_memtables@[i]).contents().contains_key(k);
            0 <= n < s.imm_memtables@.len() && none_before
                && s.imm_memtables@[n].contents().contains_key(k) ==> s.contents().contains_key(k)
                && s.contents()[k] == s.imm_memtables@[n].contents()[k]
        }),
        ({
            let none_before = !s.memtable.contents().contains_key(k) && (forall|i: int|
                0 <= i < s.imm_memtables@.len() ==> !(
                #[trigger] s.imm_memtables@[i]).contents().contains_key(k)) && forall|i: int|
                0 <= i < n && i < s.l0_sstables@.len() ==> !s.sstables@[
                    #[trigger] s.l0_sstables@[i]].contents().contains_key(k);
            &&& 0 <= n < s.l0_sstables@.len() && none_before
                && s.sstables@[s.l0_sstables@[n]].contents().contains_key(k) ==> s.contents().contains_key(
                k,
            ) && s.contents()[k] == s.sstables@[s.l0_sstables@[n]].contents()[k]
            &&& n == s.l0_sstables@.len() && none_before ==> !s.contents().contains_key(k)
        }),
{
    let mems = s.mem_layers();
    let l0s = s.l0_layers();
    let all = mems + l0s;
    let m = mems.len() as int;
    assert(all[0] == s.memtable.contents());
    assert(forall|i: int|
        0 <= i < s.imm_memtables@.len() ==> all[i + 1]
            == (#[trigger] s.imm_memtables@[i]).contents());
    assert(forall|i: int|
        0 <= i < s.l0_sstables@.len() ==> all[m + i] == s.sstables@[
            #[trigger] s.l0_sstables@[i]].contents());
    if s.memtable.contents().contains_key(k) {
        iterators::lemma_layered_value(all, k, 0);
    } else {
        if 0 <= n < s.imm_memtables@.len() && (forall|i: int|
            0 <= i < n && i < s.imm_memtables@.len() ==> !(
            #[trigger] s.imm_memtables@[i]).contents().contains_key(k))
            && s.imm_memtables@[n].contents().contains_key(k) {
            assert forall|i: int| 0 <= i < n + 1 implies !(#[trigger] all[i]).contains_key(k) by {
                if i > 0 {
                    assert(all[i] == s.imm_memtables@[i - 1].contents());
                }
            }
            iterators::lemma_layered_value(all, k, n + 1);
        }
        if (forall|i: int|
            0 <= i < s.imm_memtables@.len() ==> !(
            #[trigger] s.imm_memtables@[i]).contents().contains_key(k)) && (forall|i: int|
            0 <= i < n && i < s.l0_sstables@.len() ==> !s.sstables@[
                #[trigger] s.l0_sstables@[i]].contents().contains_key(k)) {
            assert forall|i: int| 0 <= i < m + n && i < all.len() implies !(
            #[trigger] all[i]).contains_key(k) by {
                if i >= m {
                    assert(all[i] == s.sstables@[s.l0_sstables@[i - m]].contents());
                } else if i > 0 {
                    assert(all[i] == s.imm_memtables@[i - 1].contents());
                }
            }
            if 0 <= n < s.l0_sstables@.len()
                && s.sstables@[s.l0_sstables@[n]].contents().contains_key(k) {
                iterators::lemma_layered_value(all, k, m + n);
            }
            if n == s.l0_sstables@.len() {
                iterators::lemma_layered_keys(all, k);
            }
        }
    }
}

/// A scan hands out exactly the keys in the range that a lookup finds, with the
/// values that it finds.
pub proof fn law_scan_agrees_with_lookup(
    m: Contents,
    lower: Bound<Seq<u8>>,
    upper: Bound<Seq<u8>>,
    k: Seq<u8>,
)
    ensures
        (if range::above(lower, k) && range::below(upper, k) {
            lookup(m, k)
        } else {
            None
        }) == if scanned(m, lower, upper).contains_key(k) {
            Some(scanned(m, lower, upper)[k])
        } else {
            None
        },
{
}

/// The first `n` levels, without tables.
pub open spec fn empty_levels(levels: Seq<(usize, Vec<usize>)>, n: int) -> bool {
    &&& levels.len() == n
    &&& forall|i: int|
        0 <= i < n ==> (#[trigger] levels[i]).0 == i + 1 && levels[i].1@ == Seq::<usize>::empty()
}

impl LsmStorageState {
    /// The table with this number.
    pub open spec fn table(&self, id: usize) -> SsTable {
        *self.sstables@[id]
    }

    /// The pairs of the immutable memtables, from latest to earliest.
    pub open spec fn imm_layers(&self) -> Seq<Contents> {
        self.imm_memtables@.map_values(|m: Arc<MemTable>| m.contents())
    }

    /// The pairs of the tables of L0, from latest to earliest.
    pub open spec fn l0_layers(&self) -> Seq<Contents> {
        self.l0_sstables@.map_values(|id: usize| self.table(id).contents())
    }

    /// The pairs of the memtables, from latest to earliest.
    pub open spec fn mem_layers(&self) -> Seq<Contents> {
        seq![self.memtable.contents()] + self.imm_layers()
    }

    /// The pairs of the engine: of every key, what was written last.
    pub open spec fn contents(&self) -> Contents {
        iterators::layered(self.mem_layers() + self.l0_layers())
    }

    /// Every memtable is well-formed, and every table of L0 is there and
    /// well-formed.
    pub open spec fn wf(&self) -> bool {
        &&& self.memtable.wf()
        &&& forall|i: int|
            0 <= i < self.imm_memtables@.len() ==> (#[trigger] self.imm_memtables@[i]).wf()
        &&& forall|i: int|
            0 <= i < self.l0_sstables@.len() ==> self.sstables@.contains_key(
                #[trigger] self.l0_sstables@[i],
            ) && self.table(self.l0_sstables@[i]).wf()
    }

    /// The levels that the compaction options ask for, without tables.
    pub open spec fn initial_levels(
        options: CompactionOptions,
        levels: Seq<(usize, Vec<usize>)>,
    ) -> bool {
        match options {
            CompactionOptions::Leveled(o) => empty_levels(levels, o.max_levels as int),
            CompactionOptions::Simple(o) => empty_levels(levels, o.max_levels as int),
            CompactionOptions::Tiered(_) => empty_levels(levels, 0),
            CompactionOptions::NoCompaction => empty_levels(levels, 1),
        }
    }

    /// `n` levels without tables.
    fn levels(n: usize) -> (levels: Vec<(usize, Vec<usize>)>)
        ensures
            empty_levels(levels@, n as int),
    {
        let mut levels: Vec<(usize, Vec<usize>)> = Vec::new();
        let mut i: usize = 0;
        while i < n
            invariant
                i <= n,
                empty_levels(levels@, i as int),
            decreases n - i,
        {
            i = i + 1;
            levels.push((i, Vec::new()));
        }
        levels
    }

    /// The state of a new engine.
    pub fn create(options: &LsmStorageOptions) -> (s: Self)
        ensures
            s.wf(),
            s.contents() == Map::<Seq<u8>, Seq<u8>>::empty(),
            s.memtable.entries() == Seq::<crate::block::Entry>::empty(),
            s.memtable.id() == 0,
            s.memtable.size() == 0,
            s.imm_memtables@.len() == 0,
            s.l0_sstables@.len() == 0,
            s.sstables@ == Map::<usize, Arc<SsTable>>::empty(),
            Self::initial_levels(options.compaction_options, s.levels@),
            forall|i: int|
                0 <= i < s.levels@.len() ==> (#[trigger] s.levels@[i]).0 == i + 1
                    && s.levels@[i].1@.len() == 0,
            match options.compaction_options {
                CompactionOptions::Leveled(o) => s.levels@.len() == o.max_levels,
                CompactionOptions::Simple(o) => s.levels@.len() == o.max_levels,
                CompactionOptions::Tiered(_) => s.levels@.len() == 0,
                CompactionOptions::NoCompaction => s.levels@.len() == 1,
            },
    {
        let levels = match options.compaction_options {
            CompactionOptions::Leveled(o) => Self::levels(o.max_levels),
            CompactionOptions::Simple(o) => Self::levels(o.max_levels),
            CompactionOptions::Tiered(_) => Self::levels(0),
            CompactionOptions::NoCompaction => Self::levels(1),
        };
        let s = LsmStorageState {
            memtable: MemTable::create(0),
            imm_memtables: Vec::new(),
            l0_sstables: Vec::new(),
            levels,
            sstables: HashMap::new(),
        };
        proof {
            let layers = s.mem_layers() + s.l0_layers();
            assert(layers =~= seq![Map::<Seq<u8>, Seq<u8>>::empty()]);
            iterators::lemma_layered_one(Map::empty());
        }
        s
    }
}

/// Whether a range may have keys in common with a table, given the first and
/// the last key of the table.
pub fn range_overlap(
    table_first: KeySlice,
    table_last: KeySlice,
    lower: Bound<&[u8]>,
    upper: Bound<&[u8]>,
) -> (r: bool)
    ensures
        r == (range::above(range::slice_bound(lower), table_last@) && range::below(
            range::slice_bound(upper),
            table_first@,
        )),
        r == (match lower {
            Bound::Included(b) => !key::key_lt(table_last@, b@),
            Bound::Excluded(b) => key::key_lt(b@, table_last@),
            Bound::Unbounded => true,
        } && match upper {
            Bound::Included(b) => !key::key_lt(b@, table_first@),
            Bound::Excluded(b) => key::key_lt(table_first@, b@),
            Bound::Unbounded => true,
        }),
{
    is_above(lower, table_last.raw_ref()) && is_below(upper, table_first.raw_ref())
}

/// Whether a key lies between the first and the last key of a table.
pub fn key_within(table_first: KeySlice, table_last: KeySlice, key: &[u8]) -> (r: bool)
    ensures
        r == (key::key_le(table_first@, key@) && key::key_le(key@, table_last@)),
        r == !(key::key_lt(key@, table_first@) || key::key_lt(table_last@, key@)),
{
    let key_slice = KeySlice::from_slice(key);
    table_first.le(key_slice) && key_slice.le(table_last)
}

/// The storage interface of the LSM tree.
pub struct LsmStorageInner {
    pub state: LsmStorageState,
    pub next_sst_id: usize,
    pub options: LsmStorageOptions,
    pub compaction_controller: CompactionController,
    pub compaction_filters: Vec<CompactionFilter>,
}

/// All keys of a well-formed table lie between its first and its last key.
pub proof fn law_table_keys(t: &SsTable, k: Seq<u8>)
    requires
        t.wf(),
        t.contents().contains_key(k),
    ensures
        key::key_le(t.first_key@, k),
        key::key_le(k, t.last_key@),
{
    let es = t.entries();
    let p = choose|p: int| sorted::has_key_at(es, k, p);
    table::law_table_ends(t);
    if p > 0 {
        assert(key::key_lt(es[0].0, es[p].0));
    }
    if p < es.len() - 1 {
        assert(key::key_lt(es[p].0, es[es.len() - 1].0));
    }
}

/// One of the files has this number.
pub open spec fn has_file(files: Seq<(usize, Vec<u8>)>, id: usize) -> bool {
    exists|i: int| 0 <= i < files.len() && (#[trigger] files[i]).0 == id
}

/// The bytes are those of the file of a well-formed table.
pub open spec fn holds_table(file: Seq<u8>) -> bool {
    exists|t: SsTable| #[trigger] t.stored_as(file) && t.wf()
}

/// File `i` cannot be loaded along with the others: it does not hold a table,
/// has the largest number, or shares its number.
pub open spec fn unfit(files: Seq<(usize, Vec<u8>)>, i: int) -> bool {
    ||| !holds_table(files[i].1@)
    ||| files[i].0 == usize::MAX
    ||| exists|j: int| 0 <= j < files.len() && j != i && (#[trigger] files[j]).0 == files[i].0
}

/// All of the files can be loaded.
pub open spec fn loadable(files: Seq<(usize, Vec<u8>)>) -> bool {
    forall|i: int| 0 <= i < files.len() ==> !#[trigger] unfit(files, i)
}

/// One of the tables is that of the file.
spec fn has_table(tables: Seq<SsTable>, file: (usize, Vec<u8>)) -> bool {
    exists|t: SsTable| #[trigger]
        tables.contains(t) && t.id == file.0 && t.stored_as(file.1@)
}

/// The numbers of the tables descend.
pub open spec fn ids_descend(tables: Seq<SsTable>) -> bool {
    forall|i: int, j: int|
        #![trigger tables[i], tables[j]]
        0 <= i < j < tables.len() ==> tables[j].id < tables[i].id
}

/// One of the tables has this number.
spec fn has_id(tables: Seq<SsTable>, id: usize) -> bool {
    exists|j: int| 0 <= j < tables.len() && (#[trigger] tables[j]).id == id
}

/// Reads a table from its file and puts it in its place among tables whose
/// numbers descend.
fn read_table(tables: &mut Vec<SsTable>, id: usize, file: Vec<u8>) -> (r: Result<(), StorageError>)
    requires
        ids_descend(old(tables)@),
    ensures
        match r {
            Ok(_) => {
                &&& id < usize::MAX
                &&& !has_id(old(tables)@, id)
                &&& ids_descend(final(tables)@)
                &&& has_table(final(tables)@, (id, file))
                &&& forall|x: SsTable| #[trigger]
                    final(tables)@.contains(x) ==> old(tables)@.contains(x) || (x.id == id
                        && x.wf() && x.stored_as(x.file@))
                &&& forall|x: SsTable| #[trigger]
                    old(tables)@.contains(x) ==> final(tables)@.contains(x)
            },
            Err(e) => e == StorageError::Corrupt(id) && (!holds_table(file@) || id == usize::MAX
                || has_id(old(tables)@, id)),
        },
{
    let table = match SsTable::open(id, file) {
        Ok(table) => table,
        Err(e) => {
            return Err(e);
        },
    };
    if id == usize::MAX {
        return Err(StorageError::Corrupt(id));
    }
    if !insert_table(tables, table) {
        return Err(StorageError::Corrupt(id));
    }
    assert(tables@.contains(table));
    Ok(())
}

/// Puts a table in its place among tables whose numbers descend, unless one of
/// them has its number.
fn insert_table(tables: &mut Vec<SsTable>, table: SsTable) -> (r: bool)
    requires
        ids_descend(old(tables)@),
    ensures
        r == forall|j: int|
            0 <= j < old(tables)@.len() ==> (#[trigger] old(tables)@[j]).id != table.id,
        r ==> {
            &&& ids_descend(final(tables)@)
            &&& forall|x: SsTable| #[trigger]
                final(tables)@.contains(x) == (old(tables)@.contains(x) || x == table)
        },
{
    let ghost first = tables@;
    let mut p: usize = 0;
    while p < tables.len() && table.id < tables[p].id
        invariant
            tables@ == first,
            p <= first.len(),
            forall|j: int| 0 <= j < p ==> table.id < (#[trigger] first[j]).id,
        decreases first.len() - p,
    {
        p = p + 1;
    }
    if p < tables.len() && tables[p].id == table.id {
        return false;
    }
    let ghost n = p as int;
    assert forall|j: int| n <= j < first.len() implies (#[trigger] first[j]).id < table.id by {
        if j > n {
            assert(first[j].id < first[n].id);
        }
    }
    tables.insert(p, table);
    proof {
        let now = tables@;
        assert(now =~= first.insert(n, table));
        assert forall|i: int, j: int| #![trigger now[i], now[j]] 0 <= i < j < now.len() implies
            now[j].id < now[i].id by {
            let a = if i < n {
                i
            } else {
                i - 1
            };
            let b = if j < n {
                j
            } else {
                j - 1
            };
            if i != n {
                assert(now[i] == first[a]);
            }
            if j != n {
                assert(now[j] == first[b]);
            }
        }
        assert forall|x: SsTable| #[trigger] now.contains(x) == (first.contains(x) || x
            == table) by {
            if now.contains(x) {
                let j = now.index_of(x);
                if j < n {
                    assert(first[j] == x);
                } else if j > n {
                    assert(first[j - 1] == x);
                }
            }
            if first.contains(x) {
                let j = first.index_of(x);
                if j < n {
                    assert(now[j] == x);
                } else {
                    assert(now[j + 1] == x);
                }
            }
            if x == table {
                assert(now[n] == x);
            }
        }
    }
    true
}

/// The pairs that a scan of the range hands out: an empty value stands for a
/// deleted key.
pub open spec fn scanned(
    m: Contents,
    lower: Bound<Seq<u8>>,
    upper: Bound<Seq<u8>>,
) -> Contents {
    Map::new(
        |k: Seq<u8>| lookup(m, k) is Some && range::above(lower, k) && range::below(upper, k),
        |k: Seq<u8>| m[k],
    )
}

/// `got` has no key before the range, and the same pairs as `want` within it.
spec fn agree(
    got: Contents,
    want: Contents,
    lower: Bound<Seq<u8>>,
    upper: Bound<Seq<u8>>,
) -> bool {
    &&& forall|k: Seq<u8>| #[trigger] got.contains_key(k) ==> range::above(lower, k)
    &&& forall|k: Seq<u8>|
        #![trigger got.contains_key(k)]
        #![trigger want.contains_key(k)]
        range::above(lower, k) && range::below(upper, k) ==> {
            &&& got.contains_key(k) == want.contains_key(k)
            &&& got.contains_key(k) ==> got[k] == want[k]
        }
}

/// Layers that agree still do with one more layer each that agree.
proof fn lemma_agree_push(
    parts: Seq<Contents>,
    wants: Seq<Contents>,
    p: Contents,
    w: Contents,
    lower: Bound<Seq<u8>>,
    upper: Bound<Seq<u8>>,
)
    requires
        agree(iterators::layered(parts), iterators::layered(wants), lower, upper),
        agree(p, w, lower, upper),
    ensures
        agree(iterators::layered(parts.push(p)), iterators::layered(wants.push(w)), lower, upper),
{
    iterators::lemma_layered_push(parts, p);
    iterators::lemma_layered_push(wants, w);
    let got = iterators::layered(parts);
    let want = iterators::layered(wants);
    assert forall|k: Seq<u8>|
        #![trigger iterators::layered(parts.push(p)).contains_key(k)]
        #![trigger iterators::layered(wants.push(w)).contains_key(k)]
        range::above(lower, k) && range::below(upper, k) implies {
        &&& iterators::layered(parts.push(p)).contains_key(k) == iterators::layered(
            wants.push(w),
        ).contains_key(k)
        &&& iterators::layered(parts.push(p)).contains_key(k) ==> iterators::layered(
            parts.push(p),
        )[k] == iterators::layered(wants.push(w))[k]
    } by {
        assert(got.contains_key(k) == want.contains_key(k));
        assert(p.contains_key(k) == w.contains_key(k));
    }
}

/// Layers that agree still do with one more layer on one side that has no key
/// in the range.
proof fn lemma_agree_skip(
    parts: Seq<Contents>,
    wants: Seq<Contents>,
    w: Contents,
    lower: Bound<Seq<u8>>,
    upper: Bound<Seq<u8>>,
)
    requires
        agree(iterators::layered(parts), iterators::layered(wants), lower, upper),
        forall|k: Seq<u8>| #[trigger]
            w.contains_key(k) ==> !(range::above(lower, k) && range::below(upper, k)),
    ensures
        agree(iterators::layered(parts), iterators::layered(wants.push(w)), lower, upper),
{
    iterators::lemma_layered_push(wants, w);
    let got = iterators::layered(parts);
    let want = iterators::layered(wants);
    assert forall|k: Seq<u8>|
        #![trigger got.contains_key(k)]
        #![trigger iterators::layered(wants.push(w)).contains_key(k)]
        range::above(lower, k) && range::below(upper, k) implies {
        &&& got.contains_key(k) == iterators::layered(wants.push(w)).contains_key(k)
        &&& got.contains_key(k) ==> got[k] == iterators::layered(wants.push(w))[k]
    } by {
        assert(got.contains_key(k) == want.contains_key(k));
        assert(!w.contains_key(k));
    }
}

/// A range with which a well-formed table has a key in common overlaps the
/// table: one that does not can be left out of a scan.
pub proof fn law_range_overlap(
    t: &SsTable,
    lower: Bound<Seq<u8>>,
    upper: Bound<Seq<u8>>,
    k: Seq<u8>,
)
    requires
        t.wf(),
        t.contents().contains_key(k),
        range::above(lower, k),
        range::below(upper, k),
    ensures
        range::above(lower, t.last_key@),
        range::below(upper, t.first_key@),
{
    law_table_keys(t, k);
}

/// Moves an iterator over a table to the first pair that does not lie before
/// the range.
fn seek(table: Arc<SsTable>, lower: Bound<&[u8]>) -> (iter: SsTableIterator)
    requires
        table.wf(),
    ensures
        iter.wf(),
        iter.rest() == range::in_range(
            table.contents(),
            range::slice_bound(lower),
            Bound::Unbounded,
        ),
{
    let ghost want = range::in_range(
        table.contents(),
        range::slice_bound(lower),
        Bound::Unbounded,
    );
    match lower {
        Bound::Unbounded => {
            let iter = SsTableIterator::create_and_seek_to_first(table);
            assert(iter.rest() =~= want);
            iter
        },
        Bound::Included(bound) => {
            let iter = SsTableIterator::create_and_seek_to_key(table, KeySlice::from_slice(bound));
            assert(iter.rest() =~= want);
            iter
        },
        Bound::Excluded(bound) => {
            let mut iter = SsTableIterator::create_and_seek_to_key(
                table,
                KeySlice::from_slice(bound),
            );
            proof {
                iter.lemma_finite();
                if iterators::has_keys(iter.rest()) {
                    iterators::lemma_least(iter.rest());
                }
            }
            if iter.is_valid() && iter.key().same(KeySlice::from_slice(bound)) {
                // the iterator over a table never fails
                let _ = iter.next();
            }
            assert(iter.rest() =~= want);
            iter
        },
    }
}

impl LsmStorageInner {
    /// The state is well-formed.
    pub open spec fn wf(&self) -> bool {
        self.state.wf()
    }

    /// The pairs of the engine: of every key, what was written last.
    pub open spec fn contents(&self) -> Contents {
        self.state.contents()
    }

    /// Nothing but the state and the next number differs from `other`.
    pub open spec fn same_but_state(&self, other: &Self) -> bool {
        &&& self.options == other.options
        &&& self.compaction_controller == other.compaction_controller
        &&& self.compaction_filters == other.compaction_filters
    }

    /// The number of every table is below the next number.
    pub open spec fn ids_below_next(&self) -> bool {
        forall|id: usize| #[trigger] self.state.sstables@.contains_key(id) ==> id < self.next_sst_id
    }

    /// Memtables and tables stand in their lists from latest to earliest, which
    /// their numbers show: the later one has the larger number.
    pub open spec fn newest_first(&self) -> bool {
        &&& self.ids_below_next()
        &&& self.state.memtable.id() < self.next_sst_id
        &&& forall|i: int|
            0 <= i < self.state.imm_memtables@.len() ==> (#[trigger] self.state.imm_memtables@[i]).id()
                < self.state.memtable.id()
        &&& forall|i: int, j: int|
            #![trigger self.state.imm_memtables@[i], self.state.imm_memtables@[j]]
            0 <= i < j < self.state.imm_memtables@.len() ==> self.state.imm_memtables@[j].id()
                < self.state.imm_memtables@[i].id()
        &&& forall|i: int, j: int|
            #![trigger self.state.l0_sstables@[i], self.state.l0_sstables@[j]]
            0 <= i < j < self.state.l0_sstables@.len() ==> self.state.l0_sstables@[j]
                < self.state.l0_sstables@[i]
    }

    /// Every table is in L0, under its number, and is stored as its file.
    pub open spec fn tables_on_file(&self) -> bool {
        forall|id: usize| #[trigger]
            self.state.sstables@.contains_key(id) ==> {
                &&& self.state.l0_sstables@.contains(id)
                &&& self.state.table(id).id == id
                &&& self.state.table(id).stored_as(self.state.table(id).file@)
            }
    }

    /// The tables and the levels are those of `other`.
    pub open spec fn same_tables(&self, other: &Self) -> bool {
        &&& self.state.l0_sstables@ == other.state.l0_sstables@
        &&& self.state.levels == other.state.levels
        &&& self.state.sstables == other.state.sstables
    }

    /// `self` after its memtable, with `memtable` as what it holds, was frozen.
    pub open spec fn frozen(&self, memtable: &MemTable, after: &Self) -> bool {
        &&& after.same_but_state(self)
        &&& after.same_tables(self)
        &&& after.next_sst_id == id_after(self.next_sst_id)
        &&& after.state.memtable.wf()
        &&& after.state.memtable.entries() == Seq::<crate::block::Entry>::empty()
        &&& after.state.memtable.id() == self.next_sst_id
        &&& after.state.memtable.size() == 0
        &&& after.state.imm_memtables@.len() == self.state.imm_memtables@.len() + 1
        &&& *after.state.imm_memtables@[0] == *memtable
        &&& after.state.imm_memtables@.drop_first() == self.state.imm_memtables@
    }

    /// `self` after a value was written for a key: into the memtable, which is
    /// then frozen if it has become larger than a table should be.
    pub open spec fn written(
        &self,
        key: Seq<u8>,
        value: Seq<u8>,
        memtable: &MemTable,
        after: &Self,
    ) -> bool {
        &&& memtable.wf()
        &&& memtable.contents() == self.state.memtable.contents().insert(key, value)
        &&& memtable.id() == self.state.memtable.id()
        &&& memtable.size() == if self.state.memtable.size() + key.len() + value.len()
            <= usize::MAX {
            self.state.memtable.size() + key.len() + value.len()
        } else {
            usize::MAX as int
        }
        &&& if memtable.size() > self.options.target_sst_size {
            self.frozen(memtable, after)
        } else {
            &&& after.same_but_state(self)
            &&& after.same_tables(self)
            &&& after.next_sst_id == self.next_sst_id
            &&& after.state.memtable == *memtable
            &&& after.state.imm_memtables@ == self.state.imm_memtables@
        }
    }

    /// `self` after `table` was built from the earliest immutable memtable.
    pub open spec fn flush_begun(&self, table: &SsTable, after: &Self) -> bool {
        &&& self.state.imm_memtables@.len() > 0
        &&& builder::built_from(
            *table,
            self.state.imm_memtables@.last().entries(),
            self.options.block_size,
            self.next_sst_id,
        )
        &&& after.same_but_state(self)
        &&& after.state == self.state
        &&& after.next_sst_id == id_after(self.next_sst_id)
    }

    /// `self` after `table` took the place of the earliest immutable memtable.
    pub open spec fn flush_finished(&self, table: &SsTable, after: &Self) -> bool {
        &&& after.same_but_state(self)
        &&& after.next_sst_id == self.next_sst_id
        &&& after.state.memtable == self.state.memtable
        &&& after.state.levels == self.state.levels
        &&& after.state.imm_memtables@ == self.state.imm_memtables@.drop_last()
        &&& after.state.l0_sstables@ == seq![table.id] + self.state.l0_sstables@
        &&& after.state.sstables@ == self.state.sstables@.insert(table.id, Arc::new(*table))
    }

    /// Freezing puts the memtable in front of the immutable ones, opens an empty
    /// one under the next number, and changes nothing else.
    pub proof fn law_frozen_state(&self, memtable: &MemTable, after: &Self)
        requires
            self.frozen(memtable, after),
        ensures
            after.state.imm_memtables@.len() == self.state.imm_memtables@.len() + 1,
            *after.state.imm_memtables@[0] == *memtable,
            forall|i: int|
                0 <= i < self.state.imm_memtables@.len() ==> after.state.imm_memtables@[i + 1]
                    == #[trigger] self.state.imm_memtables@[i],
            after.state.memtable.entries().len() == 0,
            after.state.memtable.size() == 0,
            after.state.memtable.id() == self.next_sst_id,
            self.next_sst_id < usize::MAX ==> after.next_sst_id == self.next_sst_id + 1,
            after.state.l0_sstables@ == self.state.l0_sstables@,
            after.state.levels == self.state.levels,
            after.state.sstables == self.state.sstables,
            after.options == self.options,
            after.compaction_controller == self.compaction_controller,
            after.compaction_filters == self.compaction_filters,
    {
        assert forall|i: int| 0 <= i < self.state.imm_memtables@.len() implies
            after.state.imm_memtables@[i + 1] == #[trigger] self.state.imm_memtables@[i] by {
            assert(after.state.imm_memtables@.drop_first()[i] == self.state.imm_memtables@[i]);
        }
    }

    /// A write never leaves a memtable behind that is larger than a table should
    /// be: if it makes it so large, whatever the key, the memtable is frozen, and
    /// else it goes into the memtable.
    pub proof fn law_written_state(
        &self,
        key: Seq<u8>,
        value: Seq<u8>,
        memtable: &MemTable,
        after: &Self,
    )
        requires
            self.written(key, value, memtable, after),
        ensures
            after.state.memtable.size() <= self.options.target_sst_size,
            ({
                let size = self.state.memtable.size() + key.len() + value.len();
                let target = self.options.target_sst_size;
                let pairs = self.state.memtable.contents().insert(key, value);
                if size > target && target < usize::MAX {
                    &&& after.state.imm_memtables@.len() == self.state.imm_memtables@.len() + 1
                    &&& after.state.imm_memtables@[0].contents() == pairs
                    &&& after.state.imm_memtables@[0].wf()
                    &&& after.state.imm_memtables@[0].id() == self.state.memtable.id()
                    &&& forall|i: int|
                        0 <= i < self.state.imm_memtables@.len() ==> after.state.imm_memtables@[i
                            + 1] == #[trigger] self.state.imm_memtables@[i]
                    &&& after.state.memtable.entries().len() == 0
                    &&& after.state.memtable.size() == 0
                    &&& after.state.memtable.id() == self.next_sst_id
                    &&& self.next_sst_id < usize::MAX ==> after.next_sst_id == self.next_sst_id + 1
                } else {
                    &&& after.state.imm_memtables@ == self.state.imm_memtables@
                    &&& after.state.memtable.contents() == pairs
                    &&& size <= usize::MAX ==> after.state.memtable.size() == size
                    &&& after.state.memtable.id() == self.state.memtable.id()
                    &&& after.next_sst_id == self.next_sst_id
                }
            }),
            after.state.l0_sstables@ == self.state.l0_sstables@,
            after.state.levels == self.state.levels,
            after.state.sstables == self.state.sstables,
            after.options == self.options,
            after.compaction_controller == self.compaction_controller,
            after.compaction_filters == self.compaction_filters,
    {
        if memtable.size() > self.options.target_sst_size {
            self.law_frozen_state(memtable, after);
        }
    }

    /// Flushing takes the earliest immutable memtable away and puts the table in
    /// front of L0, under the next number.
    pub proof fn law_flushed_state(&self, table: &SsTable, begun: &Self, after: &Self)
        requires
            self.flush_begun(table, begun),
            begun.flush_finished(table, after),
        ensures
            table.id == self.next_sst_id,
            self.next_sst_id < usize::MAX ==> after.next_sst_id == self.next_sst_id + 1,
            after.state.imm_memtables@ == self.state.imm_memtables@.take(
                self.state.imm_memtables@.len() - 1,
            ),
            after.state.l0_sstables@ == seq![table.id] + self.state.l0_sstables@,
            after.state.sstables@ == self.state.sstables@.insert(table.id, Arc::new(*table)),
            after.state.memtable == self.state.memtable,
            after.state.levels == self.state.levels,
            after.options == self.options,
            table.max_ts == 0,
            ({
                let es = self.state.imm_memtables@[self.state.imm_memtables@.len() - 1].entries();
                &&& es.len() > 0 ==> table.first_key@ == es[0].0 && table.last_key@
                    == es[es.len() - 1].0
                &&& builder::table_storable(es, self.options.block_size) ==> table.entries() == es
            }),
    {
        let es = self.state.imm_memtables@.last().entries();
        builder::law_built(*table, es, self.options.block_size, self.next_sst_id);
        if builder::table_storable(es, self.options.block_size) {
            builder::law_table_read_back(*table, es, self.options.block_size, self.next_sst_id);
        }
        assert(after.state.imm_memtables@ =~= self.state.imm_memtables@.take(
            self.state.imm_memtables@.len() - 1,
        ));
    }

    /// Freezing changes neither what the engine holds nor that it is
    /// well-formed and, while numbers last, has the latest first.
    pub proof fn law_freeze_keeps_contents(&self, after: &Self)
        requires
            self.frozen(&self.state.memtable, after),
        ensures
            self.wf() ==> after.wf(),
            after.contents() == self.contents(),
            self.tables_on_file() ==> after.tables_on_file(),
            self.newest_first() && self.next_sst_id < usize::MAX ==> after.newest_first(),
    {
        let none = Map::<Seq<u8>, Seq<u8>>::empty();
        let layers = self.state.mem_layers() + self.state.l0_layers();
        assert(after.state.memtable.contents() =~= none);
        if self.wf() {
            assert forall|i: int| 0 <= i < after.state.imm_memtables@.len() implies (
            #[trigger] after.state.imm_memtables@[i]).wf() by {
                if i > 0 {
                    assert(after.state.imm_memtables@[i] == self.state.imm_memtables@[i - 1]);
                }
            }
        }
        if self.newest_first() && self.next_sst_id < usize::MAX {
            let imm = after.state.imm_memtables@;
            assert forall|i: int| 0 <= i < imm.len() implies (#[trigger] imm[i]).id()
                < after.state.memtable.id() by {
                if i > 0 {
                    assert(imm[i] == self.state.imm_memtables@[i - 1]);
                }
            }
            assert forall|i: int, j: int|
                #![trigger imm[i], imm[j]]
                0 <= i < j < imm.len() implies imm[j].id() < imm[i].id() by {
                assert(imm[j] == self.state.imm_memtables@[j - 1]);
                if i > 0 {
                    assert(imm[i] == self.state.imm_memtables@[i - 1]);
                }
            }
        }
        assert(after.state.imm_layers() =~= self.state.mem_layers()) by {
            assert forall|i: int| 0 <= i < after.state.imm_layers().len() implies
                after.state.imm_layers()[i] == #[trigger] self.state.mem_layers()[i] by {
                if i > 0 {
                    assert(after.state.imm_memtables@[i] == self.state.imm_memtables@[i - 1]);
                }
            }
        }
        assert(after.state.l0_layers() =~= self.state.l0_layers());
        assert(after.state.mem_layers() + after.state.l0_layers() =~= seq![none] + layers);
        iterators::lemma_layered_concat(seq![none], layers);
        iterators::lemma_layered_one(none);
        assert(iterators::layered(layers).union_prefer_right(none) =~= iterators::layered(layers));
    }

    /// A write changes what the engine holds for its key and for nothing else,
    /// and keeps it well-formed and, while numbers last, with the latest first.
    pub proof fn law_write(
        &self,
        key: Seq<u8>,
        value: Seq<u8>,
        memtable: &MemTable,
        after: &Self,
    )
        requires
            self.written(key, value, memtable, after),
        ensures
            self.wf() ==> after.wf(),
            after.contents() == self.contents().insert(key, value),
            self.tables_on_file() ==> after.tables_on_file(),
            self.newest_first() && self.next_sst_id < usize::MAX ==> after.newest_first(),
    {
        let mid = LsmStorageInner {
            state: LsmStorageState { memtable: *memtable, ..self.state },
            ..*self
        };
        let m = self.state.memtable.contents();
        let lower = self.state.imm_layers() + self.state.l0_layers();
        assert(mid.state.imm_layers() =~= self.state.imm_layers());
        assert(mid.state.l0_layers() =~= self.state.l0_layers());
        assert(self.state.mem_layers() + self.state.l0_layers() =~= seq![m] + lower);
        assert(mid.state.mem_layers() + mid.state.l0_layers() =~= seq![memtable.contents()]
            + lower);
        iterators::lemma_layered_concat(seq![m], lower);
        iterators::lemma_layered_one(m);
        iterators::lemma_layered_concat(seq![memtable.contents()], lower);
        iterators::lemma_layered_one(memtable.contents());
        assert(mid.contents() =~= self.contents().insert(key, value));
        assert(self.wf() ==> mid.wf());
        assert(self.newest_first() ==> mid.newest_first());
        if memtable.size() > self.options.target_sst_size {
            mid.law_freeze_keeps_contents(after);
        } else {
            assert(after.state.imm_layers() =~= mid.state.imm_layers());
            assert(after.state.l0_layers() =~= mid.state.l0_layers());
        }
    }

    /// Flushing a memtable whose pairs a table can hold, under a number that no
    /// table has, changes neither what the engine holds nor that it is
    /// well-formed and, while numbers last, has the latest first.
    pub proof fn law_flush_keeps_contents(&self, table: &SsTable, begun: &Self, after: &Self)
        requires
            self.wf(),
            self.flush_begun(table, begun),
            begun.flush_finished(table, after),
            builder::table_storable(
                self.state.imm_memtables@.last().entries(),
                self.options.block_size,
            ),
            !self.state.sstables@.contains_key(self.next_sst_id),
        ensures
            after.wf(),
            after.contents() == self.contents(),
            self.tables_on_file() ==> after.tables_on_file(),
            self.newest_first() && self.next_sst_id < usize::MAX ==> after.newest_first(),
    {
        let imm = self.state.imm_memtables@;
        assert(imm[imm.len() - 1].wf());
        builder::law_table_read_back(
            *table,
            imm.last().entries(),
            self.options.block_size,
            self.next_sst_id,
        );
        assert(table.contents() == imm.last().contents());
        table.law_built_is_stored(
            imm.last().entries(),
            self.options.block_size,
            self.next_sst_id,
        );
        if self.tables_on_file() {
            assert(after.state.l0_sstables@[0] == table.id);
            assert forall|id: usize| #[trigger] after.state.sstables@.contains_key(id) implies
                after.state.l0_sstables@.contains(id) by {
                if id != table.id {
                    let i = self.state.l0_sstables@.index_of(id);
                    assert(self.state.sstables@.contains_key(id));
                    assert(after.state.l0_sstables@[i + 1] == id);
                }
            }
        }
        assert(after.state.table(table.id) == *table);
        assert forall|i: int| 0 <= i < after.state.l0_sstables@.len() implies
            after.state.sstables@.contains_key(#[trigger] after.state.l0_sstables@[i])
            && after.state.table(after.state.l0_sstables@[i]).wf() by {
            if i > 0 {
                assert(after.state.l0_sstables@[i] == self.state.l0_sstables@[i - 1]);
            }
        }
        if self.newest_first() && self.next_sst_id < usize::MAX {
            let l0 = after.state.l0_sstables@;
            assert forall|i: int, j: int|
                #![trigger l0[i], l0[j]]
                0 <= i < j < l0.len() implies l0[j] < l0[i] by {
                assert(l0[j] == self.state.l0_sstables@[j - 1]);
                if i > 0 {
                    assert(l0[i] == self.state.l0_sstables@[i - 1]);
                } else {
                    assert(self.state.sstables@.contains_key(self.state.l0_sstables@[j - 1]));
                }
            }
        }
        let layers = self.state.mem_layers() + self.state.l0_layers();
        let new_layers = after.state.mem_layers() + after.state.l0_layers();
        assert(layers.len() == new_layers.len());
        assert forall|i: int| 0 <= i < layers.len() implies layers[i] == #[trigger] new_layers[i] by {
            let n = imm.len();
            if i == n {
                assert(after.state.l0_sstables@[0] == table.id);
            } else if i > n {
                assert(after.state.l0_sstables@[i - n] == self.state.l0_sstables@[i - n - 1]);
                assert(self.state.sstables@.contains_key(self.state.l0_sstables@[i - n - 1]));
            }
        }
        assert(layers =~= new_layers);
    }

    /// Nothing was written into the engine yet, and it has the options.
    pub open spec fn unused(&self, options: LsmStorageOptions) -> bool {
        &&& self.state.memtable.wf()
        &&& self.state.memtable.entries() == Seq::<crate::block::Entry>::empty()
        &&& self.state.memtable.id() == 0
        &&& self.state.memtable.size() == 0
        &&& self.state.imm_memtables@.len() == 0
        &&& LsmStorageState::initial_levels(options.compaction_options, self.state.levels@)
        &&& self.options == options
        &&& self.compaction_controller.options() == options.compaction_options
        &&& self.compaction_filters@.len() == 0
    }

    /// The engine whose tables are those of the files, each given with its
    /// number.
    pub open spec fn loaded(
        &self,
        options: LsmStorageOptions,
        files: Seq<(usize, Vec<u8>)>,
    ) -> bool {
        &&& self.unused(options)
        &&& self.wf()
        &&& self.newest_first()
        &&& self.tables_on_file()
        &&& self.contents() == iterators::layered(self.state.l0_layers())
        &&& forall|i: int|
            0 <= i < files.len() ==> self.state.sstables@.contains_key((#[trigger] files[i]).0)
                && self.state.table(files[i].0).stored_as(files[i].1@)
        &&& forall|id: usize| #[trigger]
            self.state.sstables@.contains_key(id) ==> has_file(files, id)
        &&& files.len() == 0 ==> self.next_sst_id == 1
        &&& files.len() > 0 ==> has_file(files, (self.next_sst_id - 1) as usize)
    }

    /// The engine with these tables, the latest first.
    pub fn with_tables(options: LsmStorageOptions, tables: Vec<SsTable>) -> (s: Self)
        requires
            forall|i: int| 0 <= i < tables@.len() ==> (#[trigger] tables@[i]).wf(),
            ids_descend(tables@),
            tables@.len() > 0 ==> tables@[0].id < usize::MAX,
        ensures
            s.unused(options),
            s.options == options,
            s.state.memtable.entries().len() == 0,
            s.state.memtable.size() == 0,
            s.state.imm_memtables@.len() == 0,
            s.compaction_filters@.len() == 0,
            forall|i: int|
                0 <= i < s.state.levels@.len() ==> (#[trigger] s.state.levels@[i]).0 == i + 1
                    && s.state.levels@[i].1@.len() == 0,
            match options.compaction_options {
                CompactionOptions::Leveled(o) => s.state.levels@.len() == o.max_levels,
                CompactionOptions::Simple(o) => s.state.levels@.len() == o.max_levels,
                CompactionOptions::Tiered(_) => s.state.levels@.len() == 0,
                CompactionOptions::NoCompaction => s.state.levels@.len() == 1,
            },
            match (options.compaction_options, s.compaction_controller) {
                (CompactionOptions::Leveled(o), CompactionController::Leveled(c)) => c.options()
                    == o,
                (CompactionOptions::Tiered(o), CompactionController::Tiered(c)) => c.options()
                    == o,
                (CompactionOptions::Simple(o), CompactionController::Simple(c)) => c.options()
                    == o,
                (CompactionOptions::NoCompaction, CompactionController::NoCompaction) => true,
                _ => false,
            },
            s.wf(),
            s.newest_first(),
            s.contents() == iterators::layered(tables@.map_values(|t: SsTable| t.contents())),
            s.state.l0_layers() == tables@.map_values(|t: SsTable| t.contents()),
            s.state.l0_sstables@ == tables@.map_values(|t: SsTable| t.id),
            forall|id: usize| #[trigger]
                s.state.sstables@.contains_key(id) ==> s.state.l0_sstables@.contains(id),
            forall|i: int|
                0 <= i < tables@.len() ==> s.state.sstables@.contains_key(
                    (#[trigger] tables@[i]).id,
                ) && s.state.table(tables@[i].id) == tables@[i],
            s.next_sst_id == if tables@.len() == 0 {
                1
            } else {
                tables@[0].id + 1
            },
    {
        let mut state = LsmStorageState::create(&options);
        let compaction_controller = match options.compaction_options {
            CompactionOptions::Leveled(o) => CompactionController::Leveled(
                LeveledCompactionController::new(o),
            ),
            CompactionOptions::Tiered(o) => CompactionController::Tiered(
                TieredCompactionController::new(o),
            ),
            CompactionOptions::Simple(o) => CompactionController::Simple(
                SimpleLeveledCompactionController::new(o),
            ),
            CompactionOptions::NoCompaction => CompactionController::NoCompaction,
        };
        let next_sst_id: usize = if tables.len() == 0 {
            1
        } else {
            tables[0].id + 1
        };
        let ghost given = tables@;
        let ghost ids = given.map_values(|t: SsTable| t.id);
        let ghost state0 = state;
        let mut tables = tables;
        // from the earliest to the latest
        while tables.len() > 0
            invariant
                tables@.len() <= given.len(),
                tables@ == given.take(tables@.len() as int),
                ids == given.map_values(|t: SsTable| t.id),
                ids_descend(given),
                state.l0_sstables@ == ids.skip(tables@.len() as int),
                forall|i: int|
                    tables@.len() <= i < given.len() ==> state.sstables@.contains_key(
                        (#[trigger] given[i]).id,
                    ) && *state.sstables@[given[i].id] == given[i],
                forall|id: usize| #[trigger]
                    state.sstables@.contains_key(id) ==> state.l0_sstables@.contains(id),
                state.memtable == state0.memtable,
                state.imm_memtables == state0.imm_memtables,
                state.levels == state0.levels,
            decreases tables@.len(),
        {
            let ghost before = state;
            let table = tables.pop().unwrap();
            let id: usize = table.id;
            let ghost n = tables@.len() as int;
            assert(table == given[n]);
            assert(tables@ =~= given.take(n));
            state.l0_sstables.insert(0, id);
            let _ = state.sstables.insert(id, Arc::new(table));
            proof {
                assert(ids.skip(n) =~= seq![ids[n]] + ids.skip(n + 1));
                assert(state.l0_sstables@ =~= ids.skip(n));
                assert(state.l0_sstables@[0] == id);
                assert forall|i: int| n <= i < given.len() implies state.sstables@.contains_key(
                    (#[trigger] given[i]).id,
                ) && *state.sstables@[given[i].id] == given[i] by {
                    if i > n {
                        assert(given[i].id < given[n].id);
                    }
                }
                assert forall|x: usize| #[trigger] state.sstables@.contains_key(x) implies
                    state.l0_sstables@.contains(x) by {
                    if x != id {
                        assert(before.sstables@.contains_key(x));
                        let j = before.l0_sstables@.index_of(x);
                        assert(state.l0_sstables@[j + 1] == x);
                    }
                }
            }
        }
        let s = LsmStorageInner {
            state,
            next_sst_id,
            options,
            compaction_controller,
            compaction_filters: Vec::new(),
        };
        proof {
            let l0 = s.state.l0_sstables@;
            assert(l0 =~= ids);
            assert forall|i: int| 0 <= i < l0.len() implies s.state.sstables@.contains_key(
                #[trigger] l0[i],
            ) && s.state.table(l0[i]).wf() by {
                assert(l0[i] == given[i].id);
            }
            assert forall|i: int, j: int| #![trigger l0[i], l0[j]] 0 <= i < j < l0.len() implies
                l0[j] < l0[i] by {
                assert(l0[i] == given[i].id && l0[j] == given[j].id);
            }
            assert forall|id: usize| #[trigger] s.state.sstables@.contains_key(id) implies id
                < s.next_sst_id by {
                let j = l0.index_of(id);
                assert(l0[j] == given[j].id);
                if j > 0 {
                    assert(given[j].id < given[0].id);
                }
            }
            let none = Map::<Seq<u8>, Seq<u8>>::empty();
            let layers = given.map_values(|t: SsTable| t.contents());
            assert(s.state.memtable.contents() =~= none);
            assert forall|i: int| 0 <= i < layers.len() implies layers[i]
                == #[trigger] s.state.l0_layers()[i] by {
                assert(l0[i] == given[i].id);
            }
            assert(s.state.l0_layers() =~= layers);
            assert(s.state.mem_layers() =~= seq![none]);
            iterators::lemma_layered_concat(seq![none], layers);
            iterators::lemma_layered_one(none);
            assert(iterators::layered(layers).union_prefer_right(none) =~= iterators::layered(
                layers,
            ));
        }
        s
    }

    /// Start the storage engine by either loading an existing directory or
    /// creating a new one if the directory does not exist. The files of the
    /// tables in the directory are given by their numbers and bytes, in any
    /// order; a new directory has none.
    #[verifier::rlimit(50)]
    pub fn open(options: LsmStorageOptions, files: Vec<(usize, Vec<u8>)>) -> (r: Result<
        Self,
        StorageError,
    >)
        ensures
            r is Ok <==> loadable(files@),
            r matches Ok(s) ==> s.loaded(options, files@),
            r matches Ok(s) ==> {
                &&& s.options == options
                &&& s.state.memtable.entries().len() == 0
                &&& s.state.memtable.size() == 0
                &&& s.state.imm_memtables@.len() == 0
                &&& s.compaction_filters@.len() == 0
                &&& s.contents() == iterators::layered(s.state.l0_layers())
                &&& files@.len() == 0 ==> s.contents() == Map::<Seq<u8>, Seq<u8>>::empty()
                    && s.next_sst_id == 1 && s.state.l0_sstables@.len() == 0
                &&& forall|i: int|
                    0 <= i < files@.len() ==> {
                        &&& s.state.l0_sstables@.contains((#[trigger] files@[i]).0)
                        &&& s.state.sstables@.contains_key(files@[i].0)
                        &&& s.state.sstables@[files@[i].0].file@ == files@[i].1@
                        &&& s.state.sstables@[files@[i].0].id == files@[i].0
                        &&& files@[i].0 < s.next_sst_id
                    }
                &&& forall|j: int|
                    0 <= j < s.state.l0_sstables@.len() ==> exists|i: int|
                        0 <= i < files@.len() && (#[trigger] files@[i]).0
                            == #[trigger] s.state.l0_sstables@[j]
                &&& forall|a: int, b: int|
                    #![trigger s.state.l0_sstables@[a], s.state.l0_sstables@[b]]
                    0 <= a < b < s.state.l0_sstables@.len() ==> s.state.l0_sstables@[b]
                        < s.state.l0_sstables@[a]
                &&& files@.len() > 0 ==> s.state.l0_sstables@.len() > 0 && s.next_sst_id
                    == s.state.l0_sstables@[0] + 1
                &&& forall|i: int|
                    0 <= i < s.state.levels@.len() ==> (#[trigger] s.state.levels@[i]).0 == i + 1
                        && s.state.levels@[i].1@.len() == 0
                &&& match options.compaction_options {
                    CompactionOptions::Leveled(o) => s.state.levels@.len() == o.max_levels,
                    CompactionOptions::Simple(o) => s.state.levels@.len() == o.max_levels,
                    CompactionOptions::Tiered(_) => s.state.levels@.len() == 0,
                    CompactionOptions::NoCompaction => s.state.levels@.len() == 1,
                }
                &&& match (options.compaction_options, s.compaction_controller) {
                    (CompactionOptions::Leveled(o), CompactionController::Leveled(c)) => c.options()
                        == o,
                    (CompactionOptions::Tiered(o), CompactionController::Tiered(c)) => c.options()
                        == o,
                    (CompactionOptions::Simple(o), CompactionController::Simple(c)) => c.options()
                        == o,
                    (CompactionOptions::NoCompaction, CompactionController::NoCompaction) => true,
                    _ => false,
                }
            },
            r matches Err(e) ==> exists|i: int|
                #![trigger files@[i]]
                0 <= i < files@.len() && e == StorageError::Corrupt(files@[i].0) && unfit(
                    files@,
                    i,
                ),
    {
        let ghost given = files@;
        let mut unread = files;
        let mut tables: Vec<SsTable> = Vec::new();
        while unread.len() > 0
            invariant
                given == files@,
                unread@.len() <= given.len(),
                unread@ == given.take(unread@.len() as int),
                ids_descend(tables@),
                forall|t: SsTable| #[trigger]
                    tables@.contains(t) ==> t.wf() && t.stored_as(t.file@) && t.id < usize::MAX
                        && has_file(given.skip(unread@.len() as int), t.id),
                forall|i: int|
                    unread@.len() <= i < given.len() ==> has_table(tables@, #[trigger] given[i]),
                forall|i: int, j: int|
                    #![trigger given[i], given[j]]
                    unread@.len() <= i < j < given.len() ==> given[i].0 != given[j].0,
            decreases unread@.len(),
        {
            let (id, file) = unread.pop().unwrap();
            let ghost n = unread@.len() as int;
            let ghost before = tables@;
            let ghost behind = given.skip(n + 1);
            assert(given[n] == (id, file));
            assert(unread@ =~= given.take(n));
            match read_table(&mut tables, id, file) {
                Err(e) => {
                    proof {
                        if has_id(before, id) {
                            let j = choose|j: int|
                                0 <= j < before.len() && (#[trigger] before[j]).id == id;
                            assert(before.contains(before[j]));
                            let l = choose|l: int|
                                0 <= l < behind.len() && (#[trigger] behind[l]).0 == id;
                            assert(given[n + 1 + l] == behind[l]);
                        }
                        assert(unfit(given, n));
                    }
                    return Err(e);
                },
                Ok(()) => {},
            }
            proof {
                let now = given.skip(n);
                assert(now[0] == given[n]);
                assert forall|t: SsTable| #[trigger] tables@.contains(t) implies t.wf()
                    && t.stored_as(t.file@) && t.id < usize::MAX && has_file(now, t.id) by {
                    if before.contains(t) {
                        let l = choose|l: int|
                            0 <= l < behind.len() && (#[trigger] behind[l]).0 == t.id;
                        assert(now[l + 1] == behind[l]);
                    }
                }
                assert forall|i: int| n <= i < given.len() implies has_table(
                    tables@,
                    #[trigger] given[i],
                ) by {
                    if i > n {
                        assert(has_table(before, given[i]));
                    }
                }
                assert forall|j: int| n < j < given.len() implies given[n].0 != (
                #[trigger] given[j]).0 by {
                    assert(has_table(before, given[j]));
                    let t = choose|t: SsTable| #[trigger]
                        before.contains(t) && t.id == given[j].0 && t.stored_as(given[j].1@);
                    let l = before.index_of(t);
                    assert(before[l].id == given[j].0);
                }
            }
        }
        proof {
            assert(given.skip(0) =~= given);
            assert forall|i: int| 0 <= i < tables@.len() implies (#[trigger] tables@[i]).wf() by {
                assert(tables@.contains(tables@[i]));
            }
            if tables@.len() > 0 {
                assert(tables@.contains(tables@[0]));
            }
            assert forall|i: int| 0 <= i < given.len() implies holds_table(
                (#[trigger] given[i]).1@,
            ) && given[i].0 < usize::MAX by {
                assert(has_table(tables@, given[i]));
            }
        }
        let ghost ts = tables@;
        let s = Self::with_tables(options, tables);
        proof {
            let l0 = s.state.l0_sstables@;
            assert forall|id: usize| #[trigger] s.state.sstables@.contains_key(id) implies {
                &&& s.state.table(id).id == id
                &&& s.state.table(id).stored_as(s.state.table(id).file@)
                &&& has_file(given, id)
            } by {
                let j = l0.index_of(id);
                assert(l0[j] == ts[j].id);
                assert(ts.contains(ts[j]));
            }
            assert forall|i: int| 0 <= i < given.len() implies s.state.sstables@.contains_key(
                (#[trigger] given[i]).0,
            ) && s.state.table(given[i].0).stored_as(given[i].1@) by {
                assert(has_table(ts, given[i]));
                let t = choose|t: SsTable| #[trigger]
                    ts.contains(t) && t.id == given[i].0 && t.stored_as(given[i].1@);
                let j = ts.index_of(t);
                assert(ts[j] == t);
            }
            if given.len() > 0 {
                assert(has_table(ts, given[0]));
                assert(ts.len() > 0);
                assert(ts.contains(ts[0]));
                assert(l0[0] == ts[0].id);
            } else {
                if ts.len() > 0 {
                    assert(ts.contains(ts[0]));
                }
                assert(ts.map_values(|t: SsTable| t.contents()) =~= Seq::<Contents>::empty());
                iterators::law_layered(Map::empty(), Seq::empty(), Seq::empty());
            }
            assert forall|j: int| 0 <= j < l0.len() implies exists|i: int|
                0 <= i < given.len() && (#[trigger] given[i]).0 == #[trigger] l0[j] by {
                assert(s.state.sstables@.contains_key(l0[j]));
                assert(has_file(given, l0[j]));
            }
        }
        Ok(s)
    }

    /// Hands out the next number; numbers start over behind the largest.
    pub fn next_sst_id(&mut self) -> (id: usize)
        ensures
            id == old(self).next_sst_id,
            final(self).next_sst_id == id_after(id),
            id < usize::MAX ==> final(self).next_sst_id == id + 1,
            id == usize::MAX ==> final(self).next_sst_id == 0,
            final(self).options == old(self).options,
            final(self).compaction_controller == old(self).compaction_controller,
            final(self).compaction_filters == old(self).compaction_filters,
            final(self).state == old(self).state,
            final(self).same_but_state(old(self)),
    {
        let id: usize = self.next_sst_id;
        self.next_sst_id = id.wrapping_add(1);
        id
    }

    pub fn add_compaction_filter(&mut self, compaction_filter: CompactionFilter)
        ensures
            final(self).compaction_filters@ == old(self).compaction_filters@.push(
                compaction_filter,
            ),
            final(self).state == old(self).state,
            final(self).next_sst_id == old(self).next_sst_id,
            final(self).options == old(self).options,
            final(self).compaction_controller == old(self).compaction_controller,
    {
        self.compaction_filters.push(compaction_filter);
    }

    /// Write a batch of data into the storage, in the order of the batch.
    pub fn write_batch(&mut self, batch: &[WriteBatchRecord<&[u8]>]) -> (r: Result<(), StorageError>)
        requires
            old(self).state.memtable.wf(),
        ensures
            r is Ok,
            final(self).state.memtable.wf(),
            old(self).wf() ==> final(self).wf(),
            old(self).tables_on_file() ==> final(self).tables_on_file(),
            final(self).contents() == history::effects(
                old(self).contents(),
                history::ops_of(batch@),
            ),
            history::leads(*old(self), history::ops_of(batch@), *final(self)),
            batch@.len() == 0 ==> *final(self) == *old(self),
            batch@.len() > 0 ==> final(self).state.memtable.size()
                <= old(self).options.target_sst_size,
            final(self).state.l0_sstables@ == old(self).state.l0_sstables@,
            final(self).state.levels == old(self).state.levels,
            final(self).state.sstables == old(self).state.sstables,
            final(self).options == old(self).options,
            final(self).compaction_controller == old(self).compaction_controller,
            final(self).compaction_filters == old(self).compaction_filters,
    {
        let ghost first = *self;
        let ghost ops = history::ops_of(batch@);
        let mut i: usize = 0;
        proof {
            assert(ops.take(0) =~= Seq::<history::Op>::empty());
            history::lemma_leads_nowhere(first);
        }
        while i < batch.len()
            invariant
                first == *old(self),
                i <= batch@.len(),
                ops == history::ops_of(batch@),
                self.state.memtable.wf(),
                first.wf() ==> self.wf(),
                first.tables_on_file() ==> self.tables_on_file(),
                self.contents() == history::effects(first.contents(), ops.take(i as int)),
                history::leads(first, ops.take(i as int), *self),
            decreases batch@.len() - i,
        {
            let ghost before = *self;
            let ghost op = ops[i as int];
            let r = match &batch[i] {
                WriteBatchRecord::Put(key, value) => {
                    let r = self.put(key, value);
                    assert(history::wrote(before, key@, value@, *self));
                    assert(op == history::Op::Put(key@, value@));
                    r
                },
                WriteBatchRecord::Del(key) => {
                    let r = self.delete(key);
                    assert(history::wrote(before, key@, Seq::empty(), *self));
                    assert(op == history::Op::Delete(key@));
                    r
                },
            };
            proof {
                history::lemma_leads_on(first, ops.take(i as int), before, op, *self);
                assert(ops.take(i + 1) =~= ops.take(i as int).push(op));
                assert(ops.take(i + 1).drop_last() =~= ops.take(i as int));
            }
            match r {
                Err(e) => {
                    return Err(e);
                },
                Ok(()) => {},
            }
            i = i + 1;
        }
        assert(ops.take(i as int) =~= ops);
        proof {
            history::law_batch_state(first, batch@, *self);
        }
        Ok(())
    }

    /// Put a key-value pair into the storage by writing into the current memtable.
    pub fn put(&mut self, key: &[u8], value: &[u8]) -> (r: Result<(), StorageError>)
        requires
            old(self).state.memtable.wf(),
        ensures
            r is Ok,
            final(self).state.memtable.wf(),
            old(self).wf() ==> final(self).wf(),
            old(self).tables_on_file() ==> final(self).tables_on_file(),
            final(self).contents() == old(self).contents().insert(key@, value@),
            exists|memtable: MemTable| #[trigger]
                old(self).written(key@, value@, &memtable, final(self)),
            final(self).state.memtable.size() <= old(self).options.target_sst_size,
            ({
                let size = old(self).state.memtable.size() + key@.len() + value@.len();
                let target = old(self).options.target_sst_size;
                let pairs = old(self).state.memtable.contents().insert(key@, value@);
                if size > target && target < usize::MAX {
                    &&& final(self).state.imm_memtables@.len()
                        == old(self).state.imm_memtables@.len() + 1
                    &&& final(self).state.imm_memtables@[0].contents() == pairs
                    &&& final(self).state.imm_memtables@[0].wf()
                    &&& final(self).state.imm_memtables@[0].id() == old(self).state.memtable.id()
                    &&& forall|i: int|
                        0 <= i < old(self).state.imm_memtables@.len()
                            ==> final(self).state.imm_memtables@[i + 1]
                            == #[trigger] old(self).state.imm_memtables@[i]
                    &&& final(self).state.memtable.entries().len() == 0
                    &&& final(self).state.memtable.size() == 0
                    &&& final(self).state.memtable.id() == old(self).next_sst_id
                    &&& old(self).next_sst_id < usize::MAX ==> final(self).next_sst_id
                        == old(self).next_sst_id + 1
                } else {
                    &&& final(self).state.imm_memtables@ == old(self).state.imm_memtables@
                    &&& final(self).state.memtable.contents() == pairs
                    &&& size <= usize::MAX ==> final(self).state.memtable.size() == size
                    &&& final(self).state.memtable.id() == old(self).state.memtable.id()
                    &&& final(self).next_sst_id == old(self).next_sst_id
                }
            }),
            final(self).state.l0_sstables@ == old(self).state.l0_sstables@,
            final(self).state.levels == old(self).state.levels,
            final(self).state.sstables == old(self).state.sstables,
            final(self).options == old(self).options,
            final(self).compaction_controller == old(self).compaction_controller,
            final(self).compaction_filters == old(self).compaction_filters,
            old(self).newest_first() && old(self).next_sst_id < usize::MAX
                ==> final(self).newest_first(),
    {
        match self.state.memtable.put(key, value) {
            Err(e) => {
                return Err(e);
            },
            Ok(()) => {},
        }
        let ghost memtable = self.state.memtable;
        let approximate_size: usize = self.state.memtable.approximate_size();
        let r = self.try_freeze_memtable(approximate_size);
        proof {
            assert(old(self).written(key@, value@, &memtable, self));
            old(self).law_write(key@, value@, &memtable, self);
            old(self).law_written_state(key@, value@, &memtable, self);
        }
        r
    }

    /// Remove a key from the storage by writing an empty value.
    pub fn delete(&mut self, key: &[u8]) -> (r: Result<(), StorageError>)
        requires
            old(self).state.memtable.wf(),
        ensures
            r is Ok,
            final(self).state.memtable.wf(),
            old(self).wf() ==> final(self).wf(),
            old(self).tables_on_file() ==> final(self).tables_on_file(),
            final(self).contents() == old(self).contents().insert(key@, Seq::empty()),
            exists|memtable: MemTable| #[trigger]
                old(self).written(key@, Seq::empty(), &memtable, final(self)),
            final(self).state.memtable.size() <= old(self).options.target_sst_size,
            ({
                let size = old(self).state.memtable.size() + key@.len();
                let target = old(self).options.target_sst_size;
                let pairs = old(self).state.memtable.contents().insert(key@, Seq::<u8>::empty());
                if size > target && target < usize::MAX {
                    &&& final(self).state.imm_memtables@.len()
                        == old(self).state.imm_memtables@.len() + 1
                    &&& final(self).state.imm_memtables@[0].contents() == pairs
                    &&& final(self).state.imm_memtables@[0].wf()
                    &&& final(self).state.imm_memtables@[0].id() == old(self).state.memtable.id()
                    &&& forall|i: int|
                        0 <= i < old(self).state.imm_memtables@.len()
                            ==> final(self).state.imm_memtables@[i + 1]
                            == #[trigger] old(self).state.imm_memtables@[i]
                    &&& final(self).state.memtable.entries().len() == 0
                    &&& final(self).state.memtable.size() == 0
                    &&& final(self).state.memtable.id() == old(self).next_sst_id
                    &&& old(self).next_sst_id < usize::MAX ==> final(self).next_sst_id
                        == old(self).next_sst_id + 1
                } else {
                    &&& final(self).state.imm_memtables@ == old(self).state.imm_memtables@
                    &&& final(self).state.memtable.contents() == pairs
                    &&& size <= usize::MAX ==> final(self).state.memtable.size() == size
                    &&& final(self).state.memtable.id() == old(self).state.memtable.id()
                    &&& final(self).next_sst_id == old(self).next_sst_id
                }
            }),
            final(self).state.l0_sstables@ == old(self).state.l0_sstables@,
            final(self).state.levels == old(self).state.levels,
            final(self).state.sstables == old(self).state.sstables,
            final(self).options == old(self).options,
            final(self).compaction_controller == old(self).compaction_controller,
            final(self).compaction_filters == old(self).compaction_filters,
            old(self).newest_first() && old(self).next_sst_id < usize::MAX
                ==> final(self).newest_first(),
    {
        let no_value: Vec<u8> = Vec::new();
        assert(no_value@ =~= Seq::<u8>::empty());
        self.put(key, no_value.as_slice())
    }

    /// Freezes the memtable if `size` is larger than a table should be, and the
    /// memtable has not become smaller since.
    pub fn try_freeze_memtable(&mut self, size: usize) -> (r: Result<(), StorageError>)
        ensures
            r is Ok,
            if size > old(self).options.target_sst_size && old(self).state.memtable.size()
                >= old(self).options.target_sst_size {
                &&& old(self).frozen(&old(self).state.memtable, final(self))
                &&& final(self).state.imm_memtables@.len() == old(self).state.imm_memtables@.len()
                    + 1
                &&& *final(self).state.imm_memtables@[0] == old(self).state.memtable
                &&& forall|i: int|
                    0 <= i < old(self).state.imm_memtables@.len()
                        ==> final(self).state.imm_memtables@[i + 1]
                        == #[trigger] old(self).state.imm_memtables@[i]
                &&& final(self).state.memtable.entries().len() == 0
                &&& final(self).state.memtable.size() == 0
                &&& final(self).state.memtable.id() == old(self).next_sst_id
                &&& old(self).next_sst_id < usize::MAX ==> final(self).next_sst_id
                    == old(self).next_sst_id + 1
                &&& final(self).state.l0_sstables@ == old(self).state.l0_sstables@
                &&& final(self).state.levels == old(self).state.levels
                &&& final(self).state.sstables == old(self).state.sstables
                &&& final(self).options == old(self).options
            } else {
                *final(self) == *old(self)
            },
    {
        if size > self.options.target_sst_size {
            let cur_size: usize = self.state.memtable.approximate_size();
            if cur_size >= self.options.target_sst_size {
                return self.force_freeze_memtable();
            }
        }
        Ok(())
    }

    /// Force freeze the current memtable to an immutable memtable
    pub fn force_freeze_memtable(&mut self) -> (r: Result<(), StorageError>)
        ensures
            r is Ok,
            old(self).frozen(&old(self).state.memtable, final(self)),
            ({
                &&& final(self).state.imm_memtables@.len() == old(self).state.imm_memtables@.len()
                    + 1
                &&& *final(self).state.imm_memtables@[0] == old(self).state.memtable
                &&& forall|i: int|
                    0 <= i < old(self).state.imm_memtables@.len()
                        ==> final(self).state.imm_memtables@[i + 1]
                        == #[trigger] old(self).state.imm_memtables@[i]
                &&& final(self).state.memtable.entries().len() == 0
                &&& final(self).state.memtable.size() == 0
                &&& final(self).state.memtable.id() == old(self).next_sst_id
                &&& old(self).next_sst_id < usize::MAX ==> final(self).next_sst_id
                    == old(self).next_sst_id + 1
                &&& final(self).state.l0_sstables@ == old(self).state.l0_sstables@
                &&& final(self).state.levels == old(self).state.levels
                &&& final(self).state.sstables == old(self).state.sstables
                &&& final(self).options == old(self).options
            }),
    {
        let id: usize = self.next_sst_id();
        let mut memtable = MemTable::create(id);
        std::mem::swap(&mut self.state.memtable, &mut memtable);
        self.state.imm_memtables.insert(0, Arc::new(memtable));
        assert(self.state.imm_memtables@.drop_first() =~= old(self).state.imm_memtables@);
        proof {
            old(self).law_frozen_state(&old(self).state.memtable, self);
        }
        Ok(())
    }

    /// Freezes the current memtable unless nothing was written into it.
    pub fn freeze_unless_empty(&mut self) -> (r: Result<(), StorageError>)
        ensures
            r is Ok,
            if old(self).state.memtable.entries().len() > 0 {
                &&& old(self).frozen(&old(self).state.memtable, final(self))
                &&& final(self).state.imm_memtables@.len() == old(self).state.imm_memtables@.len()
                    + 1
                &&& *final(self).state.imm_memtables@[0] == old(self).state.memtable
                &&& forall|i: int|
                    0 <= i < old(self).state.imm_memtables@.len()
                        ==> final(self).state.imm_memtables@[i + 1]
                        == #[trigger] old(self).state.imm_memtables@[i]
                &&& final(self).state.memtable.entries().len() == 0
                &&& final(self).state.memtable.size() == 0
                &&& final(self).state.memtable.id() == old(self).next_sst_id
                &&& old(self).next_sst_id < usize::MAX ==> final(self).next_sst_id
                    == old(self).next_sst_id + 1
                &&& final(self).state.l0_sstables@ == old(self).state.l0_sstables@
                &&& final(self).state.levels == old(self).state.levels
                &&& final(self).state.sstables == old(self).state.sstables
                &&& final(self).options == old(self).options
            } else {
                *final(self) == *old(self)
            },
    {
        if !self.state.memtable.is_empty() {
            return self.force_freeze_memtable();
        }
        Ok(())
    }

    /// Whether there are more memtables, the current one among them, than the
    /// options allow.
    pub fn exceeds_memtable_limit(&self) -> (r: bool)
        ensures
            r == (self.state.imm_memtables@.len() + 1 > self.options.num_memtable_limit),
    {
        self.state.imm_memtables.len() >= self.options.num_memtable_limit
    }

    /// Whether a table can hold the pairs of the earliest immutable memtable, if
    /// there is one.
    pub fn next_flush_fits(&self) -> (r: bool)
        requires
            self.state.imm_memtables@.len() > 0 ==> self.state.imm_memtables@.last().wf(),
        ensures
            r == (self.state.imm_memtables@.len() > 0 ==> builder::table_storable(
                self.state.imm_memtables@.last().entries(),
                self.options.block_size,
            )),
    {
        let n: usize = self.state.imm_memtables.len();
        n == 0 || self.state.imm_memtables[n - 1].fits_in_table(self.options.block_size)
    }

    /// Force flush the earliest-created immutable memtable, if there is one:
    /// hands out the table that is to be written to disk. Once that is done,
    /// `finish_flush_next_imm_memtable` puts it in the place of the memtable.
    pub fn force_flush_next_imm_memtable(&mut self) -> (r: Option<SsTable>)
        ensures
            match r {
                Some(table) => {
                    &&& old(self).flush_begun(&table, final(self))
                    &&& old(self).state.imm_memtables@.len() > 0
                    &&& table.id == old(self).next_sst_id
                    &&& builder::built_from(
                        table,
                        old(self).state.imm_memtables@[old(self).state.imm_memtables@.len()
                            - 1].entries(),
                        old(self).options.block_size,
                        old(self).next_sst_id,
                    )
                    &&& final(self).state == old(self).state
                    &&& final(self).options == old(self).options
                    &&& old(self).next_sst_id < usize::MAX ==> final(self).next_sst_id
                        == old(self).next_sst_id + 1
                },
                None => old(self).state.imm_memtables@.len() == 0 && *final(self) == *old(self),
            },
    {
        let n: usize = self.state.imm_memtables.len();
        if n == 0 {
            return None;
        }
        let mut builder = SsTableBuilder::new(self.options.block_size);
        self.state.imm_memtables[n - 1].flush(&mut builder);
        proof {
            let es = self.state.imm_memtables@.last().entries();
            assert(Seq::<crate::block::Entry>::empty() + es =~= es);
        }
        let next_id: usize = self.next_sst_id();
        Some(builder.build(next_id))
    }

    /// Once the file of `table` is written, replaces the earliest-created
    /// immutable memtable by it; otherwise hands the error on and changes
    /// nothing.
    pub fn finish_flush_next_imm_memtable(
        &mut self,
        table: SsTable,
        written: Result<(), StorageError>,
    ) -> (r: Result<(), StorageError>)
        requires
            old(self).state.imm_memtables@.len() > 0,
        ensures
            match written {
                Ok(_) => {
                    &&& r is Ok
                    &&& old(self).flush_finished(&table, final(self))
                    &&& final(self).state.imm_memtables@ == old(self).state.imm_memtables@.take(
                        old(self).state.imm_memtables@.len() - 1,
                    )
                    &&& final(self).state.l0_sstables@ == seq![table.id]
                        + old(self).state.l0_sstables@
                    &&& final(self).state.sstables@ == old(self).state.sstables@.insert(
                        table.id,
                        Arc::new(table),
                    )
                    &&& final(self).state.memtable == old(self).state.memtable
                    &&& final(self).state.levels == old(self).state.levels
                    &&& final(self).next_sst_id == old(self).next_sst_id
                    &&& final(self).options == old(self).options
                },
                Err(e) => r == Err::<(), StorageError>(e) && *final(self) == *old(self),
            },
    {
        match written {
            Err(e) => Err(e),
            Ok(()) => {
                let _ = self.state.imm_memtables.pop();
                let id: usize = table.id;
                self.state.l0_sstables.insert(0, id);
                assert(self.state.l0_sstables@ =~= seq![id] + old(self).state.l0_sstables@);
                let _ = self.state.sstables.insert(id, Arc::new(table));
                assert(self.state.imm_memtables@ =~= old(self).state.imm_memtables@.take(
                    old(self).state.imm_memtables@.len() - 1,
                ));
                Ok(())
            },
        }
    }

    /// Transactions need no preparation.
    pub fn new_txn(&self) -> (r: Result<(), StorageError>)
        ensures
            r is Ok,
    {
        Ok(())
    }

    /// Get a key from the storage.
    pub fn get(&self, key: &[u8]) -> (r: Result<Option<Bytes>, StorageError>)
        requires
            self.wf(),
        ensures
            match r {
                Ok(Some(v)) => lookup(self.contents(), key@) == Some(buffer::bytes_content(v)),
                Ok(None) => lookup(self.contents(), key@) is None,
                Err(_) => false,
            },
            match r {
                Ok(Some(v)) => self.contents().contains_key(key@) && self.contents()[key@]
                    == buffer::bytes_content(v) && buffer::bytes_content(v).len() > 0,
                Ok(None) => self.contents().contains_key(key@) ==> self.contents()[key@].len()
                    == 0,
                Err(_) => false,
            },
    {
        let ghost mems = self.state.mem_layers();
        let ghost l0s = self.state.l0_layers();
        let ghost k = key@;
        proof {
            iterators::lemma_layered_concat(mems, l0s);
        }
        // check the current memtable
        if let Some(val) = self.state.memtable.get(key) {
            proof {
                assert(mems[0] == self.state.memtable.contents());
                iterators::lemma_layered_value(mems, k, 0);
            }
            return if !val.is_empty() {
                Ok(Some(val))
            } else {
                Ok(None)
            };
        }
        // check the frozen memtables from the newest to the oldest

        let mut i: usize = 0;
        while i < self.state.imm_memtables.len()
            invariant
                self.wf(),
                k == key@,
                mems == self.state.mem_layers(),
                l0s == self.state.l0_layers(),
                self.contents() == iterators::layered(l0s).union_prefer_right(
                    iterators::layered(mems),
                ),
                i <= self.state.imm_memtables@.len(),
                forall|j: int| 0 <= j <= i ==> !(#[trigger] mems[j]).contains_key(k),
            decreases self.state.imm_memtables@.len() - i,
        {
            assert(mems[i + 1] == self.state.imm_memtables@[i as int].contents());
            if let Some(val) = self.state.imm_memtables[i].get(key) {
                proof {
                    iterators::lemma_layered_value(mems, k, i + 1);
                }
                return if !val.is_empty() {
                    Ok(Some(val))
                } else {
                    Ok(None)
                };
            }
            i = i + 1;
        }
        proof {
            iterators::lemma_layered_keys(mems, k);
        }

        let miter = self.l0_iterator_from(key);
        proof {
            miter.lemma_finite();
            if iterators::has_keys(miter.rest()) {
                iterators::lemma_least(miter.rest());
            }
        }
        if miter.is_valid() && miter.key().same(KeySlice::from_slice(key)) {
            if miter.value().len() > 0 {
                return Ok(Some(bytes_copy_from_slice(miter.value())));
            }
        }
        Ok(None)
    }

    /// Merges the tables of L0 that may have the key, each from the key on.
    fn l0_iterator_from(&self, key: &[u8]) -> (miter: MergeIterator<SsTableIterator>)
        requires
            self.wf(),
        ensures
            miter.wf(),
            miter.infallible(),
            forall|j: Seq<u8>| #[trigger] miter.rest().contains_key(j) ==> key::key_le(key@, j),
            miter.rest().contains_key(key@) == iterators::layered(
                self.state.l0_layers(),
            ).contains_key(key@),
            miter.rest().contains_key(key@) ==> miter.rest()[key@] == iterators::layered(
                self.state.l0_layers(),
            )[key@],
    {
        let ghost l0s = self.state.l0_layers();
        let ghost k = key@;
        let mut sstable_iters: Vec<Box<SsTableIterator>> = Vec::new();
        let mut i: usize = 0;
        while i < self.state.l0_sstables.len()
            invariant
                self.wf(),
                k == key@,
                l0s == self.state.l0_layers(),
                i <= self.state.l0_sstables@.len(),
                forall|j: int| 0 <= j < sstable_iters@.len() ==> (#[trigger] sstable_iters@[j]).wf(),
                ({
                    let got = iterators::layered(MergeIterator::parts(sstable_iters@));
                    let want = iterators::layered(l0s.take(i as int));
                    &&& forall|j: Seq<u8>| #[trigger] got.contains_key(j) ==> key::key_le(k, j)
                    &&& got.contains_key(k) == want.contains_key(k)
                    &&& got.contains_key(k) ==> got[k] == want[k]
                }),
            decreases self.state.l0_sstables@.len() - i,
        {
            let ghost parts = MergeIterator::parts(sstable_iters@);
            let table_id: usize = self.state.l0_sstables[i];
            let table = arc_clone(self.state.sstables.get(&table_id).unwrap());
            proof {
                assert(l0s.take(i + 1) =~= l0s.take(i as int).push(l0s[i as int]));
                iterators::lemma_layered_push(l0s.take(i as int), l0s[i as int]);
                assert(l0s[i as int] == table.contents());
            }
            if key_within(
                table.first_key().as_key_slice(),
                table.last_key().as_key_slice(),
                key,
            ) {
                let iter = SsTableIterator::create_and_seek_to_key(
                    table,
                    KeySlice::from_slice(key),
                );
                if iter.is_valid() {
                    let ghost before = sstable_iters@;
                    sstable_iters.push(Box::new(iter));
                    proof {
                        assert(MergeIterator::parts(sstable_iters@) =~= parts.push(iter.rest()));
                        iterators::lemma_layered_push(parts, iter.rest());
                    }
                } else {
                    assert(!iter.rest().contains_key(k));
                    assert(!table.contents().contains_key(k));
                }
            } else {
                proof {
                    if table.contents().contains_key(k) {
                        law_table_keys(&*table, k);
                    }
                }
            }
            i = i + 1;
        }
        assert(l0s.take(i as int) =~= l0s);
        MergeIterator::create(sstable_iters)
    }

    /// Merges the parts of the memtables that lie in the range.
    fn mem_iterator(&self, lower: Bound<&[u8]>, upper: Bound<&[u8]>) -> (miter: MergeIterator<
        MemTableIterator,
    >)
        requires
            self.wf(),
        ensures
            miter.wf(),
            miter.infallible(),
            agree(
                miter.rest(),
                iterators::layered(self.state.mem_layers()),
                range::slice_bound(lower),
                range::slice_bound(upper),
            ),
    {
        let ghost mems = self.state.mem_layers();
        let ghost lo = range::slice_bound(lower);
        let ghost up = range::slice_bound(upper);
        let mut memtable_iters: Vec<Box<MemTableIterator>> = Vec::new();
        let first = self.state.memtable.scan(lower, upper);
        memtable_iters.push(Box::new(first));
        proof {
            let no_parts = Seq::<Contents>::empty();
            lemma_agree_push(no_parts, no_parts, first.rest(), mems[0], lo, up);
            assert(MergeIterator::parts(memtable_iters@) =~= no_parts.push(first.rest()));
            assert(mems.take(1) =~= no_parts.push(mems[0]));
        }
        let mut i: usize = 0;
        while i < self.state.imm_memtables.len()
            invariant
                self.wf(),
                mems == self.state.mem_layers(),
                lo == range::slice_bound(lower),
                up == range::slice_bound(upper),
                i <= self.state.imm_memtables@.len(),
                forall|j: int|
                    0 <= j < memtable_iters@.len() ==> (#[trigger] memtable_iters@[j]).wf()
                        && memtable_iters@[j].infallible(),
                agree(
                    iterators::layered(MergeIterator::parts(memtable_iters@)),
                    iterators::layered(mems.take(i + 1)),
                    lo,
                    up,
                ),
            decreases self.state.imm_memtables@.len() - i,
        {
            let ghost parts = MergeIterator::parts(memtable_iters@);
            let iter = self.state.imm_memtables[i].scan(lower, upper);
            assert(mems[i + 1] == self.state.imm_memtables@[i as int].contents());
            memtable_iters.push(Box::new(iter));
            proof {
                lemma_agree_push(parts, mems.take(i + 1), iter.rest(), mems[i + 1], lo, up);
                assert(MergeIterator::parts(memtable_iters@) =~= parts.push(iter.rest()));
                assert(mems.take(i + 2) =~= mems.take(i + 1).push(mems[i + 1]));
            }
            i = i + 1;
        }
        assert(mems.take(i + 1) =~= mems);
        MergeIterator::create(memtable_iters)
    }

    /// Merges the tables of L0 that may have keys in the range, each from the
    /// lower bound on.
    fn l0_iterator(&self, lower: Bound<&[u8]>, upper: Bound<&[u8]>) -> (miter: MergeIterator<
        SsTableIterator,
    >)
        requires
            self.wf(),
        ensures
            miter.wf(),
            miter.infallible(),
            agree(
                miter.rest(),
                iterators::layered(self.state.l0_layers()),
                range::slice_bound(lower),
                range::slice_bound(upper),
            ),
    {
        let ghost l0s = self.state.l0_layers();
        let ghost lo = range::slice_bound(lower);
        let ghost up = range::slice_bound(upper);
        let mut sstable_iters: Vec<Box<SsTableIterator>> = Vec::new();
        assert(MergeIterator::parts(sstable_iters@) =~= l0s.take(0));
        let mut i: usize = 0;
        while i < self.state.l0_sstables.len()
            invariant
                self.wf(),
                l0s == self.state.l0_layers(),
                lo == range::slice_bound(lower),
                up == range::slice_bound(upper),
                i <= self.state.l0_sstables@.len(),
                forall|j: int| 0 <= j < sstable_iters@.len() ==> (#[trigger] sstable_iters@[j]).wf(),
                agree(
                    iterators::layered(MergeIterator::parts(sstable_iters@)),
                    iterators::layered(l0s.take(i as int)),
                    lo,
                    up,
                ),
            decreases self.state.l0_sstables@.len() - i,
        {
            let ghost parts = MergeIterator::parts(sstable_iters@);
            let ghost layer = l0s[i as int];
            let table_id: usize = self.state.l0_sstables[i];
            let table = arc_clone(self.state.sstables.get(&table_id).unwrap());
            let ghost t = table;
            proof {
                assert(l0s.take(i + 1) =~= l0s.take(i as int).push(layer));
                assert(layer == table.contents());
            }
            if range_overlap(
                table.first_key().as_key_slice(),
                table.last_key().as_key_slice(),
                lower,
                upper,
            ) {
                let iter = seek(table, lower);
                if iter.is_valid() {
                    sstable_iters.push(Box::new(iter));
                    proof {
                        assert(MergeIterator::parts(sstable_iters@) =~= parts.push(iter.rest()));
                        lemma_agree_push(parts, l0s.take(i as int), iter.rest(), layer, lo, up);
                    }
                } else {
                    proof {
                        assert forall|k: Seq<u8>| #[trigger] layer.contains_key(k) implies !(
                        range::above(lo, k) && range::below(up, k)) by {
                            assert(!iter.rest().contains_key(k));
                        }
                        lemma_agree_skip(parts, l0s.take(i as int), layer, lo, up);
                    }
                }
            } else {
                proof {
                    assert forall|k: Seq<u8>| #[trigger] layer.contains_key(k) implies !(
                    range::above(lo, k) && range::below(up, k)) by {
                        if range::above(lo, k) && range::below(up, k) {
                            law_range_overlap(&*t, lo, up, k);
                        }
                    }
                    lemma_agree_skip(parts, l0s.take(i as int), layer, lo, up);
                }
            }
            i = i + 1;
        }
        assert(l0s.take(i as int) =~= l0s);
        MergeIterator::create(sstable_iters)
    }

    /// Create an iterator over a range of keys.
    pub fn scan(&self, lower: Bound<&[u8]>, upper: Bound<&[u8]>) -> (r: Result<
        FusedIterator<LsmIterator>,
        StorageError,
    >)
        requires
            self.wf(),
        ensures
            match r {
                Ok(it) => {
                    &&& it.wf()
                    &&& !it.failed()
                    &&& it.inner().infallible()
                    &&& it.rest() == scanned(
                        self.contents(),
                        range::slice_bound(lower),
                        range::slice_bound(upper),
                    )
                    &&& forall|k: Seq<u8>| #[trigger]
                        it.rest().contains_key(k) == (self.contents().contains_key(k)
                            && self.contents()[k].len() > 0 && match lower {
                            Bound::Included(b) => !key::key_lt(k, b@),
                            Bound::Excluded(b) => key::key_lt(b@, k),
                            Bound::Unbounded => true,
                        } && match upper {
                            Bound::Included(b) => !key::key_lt(b@, k),
                            Bound::Excluded(b) => key::key_lt(k, b@),
                            Bound::Unbounded => true,
                        })
                    &&& forall|k: Seq<u8>| #[trigger]
                        it.rest().contains_key(k) ==> it.rest()[k] == self.contents()[k]
                },
                Err(_) => false,
            },
    {
        let miter1 = self.mem_iterator(lower, upper);
        let miter2 = self.l0_iterator(lower, upper);
        let ghost got1 = miter1.rest();
        let ghost got2 = miter2.rest();
        let two_merge_iter = match TwoMergeIterator::create(miter1, miter2) {
            Err(e) => {
                return Err(e);
            },
            Ok(iter) => iter,
        };
        let iter = match LsmIterator::new(two_merge_iter, own_bound(upper)) {
            Err(e) => {
                return Err(e);
            },
            Ok(iter) => iter,
        };
        proof {
            let lo = range::slice_bound(lower);
            let up = range::slice_bound(upper);
            let mems = self.state.mem_layers();
            let l0s = self.state.l0_layers();
            iterators::lemma_layered_concat(mems, l0s);
            let want = scanned(self.contents(), lo, up);
            assert forall|k: Seq<u8>|
                #![trigger iter.rest().contains_key(k)]
                #![trigger want.contains_key(k)]
                {
                    &&& iter.rest().contains_key(k) == want.contains_key(k)
                    &&& iter.rest().contains_key(k) ==> iter.rest()[k] == want[k]
                } by {
                let _ = got1.contains_key(k);
                let _ = got2.contains_key(k);
                let _ = iterators::layered(mems).contains_key(k);
                let _ = iterators::layered(l0s).contains_key(k);
            }
            assert(iter.rest() =~= want);
        }
        Ok(FusedIterator::new(iter))
    }
}

/// An engine can be read if and only if each of its memtables can, and each
/// table of L0 is there and can.
pub proof fn law_readable(s: &LsmStorageInner)
    ensures
        s.wf() == ({
            &&& s.state.memtable.wf()
            &&& forall|i: int|
                0 <= i < s.state.imm_memtables@.len() ==> (
                #[trigger] s.state.imm_memtables@[i]).wf()
            &&& forall|i: int|
                0 <= i < s.state.l0_sstables@.len() ==> s.state.sstables@.contains_key(
                    #[trigger] s.state.l0_sstables@[i],
                ) && s.state.sstables@[s.state.l0_sstables@[i]].wf()
        }),
        s.contents() == s.state.contents(),
{
}

/// Files can be loaded together if and only if each holds a table, and their
/// numbers differ and are not the largest there is.
pub proof fn law_loadable(files: Seq<(usize, Vec<u8>)>)
    ensures
        loadable(files) == ({
            &&& forall|i: int|
                0 <= i < files.len() ==> (#[trigger] files[i]).0 < usize::MAX && exists|t: SsTable|
                    #[trigger] t.stored_as(files[i].1@) && t.wf()
            &&& forall|i: int, j: int|
                #![trigger files[i], files[j]]
                0 <= i < j < files.len() ==> files[i].0 != files[j].0
        }),
{
    if loadable(files) {
        assert forall|i: int| 0 <= i < files.len() implies (#[trigger] files[i]).0 < usize::MAX
            && holds_table(files[i].1@) by {
            assert(!unfit(files, i));
        }
        assert forall|i: int, j: int|
            #![trigger files[i], files[j]]
            0 <= i < j < files.len() implies files[i].0 != files[j].0 by {
            assert(!unfit(files, i));
        }
    } else {
        let i = choose|i: int| 0 <= i < files.len() && #[trigger] unfit(files, i);
        let f = files[i];
        if holds_table(f.1@) && f.0 < usize::MAX {
            let j = choose|j: int|
                0 <= j < files.len() && j != i && (#[trigger] files[j]).0 == files[i].0;
            assert(files[j].0 == files[i].0);
        }
    }
}

/// A file cannot be loaded if and only if it holds no table, has the largest
/// number there is, or has the number of another.
pub proof fn law_unfit(files: Seq<(usize, Vec<u8>)>, i: int)
    requires
        0 <= i < files.len(),
    ensures
        unfit(files, i) == ({
            ||| files[i].0 == usize::MAX
            ||| forall|t: SsTable| #[trigger] t.stored_as(files[i].1@) ==> !t.wf()
            ||| exists|j: int|
                0 <= j < files.len() && j != i && (#[trigger] files[j]).0 == files[i].0
        }),
{
}

/// An engine is in order if and only if later memtables and tables have larger
/// numbers, all below the next one. Its tables are on file if and only if each is
/// in L0, under its number, and stored as its file.
pub proof fn law_newest_first(s: &LsmStorageInner)
    ensures
        s.newest_first() == ({
            &&& forall|id: usize| #[trigger]
                s.state.sstables@.contains_key(id) ==> id < s.next_sst_id
            &&& s.state.memtable.id() < s.next_sst_id
            &&& forall|i: int|
                0 <= i < s.state.imm_memtables@.len() ==> (
                #[trigger] s.state.imm_memtables@[i]).id() < s.state.memtable.id()
            &&& forall|i: int, j: int|
                #![trigger s.state.imm_memtables@[i], s.state.imm_memtables@[j]]
                0 <= i < j < s.state.imm_memtables@.len() ==> s.state.imm_memtables@[j].id()
                    < s.state.imm_memtables@[i].id()
            &&& forall|i: int, j: int|
                #![trigger s.state.l0_sstables@[i], s.state.l0_sstables@[j]]
                0 <= i < j < s.state.l0_sstables@.len() ==> s.state.l0_sstables@[j]
                    < s.state.l0_sstables@[i]
        }),
        s.tables_on_file() == (forall|id: usize| #[trigger]
            s.state.sstables@.contains_key(id) ==> {
                &&& s.state.l0_sstables@.contains(id)
                &&& s.state.sstables@[id].id == id
                &&& s.state.sstables@[id].stored_as(s.state.sstables@[id].file@)
            }),
{
}

} // verus!
