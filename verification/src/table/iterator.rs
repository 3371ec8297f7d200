//! Walking through the entries of a table.
use std::sync::Arc;
use vstd::prelude::*;

use super::SsTable;
use crate::block;
use crate::block::BlockIterator;
use crate::buffer::arc_clone;
use crate::error::StorageError;
use crate::iterators;
use crate::iterators::{Contents, StorageIterator};
use crate::key;
use crate::key::KeySlice;
use crate::sorted;
use crate::table;

verus! {

broadcast use crate::key::group_key_order;

/// An iterator over the contents of an SSTable.
pub struct SsTableIterator {
    table: Arc<SsTable>,
    blk_iter: BlockIterator,
    blk_idx: usize,
    /// Whether the iterator stands on an entry. The iterator over the block
    /// does not tell if the key of that entry is empty.
    is_valid: bool,
}

/// Entry `j` of block `b` is the one at its place in the table.
proof fn lemma_entry(t: &SsTable, b: int, j: int)
    requires
        t.wf(),
        0 <= b < t.block_meta@.len(),
        0 <= j < t.block_entries(b).len(),
    ensures
        0 <= table::start_of(t.blocks(), b) + j < t.entries().len(),
        t.entries()[table::start_of(t.blocks(), b) + j] == t.block_entries(b)[j],
        table::start_of(t.blocks(), b) + j > 0 ==> t.block_entries(b)[j].0.len() > 0,
        j == t.block_entries(b).len() - 1 ==> table::start_of(t.blocks(), b + 1)
            == table::start_of(t.blocks(), b) + j + 1,
{
    table::lemma_concat(t.blocks(), b);
    assert(t.blocks()[b] == t.block_entries(b));
    assert(t.blocks()[b][j] == t.block_entries(b)[j]);
    if table::start_of(t.blocks(), b) + j > 0 {
        assert(key::key_lt(t.entries()[0].0, t.entries()[table::start_of(t.blocks(), b) + j].0));
    }
}

/// All blocks together are all entries.
proof fn lemma_total(t: &SsTable)
    ensures
        table::start_of(t.blocks(), t.block_meta@.len() as int) == t.entries().len(),
{
    assert(t.blocks().take(t.block_meta@.len() as int) =~= t.blocks());
}

/// The keys of a block ascend.
proof fn lemma_block_ascending(t: &SsTable, b: int)
    requires
        t.wf(),
        0 <= b < t.block_meta@.len(),
    ensures
        block::ascending(t.block_entries(b)),
{
    let es = t.block_entries(b);
    assert forall|i: int, j: int|
        #![trigger es[i], es[j]]
        0 <= i <= j < es.len() implies key::key_le(es[i].0, es[j].0) by {
        lemma_entry(t, b, i);
        lemma_entry(t, b, j);
    }
}

/// If the first `j` keys of block `b` are before `k`, all keys of the table up to
/// there are, if the block does not start behind `k`.
proof fn lemma_all_before(t: &SsTable, k: Seq<u8>, b: int, j: int, i: int)
    requires
        t.wf(),
        0 <= b < t.block_meta@.len(),
        b > 0 ==> key::key_le(t.block_meta@[b].first_key@, k),
        0 <= j <= t.block_entries(b).len(),
        forall|l: int| 0 <= l < j ==> key::key_lt((#[trigger] t.block_entries(b)[l]).0, k),
        0 <= i < table::start_of(t.blocks(), b) + j,
        i < t.entries().len(),
    ensures
        key::key_lt(t.entries()[i].0, k),
{
    let start = table::start_of(t.blocks(), b);
    assert(t.block_wf(b));
    if i >= start {
        lemma_entry(t, b, i - start);
        assert(key::key_lt(t.block_entries(b)[i - start].0, k));
    } else if b == 0 {
        assert(t.blocks().take(0) =~= Seq::<Seq<block::Entry>>::empty());
    } else {
        lemma_entry(t, b, 0);
        assert(key::key_lt(t.entries()[i].0, t.entries()[start].0));
    }
}

/// If key `j` of block `b` is not before `k`, and the next block starts behind
/// `k`, no key of the table from there on is before `k`.
proof fn lemma_none_before(t: &SsTable, k: Seq<u8>, b: int, j: int, i: int)
    requires
        t.wf(),
        0 <= b < t.block_meta@.len(),
        b + 1 < t.block_meta@.len() ==> key::key_lt(k, t.block_meta@[b + 1].first_key@),
        0 <= j <= t.block_entries(b).len(),
        j < t.block_entries(b).len() ==> key::key_le(k, t.block_entries(b)[j].0),
        table::start_of(t.blocks(), b) + j <= i < t.entries().len(),
    ensures
        key::key_le(k, t.entries()[i].0),
{
    let p = table::start_of(t.blocks(), b) + j;
    table::lemma_concat(t.blocks(), b);
    assert(t.blocks()[b] == t.block_entries(b));
    lemma_total(t);
    if j < t.block_entries(b).len() {
        lemma_entry(t, b, j);
    } else if b + 1 < t.block_meta@.len() {
        assert(t.block_wf(b + 1));
        lemma_entry(t, b + 1, 0);
    }
    assert(key::key_le(k, t.entries()[p].0));
    if p < i {
        assert(key::key_lt(t.entries()[p].0, t.entries()[i].0));
    }
}

/// A position in block `b` before which all keys of the block are before `k`,
/// and from which on none is, is such a position of the table too, if `b` is
/// the block that may contain `k`.
proof fn lemma_seek(t: &SsTable, k: Seq<u8>, b: int, j: int)
    requires
        t.wf(),
        0 <= b < t.block_meta@.len(),
        b > 0 ==> key::key_le(t.block_meta@[b].first_key@, k),
        b + 1 < t.block_meta@.len() ==> key::key_lt(k, t.block_meta@[b + 1].first_key@),
        0 <= j <= t.block_entries(b).len(),
        forall|i: int| 0 <= i < j ==> key::key_lt((#[trigger] t.block_entries(b)[i]).0, k),
        j < t.block_entries(b).len() ==> key::key_le(k, t.block_entries(b)[j].0),
    ensures
        sorted::is_first_not_before(t.entries(), k, table::start_of(t.blocks(), b) + j),
{
    let es = t.entries();
    let p = table::start_of(t.blocks(), b) + j;
    assert(0 <= p <= es.len()) by {
        table::lemma_concat(t.blocks(), b);
        assert(t.blocks()[b] == t.block_entries(b));
    }
    assert forall|i: int| 0 <= i < p implies key::key_lt((#[trigger] es[i]).0, k) by {
        lemma_all_before(t, k, b, j, i);
    }
    assert forall|i: int| p <= i < es.len() implies key::key_le(k, (#[trigger] es[i]).0) by {
        lemma_none_before(t, k, b, j, i);
    }
}

impl SsTableIterator {
    /// The table that is iterated on.
    pub closed spec fn table(&self) -> SsTable {
        *self.table
    }

    /// The iterator stands on an entry.
    pub closed spec fn valid(&self) -> bool {
        self.is_valid
    }

    /// The number of the entry on which the iterator stands.
    pub closed spec fn position(&self) -> int {
        table::start_of(self.table().blocks(), self.blk_idx as int) + self.blk_iter.idx()
    }

    /// Starts at the first entry of block `blk_idx`.
    fn at_block(table: Arc<SsTable>, blk_idx: usize) -> (it: Self)
        requires
            table.wf(),
            blk_idx < table.block_meta@.len(),
        ensures
            it.wf(),
            it.table() == *table,
            it.valid() == (table.entries().len() > 0),
            it.valid() ==> it.position() == table::start_of(table.blocks(), blk_idx as int),
    {
        proof {
            assert(table.block_wf(blk_idx as int));
            if table.block_entries(blk_idx as int).len() > 0 {
                lemma_entry(&*table, blk_idx as int, 0);
            } else {
                table::lemma_concat(table.blocks(), 0);
                lemma_total(&*table);
                assert(table.blocks().take(0) =~= Seq::<Seq<block::Entry>>::empty());
            }
        }
        let block = table.read_block(blk_idx);
        let is_valid = block.offsets.len() > 0;
        let blk_iter = BlockIterator::create_and_seek_to_first(block);
        SsTableIterator { table, blk_iter, blk_idx, is_valid }
    }

    /// Create a new iterator and seek to the first key-value pair.
    pub fn create_and_seek_to_first(table: Arc<SsTable>) -> (it: Self)
        requires
            table.wf(),
        ensures
            it.wf(),
            it.table() == *table,
            it.rest() == table.contents(),
    {
        let it = Self::at_block(table, 0);
        proof {
            assert(table.blocks().take(0) =~= Seq::<Seq<block::Entry>>::empty());
            assert(table.entries().skip(0) =~= table.entries());
            sorted::lemma_first(table.entries());
            assert(it.rest() =~= table.contents());
        }
        it
    }

    /// Create a new iterator and seek to the first key-value pair which >= `key`.
    pub fn create_and_seek_to_key(table: Arc<SsTable>, key: KeySlice) -> (it: Self)
        requires
            table.wf(),
        ensures
            it.wf(),
            it.table() == *table,
            it.rest() == sorted::from_key(table.contents(), key@),
    {
        if key.is_empty() {
            // no key comes before the empty one
            let it = Self::create_and_seek_to_first(table);
            assert(it.rest() =~= sorted::from_key(table.contents(), key@));
            return it;
        }
        let blk_idx: usize = table.find_block_idx(key);
        let ghost b = blk_idx as int;
        let ghost t = table;
        proof {
            assert(t.block_wf(b));
            lemma_block_ascending(&*t, b);
        }
        let block = table.read_block(blk_idx);
        let blk_iter = BlockIterator::create_and_seek_to_key(block, key);
        if blk_iter.is_valid() {
            let it = SsTableIterator { table, blk_iter, blk_idx, is_valid: true };
            proof {
                let j = it.blk_iter.idx() as int;
                lemma_seek(&*t, key@, b, j);
                sorted::lemma_skip_before(t.entries(), key@, it.position());
            }
            it
        } else {
            proof {
                lemma_seek(&*t, key@, b, t.block_entries(b).len() as int);
                table::lemma_concat(t.blocks(), b);
                lemma_total(&*t);
                sorted::lemma_skip_before(
                    t.entries(),
                    key@,
                    table::start_of(t.blocks(), b) + t.block_entries(b).len(),
                );
            }
            if blk_idx < table.num_of_blocks() - 1 {
                let it = Self::at_block(table, blk_idx + 1);
                it
            } else {
                let it = SsTableIterator { table, blk_iter, blk_idx, is_valid: false };
                proof {
                    sorted::lemma_first(t.entries().skip(t.entries().len() as int));
                }
                it
            }
        }
    }
}

impl StorageIterator for SsTableIterator {
    closed spec fn wf(&self) -> bool {
        let t = self.table();
        let b = self.blk_idx as int;
        &&& t.wf()
        &&& b < t.block_meta@.len()
        &&& self.blk_iter.wf()
        &&& self.blk_iter.block().data@ == block::decoded_data(t.block_bytes(b))
        &&& self.blk_iter.block().offsets@ == block::decoded_offsets(t.block_bytes(b))
        &&& self.valid() ==> {
            &&& self.blk_iter.idx() < t.block_entries(b).len()
            &&& self.blk_iter.stands_on(
                self.blk_iter.block().offsets@[self.blk_iter.idx() as int] as int,
                self.blk_iter.idx() as int,
            )
        }
    }

    open spec fn rest(&self) -> Contents {
        if self.valid() {
            sorted::map_of(self.table().entries().skip(self.position()))
        } else {
            Map::empty()
        }
    }

    open spec fn infallible(&self) -> bool {
        true
    }

    open spec fn may_fail_with(&self, e: StorageError) -> bool {
        false
    }

    proof fn lemma_finite(&self) {
        if self.valid() {
            sorted::lemma_map_of_finite(self.table().entries().skip(self.position()));
        }
    }

    fn key(&self) -> (k: KeySlice<'_>) {
        proof {
            self.lemma_current();
        }
        self.blk_iter.key()
    }

    fn value(&self) -> (v: &[u8]) {
        proof {
            self.lemma_current();
        }
        self.blk_iter.value()
    }

    fn is_valid(&self) -> (r: bool) {
        proof {
            self.lemma_current();
        }
        self.is_valid
    }

    fn next(&mut self) -> (r: Result<(), StorageError>) {
        let ghost t = self.table();
        let ghost b = self.blk_idx as int;
        let ghost p = self.position();
        proof {
            self.lemma_current();
            lemma_entry(&t, b, self.blk_iter.idx() as int);
            if self.blk_iter.idx() + 1 < t.block_entries(b).len() {
                lemma_entry(&t, b, self.blk_iter.idx() + 1);
            }
            sorted::lemma_first(t.entries().skip(p));
            assert(t.entries().skip(p).drop_first() =~= t.entries().skip(p + 1));
        }
        proof {
            assert(t.block_wf(b));
        }
        self.blk_iter.next();
        self.is_valid = self.blk_iter.is_valid();
        if !self.blk_iter.is_valid() {
            if self.blk_idx < self.table.num_of_blocks() - 1 {
                *self = Self::at_block(arc_clone(&self.table), self.blk_idx + 1);
            } else {
                proof {
                    lemma_total(&t);
                    sorted::lemma_first(t.entries().skip(p + 1));
                    assert(self.rest() =~= sorted::map_of(t.entries().skip(p + 1)));
                }
            }
        }
        Ok(())
    }
}

impl SsTableIterator {
    /// The current entry is the first pair that is still to come.
    proof fn lemma_current(&self)
        requires
            self.wf(),
        ensures
            iterators::has_keys(self.rest()) == self.valid(),
            self.valid() ==> {
                let es = self.table().entries().skip(self.position());
                &&& 0 <= self.position() < self.table().entries().len()
                &&& iterators::least(self.rest()) == self.blk_iter.current_key()
                &&& self.rest()[iterators::least(self.rest())] == self.blk_iter.current_value()
                &&& sorted::strictly_ascending(es)
            },
    {
        if self.valid() {
            let t = self.table();
            let j = self.blk_iter.idx() as int;
            lemma_entry(&t, self.blk_idx as int, j);
            let es = t.entries().skip(self.position());
            sorted::lemma_skip_ascending(t.entries(), self.position());
            sorted::lemma_first(es);
            assert(es[0] == t.block_entries(self.blk_idx as int)[j]);
        }
    }
}

} // verus!
