//! Walking through the entries of a block.
use std::sync::Arc;
use vstd::prelude::*;
use vstd::slice::{slice_subrange, slice_to_vec};

use super::Block;
use crate::block;
use crate::endian::u16_from_ne_bytes;
use crate::key;
use crate::key::{KeySlice, KeyVec};

verus! {

broadcast use crate::key::group_key_order;

/// Iterates on a block.
pub struct BlockIterator {
    /// The internal `Block`, wrapped by an `Arc`
    block: Arc<Block>,
    /// The current key, empty represents the iterator is invalid
    key: KeyVec,
    /// the current value range in the block.data, corresponds to the current key
    value_range: (usize, usize),
    /// Current index of the key-value pair, should be in range of [0, num_of_elements)
    idx: usize,
    /// The first key in the block
    first_key: KeyVec,
}

impl BlockIterator {
    /// The block that is iterated on.
    pub closed spec fn block(&self) -> Block {
        *self.block
    }

    /// The current key; empty if the iterator is invalid.
    pub closed spec fn current_key(&self) -> Seq<u8> {
        self.key@
    }

    /// Where the current value starts and ends in the data of the block.
    pub closed spec fn value_range(&self) -> (usize, usize) {
        self.value_range
    }

    /// The index of the current entry.
    pub closed spec fn idx(&self) -> usize {
        self.idx
    }

    /// The first key in the block.
    pub closed spec fn first_key(&self) -> Seq<u8> {
        self.first_key@
    }

    /// The bytes of the current value.
    pub open spec fn current_value(&self) -> Seq<u8> {
        self.block().data@.subrange(self.value_range().0 as int, self.value_range().1 as int)
    }

    /// The current value lies in the block.
    pub open spec fn wf(&self) -> bool {
        &&& self.value_range().0 <= self.value_range().1 <= self.block().data@.len()
        &&& self.idx() <= self.block().offsets@.len()
    }

    /// The iterator stands on the entry at `off`, which it takes for number `i`.
    pub open spec fn stands_on(&self, off: int, i: int) -> bool {
        &&& self.idx() == i
        &&& self.current_key() == block::key_at(self.block().data@, off)
        &&& self.value_range().0 == block::value_start_at(self.block().data@, off)
        &&& self.value_range().1 == block::value_start_at(self.block().data@, off)
            + block::value_len_at(self.block().data@, off)
    }

    /// Nothing but the current key differs from `other`.
    pub open spec fn same_but_key(&self, other: &Self) -> bool {
        &&& self.block() == other.block()
        &&& self.value_range() == other.value_range()
        &&& self.idx() == other.idx()
        &&& self.first_key() == other.first_key()
    }

    /// The keys of the entries with an index below `i` come before `target`,
    /// and the key at `i`, if there is one, does not.
    pub open spec fn is_lower_bound(b: Block, target: Seq<u8>, i: int) -> bool {
        &&& 0 <= i <= b.entries().len()
        &&& forall|j: int| 0 <= j < i ==> key::key_lt((#[trigger] b.entries()[j]).0, target)
        &&& i < b.entries().len() ==> key::key_le(target, b.entries()[i].0)
    }

    /// What a search for the first key that >= `target` leaves: the iterator
    /// stands on an entry whose key is >= `target`, or is invalid and the last
    /// key comes before `target`. If the keys ascend, no earlier key is
    /// >= `target`.
    pub open spec fn sought(&self, target: Seq<u8>, before: &Self) -> bool {
        let b = before.block();
        let i = self.idx() as int;
        let n = b.offsets@.len() as int;
        ||| {
            &&& i < n
            &&& key::key_le(target, b.entries()[i].0)
            &&& block::ascending(b.entries()) ==> Self::is_lower_bound(b, target, i)
            &&& self.stands_on(b.offsets@[i] as int, i)
        }
        ||| {
            &&& n > 0 ==> key::key_lt(b.entries().last().0, target)
            &&& block::ascending(b.entries()) ==> Self::is_lower_bound(b, target, n)
            &&& self.same_but_key(before)
            &&& self.current_key() == Seq::<u8>::empty()
        }
    }

    fn new(block: Arc<Block>) -> (it: Self)
        ensures
            it.wf(),
            it.block() == *block,
            it.current_key() == Seq::<u8>::empty(),
            it.value_range() == (0usize, 0usize),
            it.idx() == 0,
            it.first_key() == Seq::<u8>::empty(),
    {
        BlockIterator {
            block,
            key: KeyVec::new(),
            value_range: (0, 0),
            idx: 0,
            first_key: KeyVec::new(),
        }
    }

    /// Creates a block iterator and seek to the first entry.
    pub fn create_and_seek_to_first(block: Arc<Block>) -> (it: Self)
        requires
            block::first_readable(block.data@, block.offsets@),
        ensures
            it.wf(),
            it.block() == *block,
            it.first_key() == it.current_key(),
            block.offsets@.len() == 0 || block.offsets@[0] == 0 ==> it.first_key()
                == block.first_key(),
            block.offsets@.len() > 0 ==> it.stands_on(0, 0),
            block.offsets@.len() == 0 ==> {
                &&& it.current_key() == Seq::<u8>::empty()
                &&& it.value_range() == (0usize, 0usize)
                &&& it.idx() == 0
            },
    {
        let mut iter = Self::new(block);

        iter.seek_to_first();
        iter.first_key = iter.key.clone();
        iter
    }

    /// Creates a block iterator and seek to the first key that >= `key`.
    pub fn create_and_seek_to_key(block: Arc<Block>, key: KeySlice) -> (it: Self)
        requires
            block::entries_readable(block.data@, block.offsets@),
        ensures
            it.wf(),
            it.block() == *block,
            it.first_key() == block.first_key(),
            (forall|x: int, y: int|
                #![trigger block.entries()[x], block.entries()[y]]
                0 <= x <= y < block.entries().len() ==> !key::key_lt(
                    block.entries()[y].0,
                    block.entries()[x].0,
                )) ==> {
                ||| {
                    &&& it.idx() < block.entries().len()
                    &&& it.current_key() == block.entries()[it.idx() as int].0
                    &&& it.current_value() == block.entries()[it.idx() as int].1
                    &&& forall|j: int|
                        0 <= j < block.entries().len() ==> key::key_lt(
                            (#[trigger] block.entries()[j]).0,
                            key@,
                        ) == (j < it.idx())
                }
                ||| {
                    &&& it.current_key().len() == 0
                    &&& forall|j: int|
                        0 <= j < block.entries().len() ==> key::key_lt(
                            (#[trigger] block.entries()[j]).0,
                            key@,
                        )
                }
            },
            ({
                let i = it.idx() as int;
                let n = block.offsets@.len() as int;
                let es = block.entries();
                ||| {
                    &&& i < n
                    &&& key::key_le(key@, es[i].0)
                    &&& block::ascending(es) ==> Self::is_lower_bound(*block, key@, i)
                    &&& it.stands_on(block.offsets@[i] as int, i)
                }
                ||| {
                    &&& n > 0 ==> key::key_lt(es.last().0, key@)
                    &&& block::ascending(es) ==> Self::is_lower_bound(*block, key@, n)
                    &&& it.current_key() == Seq::<u8>::empty()
                    &&& it.value_range() == (0usize, 0usize)
                    &&& i == 0
                }
            }),
    {
        let mut iter = Self::new(block);

        iter.seek_to_key(key);
        iter.find_first_key();
        proof {
            let b = iter.block();
            let es = b.entries();
            Self::law_ascending(es);
            if block::ascending(es) {
                let i = iter.idx() as int;
                if i < es.len() && Self::is_lower_bound(b, key@, i) {
                    assert forall|j: int| 0 <= j < es.len() implies key::key_lt(
                        (#[trigger] es[j]).0,
                        key@,
                    ) == (j < i) by {
                        Self::law_lower_bound(b, key@, i, j);
                    }
                }
            }
        }
        iter
    }

    /// Looks up the first key in the block.
    fn find_first_key(&mut self)
        requires
            block::entries_readable(old(self).block().data@, old(self).block().offsets@),
            old(self).first_key() == Seq::<u8>::empty(),
        ensures
            final(self).first_key() == old(self).block().first_key(),
            final(self).block() == old(self).block(),
            final(self).current_key() == old(self).current_key(),
            final(self).value_range() == old(self).value_range(),
            final(self).idx() == old(self).idx(),
    {
        if self.block.offsets.len() > 0 {
            let offset: u16 = self.block.offsets[0];
            let first = slice_to_vec(self.get_key_at(offset as usize).raw_ref());
            self.first_key = KeyVec::from_vec(first);
        }
    }

    /// Returns the key of the current entry.
    pub fn key(&self) -> (k: KeySlice<'_>)
        ensures
            k@ == self.current_key(),
    {
        self.key.as_key_slice()
    }

    /// Returns the value of the current entry.
    pub fn value(&self) -> (v: &[u8])
        requires
            self.wf(),
        ensures
            v@ == self.current_value(),
    {
        slice_subrange(self.block.data.as_slice(), self.value_range.0, self.value_range.1)
    }

    /// Returns true if the iterator is valid.
    pub fn is_valid(&self) -> (r: bool)
        ensures
            r == (self.current_key().len() > 0),
    {
        !self.key.is_empty()
    }

    /// Moves to the entry at `off`, as number `i`.
    fn move_to(&mut self, off: usize, i: usize)
        requires
            old(self).wf(),
            block::entry_fits(old(self).block().data@, off as int),
            i <= old(self).block().offsets@.len(),
        ensures
            final(self).wf(),
            final(self).block() == old(self).block(),
            final(self).first_key() == old(self).first_key(),
            final(self).stands_on(off as int, i as int),
    {
        let key_slice = self.get_key_at(off);
        let key_len: usize = key_slice.len();
        let key_vec = slice_to_vec(key_slice.raw_ref());
        assert(self.block.data.len() <= usize::MAX);
        let value_offset: usize = off + 2 + key_len;
        let value_size: u16 = u16_from_ne_bytes(
            [self.block.data[value_offset], self.block.data[value_offset + 1]],
        );
        self.key = KeyVec::from_vec(key_vec);
        self.value_range = (value_offset + 2, value_offset + 2 + value_size as usize);
        self.idx = i;
    }

    /// Seeks to the first key in the block.
    pub fn seek_to_first(&mut self)
        requires
            old(self).wf(),
            block::first_readable(old(self).block().data@, old(self).block().offsets@),
        ensures
            final(self).wf(),
            final(self).block() == old(self).block(),
            final(self).first_key() == old(self).first_key(),
            old(self).block().offsets@.len() == 0 ==> *final(self) == *old(self),
            old(self).block().offsets@.len() > 0 ==> final(self).stands_on(0, 0),
    {
        if self.block.offsets.len() == 0 {
            return;
        }
        self.move_to(0, 0);
    }

    /// Move to the next key in the block.
    pub fn next(&mut self)
        requires
            old(self).wf(),
            old(self).idx() + 1 < old(self).block().offsets@.len() ==> block::entry_fits(
                old(self).block().data@,
                old(self).block().offsets@[old(self).idx() + 1] as int,
            ),
        ensures
            final(self).wf(),
            final(self).block() == old(self).block(),
            final(self).first_key() == old(self).first_key(),
            old(self).idx() + 1 < old(self).block().offsets@.len() ==> final(self).stands_on(
                old(self).block().offsets@[old(self).idx() + 1] as int,
                old(self).idx() + 1,
            ),
            old(self).idx() + 1 >= old(self).block().offsets@.len() ==> {
                &&& final(self).same_but_key(old(self))
                &&& final(self).current_key() == Seq::<u8>::empty()
            },
    {
        let num_entries: usize = self.block.offsets.len();
        if self.idx >= num_entries || self.idx + 1 >= num_entries {
            self.key = KeyVec::new();
            return;
        }
        let next_idx: usize = self.idx + 1;
        let offset: u16 = self.block.offsets[next_idx];
        self.move_to(offset as usize, next_idx);
    }

    /// Seek to the first key that >= `key`.
    ///
    /// The key-value pairs in the block are assumed to be sorted when being
    /// added by callers; if they are not, the iterator is on some entry whose
    /// key is >= `key`, or invalid.
    pub fn seek_to_key(&mut self, key: KeySlice)
        requires
            old(self).wf(),
            block::entries_readable(old(self).block().data@, old(self).block().offsets@),
        ensures
            final(self).wf(),
            final(self).block() == old(self).block(),
            final(self).first_key() == old(self).first_key(),
            old(self).block().offsets@.len() == 0 ==> *final(self) == *old(self),
            old(self).block().offsets@.len() > 0 ==> final(self).sought(key@, old(self)),
            ({
                let es = old(self).block().entries();
                es.len() > 0 && (forall|x: int, y: int|
                    #![trigger es[x], es[y]]
                    0 <= x <= y < es.len() ==> !key::key_lt(es[y].0, es[x].0)) ==> {
                    ||| {
                        &&& final(self).idx() < es.len()
                        &&& final(self).current_key() == es[final(self).idx() as int].0
                        &&& final(self).current_value() == es[final(self).idx() as int].1
                        &&& forall|j: int|
                            0 <= j < es.len() ==> key::key_lt((#[trigger] es[j]).0, key@) == (j
                                < final(self).idx())
                    }
                    ||| {
                        &&& final(self).current_key().len() == 0
                        &&& forall|j: int|
                            0 <= j < es.len() ==> key::key_lt((#[trigger] es[j]).0, key@)
                    }
                }
            }),
    {
        if self.block.offsets.len() == 0 {
            return;
        }
        match self.find_key(key) {
            None => {
                self.key = KeyVec::new();
            },
            Some(idx) => {
                let offset: u16 = self.block.offsets[idx];
                self.move_to(offset as usize, idx);
            },
        }
        proof {
            let b = self.block();
            let es = b.entries();
            Self::law_ascending(es);
            if block::ascending(es) {
                let i = self.idx() as int;
                if i < es.len() && Self::is_lower_bound(b, key@, i) {
                    assert forall|j: int| 0 <= j < es.len() implies key::key_lt(
                        (#[trigger] es[j]).0,
                        key@,
                    ) == (j < i) by {
                        Self::law_lower_bound(b, key@, i, j);
                    }
                }
            }
        }
    }

    fn get_key_at(&self, offset: usize) -> (k: KeySlice<'_>)
        requires
            block::entry_fits(self.block().data@, offset as int),
        ensures
            k@ == block::key_at(self.block().data@, offset as int),
    {
        assert(self.block.data.len() <= usize::MAX);
        let key_size: u16 = u16_from_ne_bytes(
            [self.block.data[offset], self.block.data[offset + 1]],
        );
        KeySlice::from_slice(
            slice_subrange(
                self.block.data.as_slice(),
                offset + 2,
                offset + 2 + key_size as usize,
            ),
        )
    }

    fn find_key(&self, target: KeySlice) -> (r: Option<usize>)
        requires
            block::entries_readable(self.block().data@, self.block().offsets@),
            self.block().offsets@.len() > 0,
        ensures
            match r {
                Some(i) => {
                    &&& i < self.block().offsets@.len()
                    &&& key::key_le(target@, self.block().entries()[i as int].0)
                    &&& block::ascending(self.block().entries()) ==> Self::is_lower_bound(
                        self.block(),
                        target@,
                        i as int,
                    )
                },
                None => {
                    &&& key::key_lt(self.block().entries().last().0, target@)
                    &&& block::ascending(self.block().entries()) ==> Self::is_lower_bound(
                        self.block(),
                        target@,
                        self.block().offsets@.len() as int,
                    )
                },
            },
    {
        let ghost es = self.block().entries();
        let mut left: usize = 0;
        let mut right: usize = self.block.offsets.len() - 1;

        while right - left > 1
            invariant
                block::entries_readable(self.block().data@, self.block().offsets@),
                es == self.block().entries(),
                left <= right < self.block().offsets@.len(),
                left == 0 || key::key_lt(es[left as int].0, target@),
                right == es.len() - 1 || key::key_le(target@, es[right as int].0),
            decreases right - left,
        {
            let mid: usize = left + (right - left) / 2;
            let offset: u16 = self.block.offsets[mid];
            let cur_key = self.get_key_at(offset as usize);
            if cur_key.lt(target) {
                left = mid;
            } else {
                right = mid;
            }
        }

        let left_offset: u16 = self.block.offsets[left];
        let left_key = self.get_key_at(left_offset as usize);
        let right_offset: u16 = self.block.offsets[right];
        let right_key = self.get_key_at(right_offset as usize);
        assert(left_key@ == es[left as int].0);
        assert(right_key@ == es[right as int].0);
        proof {
            if block::ascending(es) && key::key_lt(es[left as int].0, target@) {
                assert forall|j: int| 0 <= j <= left implies key::key_lt(
                    (#[trigger] es[j]).0,
                    target@,
                ) by {
                    assert(key::key_le(es[j].0, es[left as int].0));
                }
            }
        }
        if target.le(left_key) {
            return Some(left);
        } else if target.le(right_key) {
            return Some(right);
        }
        None
    }

    /// An iterator over a block made of entries that stands on number `i` has the
    /// key and the value of entry `i`.
    pub proof fn law_stands_on(&self, es: Seq<block::Entry>, i: int)
        requires
            block::storable(es),
            0 <= i < es.len(),
            self.block().data@ == block::entries_bytes(es),
            self.block().offsets@ == block::entry_offsets(es),
            self.stands_on(self.block().offsets@[i] as int, i),
        ensures
            self.idx() == i,
            self.current_key() == es[i].0,
            self.current_value() == es[i].1,
    {
        block::law_entries_read_back(es);
        assert(block::block_entries(self.block().data@, self.block().offsets@)[i] == es[i]);
    }

    /// The index at which a search in a block with ascending keys ends: exactly
    /// the keys before it come before the target.
    pub proof fn law_lower_bound(b: Block, target: Seq<u8>, i: int, j: int)
        requires
            forall|x: int, y: int|
                #![trigger b.entries()[x], b.entries()[y]]
                0 <= x <= y < b.entries().len() ==> !key::key_lt(
                    b.entries()[y].0,
                    b.entries()[x].0,
                ),
            Self::is_lower_bound(b, target, i),
            0 <= j < b.entries().len(),
        ensures
            0 <= i <= b.entries().len(),
            key::key_lt(b.entries()[j].0, target) == (j < i),
    {
        if j >= i {
            assert(!key::key_lt(b.entries()[j].0, b.entries()[i].0));
        }
    }

    /// The keys of entries ascend if none comes before an earlier one.
    pub proof fn law_ascending(es: Seq<block::Entry>)
        ensures
            block::ascending(es) == (forall|x: int, y: int|
                #![trigger es[x], es[y]]
                0 <= x <= y < es.len() ==> !key::key_lt(es[y].0, es[x].0)),
    {
    }
}

} // verus!
