//! Building a block entry by entry.
use vstd::prelude::*;

use super::Block;
use crate::block;
use crate::endian::u16_to_ne_bytes;
use crate::key::{KeySlice, KeyVec};

verus! {

/// Builds a block.
pub struct BlockBuilder {
    /// Offsets of each key-value entries.
    offsets: Vec<u16>,
    /// All serialized key-value pairs in the block.
    data: Vec<u8>,
    /// The expected block size.
    block_size: usize,
    /// The first key in the block
    first_key: KeyVec,
}

impl BlockBuilder {
    /// The offset of each entry added so far.
    pub closed spec fn offsets(&self) -> Seq<u16> {
        self.offsets@
    }

    /// The bytes of the entries added so far.
    pub closed spec fn data(&self) -> Seq<u8> {
        self.data@
    }

    /// The size that the encoded block should not exceed.
    pub closed spec fn block_size(&self) -> usize {
        self.block_size
    }

    /// The first key in the block; empty if there is none.
    pub closed spec fn first_key(&self) -> Seq<u8> {
        self.first_key@
    }

    /// The size of the encoded block, were it finished now.
    pub open spec fn encoded_size(&self) -> nat {
        self.data().len() + 2 * self.offsets().len() + 2
    }

    /// Whether one more entry with these lengths would exceed the block size
    /// of a block that already has an entry.
    pub open spec fn is_full_for(&self, key_len: nat, value_len: nat) -> bool {
        &&& self.encoded_size() + 2 + block::low16(key_len) + 2 + block::low16(value_len) + 2
            > self.block_size()
        &&& self.offsets().len() > 0
    }

    /// The builder holds exactly these entries.
    pub open spec fn holds(&self, es: Seq<block::Entry>) -> bool {
        &&& self.data() == block::entries_bytes(es)
        &&& self.offsets() == block::entry_offsets(es)
        &&& self.first_key() == block::first_key_of(es)
    }

    /// A builder that holds some entries holds, after one more was added, those
    /// and the new one at their end.
    pub proof fn law_add(before: Self, after: Self, es: Seq<block::Entry>, e: block::Entry)
        requires
            before.holds(es),
            after.data() == before.data() + block::entry_bytes(e),
            after.offsets() == before.offsets().push(block::low16(before.data().len())),
            after.first_key() == if before.offsets().len() == 0 {
                e.0
            } else {
                before.first_key()
            },
        ensures
            after.holds(es.push(e)),
    {
        let new = es.push(e);
        assert(new.drop_last() =~= es);
        assert forall|i: int| 0 <= i < new.len() implies after.offsets()[i]
            == #[trigger] block::entry_offsets(new)[i] by {
            assert(new.take(i) =~= es.take(i));
            if i == es.len() {
                assert(es.take(i) =~= es);
            } else {
                assert(after.offsets()[i] == block::entry_offsets(es)[i]);
            }
        }
        assert(after.offsets() =~= block::entry_offsets(new));
    }

    /// The size of a block is the length of its encoding; that of an empty one
    /// is that of the number of entries.
    pub proof fn law_encoded_size(&self)
        ensures
            self.encoded_size() == block::block_bytes(self.data(), self.offsets()).len(),
            self.holds(Seq::empty()) ==> self.encoded_size() == 2,
    {
        block::lemma_block_bytes_len(self.data(), self.offsets());
    }

    /// A builder takes an entry if and only if it has none yet or the block with
    /// the entry stays within the block size.
    pub proof fn law_full(&self, e: block::Entry)
        requires
            e.0.len() < 65536,
            e.1.len() < 65536,
        ensures
            self.is_full_for(e.0.len(), e.1.len()) == (self.offsets().len() > 0
                && block::block_bytes(
                self.data() + block::entry_bytes(e),
                self.offsets().push(block::low16(self.data().len())),
            ).len() > self.block_size()),
    {
        block::law_entry_layout(e);
        block::lemma_block_bytes_len(
            self.data() + block::entry_bytes(e),
            self.offsets().push(block::low16(self.data().len())),
        );
    }

    /// A builder that holds entries has their bytes, their offsets, and the
    /// first key.
    pub proof fn law_holds(&self, es: Seq<block::Entry>)
        ensures
            self.holds(es) == (self.data() == block::entries_bytes(es) && self.offsets()
                == block::entry_offsets(es) && self.first_key() == block::first_key_of(es)),
    {
    }

    /// Creates a new block builder.
    pub fn new(block_size: usize) -> (b: Self)
        ensures
            b.offsets() == Seq::<u16>::empty(),
            b.data() == Seq::<u8>::empty(),
            b.block_size() == block_size,
            b.first_key() == Seq::<u8>::empty(),
            b.holds(Seq::empty()),
    {
        assert(block::entry_offsets(Seq::empty()) =~= Seq::<u16>::empty());
        BlockBuilder { offsets: Vec::new(), data: Vec::new(), block_size, first_key: KeyVec::new() }
    }

    /// Adds a key-value pair to the block. Returns false when the block is full.
    ///
    /// The first entry of a block is always taken, however large it is.
    /// Lengths and offsets are stored modulo 65536.
    #[must_use]
    pub fn add(&mut self, key: KeySlice, value: &[u8]) -> (r: bool)
        ensures
            r == !old(self).is_full_for(key@.len(), value@.len()),
            r == (old(self).offsets().len() == 0 || block::block_bytes(
                old(self).data(),
                old(self).offsets(),
            ).len() + 6 + key@.len() % 65536 + value@.len() % 65536 <= old(self).block_size()),
            r && old(self).offsets().len() > 0 && key@.len() < 65536 && value@.len() < 65536
                ==> block::block_bytes(final(self).data(), final(self).offsets()).len()
                <= final(self).block_size(),
            !r && key@.len() < 65536 && value@.len() < 65536 ==> block::block_bytes(
                old(self).data() + block::entry_bytes((key@, value@)),
                old(self).offsets().push(block::low16(old(self).data().len())),
            ).len() > old(self).block_size(),
            !r ==> *final(self) == *old(self),
            r ==> {
                &&& final(self).data() == old(self).data() + block::entry_bytes((key@, value@))
                &&& final(self).offsets() == old(self).offsets().push(
                    block::low16(old(self).data().len()),
                )
                &&& final(self).block_size() == old(self).block_size()
                &&& final(self).first_key() == if old(self).offsets().len() == 0 {
                    key@
                } else {
                    old(self).first_key()
                }
            },
    {
        proof {
            self.law_encoded_size();
            block::law_entry_layout((key@, value@));
            block::lemma_block_bytes_len(
                self.data() + block::entry_bytes((key@, value@)),
                self.offsets().push(block::low16(self.data().len())),
            );
        }
        let pre_len: usize = self.data.len();
        let key_len: usize = key.len();
        let value_len: usize = value.len();
        assert(pre_len as u16 == pre_len % 65536) by (bit_vector);
        assert(key_len as u16 == key_len % 65536) by (bit_vector);
        assert(value_len as u16 == value_len % 65536) by (bit_vector);
        let pre_size: u16 = pre_len as u16;
        let key_size: u16 = key_len as u16;
        let value_size: u16 = value_len as u16;

        if self.size() + (2 + key_size as u128 + 2 + value_size as u128 + 2) > self.block_size as u128
            && !self.is_empty() {
            return false;
        }
        let key_size_bytes = u16_to_ne_bytes(key_size);
        let value_size_bytes = u16_to_ne_bytes(value_size);
        self.data.extend_from_slice(key_size_bytes.as_slice());
        self.data.extend_from_slice(key.raw_ref());
        self.data.extend_from_slice(value_size_bytes.as_slice());
        self.data.extend_from_slice(value);
        assert(self.data@ =~= old(self).data@ + block::entry_bytes((key@, value@)));

        if self.is_empty() {
            self.first_key.set_from_slice(key);
        }
        self.offsets.push(pre_size);
        true
    }

    /// Check if there is no key-value pair in the block.
    pub fn is_empty(&self) -> (r: bool)
        ensures
            r == (self.offsets().len() == 0),
    {
        self.offsets.len() == 0
    }

    /// Finalize the block.
    pub fn build(self) -> (b: Block)
        ensures
            b.data@ == self.data(),
            b.offsets@ == self.offsets(),
    {
        Block { data: self.data, offsets: self.offsets }
    }

    /// The size of the encoded block, were it finished now.
    pub fn size(&self) -> (n: u128)
        ensures
            n == self.encoded_size(),
            n == block::block_bytes(self.data(), self.offsets()).len(),
            n <= 3 * usize::MAX + 2,
    {
        proof {
            self.law_encoded_size();
        }
        // entries + offsets + number of entries
        self.data.len() as u128 + self.offsets.len() as u128 * 2 + 2
    }
}

} // verus!
