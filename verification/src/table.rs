//! Sorted string tables.
//!
//! The file of a table holds its encoded blocks, one after the other, then the
//! encoded description of each block, then the position at which those
//! descriptions start, in four bytes.
pub mod builder;
mod iterator;
pub mod reader;

use std::sync::Arc;
use vstd::prelude::*;
use vstd::slice::slice_subrange;

pub use builder::SsTableBuilder;
pub use iterator::SsTableIterator;

use crate::block;
use crate::block::{Block, Entry};
use crate::buffer::put_u32_ne;
use crate::endian;
use crate::endian::u16_to_ne_bytes;
use crate::iterators::Contents;
use crate::key;
use crate::key::{KeyBytes, KeySlice};
use crate::sorted;

verus! {

broadcast use crate::key::group_key_order;

/// The low 32 bits of a length.
pub open spec fn low32(n: nat) -> u32 {
    (n % 0x1_0000_0000) as u32
}

/// Where a block lies, and the keys at its ends.
pub struct BlockMeta {
    /// Offset of this data block.
    pub offset: usize,
    /// The first key of the data block.
    pub first_key: KeyBytes,
    /// The last key of the data block.
    pub last_key: KeyBytes,
}

impl BlockMeta {
    /// The bytes of one description: the offset, then each key behind its
    /// length.
    pub open spec fn encoded(&self) -> Seq<u8> {
        endian::u32_ne(low32(self.offset as nat)) + endian::u16_ne(
            block::low16(self.first_key@.len()),
        ) + self.first_key@ + endian::u16_ne(block::low16(self.last_key@.len())) + self.last_key@
    }

    /// The bytes of the descriptions, one after the other.
    pub open spec fn all_encoded(metas: Seq<BlockMeta>) -> Seq<u8>
        decreases metas.len(),
    {
        if metas.len() == 0 {
            Seq::empty()
        } else {
            Self::all_encoded(metas.drop_last()) + metas.last().encoded()
        }
    }

    /// Encode block meta to a buffer.
    pub fn encode_block_meta(block_meta: &[BlockMeta], buf: &mut Vec<u8>)
        ensures
            final(buf)@ == old(buf)@ + Self::all_encoded(block_meta@),
    {
        let ghost first = buf@;
        let mut i: usize = 0;
        assert(buf@ =~= first + Self::all_encoded(block_meta@.take(0)));
        while i < block_meta.len()
            invariant
                i <= block_meta@.len(),
                buf@ == first + Self::all_encoded(block_meta@.take(i as int)),
            decreases block_meta@.len() - i,
        {
            let meta = &block_meta[i];
            let ghost before = buf@;
            let offset: u64 = meta.offset as u64;
            assert(offset as u32 == offset % 0x1_0000_0000u64) by (bit_vector);
            put_u32_ne(buf, offset as u32);
            push_key(buf, meta.first_key.as_key_slice());
            push_key(buf, meta.last_key.as_key_slice());
            assert(buf@ =~= before + meta.encoded());
            assert(block_meta@.take(i + 1).drop_last() =~= block_meta@.take(i as int));
            assert(buf@ =~= first + Self::all_encoded(block_meta@.take(i + 1)));
            i = i + 1;
        }
        assert(block_meta@.take(i as int) =~= block_meta@);
    }
}

/// Appends a key behind its length.
fn push_key(buf: &mut Vec<u8>, k: KeySlice)
    ensures
        final(buf)@ == old(buf)@ + endian::u16_ne(block::low16(k@.len())) + k@,
{
    let len: usize = k.len();
    assert(len as u16 == len % 65536) by (bit_vector);
    let b = u16_to_ne_bytes(len as u16);
    buf.extend_from_slice(b.as_slice());
    buf.extend_from_slice(k.raw_ref());
    assert(buf@ =~= old(buf)@ + endian::u16_ne(block::low16(k@.len())) + k@);
}

/// The entries of all blocks, one block after the other.
pub open spec fn concat(blocks: Seq<Seq<Entry>>) -> Seq<Entry>
    decreases blocks.len(),
{
    if blocks.len() == 0 {
        Seq::empty()
    } else {
        concat(blocks.drop_last()) + blocks.last()
    }
}

/// How many entries there are before block `b`.
pub open spec fn start_of(blocks: Seq<Seq<Entry>>, b: int) -> int {
    concat(blocks.take(b)).len() as int
}

/// The entries of block `b` stand behind those of the blocks before it.
pub proof fn lemma_concat(blocks: Seq<Seq<Entry>>, b: int)
    requires
        0 <= b < blocks.len(),
    ensures
        0 <= start_of(blocks, b),
        start_of(blocks, b + 1) == start_of(blocks, b) + blocks[b].len(),
        start_of(blocks, b + 1) <= concat(blocks).len(),
        forall|j: int|
            0 <= j < blocks[b].len() ==> concat(blocks)[start_of(blocks, b) + j]
                == #[trigger] blocks[b][j],
    decreases blocks.len(),
{
    assert(blocks.take(b + 1).drop_last() =~= blocks.take(b));
    if b == blocks.len() - 1 {
        assert(blocks.take(b) =~= blocks.drop_last());
        assert(blocks.take(b + 1) =~= blocks);
    } else {
        let init = blocks.drop_last();
        lemma_concat(init, b);
        assert(init.take(b) =~= blocks.take(b));
        assert(init.take(b + 1) =~= blocks.take(b + 1));
        assert(init[b] == blocks[b]);
    }
}

/// Every entry belongs to a block.
pub proof fn lemma_concat_find(blocks: Seq<Seq<Entry>>, p: int) -> (r: (int, int))
    requires
        0 <= p < concat(blocks).len(),
    ensures
        0 <= r.0 < blocks.len(),
        0 <= r.1 < blocks[r.0].len(),
        p == start_of(blocks, r.0) + r.1,
    decreases blocks.len(),
{
    let init = blocks.drop_last();
    let last = blocks.len() - 1;
    assert(blocks.take(last) =~= init);
    if p < concat(init).len() {
        let r = lemma_concat_find(init, p);
        assert(init.take(r.0) =~= blocks.take(r.0));
        assert(init[r.0] == blocks[r.0]);
        r
    } else {
        (last, p - concat(init).len())
    }
}

/// An SSTable.
pub struct SsTable {
    /// The bytes of the file.
    pub file: Vec<u8>,
    /// The meta blocks that hold info for data blocks.
    pub block_meta: Vec<BlockMeta>,
    /// The offset that indicates the start point of meta blocks in the file.
    pub block_meta_offset: usize,
    pub id: usize,
    pub first_key: KeyBytes,
    pub last_key: KeyBytes,
    pub max_ts: u64,
}

impl SsTable {
    /// Where block `i` ends in the file.
    pub open spec fn block_end(&self, i: int) -> int {
        if i + 1 < self.block_meta@.len() {
            self.block_meta@[i + 1].offset as int
        } else {
            self.block_meta_offset as int
        }
    }

    /// The encoding of block `i`.
    pub open spec fn block_bytes(&self, i: int) -> Seq<u8> {
        self.file@.subrange(self.block_meta@[i].offset as int, self.block_end(i))
    }

    /// The entries of block `i`.
    pub open spec fn block_entries(&self, i: int) -> Seq<Entry> {
        block::block_entries(
            block::decoded_data(self.block_bytes(i)),
            block::decoded_offsets(self.block_bytes(i)),
        )
    }

    /// The entries of each block.
    pub open spec fn blocks(&self) -> Seq<Seq<Entry>> {
        Seq::new(self.block_meta@.len(), |i: int| self.block_entries(i))
    }

    /// The entries of the table.
    pub open spec fn entries(&self) -> Seq<Entry> {
        concat(self.blocks())
    }

    /// The pairs of the table.
    pub open spec fn contents(&self) -> Contents {
        sorted::map_of(self.entries())
    }

    /// Block `i` lies in the file, its entries can be read, and its description
    /// has the keys at its ends.
    pub open spec fn block_wf(&self, i: int) -> bool {
        let bytes = self.block_bytes(i);
        let es = self.block_entries(i);
        &&& self.block_meta@[i].offset <= self.block_end(i) <= self.file@.len()
        &&& block::decodable(bytes)
        &&& block::block_readable(block::decoded_data(bytes), block::decoded_offsets(bytes))
        &&& if es.len() > 0 {
            &&& block::decoded_offsets(bytes)[0] == 0
            &&& self.block_meta@[i].first_key@ == es[0].0
            &&& self.block_meta@[i].last_key@ == es.last().0
        } else {
            &&& self.block_meta@.len() == 1
            &&& self.block_meta@[i].first_key@ == Seq::<u8>::empty()
            &&& self.block_meta@[i].last_key@ == Seq::<u8>::empty()
        }
    }

    /// The table has a block; only the single block of a table without entries
    /// is empty. The keys of the entries ascend over all blocks. The first and
    /// the last key are those of the entries.
    pub open spec fn wf(&self) -> bool {
        &&& self.block_meta@.len() > 0
        &&& forall|i: int|
            0 <= i < self.block_meta@.len() ==> #[trigger] self.block_wf(i)
        &&& sorted::strictly_ascending(self.entries())
        &&& self.first_key@ == self.block_meta@[0].first_key@
        &&& self.last_key@ == self.block_meta@.last().last_key@
    }

    /// Read a block of the table.
    pub fn read_block(&self, block_idx: usize) -> (b: Arc<Block>)
        requires
            block_idx < self.block_meta@.len(),
            self.block_wf(block_idx as int),
        ensures
            b.data@ == block::decoded_data(self.block_bytes(block_idx as int)),
            b.offsets@ == block::decoded_offsets(self.block_bytes(block_idx as int)),
            b.readable(),
            b.entries() == self.block_entries(block_idx as int),
    {
        let start: usize = self.block_meta[block_idx].offset;
        let end: usize = if block_idx < self.block_meta.len() - 1 {
            self.block_meta[block_idx + 1].offset
        } else {
            self.block_meta_offset
        };
        Arc::new(Block::decode(slice_subrange(self.file.as_slice(), start, end)))
    }

    /// Find the block that may contain `key`: the last one whose first key is
    /// not behind it, or the first one.
    pub fn find_block_idx(&self, key: KeySlice) -> (i: usize)
        requires
            self.wf(),
        ensures
            i < self.block_meta@.len(),
            i > 0 ==> key::key_le(self.block_meta@[i as int].first_key@, key@),
            forall|j: int|
                i < j < self.block_meta@.len() ==> key::key_lt(
                    key@,
                    (#[trigger] self.block_meta@[j]).first_key@,
                ),
    {
        let mut i: usize = self.block_meta.len() - 1;
        while i > 0 && key.lt(self.block_meta[i].first_key.as_key_slice())
            invariant
                i < self.block_meta@.len(),
                forall|j: int|
                    i < j < self.block_meta@.len() ==> key::key_lt(
                        key@,
                        (#[trigger] self.block_meta@[j]).first_key@,
                    ),
            decreases i,
        {
            i = i - 1;
        }
        i
    }

    /// Get number of data blocks.
    pub fn num_of_blocks(&self) -> (n: usize)
        ensures
            n == self.block_meta@.len(),
    {
        self.block_meta.len()
    }

    pub fn first_key(&self) -> (k: &KeyBytes)
        ensures
            *k == self.first_key,
    {
        &self.first_key
    }

    pub fn last_key(&self) -> (k: &KeyBytes)
        ensures
            *k == self.last_key,
    {
        &self.last_key
    }

    pub fn sst_id(&self) -> (id: usize)
        ensures
            id == self.id,
    {
        self.id
    }
}

/// The entries of blocks are those of each, one block after the other.
pub proof fn law_concat(blocks: Seq<Seq<Entry>>, es: Seq<Entry>)
    ensures
        concat(Seq::empty()) == Seq::<Entry>::empty(),
        concat(blocks.push(es)) == concat(blocks) + es,
{
    assert(blocks.push(es).drop_last() =~= blocks);
}

/// A description is stored as the offset in four bytes, then each key behind its
/// length in two bytes.
pub proof fn law_meta_layout(m: BlockMeta)
    ensures
        ({
            let b = m.encoded();
            let f = m.first_key@.len() as int;
            let l = m.last_key@.len() as int;
            &&& b.len() == 8 + f + l
            &&& b.subrange(0, 4) == endian::u32_ne((m.offset as int % 0x1_0000_0000) as u32)
            &&& b.subrange(4, 6) == endian::u16_ne((f % 65536) as u16)
            &&& b.subrange(6, 6 + f) == m.first_key@
            &&& b.subrange(6 + f, 8 + f) == endian::u16_ne((l % 65536) as u16)
            &&& b.subrange(8 + f, 8 + f + l) == m.last_key@
        }),
{
    let b = m.encoded();
    let f = m.first_key@.len() as int;
    let l = m.last_key@.len() as int;
    assert(b.subrange(0, 4) =~= endian::u32_ne((m.offset as int % 0x1_0000_0000) as u32));
    assert(b.subrange(4, 6) =~= endian::u16_ne((f % 65536) as u16));
    assert(b.subrange(6, 6 + f) =~= m.first_key@);
    assert(b.subrange(6 + f, 8 + f) =~= endian::u16_ne((l % 65536) as u16));
    assert(b.subrange(8 + f, 8 + f + l) =~= m.last_key@);
}

/// Descriptions are stored one after the other.
pub proof fn law_metas_append(ms: Seq<BlockMeta>, m: BlockMeta)
    ensures
        BlockMeta::all_encoded(Seq::empty()) == Seq::<u8>::empty(),
        BlockMeta::all_encoded(ms.push(m)) == BlockMeta::all_encoded(ms) + m.encoded(),
{
    assert(ms.push(m).drop_last() =~= ms);
}

/// The bytes of a block reach from its offset to that of the next one, those of
/// the last block to the descriptions; its entries are what they decode to.
pub proof fn law_block_of_table(t: &SsTable, i: int)
    requires
        0 <= i < t.block_meta@.len(),
    ensures
        t.block_bytes(i) == t.file@.subrange(
            t.block_meta@[i].offset as int,
            if i == t.block_meta@.len() - 1 {
                t.block_meta_offset as int
            } else {
                t.block_meta@[i + 1].offset as int
            },
        ),
        t.blocks().len() == t.block_meta@.len(),
        t.blocks()[i] == block::block_entries(
            block::decoded_data(t.block_bytes(i)),
            block::decoded_offsets(t.block_bytes(i)),
        ),
        t.entries() == concat(t.blocks()),
        t.contents() == sorted::map_of(t.entries()),
{
}

/// A block of a table is well-formed if and only if it lies in the file, can be
/// read, starts with its first entry, and has the keys at its ends that its
/// description says. Only the block of a table without entries is empty.
pub proof fn law_block_wf(t: &SsTable, i: int)
    requires
        0 <= i < t.block_meta@.len(),
    ensures
        t.block_end(i) == if i == t.block_meta@.len() - 1 {
            t.block_meta_offset as int
        } else {
            t.block_meta@[i + 1].offset as int
        },
        t.block_wf(i) == ({
            let bytes = t.block_bytes(i);
            let es = t.blocks()[i];
            &&& t.block_meta@[i].offset <= t.block_end(i) <= t.file@.len()
            &&& block::decodable(bytes)
            &&& block::block_readable(block::decoded_data(bytes), block::decoded_offsets(bytes))
            &&& es.len() > 0 ==> block::decoded_offsets(bytes)[0] == 0
                && t.block_meta@[i].first_key@ == es[0].0 && t.block_meta@[i].last_key@
                == es[es.len() - 1].0
            &&& es.len() == 0 ==> t.block_meta@.len() == 1 && t.block_meta@[i].first_key@.len()
                == 0 && t.block_meta@[i].last_key@.len() == 0
        }),
{
    let m = t.block_meta@[i];
    assert(m.first_key@.len() == 0 ==> m.first_key@ =~= Seq::<u8>::empty());
    assert(m.last_key@.len() == 0 ==> m.last_key@ =~= Seq::<u8>::empty());
}

/// A table is well-formed if and only if it has a block, each of its blocks is
/// well-formed, each key comes before the keys behind it, and its first and last
/// key are those of its first and last block.
pub proof fn law_table_wf(t: &SsTable)
    ensures
        t.wf() == ({
            let n = t.block_meta@.len();
            &&& n > 0
            &&& forall|i: int| 0 <= i < n ==> #[trigger] t.block_wf(i)
            &&& forall|x: int, y: int|
                #![trigger t.entries()[x], t.entries()[y]]
                0 <= x < y < t.entries().len() ==> key::key_lt(t.entries()[x].0, t.entries()[y].0)
            &&& t.first_key@ == t.block_meta@[0].first_key@
            &&& t.last_key@ == t.block_meta@[n - 1].last_key@
        }),
{
}

/// Where the first and the last block are not empty, the entries at the ends are
/// theirs.
pub proof fn lemma_concat_ends(blocks: Seq<Seq<Entry>>)
    requires
        blocks.len() > 0,
        blocks[0].len() > 0,
        blocks[blocks.len() - 1].len() > 0,
    ensures
        concat(blocks).len() > 0,
        concat(blocks)[0] == blocks[0][0],
        concat(blocks)[concat(blocks).len() - 1] == blocks[blocks.len() - 1][blocks[blocks.len()
            - 1].len() - 1],
{
    let last = blocks.len() - 1;
    lemma_concat(blocks, 0);
    assert(blocks.take(0) =~= Seq::<Seq<Entry>>::empty());
    assert(concat(blocks)[start_of(blocks, 0) + 0] == blocks[0][0]);
    lemma_concat(blocks, last);
    assert(blocks.take(last + 1) =~= blocks);
    assert(concat(blocks)[start_of(blocks, last) + (blocks[last].len() - 1)]
        == blocks[last][blocks[last].len() - 1]);
}

/// The first and the last key of a well-formed table with entries are those of
/// its first and its last entry.
pub proof fn law_table_ends(t: &SsTable)
    requires
        t.wf(),
        t.entries().len() > 0,
    ensures
        t.first_key@ == t.entries()[0].0,
        t.last_key@ == t.entries()[t.entries().len() - 1].0,
{
    let blocks = t.blocks();
    let last = t.block_meta@.len() - 1;
    let (b, j) = lemma_concat_find(blocks, 0);
    law_block_wf(t, b);
    law_block_wf(t, 0);
    law_block_wf(t, last);
    assert(t.block_wf(b) && t.block_wf(0) && t.block_wf(last));
    lemma_concat_ends(blocks);
}

} // verus!
