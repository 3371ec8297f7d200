//! Building a table entry by entry.
use vstd::prelude::*;
use vstd::slice::slice_to_vec;

use super::{BlockMeta, SsTable};
use crate::block;
use crate::block::{BlockBuilder, Entry};
use crate::buffer::{bytes_as_slice, put_u32_ne};
use crate::endian;
use crate::key;
use crate::key::{KeySlice, KeyVec};
use crate::sorted;
use crate::table;
use crate::table::reader;

verus! {

/// A block with the entries `cur` has no room for `e`.
pub open spec fn no_room(cur: Seq<Entry>, e: Entry, block_size: usize) -> bool {
    &&& block::entries_bytes(cur).len() + 2 * cur.len() + 2 + 2 + block::low16(e.0.len()) + 2
        + block::low16(e.1.len()) + 2 > block_size
    &&& cur.len() > 0
}

/// How entries are cut into blocks: the full blocks, and the one that is still
/// open.
pub open spec fn cut(es: Seq<Entry>, block_size: usize) -> (Seq<Seq<Entry>>, Seq<Entry>)
    decreases es.len(),
{
    if es.len() == 0 {
        (Seq::empty(), Seq::empty())
    } else {
        let (full, cur) = cut(es.drop_last(), block_size);
        if no_room(cur, es.last(), block_size) {
            (full.push(cur), seq![es.last()])
        } else {
            (full, cur.push(es.last()))
        }
    }
}

/// All the blocks into which entries are cut, the open one last.
pub open spec fn all_blocks(es: Seq<Entry>, block_size: usize) -> Seq<Seq<Entry>> {
    cut(es, block_size).0.push(cut(es, block_size).1)
}

/// The last key; empty if there is none.
pub open spec fn last_key_of(es: Seq<Entry>) -> Seq<u8> {
    if es.len() == 0 {
        Seq::empty()
    } else {
        es.last().0
    }
}

/// The encoding of a block with these entries.
pub open spec fn encoded_block(es: Seq<Entry>) -> Seq<u8> {
    block::block_bytes(block::entries_bytes(es), block::entry_offsets(es))
}

/// The encodings of the blocks, one after the other.
pub open spec fn encoded_blocks(blocks: Seq<Seq<Entry>>) -> Seq<u8>
    decreases blocks.len(),
{
    if blocks.len() == 0 {
        Seq::empty()
    } else {
        encoded_blocks(blocks.drop_last()) + encoded_block(blocks.last())
    }
}

/// Where the encoding of block `i` starts.
pub open spec fn block_start(blocks: Seq<Seq<Entry>>, i: int) -> nat {
    encoded_blocks(blocks.take(i)).len()
}

/// The descriptions are those of the blocks.
#[verifier::opaque]
pub open spec fn describes(metas: Seq<BlockMeta>, blocks: Seq<Seq<Entry>>) -> bool {
    &&& metas.len() == blocks.len()
    &&& forall|i: int|
        0 <= i < blocks.len() ==> {
            &&& (#[trigger] metas[i]).offset == block_start(blocks, i)
            &&& metas[i].first_key@ == block::first_key_of(blocks[i])
            &&& metas[i].last_key@ == last_key_of(blocks[i])
        }
}

/// `after` is `metas` with one more description, which is that of a block with
/// the entries `cur` behind the blocks `full`.
pub open spec fn block_described(
    metas: Seq<BlockMeta>,
    full: Seq<Seq<Entry>>,
    cur: Seq<Entry>,
    after: Seq<BlockMeta>,
) -> bool {
    &&& after.len() == metas.len() + 1
    &&& after.drop_last() == metas
    &&& after.last().offset == encoded_blocks(full).len()
    &&& after.last().first_key@ == block::first_key_of(cur)
    &&& after.last().last_key@ == last_key_of(cur)
}

/// In every block of these entries, lengths and offsets fit in the bytes that
/// they are stored in.
#[verifier::opaque]
pub open spec fn all_storable(es: Seq<Entry>, block_size: usize) -> bool {
    forall|b: int|
        0 <= b < all_blocks(es, block_size).len() ==> block::storable(
            #[trigger] all_blocks(es, block_size)[b],
        )
}

/// Entries that a table can hold: keys ascend, and all lengths and offsets fit
/// in the bytes that they are stored in.
pub open spec fn table_storable(es: Seq<Entry>, block_size: usize) -> bool {
    &&& sorted::strictly_ascending(es)
    &&& all_storable(es, block_size)
    &&& encoded_blocks(all_blocks(es, block_size)).len() < 0x1_0000_0000
}

/// The blocks together hold the entries; and no block is empty but the open one
/// of a table without entries.
proof fn lemma_cut(es: Seq<Entry>, block_size: usize)
    ensures
        table::concat(cut(es, block_size).0) + cut(es, block_size).1 == es,
        table::concat(all_blocks(es, block_size)) == es,
        forall|b: int|
            0 <= b < cut(es, block_size).0.len() ==> (#[trigger] cut(es, block_size).0[b]).len()
                > 0,
        es.len() > 0 ==> cut(es, block_size).1.len() > 0,
        es.len() == 0 ==> cut(es, block_size).0.len() == 0,
    decreases es.len(),
{
    let (full, cur) = cut(es, block_size);
    if es.len() > 0 {
        let (full0, cur0) = cut(es.drop_last(), block_size);
        lemma_cut(es.drop_last(), block_size);
        if no_room(cur0, es.last(), block_size) {
            assert(full.drop_last() =~= full0);
            assert forall|b: int| 0 <= b < full.len() implies (#[trigger] full[b]).len() > 0 by {
                if b < full0.len() {
                    assert(full[b] == full0[b]);
                }
            }
        }
        assert(es =~= es.drop_last().push(es.last()));
        assert(table::concat(full) + cur =~= es);
    } else {
        assert(table::concat(full) + cur =~= es);
    }
    assert(all_blocks(es, block_size).drop_last() =~= full);
}

/// The encoding of block `i` stands where it starts.
proof fn lemma_block_in_place(blocks: Seq<Seq<Entry>>, i: int)
    requires
        0 <= i < blocks.len(),
    ensures
        block_start(blocks, i + 1) == block_start(blocks, i) + encoded_block(blocks[i]).len(),
        block_start(blocks, i + 1) <= encoded_blocks(blocks).len(),
        encoded_blocks(blocks).subrange(
            block_start(blocks, i) as int,
            block_start(blocks, i + 1) as int,
        ) == encoded_block(blocks[i]),
    decreases blocks.len(),
{
    let from = block_start(blocks, i) as int;
    let to = block_start(blocks, i + 1) as int;
    assert(blocks.take(i + 1).drop_last() =~= blocks.take(i));
    if i == blocks.len() - 1 {
        assert(blocks.take(i) =~= blocks.drop_last());
        assert(blocks.take(i + 1) =~= blocks);
        assert(encoded_blocks(blocks).subrange(from, to) =~= encoded_block(blocks[i]));
    } else {
        let init = blocks.drop_last();
        lemma_block_in_place(init, i);
        assert(init.take(i) =~= blocks.take(i));
        assert(init.take(i + 1) =~= blocks.take(i + 1));
        assert(init[i] == blocks[i]);
        assert(encoded_blocks(blocks).subrange(from, to) =~= encoded_blocks(init).subrange(
            from,
            to,
        ));
    }
}

/// The table built from these entries.
pub open spec fn built_from(t: SsTable, es: Seq<Entry>, block_size: usize, id: usize) -> bool {
    let blocks = all_blocks(es, block_size);
    let len = table::low32(encoded_blocks(blocks).len());
    &&& describes(t.block_meta@, blocks)
    &&& t.block_meta_offset == len
    &&& t.file@ == encoded_blocks(blocks) + BlockMeta::all_encoded(t.block_meta@) + endian::u32_ne(
        len,
    )
    &&& t.id == id
    &&& t.first_key@ == t.block_meta@[0].first_key@
    &&& t.last_key@ == t.block_meta@.last().last_key@
    &&& t.max_ts == 0
}

/// Block `i` of a table built from entries that it can hold.
proof fn lemma_block_read_back(t: SsTable, blocks: Seq<Seq<Entry>>, i: int)
    requires
        0 <= i < blocks.len(),
        block::storable(blocks[i]),
        blocks[i].len() > 0 || blocks.len() == 1,
        describes(t.block_meta@, blocks),
        encoded_blocks(blocks).len() < 0x1_0000_0000,
        t.block_meta_offset == encoded_blocks(blocks).len(),
        encoded_blocks(blocks).len() <= t.file@.len(),
        t.file@.take(encoded_blocks(blocks).len() as int) == encoded_blocks(blocks),
    ensures
        t.block_wf(i),
        t.block_entries(i) == blocks[i],
{
    reveal(describes);
    let b = blocks[i];
    let all = encoded_blocks(blocks);
    let from = block_start(blocks, i) as int;
    let to = block_start(blocks, i + 1) as int;
    assert(t.block_meta@[i].offset == from);
    lemma_block_in_place(blocks, i);
    if i + 1 < blocks.len() {
        assert(t.block_meta@[i + 1].offset == to);
    } else {
        assert(blocks.take(i + 1) =~= blocks);
    }
    assert(t.block_end(i) == to);
    assert(t.block_bytes(i) =~= t.file@.take(all.len() as int).subrange(from, to));
    assert(t.block_bytes(i) == encoded_block(b));
    block::lemma_storable_len(b);
    block::law_decode_encode(block::entries_bytes(b), block::entry_offsets(b));
    block::law_entries_read_back(b);
    assert(t.block_entries(i) == b);
}

/// The blocks into which entries are cut are as each of them has to be.
proof fn lemma_blocks_storable(es: Seq<Entry>, block_size: usize, i: int)
    requires
        all_storable(es, block_size),
        0 <= i < all_blocks(es, block_size).len(),
    ensures
        block::storable(all_blocks(es, block_size)[i]),
        all_blocks(es, block_size)[i].len() > 0 || all_blocks(es, block_size).len() == 1,
{
    reveal(all_storable);
    let blocks = all_blocks(es, block_size);
    lemma_cut(es, block_size);
    if i < blocks.len() - 1 {
        assert(blocks[i] == cut(es, block_size).0[i]);
    }
}

/// The entries of a table are those of its blocks.
proof fn lemma_entries(t: SsTable, blocks: Seq<Seq<Entry>>)
    requires
        t.block_meta@.len() == blocks.len(),
        forall|i: int| 0 <= i < blocks.len() ==> #[trigger] t.block_entries(i) == blocks[i],
    ensures
        t.entries() == table::concat(blocks),
{
    assert(t.blocks() =~= blocks);
}

/// A table whose file starts with the blocks of entries, in which lengths and
/// offsets fit.
proof fn lemma_read_back(t: SsTable, es: Seq<Entry>, block_size: usize)
    requires
        all_storable(es, block_size),
        encoded_blocks(all_blocks(es, block_size)).len() < 0x1_0000_0000,
        describes(t.block_meta@, all_blocks(es, block_size)),
        t.block_meta_offset == encoded_blocks(all_blocks(es, block_size)).len(),
        encoded_blocks(all_blocks(es, block_size)).len() <= t.file@.len(),
        t.file@.take(encoded_blocks(all_blocks(es, block_size)).len() as int) == encoded_blocks(
            all_blocks(es, block_size),
        ),
    ensures
        t.block_meta@.len() > 0,
        forall|i: int| 0 <= i < t.block_meta@.len() ==> #[trigger] t.block_wf(i),
        t.entries() == es,
{
    let blocks = all_blocks(es, block_size);
    assert(t.block_meta@.len() == blocks.len()) by {
        reveal(describes);
    }
    assert forall|i: int| 0 <= i < blocks.len() implies #[trigger] t.block_wf(i) by {
        lemma_blocks_storable(es, block_size, i);
        lemma_block_read_back(t, blocks, i);
    }
    assert forall|i: int| 0 <= i < blocks.len() implies #[trigger] t.block_entries(i)
        == blocks[i] by {
        lemma_blocks_storable(es, block_size, i);
        lemma_block_read_back(t, blocks, i);
    }
    lemma_cut(es, block_size);
    lemma_entries(t, blocks);
}

/// A table built from entries, in whatever order, has those entries, if lengths
/// and offsets fit in the bytes that they are stored in; and each of its blocks
/// can be read.
pub proof fn law_table_entries(t: SsTable, es: Seq<Entry>, block_size: usize, id: usize)
    requires
        built_from(t, es, block_size, id),
        all_storable(es, block_size),
        encoded_blocks(all_blocks(es, block_size)).len() < 0x1_0000_0000,
    ensures
        t.block_meta@.len() > 0,
        forall|i: int| 0 <= i < t.block_meta@.len() ==> #[trigger] t.block_wf(i),
        t.entries() == es,
{
    let all = encoded_blocks(all_blocks(es, block_size));
    assert(t.file@.take(all.len() as int) =~= all);
    lemma_read_back(t, es, block_size);
}

/// A table built from entries that it can hold is well-formed, and its entries
/// are those it was built from.
pub proof fn law_table_read_back(t: SsTable, es: Seq<Entry>, block_size: usize, id: usize)
    requires
        table_storable(es, block_size),
        built_from(t, es, block_size, id),
    ensures
        t.wf(),
        t.entries() == es,
{
    law_table_entries(t, es, block_size, id);
}

/// The descriptions in a table built from entries can be stored, if the lengths
/// and offsets of these can.
pub proof fn lemma_metas_storable(t: SsTable, es: Seq<Entry>, block_size: usize, id: usize)
    requires
        all_storable(es, block_size),
        encoded_blocks(all_blocks(es, block_size)).len() < 0x1_0000_0000,
        built_from(t, es, block_size, id),
    ensures
        reader::metas_storable(t.block_meta@),
{
    reveal(describes);
    let blocks = all_blocks(es, block_size);
    assert forall|i: int| 0 <= i < t.block_meta@.len() implies reader::meta_storable(
        #[trigger] t.block_meta@[i],
    ) by {
        lemma_block_in_place(blocks, i);
        lemma_blocks_storable(es, block_size, i);
        block::lemma_storable_entries(blocks[i]);
    }
}

/// With blocks of at most 65536 bytes, entries whose keys and values are short
/// enough are cut into blocks whose offsets fit in two bytes.
pub proof fn law_small_blocks_storable(es: Seq<Entry>, block_size: usize)
    requires
        block_size <= 65536,
        forall|i: int| 0 <= i < es.len() ==> block::entry_storable(#[trigger] es[i]),
    ensures
        all_storable(es, block_size),
    decreases es.len(),
{
    reveal(all_storable);
    let blocks = all_blocks(es, block_size);
    block::lemma_storable_empty();
    if es.len() > 0 {
        let init = es.drop_last();
        let e = es.last();
        let (full0, cur0) = cut(init, block_size);
        assert forall|i: int| 0 <= i < init.len() implies block::entry_storable(
            #[trigger] init[i],
        ) by {
            assert(init[i] == es[i]);
        }
        law_small_blocks_storable(init, block_size);
        assert(all_blocks(init, block_size)[full0.len() as int] == cur0);
        assert forall|b: int| 0 <= b < full0.len() implies block::storable(#[trigger] full0[b]) by {
            assert(all_blocks(init, block_size)[b] == full0[b]);
        }
        assert(es[es.len() - 1] == e);
        if no_room(cur0, e, block_size) {
            block::lemma_storable_push(Seq::empty(), e);
            assert(Seq::<Entry>::empty().push(e) =~= seq![e]);
        } else {
            if cur0.len() == 0 {
                assert(cur0 =~= Seq::<Entry>::empty());
            }
            block::lemma_storable_push(cur0, e);
        }
        assert forall|b: int| 0 <= b < blocks.len() implies block::storable(#[trigger] blocks[b]) by {
            if b < full0.len() {
                assert(blocks[b] == full0[b]);
            }
        }
    }
}

/// How long the encoded blocks are, given those that are full and the one that
/// is still open.
proof fn lemma_encoded_len(es: Seq<Entry>, block_size: usize)
    ensures
        encoded_blocks(all_blocks(es, block_size)).len() == encoded_blocks(
            cut(es, block_size).0,
        ).len() + block::entries_bytes(cut(es, block_size).1).len() + 2 * cut(
            es,
            block_size,
        ).1.len() + 2,
{
    let (full, cur) = cut(es, block_size);
    let blocks = all_blocks(es, block_size);
    assert(blocks.drop_last() =~= full);
    assert(blocks.last() == cur);
    block::lemma_block_bytes_len(block::entries_bytes(cur), block::entry_offsets(cur));
}

/// At least as much as the blocks of these entries take: the entries, and eight
/// bytes more for each.
pub open spec fn size_bound(es: Seq<Entry>) -> nat
    decreases es.len(),
{
    if es.len() == 0 {
        2
    } else {
        size_bound(es.drop_last()) + es.last().0.len() + es.last().1.len() + 8
    }
}

/// The blocks of entries take no more than the bound, whatever the block size.
pub proof fn law_size_bound(es: Seq<Entry>, block_size: usize)
    ensures
        encoded_blocks(all_blocks(es, block_size)).len() <= size_bound(es),
    decreases es.len(),
{
    lemma_encoded_len(es, block_size);
    if es.len() > 0 {
        let n = es.len() - 1;
        law_size_bound(es.drop_last(), block_size);
        lemma_encoded_len(es.drop_last(), block_size);
        lemma_cut_push(es, block_size, n);
        assert(es.take(n) =~= es.drop_last());
        assert(es.take(n + 1) =~= es);
        assert(block::entries_bytes(Seq::empty()).len() == 0);
    } else {
        assert(encoded_blocks(cut(es, block_size).0).len() == 0);
    }
}

/// A table can hold ascending entries whose keys and values are short enough
/// and which together stay below 4 GiB, if its blocks are small.
pub proof fn law_small_entries_storable(es: Seq<Entry>, block_size: usize)
    requires
        sorted::strictly_ascending(es),
        block_size <= 65536,
        forall|i: int| 0 <= i < es.len() ==> block::entry_storable(#[trigger] es[i]),
        size_bound(es) < 0x1_0000_0000,
    ensures
        table_storable(es, block_size),
{
    law_small_blocks_storable(es, block_size);
    law_size_bound(es, block_size);
}

/// The entries of the open block behind which one more entry goes: none if it
/// opens a new block.
spec fn entries_before(cur: Seq<Entry>, e: Entry, block_size: usize) -> Seq<Entry> {
    if no_room(cur, e, block_size) {
        Seq::empty()
    } else {
        cur
    }
}

/// What one more entry does to the blocks: it goes into the open one or into a
/// new one.
proof fn lemma_cut_push(es: Seq<Entry>, block_size: usize, n: int)
    requires
        0 <= n < es.len(),
    ensures
        ({
            let (full, cur) = cut(es.take(n), block_size);
            let (new_full, new_cur) = cut(es.take(n + 1), block_size);
            let base = entries_before(cur, es[n], block_size);
            &&& encoded_blocks(new_full).len() == if no_room(cur, es[n], block_size) {
                encoded_blocks(full).len() + block::entries_bytes(cur).len() + 2 * cur.len() + 2
            } else {
                encoded_blocks(full).len()
            }
            &&& new_cur == base.push(es[n])
            &&& block::entries_bytes(new_cur).len() == block::entries_bytes(base).len() + 4
                + es[n].0.len() + es[n].1.len()
        }),
{
    let e = es[n];
    let (full, cur) = cut(es.take(n), block_size);
    let (new_full, new_cur) = cut(es.take(n + 1), block_size);
    let base = entries_before(cur, e, block_size);
    assert(es.take(n + 1).drop_last() =~= es.take(n));
    if no_room(cur, e, block_size) {
        lemma_encoded_len(es.take(n), block_size);
        assert(new_full =~= all_blocks(es.take(n), block_size));
        assert(base.push(e) =~= new_cur);
    }
    assert(base.push(e).drop_last() =~= base);
    assert(block::entry_bytes(e).len() == e.0.len() + e.1.len() + 4);
}

/// Lengths and offsets still fit with one more entry if they fit in its block.
proof fn lemma_storable_cut_push(es: Seq<Entry>, block_size: usize, n: int)
    requires
        0 <= n < es.len(),
        all_storable(es.take(n), block_size),
    ensures
        ({
            let base = entries_before(cut(es.take(n), block_size).1, es[n], block_size);
            all_storable(es.take(n + 1), block_size) == (block::entry_storable(es[n])
                && block::entries_bytes(base).len() < 65536 && base.len() < 65535)
        }),
{
    reveal(all_storable);
    let e = es[n];
    let (full, cur) = cut(es.take(n), block_size);
    let (new_full, new_cur) = cut(es.take(n + 1), block_size);
    let blocks = all_blocks(es.take(n), block_size);
    let new_blocks = all_blocks(es.take(n + 1), block_size);
    let base = entries_before(cur, e, block_size);
    assert(es.take(n + 1).drop_last() =~= es.take(n));
    assert(blocks[full.len() as int] == cur);
    assert(new_blocks[new_full.len() as int] == new_cur);
    assert(base.push(e) =~= new_cur);
    block::lemma_storable_empty();
    if block::storable(new_cur) {
        block::lemma_storable_pop(base, e);
    }
    if block::entry_storable(e) && block::entries_bytes(base).len() < 65536 && base.len() < 65535 {
        block::lemma_storable_push(base, e);
        assert forall|b: int| 0 <= b < new_blocks.len() implies block::storable(
            #[trigger] new_blocks[b],
        ) by {
            if b < new_full.len() {
                assert(new_blocks[b] == blocks[b]);
            }
        }
    }
}

/// How much room entries take that were cut into blocks.
pub struct Tally {
    /// The size of the full blocks.
    pub total: nat,
    /// The size of the entries of the open block.
    pub len: nat,
    /// The number of the entries of the open block.
    pub count: nat,
    /// Lengths and offsets fit in all the blocks.
    pub fits: bool,
}

impl Tally {
    /// The tally of these entries.
    #[verifier::opaque]
    pub open spec fn of(es: Seq<Entry>, block_size: usize) -> Tally {
        let (full, cur) = cut(es, block_size);
        Tally {
            total: encoded_blocks(full).len(),
            len: block::entries_bytes(cur).len(),
            count: cur.len(),
            fits: all_storable(es, block_size),
        }
    }

    /// The tally with one more entry, of which only the lengths matter, as long
    /// as everything fits.
    pub open spec fn and(self, key_len: nat, value_len: nat, block_size: usize) -> Tally {
        let room = !(self.len + 2 * self.count + 2 + 2 + block::low16(key_len) + 2 + block::low16(
            value_len,
        ) + 2 > block_size && self.count > 0);
        let len = if room {
            self.len
        } else {
            0
        };
        let count = if room {
            self.count
        } else {
            0
        };
        Tally {
            total: if room {
                self.total
            } else {
                self.total + self.len + 2 * self.count + 2
            },
            len: len + 4 + key_len + value_len,
            count: count + 1,
            fits: key_len < 65536 && value_len < 65536 && len < 65536 && count < 65535,
        }
    }

    /// The tally of no entries.
    pub proof fn lemma_of_none(block_size: usize)
        ensures
            Self::of(Seq::empty(), block_size) == (Tally {
                total: 0,
                len: 0,
                count: 0,
                fits: true,
            }),
    {
        reveal(Tally::of);
        reveal(all_storable);
        block::lemma_storable_empty();
    }

    /// The tally of one more entry than the first `n`.
    pub proof fn lemma_and(es: Seq<Entry>, block_size: usize, n: int)
        requires
            0 <= n < es.len(),
            Self::of(es.take(n), block_size).fits,
        ensures
            Self::of(es.take(n + 1), block_size) == Self::of(es.take(n), block_size).and(
                es[n].0.len(),
                es[n].1.len(),
                block_size,
            ),
    {
        reveal(Tally::of);
        lemma_cut_push(es, block_size, n);
        lemma_storable_cut_push(es, block_size, n);
        assert(block::entries_bytes(Seq::empty()).len() == 0);
    }

    /// The tally of entries that ascend says whether a table can hold them.
    pub proof fn lemma_all(es: Seq<Entry>, block_size: usize)
        requires
            sorted::strictly_ascending(es),
        ensures
            ({
                let t = Self::of(es, block_size);
                table_storable(es, block_size) == (t.fits && t.total + t.len + 2 * t.count + 2
                    < 0x1_0000_0000)
            }),
    {
        reveal(Tally::of);
        lemma_encoded_len(es, block_size);
    }

    /// If the first entries do not fit, not all do.
    pub proof fn lemma_first(es: Seq<Entry>, block_size: usize, n: int)
        requires
            0 <= n <= es.len(),
            !Self::of(es.take(n), block_size).fits,
        ensures
            !table_storable(es, block_size),
    {
        reveal(Tally::of);
        if table_storable(es, block_size) {
            lemma_blocks_of_first(es, block_size, n);
        }
    }
}

/// If lengths and offsets fit in all the blocks of some entries, they do in all
/// the blocks of the first of them.
proof fn lemma_blocks_of_first(es: Seq<Entry>, block_size: usize, n: int)
    requires
        0 <= n <= es.len(),
        all_storable(es, block_size),
    ensures
        all_storable(es.take(n), block_size),
    decreases es.len(),
{
    reveal(all_storable);
    if n == es.len() {
        assert(es.take(n) =~= es);
    } else {
        let init = es.drop_last();
        let (full0, cur0) = cut(init, block_size);
        let blocks = all_blocks(es, block_size);
        let blocks0 = all_blocks(init, block_size);
        assert forall|b: int| 0 <= b < blocks0.len() implies block::storable(
            #[trigger] blocks0[b],
        ) by {
            if no_room(cur0, es.last(), block_size) {
                assert(blocks[b] == blocks0[b]);
            } else if b < full0.len() {
                assert(blocks[b] == blocks0[b]);
            } else {
                assert(blocks[b] == cur0.push(es.last()));
                block::lemma_storable_pop(cur0, es.last());
            }
        }
        lemma_blocks_of_first(init, block_size, n);
        assert(init.take(n) =~= es.take(n));
    }
}

/// Builds an SSTable from key-value pairs.
pub struct SsTableBuilder {
    builder: BlockBuilder,
    first_key: Vec<u8>,
    last_key: Vec<u8>,
    data: Vec<u8>,
    meta: Vec<BlockMeta>,
    block_size: usize,
    added: Ghost<Seq<Entry>>,
}

impl SsTableBuilder {
    /// The entries that were added, in their order.
    pub closed spec fn entries(&self) -> Seq<Entry> {
        self.added@
    }

    /// The descriptions of the blocks that are finished.
    pub closed spec fn meta(&self) -> Seq<BlockMeta> {
        self.meta@
    }

    /// The size at which a block is full.
    pub closed spec fn block_size(&self) -> usize {
        self.block_size
    }

    /// The finished blocks are `full`, and the open one holds `cur`.
    closed spec fn holds(&self, full: Seq<Seq<Entry>>, cur: Seq<Entry>) -> bool {
        &&& self.builder.holds(cur)
        &&& self.builder.block_size() == self.block_size
        &&& self.first_key@ == block::first_key_of(cur)
        &&& self.last_key@ == last_key_of(cur)
        &&& self.data@ == encoded_blocks(full)
        &&& describes(self.meta@, full)
    }

    /// The entries that were added are cut into blocks.
    pub closed spec fn wf(&self) -> bool {
        let (full, cur) = cut(self.added@, self.block_size);
        self.holds(full, cur)
    }

    /// Create a builder based on target block size.
    pub fn new(block_size: usize) -> (b: Self)
        ensures
            b.wf(),
            b.entries() == Seq::<Entry>::empty(),
            b.meta() == Seq::<BlockMeta>::empty(),
            b.block_size() == block_size,
    {
        reveal(describes);
        SsTableBuilder {
            builder: BlockBuilder::new(block_size),
            first_key: Vec::new(),
            last_key: Vec::new(),
            data: Vec::new(),
            meta: Vec::new(),
            block_size,
            added: Ghost(Seq::empty()),
        }
    }

    /// Adds a key-value pair to SSTable. A new block is started when the
    /// current block is full.
    pub fn add(&mut self, key: KeySlice, value: &[u8])
        requires
            old(self).wf(),
        ensures
            final(self).wf(),
            final(self).entries() == old(self).entries().push((key@, value@)),
            final(self).block_size() == old(self).block_size(),
            describes(
                final(self).meta(),
                cut(final(self).entries(), final(self).block_size()).0,
            ),
            ({
                let (full, cur) = cut(old(self).entries(), old(self).block_size());
                if no_room(cur, (key@, value@), old(self).block_size()) {
                    block_described(old(self).meta(), full, cur, final(self).meta())
                } else {
                    final(self).meta() == old(self).meta()
                }
            }),
    {
        let ghost e = (key@, value@);
        let ghost (full, cur) = cut(self.added@, self.block_size);
        let ghost builder0 = self.builder;
        let mut opens_block = self.builder.is_empty();
        if !self.builder.add(key, value) {
            self.finish_block(Ghost(full), Ghost(cur));
            let ghost builder1 = self.builder;
            // an empty block takes any entry
            let _ = self.builder.add(key, value);
            opens_block = true;
            proof {
                BlockBuilder::law_add(builder1, self.builder, Seq::empty(), e);
                assert(Seq::<Entry>::empty().push(e) =~= seq![e]);
            }
        } else {
            proof {
                BlockBuilder::law_add(builder0, self.builder, cur, e);
            }
        }

        if opens_block {
            self.first_key = slice_to_vec(key.raw_ref());
        }
        self.last_key = slice_to_vec(key.raw_ref());
        proof {
            self.added@ = self.added@.push(e);
            assert(self.added@.drop_last() =~= old(self).added@);
        }
    }

    /// Get the estimated size of the SSTable.
    ///
    /// Since the data blocks contain much more data than meta blocks, just
    /// return the size of data blocks here. The block that is still open does
    /// not count.
    pub fn estimated_size(&self) -> (n: usize)
        requires
            self.wf(),
        ensures
            n == encoded_blocks(cut(self.entries(), self.block_size()).0).len(),
    {
        self.data.len()
    }

    /// Finishes the open block, writes it behind the others, and opens a new one.
    fn finish_block(&mut self, full: Ghost<Seq<Seq<Entry>>>, cur: Ghost<Seq<Entry>>)
        requires
            old(self).holds(full@, cur@),
        ensures
            final(self).holds(full@.push(cur@), Seq::empty()),
            final(self).block_size == old(self).block_size,
            final(self).added == old(self).added,
            final(self).builder.offsets().len() == 0,
            block_described(old(self).meta@, full@, cur@, final(self).meta@),
    {
        reveal(describes);
        // split a new block
        let mut old_builder = BlockBuilder::new(self.block_size);
        std::mem::swap(&mut self.builder, &mut old_builder);

        let block = old_builder.build();
        let mut first_key: Vec<u8> = Vec::new();
        std::mem::swap(&mut self.first_key, &mut first_key);
        let mut last_key: Vec<u8> = Vec::new();
        std::mem::swap(&mut self.last_key, &mut last_key);
        // record meta data
        self.meta.push(
            BlockMeta {
                offset: self.data.len(),
                first_key: KeyVec::from_vec(first_key).into_key_bytes(),
                last_key: KeyVec::from_vec(last_key).into_key_bytes(),
            },
        );
        let encoded = block.encode();
        self.data.extend_from_slice(bytes_as_slice(&encoded));
        proof {
            let blocks = full@.push(cur@);
            assert(blocks.drop_last() =~= full@);
            assert(self.meta@.drop_last() =~= old(self).meta@);
            assert(self.data@ =~= encoded_blocks(blocks));
            assert forall|i: int| 0 <= i < blocks.len() implies {
                &&& (#[trigger] self.meta@[i]).offset == block_start(blocks, i)
                &&& self.meta@[i].first_key@ == block::first_key_of(blocks[i])
                &&& self.meta@[i].last_key@ == last_key_of(blocks[i])
            } by {
                assert(blocks.take(i) =~= full@.take(i));
                if i < full@.len() {
                    assert(self.meta@[i] == old(self).meta@[i]);
                } else {
                    assert(full@.take(i) =~= full@);
                }
            }
        }
    }

    /// Builds the SSTable. Its file is left to be written by the caller.
    pub fn build(self, id: usize) -> (t: SsTable)
        requires
            self.wf(),
        ensures
            built_from(t, self.entries(), self.block_size(), id),
    {
        let ghost (full, cur) = cut(self.added@, self.block_size);
        let mut this = self;
        this.finish_block(Ghost(full), Ghost(cur));
        assert(this.meta@.len() == full.len() + 1) by {
            reveal(describes);
        }

        let data_len64: u64 = this.data.len() as u64;
        assert(data_len64 as u32 == data_len64 % 0x1_0000_0000u64) by (bit_vector);
        let data_len: u32 = data_len64 as u32;
        let mut data = this.data;

        BlockMeta::encode_block_meta(this.meta.as_slice(), &mut data);
        put_u32_ne(&mut data, data_len);

        let first_key = this.meta[0].first_key.clone();
        let last_key = this.meta[this.meta.len() - 1].last_key.clone();
        SsTable {
            file: data,
            block_meta: this.meta,
            block_meta_offset: data_len as usize,
            id,
            first_key,
            last_key,
            max_ts: 0,
        }
    }

    /// Builds the SSTable under the number 0.
    pub fn build_for_test(self) -> (t: SsTable)
        requires
            self.wf(),
        ensures
            built_from(t, self.entries(), self.block_size(), 0),
    {
        self.build(0)
    }
}

/// A block has no room for an entry if it has one already and its encoding would
/// grow beyond the block size; lengths count modulo 65536.
pub proof fn law_no_room(cur: Seq<Entry>, e: Entry, block_size: usize)
    ensures
        no_room(cur, e, block_size) == (cur.len() > 0 && encoded_block(cur).len() + 6 + e.0.len()
            % 65536 + e.1.len() % 65536 > block_size),
{
    block::lemma_block_bytes_len(block::entries_bytes(cur), block::entry_offsets(cur));
}

/// An entry goes into the last block, or opens a new one if that would grow
/// beyond the block size.
pub proof fn law_blocks_grow(es: Seq<Entry>, e: Entry, block_size: usize)
    ensures
        all_blocks(Seq::empty(), block_size) == seq![Seq::<Entry>::empty()],
        all_blocks(es, block_size).len() > 0,
        ({
            let blocks = all_blocks(es, block_size);
            let last = blocks.last();
            let more = all_blocks(es.push(e), block_size);
            if last.len() > 0 && encoded_block(last).len() + 6 + e.0.len() % 65536 + e.1.len()
                % 65536 > block_size {
                more == blocks.push(seq![e])
            } else {
                more == blocks.drop_last().push(last.push(e))
            }
        }),
{
    let blocks = all_blocks(es, block_size);
    let (full, cur) = cut(es, block_size);
    assert(all_blocks(Seq::empty(), block_size) =~= seq![Seq::<Entry>::empty()]);
    assert(es.push(e).drop_last() =~= es);
    assert(blocks.last() == cur);
    assert(blocks.drop_last() =~= full);
    law_no_room(cur, e, block_size);
    assert(cut(es.push(e), block_size) == if no_room(cur, e, block_size) {
        (full.push(cur), seq![e])
    } else {
        (full, cur.push(e))
    });
}

/// The blocks together are the entries, in their order; none is empty but the
/// single block of no entries.
pub proof fn law_blocks_are_the_entries(es: Seq<Entry>, block_size: usize)
    ensures
        table::concat(all_blocks(es, block_size)) == es,
        forall|b: int|
            0 <= b < all_blocks(es, block_size).len() && es.len() > 0 ==> (
            #[trigger] all_blocks(es, block_size)[b]).len() > 0,
        es.len() == 0 ==> all_blocks(es, block_size).len() == 1,
{
    lemma_cut(es, block_size);
    let (full, cur) = cut(es, block_size);
    assert forall|b: int|
        0 <= b < all_blocks(es, block_size).len() && es.len() > 0 implies (
    #[trigger] all_blocks(es, block_size)[b]).len() > 0 by {
        if b < full.len() {
            assert(all_blocks(es, block_size)[b] == full[b]);
        }
    }
}

/// One more entry makes a block six bytes longer, and by its key and its value.
proof fn lemma_encoded_block_push(es: Seq<Entry>, e: Entry)
    ensures
        encoded_block(es.push(e)).len() == encoded_block(es).len() + 6 + e.0.len() + e.1.len(),
{
    let more = es.push(e);
    block::law_entries_append(es, e);
    block::law_entry_layout(e);
    block::lemma_block_bytes_len(block::entries_bytes(es), block::entry_offsets(es));
    block::lemma_block_bytes_len(block::entries_bytes(more), block::entry_offsets(more));
}

/// One more short entry goes into the last block, or opens a new one if that
/// would grow beyond the block size.
proof fn lemma_blocks_push(es: Seq<Entry>, e: Entry, block_size: usize)
    requires
        e.0.len() < 65536,
        e.1.len() < 65536,
    ensures
        all_blocks(es, block_size).len() > 0,
        ({
            let last = all_blocks(es, block_size).last();
            last.len() > 0 && encoded_block(last.push(e)).len() > block_size
        }) ==> all_blocks(es.push(e), block_size) == all_blocks(es, block_size).push(seq![e]),
        ({
            let last = all_blocks(es, block_size).last();
            !(last.len() > 0 && encoded_block(last.push(e)).len() > block_size)
        }) ==> all_blocks(es.push(e), block_size) == all_blocks(es, block_size).drop_last().push(
            all_blocks(es, block_size).last().push(e),
        ),
{
    let last = all_blocks(es, block_size).last();
    law_blocks_grow(es, e, block_size);
    assert(e.0.len() % 65536 == e.0.len() && e.1.len() % 65536 == e.1.len());
    assert(encoded_block(last.push(e)).len() == encoded_block(last).len() + 6 + e.0.len()
        + e.1.len()) by {
        lemma_encoded_block_push(last, e);
    }
}

/// A block of short entries with more than one of them is never longer than the
/// block size.
#[verifier::rlimit(50)]
#[verifier::spinoff_prover]
pub proof fn law_block_size(es: Seq<Entry>, block_size: usize, b: int)
    requires
        forall|i: int|
            0 <= i < es.len() ==> (#[trigger] es[i]).0.len() < 65536 && es[i].1.len() < 65536,
        0 <= b < all_blocks(es, block_size).len(),
        all_blocks(es, block_size)[b].len() > 1,
    ensures
        encoded_block(all_blocks(es, block_size)[b]).len() <= block_size,
    decreases es.len(),
{
    if es.len() == 0 {
        law_blocks_grow(es, (Seq::empty(), Seq::empty()), block_size);
        assert(es =~= Seq::<Entry>::empty());
    } else {
        let init = es.drop_last();
        let before = all_blocks(init, block_size);
        let blocks = all_blocks(es, block_size);
        assert(es[es.len() - 1] == es.last());
        assert(init.push(es.last()) =~= es);
        lemma_blocks_push(init, es.last(), block_size);
        if b < before.len() && blocks[b] == before[b] {
            assert forall|i: int| 0 <= i < init.len() implies (#[trigger] init[i]).0.len() < 65536
                && init[i].1.len() < 65536 by {
                assert(init[i] == es[i]);
            }
            law_block_size(init, block_size, b);
        }
    }
}

/// No entry could have gone into the block before its own: with it, that would
/// have been longer than the block size.
#[verifier::rlimit(50)]
#[verifier::spinoff_prover]
pub proof fn law_block_full(es: Seq<Entry>, block_size: usize, b: int)
    requires
        forall|i: int|
            0 <= i < es.len() ==> (#[trigger] es[i]).0.len() < 65536 && es[i].1.len() < 65536,
        0 <= b < all_blocks(es, block_size).len() - 1,
    ensures
        all_blocks(es, block_size)[b + 1].len() > 0,
        encoded_block(
            all_blocks(es, block_size)[b].push(all_blocks(es, block_size)[b + 1][0]),
        ).len() > block_size,
    decreases es.len(),
{
    if es.len() == 0 {
        law_blocks_are_the_entries(es, block_size);
    } else {
        let init = es.drop_last();
        let before = all_blocks(init, block_size);
        let blocks = all_blocks(es, block_size);
        assert(es[es.len() - 1] == es.last());
        assert(init.push(es.last()) =~= es);
        lemma_blocks_push(init, es.last(), block_size);
        if b < before.len() - 1 {
            assert forall|i: int| 0 <= i < init.len() implies (#[trigger] init[i]).0.len() < 65536
                && init[i].1.len() < 65536 by {
                assert(init[i] == es[i]);
            }
            law_block_full(init, block_size, b);
            assert(blocks[b] == before[b]);
            assert(blocks[b + 1][0] == before[b + 1][0]);
        } else {
            assert(blocks[b] == before.last());
            assert(blocks[b + 1] == seq![es.last()]);
        }
    }
}

/// Blocks are encoded one after the other, each as a block with its entries.
pub proof fn law_encoded_blocks(blocks: Seq<Seq<Entry>>, es: Seq<Entry>)
    ensures
        encoded_blocks(Seq::empty()) == Seq::<u8>::empty(),
        encoded_blocks(blocks.push(es)) == encoded_blocks(blocks) + encoded_block(es),
        encoded_block(es) == block::block_bytes(block::entries_bytes(es), block::entry_offsets(es)),
{
    assert(blocks.push(es).drop_last() =~= blocks);
}

/// The last key is that of the last entry.
pub proof fn law_last_key(es: Seq<Entry>, e: Entry)
    ensures
        last_key_of(es.push(e)) == e.0,
        last_key_of(Seq::empty()).len() == 0,
{
}

/// A description says where its block starts, and with which keys it starts and
/// ends.
pub proof fn law_describes(metas: Seq<BlockMeta>, blocks: Seq<Seq<Entry>>, i: int)
    requires
        describes(metas, blocks),
        0 <= i < blocks.len(),
    ensures
        metas.len() == blocks.len(),
        metas[i].offset == encoded_blocks(blocks.take(i)).len(),
        blocks[i].len() > 0 ==> metas[i].first_key@ == blocks[i][0].0 && metas[i].last_key@
            == blocks[i][blocks[i].len() - 1].0,
{
    reveal(describes);
}

/// A table is its blocks, their descriptions, and where these start, under its
/// number; its first and its last key are those of the first and the last entry.
pub proof fn law_built(t: SsTable, es: Seq<Entry>, block_size: usize, id: usize)
    requires
        built_from(t, es, block_size, id),
    ensures
        ({
            let data = encoded_blocks(all_blocks(es, block_size));
            let n = (data.len() as int % 0x1_0000_0000) as u32;
            &&& t.file@ == data + BlockMeta::all_encoded(t.block_meta@) + endian::u32_ne(n)
            &&& t.block_meta_offset == n
            &&& t.block_meta@.len() == all_blocks(es, block_size).len()
        }),
        t.id == id,
        t.max_ts == 0,
        es.len() > 0 ==> t.first_key@ == es[0].0 && t.last_key@ == es[es.len() - 1].0,
{
    let blocks = all_blocks(es, block_size);
    let n = blocks.len() - 1;
    law_describes(t.block_meta@, blocks, 0);
    law_describes(t.block_meta@, blocks, n);
    law_blocks_are_the_entries(es, block_size);
    if es.len() > 0 {
        assert(blocks[0].len() > 0 && blocks[n].len() > 0);
        table::lemma_concat(blocks, 0);
        table::lemma_concat(blocks, n);
        assert(blocks.take(0) =~= Seq::<Seq<Entry>>::empty());
        assert(blocks.take(n + 1) =~= blocks);
        assert(es[0] == blocks[0][0]);
        assert(es[es.len() - 1] == blocks[n][blocks[n].len() - 1]);
    }
}

/// A table can hold entries if and only if their keys ascend, each block has
/// fewer than 65536 of them, keys, values and the bytes before each entry in its
/// block are shorter than 65536 bytes, and all blocks are shorter than 4 GiB.
pub proof fn law_table_storable(es: Seq<Entry>, block_size: usize)
    ensures
        table_storable(es, block_size) == {
            let blocks = all_blocks(es, block_size);
            &&& forall|i: int, j: int|
                #![trigger es[i], es[j]]
                0 <= i < j < es.len() ==> key::key_lt(es[i].0, es[j].0)
            &&& forall|b: int|
                0 <= b < blocks.len() ==> {
                    &&& (#[trigger] blocks[b]).len() < 65536
                    &&& forall|i: int|
                        0 <= i < blocks[b].len() ==> {
                            &&& (#[trigger] blocks[b][i]).0.len() < 65536
                            &&& blocks[b][i].1.len() < 65536
                            &&& block::entries_bytes(blocks[b].take(i)).len() < 65536
                        }
                }
            &&& encoded_blocks(blocks).len() < 4294967296
        },
{
    reveal(all_storable);
    let blocks = all_blocks(es, block_size);
    assert forall|b: int| 0 <= b < blocks.len() implies block::storable(#[trigger] blocks[b]) == {
        &&& blocks[b].len() < 65536
        &&& forall|i: int|
            0 <= i < blocks[b].len() ==> {
                &&& (#[trigger] blocks[b][i]).0.len() < 65536
                &&& blocks[b][i].1.len() < 65536
                &&& block::entries_bytes(blocks[b].take(i)).len() < 65536
            }
    } by {
        block::law_storable(blocks[b]);
    }
}

/// One more block adds one description behind the others: where the block
/// starts, and the keys at its ends.
pub proof fn law_block_described(
    metas: Seq<BlockMeta>,
    full: Seq<Seq<Entry>>,
    cur: Seq<Entry>,
    after: Seq<BlockMeta>,
)
    requires
        block_described(metas, full, cur, after),
    ensures
        after.len() == metas.len() + 1,
        forall|i: int| 0 <= i < metas.len() ==> #[trigger] after[i] == metas[i],
        after[metas.len() as int].offset == encoded_blocks(full).len(),
        cur.len() > 0 ==> after[metas.len() as int].first_key@ == cur[0].0
            && after[metas.len() as int].last_key@ == cur[cur.len() - 1].0,
        cur.len() == 0 ==> after[metas.len() as int].first_key@.len() == 0
            && after[metas.len() as int].last_key@.len() == 0,
{
    assert forall|i: int| 0 <= i < metas.len() implies #[trigger] after[i] == metas[i] by {
        assert(after.drop_last()[i] == metas[i]);
    }
}

} // verus!
