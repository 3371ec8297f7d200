//! Reading a table back from its file.
use vstd::prelude::*;
use vstd::slice::{slice_subrange, slice_to_vec};

use super::{BlockMeta, SsTable};
use crate::block;
use crate::block::{Block, Entry};
use crate::endian;
use crate::endian::{u16_from_ne_bytes, u32_from_ne_bytes};
use crate::error::StorageError;
use crate::key;
use crate::key::KeyVec;
use crate::sorted;
use crate::table;
use crate::table::builder;

verus! {

broadcast use crate::key::group_key_order;

/// The four-byte integer at position `i`.
pub open spec fn u32_at(data: Seq<u8>, i: int) -> u32 {
    endian::u32_of(data[i], data[i + 1], data[i + 2], data[i + 3])
}

/// The offset and the lengths of the keys fit in the bytes that they are stored
/// in.
pub open spec fn meta_storable(m: BlockMeta) -> bool {
    m.offset < 0x1_0000_0000 && m.first_key@.len() < 65536 && m.last_key@.len() < 65536
}

/// All of the descriptions can be stored.
pub open spec fn metas_storable(ms: Seq<BlockMeta>) -> bool {
    forall|i: int| 0 <= i < ms.len() ==> meta_storable(#[trigger] ms[i])
}

/// The two describe the same block.
pub open spec fn same_meta(a: BlockMeta, b: BlockMeta) -> bool {
    a.offset == b.offset && a.first_key@ == b.first_key@ && a.last_key@ == b.last_key@
}

/// The encoding of `m` stands at position `p`.
spec fn meta_at(data: Seq<u8>, p: int, m: BlockMeta) -> bool {
    &&& 0 <= p
    &&& p + m.encoded().len() <= data.len()
    &&& data.subrange(p, p + m.encoded().len()) == m.encoded()
}

/// What the encoding of a description reads as.
#[verifier::rlimit(50)]
proof fn lemma_meta_fields(data: Seq<u8>, p: int, m: BlockMeta)
    requires
        meta_storable(m),
        meta_at(data, p, m),
    ensures
        ({
            let n = m.first_key@.len() as int;
            let l = m.last_key@.len() as int;
            &&& m.encoded().len() == 8 + n + l
            &&& u32_at(data, p) == m.offset
            &&& block::u16_at(data, p + 4) == n
            &&& data.subrange(p + 6, p + 6 + n) == m.first_key@
            &&& block::u16_at(data, p + 6 + n) == l
            &&& data.subrange(p + 8 + n, p + 8 + n + l) == m.last_key@
        }),
{
    let n = m.first_key@.len() as int;
    let l = m.last_key@.len() as int;
    let e = m.encoded();
    let sub = data.subrange(p, p + e.len());
    endian::law_u32_roundtrip(table::low32(m.offset as nat));
    endian::law_u16_roundtrip(block::low16(m.first_key@.len()));
    endian::law_u16_roundtrip(block::low16(m.last_key@.len()));
    let o = endian::u32_ne(table::low32(m.offset as nat));
    let a = endian::u16_ne(block::low16(m.first_key@.len()));
    let b = endian::u16_ne(block::low16(m.last_key@.len()));
    assert(forall|i: int| 0 <= i < e.len() ==> data[p + i] == #[trigger] sub[i]);
    assert(sub[0] == o[0] && sub[1] == o[1] && sub[2] == o[2] && sub[3] == o[3]);
    assert(sub[4] == a[0] && sub[5] == a[1]);
    assert(sub[6 + n] == b[0] && sub[7 + n] == b[1]);
    assert forall|i: int| 0 <= i < n implies data[p + 6 + i] == #[trigger] m.first_key@[i] by {
        assert(sub[6 + i] == e[6 + i]);
    }
    assert(data.subrange(p + 6, p + 6 + n) =~= m.first_key@);
    assert forall|i: int| 0 <= i < l implies data[p + 8 + n + i] == #[trigger] m.last_key@[i] by {
        assert(sub[8 + n + i] == e[8 + n + i]);
    }
    assert(data.subrange(p + 8 + n, p + 8 + n + l) =~= m.last_key@);
}

/// Only one description can stand at a position.
proof fn lemma_meta_unique(data: Seq<u8>, p: int, a: BlockMeta, b: BlockMeta)
    requires
        meta_storable(a),
        meta_storable(b),
        meta_at(data, p, a),
        meta_at(data, p, b),
    ensures
        same_meta(a, b),
{
    lemma_meta_fields(data, p, a);
    lemma_meta_fields(data, p, b);
}

/// The encoding of each description stands behind those before it.
proof fn lemma_metas_in_place(ms: Seq<BlockMeta>, n: int)
    requires
        0 <= n < ms.len(),
    ensures
        meta_at(
            BlockMeta::all_encoded(ms),
            BlockMeta::all_encoded(ms.take(n)).len() as int,
            ms[n],
        ),
        BlockMeta::all_encoded(ms).take(BlockMeta::all_encoded(ms.take(n)).len() as int)
            == BlockMeta::all_encoded(ms.take(n)),
    decreases ms.len(),
{
    let p = BlockMeta::all_encoded(ms.take(n)).len() as int;
    let all = BlockMeta::all_encoded(ms);
    let len = ms[n].encoded().len();
    let init = ms.drop_last();
    if n == ms.len() - 1 {
        assert(ms.take(n) =~= init);
        assert(all.subrange(p, p + len) =~= ms[n].encoded());
        assert(all.take(p) =~= BlockMeta::all_encoded(init));
    } else {
        lemma_metas_in_place(init, n);
        assert(init.take(n) =~= ms.take(n));
        assert(init[n] == ms[n]);
        assert(all.subrange(p, p + len) =~= BlockMeta::all_encoded(init).subrange(p, p + len));
        assert(all.take(p) =~= BlockMeta::all_encoded(init).take(p));
    }
}

/// Descriptions whose encoding starts another one are the first of those that
/// the other one encodes.
proof fn lemma_metas_prefix(a: Seq<BlockMeta>, b: Seq<BlockMeta>)
    requires
        metas_storable(a),
        metas_storable(b),
        BlockMeta::all_encoded(a).len() <= BlockMeta::all_encoded(b).len(),
        BlockMeta::all_encoded(b).take(BlockMeta::all_encoded(a).len() as int)
            == BlockMeta::all_encoded(a),
    ensures
        a.len() <= b.len(),
        forall|i: int| 0 <= i < a.len() ==> same_meta(#[trigger] a[i], b[i]),
        BlockMeta::all_encoded(b.take(a.len() as int)) == BlockMeta::all_encoded(a),
    decreases a.len(),
{
    let all = BlockMeta::all_encoded(b);
    let ea = BlockMeta::all_encoded(a);
    if a.len() == 0 {
        assert(b.take(0) =~= Seq::<BlockMeta>::empty());
    } else {
        let n = a.len() - 1;
        let init = a.drop_last();
        let p = BlockMeta::all_encoded(init).len() as int;
        assert(a[n] == a.last());
        assert(forall|i: int| 0 <= i < init.len() ==> init[i] == #[trigger] a[i]);
        assert(all.take(p) =~= ea.take(p));
        assert(ea.take(p) =~= BlockMeta::all_encoded(init));
        lemma_metas_prefix(init, b);
        lemma_encoded_len(a[n]);
        if b.len() == n {
            assert(b.take(n) =~= b);
        }
        lemma_metas_in_place(b, n);
        assert(meta_at(all, p, b[n]));
        assert(all.subrange(p, p + a[n].encoded().len()) =~= all.take(ea.len() as int).subrange(
            p,
            ea.len() as int,
        ));
        assert(ea.subrange(p, ea.len() as int) =~= a[n].encoded());
        assert(meta_at(all, p, a[n]));
        lemma_meta_unique(all, p, a[n], b[n]);
        assert forall|i: int| 0 <= i < a.len() implies same_meta(#[trigger] a[i], b[i]) by {
            if i < n {
                assert(a[i] == init[i]);
            }
        }
        assert(b.take(n + 1).drop_last() =~= b.take(n));
        assert(b.take(n + 1).last() == b[n]);
    }
}

proof fn lemma_encoded_len(m: BlockMeta)
    ensures
        m.encoded().len() == 8 + m.first_key@.len() + m.last_key@.len(),
{
}

/// Descriptions can be told from their encoding.
pub proof fn law_metas_unique(a: Seq<BlockMeta>, b: Seq<BlockMeta>)
    requires
        metas_storable(a),
        metas_storable(b),
        BlockMeta::all_encoded(a) == BlockMeta::all_encoded(b),
    ensures
        a.len() == b.len(),
        forall|i: int| 0 <= i < a.len() ==> same_meta(#[trigger] a[i], b[i]),
{
    let e = BlockMeta::all_encoded(a);
    assert(e.take(e.len() as int) =~= e);
    lemma_metas_prefix(a, b);
    lemma_metas_prefix(b, a);
}

impl BlockMeta {
    /// Reads the description at `p`, and where it ends.
    #[verifier::rlimit(50)]
    fn read(buf: &[u8], p: usize) -> (r: Option<(BlockMeta, usize)>)
        requires
            p <= buf@.len(),
        ensures
            match r {
                Some((m, q)) => {
                    &&& meta_storable(m)
                    &&& meta_at(buf@, p as int, m)
                    &&& q == p + m.encoded().len()
                },
                None => forall|m: BlockMeta|
                    meta_storable(m) ==> !#[trigger] meta_at(buf@, p as int, m),
            },
    {
        let len: usize = buf.len();
        proof {
            assert forall|m: BlockMeta|
                meta_storable(m) && #[trigger] meta_at(buf@, p as int, m) implies ({
                let n = block::u16_at(buf@, p + 4) as int;
                let l = block::u16_at(buf@, p + 6 + n) as int;
                p + 8 + n + l <= len
            }) by {
                lemma_meta_fields(buf@, p as int, m);
            }
        }
        if len - p < 8 {
            return None;
        }
        let offset: u32 = u32_from_ne_bytes([buf[p], buf[p + 1], buf[p + 2], buf[p + 3]]);
        let n: usize = u16_from_ne_bytes([buf[p + 4], buf[p + 5]]) as usize;
        if len - p - 8 < n {
            return None;
        }
        let at: usize = p + 6 + n;
        let l: usize = u16_from_ne_bytes([buf[at], buf[at + 1]]) as usize;
        if len - at - 2 < l {
            return None;
        }
        let first_key = slice_to_vec(slice_subrange(buf, p + 6, at));
        let last_key = slice_to_vec(slice_subrange(buf, at + 2, at + 2 + l));
        let m = BlockMeta {
            offset: offset as usize,
            first_key: KeyVec::from_vec(first_key).into_key_bytes(),
            last_key: KeyVec::from_vec(last_key).into_key_bytes(),
        };
        proof {
            let s = buf@;
            let i = p as int;
            endian::law_u32_bytes_roundtrip(s[i], s[i + 1], s[i + 2], s[i + 3]);
            endian::law_u16_bytes_roundtrip(s[i + 4], s[i + 5]);
            endian::law_u16_bytes_roundtrip(s[at as int], s[at + 1]);
            assert(table::low32(m.offset as nat) == offset);
            assert(block::low16(m.first_key@.len()) == n);
            assert(block::low16(m.last_key@.len()) == l);
            assert(s.subrange(i, at + 2 + l) =~= m.encoded());
        }
        Some((m, at + 2 + l))
    }

    /// Decode block meta from a buffer, if it holds nothing else.
    pub fn decode_block_meta(buf: &[u8]) -> (r: Option<Vec<BlockMeta>>)
        ensures
            match r {
                Some(ms) => metas_storable(ms@) && BlockMeta::all_encoded(ms@) == buf@,
                None => forall|ms: Seq<BlockMeta>|
                    metas_storable(ms) ==> #[trigger] BlockMeta::all_encoded(ms) != buf@,
            },
    {
        let mut done: Vec<BlockMeta> = Vec::new();
        let mut p: usize = 0;
        assert(buf@.take(0) =~= Seq::<u8>::empty());
        while p < buf.len()
            invariant
                p <= buf@.len(),
                metas_storable(done@),
                BlockMeta::all_encoded(done@) == buf@.take(p as int),
            decreases buf@.len() - p,
        {
            match BlockMeta::read(buf, p) {
                None => {
                    assert forall|ms: Seq<BlockMeta>|
                        metas_storable(ms) implies #[trigger] BlockMeta::all_encoded(ms)
                        != buf@ by {
                        if BlockMeta::all_encoded(ms) == buf@ {
                            lemma_metas_prefix(done@, ms);
                            if ms.len() == done@.len() {
                                assert(ms.take(ms.len() as int) =~= ms);
                            }
                            lemma_metas_in_place(ms, done@.len() as int);
                        }
                    }
                    return None;
                },
                Some((m, q)) => {
                    let ghost before = done@;
                    done.push(m);
                    proof {
                        assert(done@.drop_last() =~= before);
                        lemma_encoded_len(m);
                        assert(buf@.take(q as int) =~= buf@.take(p as int) + m.encoded()) by {
                            assert(buf@.subrange(p as int, q as int) == m.encoded());
                        }
                    }
                    p = q;
                },
            }
        }
        assert(buf@.take(p as int) =~= buf@);
        Some(done)
    }
}

/// The blocks before an earlier one have no more entries than those before a
/// later one.
proof fn lemma_start_grows(blocks: Seq<Seq<Entry>>, a: int, b: int)
    requires
        0 <= a <= b <= blocks.len(),
    ensures
        table::start_of(blocks, a) <= table::start_of(blocks, b),
    decreases b - a,
{
    if a < b {
        lemma_start_grows(blocks, a, b - 1);
        table::lemma_concat(blocks, b - 1);
    }
}

/// Within each block the keys ascend.
spec fn blocks_ascend(t: &SsTable) -> bool {
    forall|i: int|
        0 <= i < t.block_meta@.len() ==> sorted::strictly_ascending(#[trigger] t.block_entries(i))
}

/// Each block ends before the next one starts.
spec fn metas_ascend(t: &SsTable) -> bool {
    forall|i: int|
        0 < i < t.block_meta@.len() ==> key::key_lt(
            t.block_meta@[i - 1].last_key@,
            (#[trigger] t.block_meta@[i]).first_key@,
        )
}

/// Every block can be read.
spec fn blocks_wf(t: &SsTable) -> bool {
    &&& t.block_meta@.len() > 0
    &&& forall|i: int| 0 <= i < t.block_meta@.len() ==> #[trigger] t.block_wf(i)
}

/// Entry `j` of block `b`, and where it stands in the table.
proof fn lemma_place(t: &SsTable, b: int, j: int)
    requires
        0 <= b < t.block_meta@.len(),
        0 <= j < t.block_entries(b).len(),
    ensures
        0 <= table::start_of(t.blocks(), b) + j < t.entries().len(),
        t.entries()[table::start_of(t.blocks(), b) + j] == t.block_entries(b)[j],
        table::start_of(t.blocks(), b + 1) == table::start_of(t.blocks(), b)
            + t.block_entries(b).len(),
{
    table::lemma_concat(t.blocks(), b);
    assert(t.blocks()[b] == t.block_entries(b));
    assert(t.blocks()[b][j] == t.block_entries(b)[j]);
}

/// A block ends before each later one starts.
proof fn lemma_metas_ascend(t: &SsTable, b: int, c: int)
    requires
        blocks_wf(t),
        blocks_ascend(t),
        metas_ascend(t),
        0 <= b < c < t.block_meta@.len(),
    ensures
        key::key_lt(t.block_meta@[b].last_key@, t.block_meta@[c].first_key@),
    decreases c - b,
{
    assert(key::key_lt(t.block_meta@[c - 1].last_key@, t.block_meta@[c].first_key@));
    if b < c - 1 {
        lemma_metas_ascend(t, b, c - 1);
        assert(t.block_wf(c - 1));
        let es = t.block_entries(c - 1);
        assert(sorted::strictly_ascending(es));
        if es.len() > 1 {
            assert(key::key_lt(es[0].0, es[es.len() - 1].0));
        }
    }
}

/// The keys of a table ascend if and only if they do within each block, and
/// each block ends before the next one starts.
proof fn lemma_ascending(t: &SsTable)
    requires
        blocks_wf(t),
    ensures
        sorted::strictly_ascending(t.entries()) == (blocks_ascend(t) && metas_ascend(t)),
{
    let es = t.entries();
    if sorted::strictly_ascending(es) {
        assert forall|b: int| 0 <= b < t.block_meta@.len() implies sorted::strictly_ascending(
            #[trigger] t.block_entries(b),
        ) by {
            let bs = t.block_entries(b);
            assert forall|i: int, j: int|
                #![trigger bs[i], bs[j]]
                0 <= i < j < bs.len() implies key::key_lt(bs[i].0, bs[j].0) by {
                lemma_place(t, b, i);
                lemma_place(t, b, j);
            }
        }
        assert forall|c: int| 0 < c < t.block_meta@.len() implies key::key_lt(
            t.block_meta@[c - 1].last_key@,
            (#[trigger] t.block_meta@[c]).first_key@,
        ) by {
            assert(t.block_wf(c));
            assert(t.block_wf(c - 1));
            lemma_place(t, c - 1, t.block_entries(c - 1).len() - 1);
            lemma_place(t, c, 0);
        }
    }
    if blocks_ascend(t) && metas_ascend(t) {
        assert forall|p: int, q: int|
            #![trigger es[p], es[q]]
            0 <= p < q < es.len() implies key::key_lt(es[p].0, es[q].0) by {
            let (b, j) = table::lemma_concat_find(t.blocks(), p);
            let (c, l) = table::lemma_concat_find(t.blocks(), q);
            assert(t.blocks()[b] == t.block_entries(b));
            assert(t.blocks()[c] == t.block_entries(c));
            lemma_place(t, b, j);
            lemma_place(t, c, l);
            let bs = t.block_entries(b);
            let cs = t.block_entries(c);
            assert(sorted::strictly_ascending(bs));
            assert(sorted::strictly_ascending(cs));
            if b == c {
                assert(key::key_lt(bs[j].0, bs[l].0));
            } else if b < c {
                lemma_metas_ascend(t, b, c);
                assert(t.block_wf(b));
                assert(t.block_wf(c));
                if j < bs.len() - 1 {
                    assert(key::key_lt(bs[j].0, bs[bs.len() - 1].0));
                }
                if l > 0 {
                    assert(key::key_lt(cs[0].0, cs[l].0));
                }
            } else {
                lemma_start_grows(t.blocks(), c + 1, b);
            }
        }
    }
}

/// Whether the keys of a block ascend.
fn keys_ascend(b: &Block) -> (r: bool)
    requires
        b.readable(),
    ensures
        r == sorted::strictly_ascending(b.entries()),
{
    let ghost es = b.entries();
    let mut i: usize = 1;
    while i < b.offsets.len()
        invariant
            b.readable(),
            es == b.entries(),
            1 <= i,
            forall|j: int, l: int|
                #![trigger es[j], es[l]]
                0 <= j < l < es.len() && l < i ==> key::key_lt(es[j].0, es[l].0),
        decreases b.offsets@.len() - i,
    {
        if !b.key_of(i - 1).lt(b.key_of(i)) {
            assert(!key::key_lt(es[i - 1].0, es[i as int].0));
            return false;
        }
        assert forall|j: int, l: int|
            #![trigger es[j], es[l]]
            0 <= j < l < es.len() && l < i + 1 implies key::key_lt(es[j].0, es[l].0) by {
            if l == i && j < i - 1 {
                assert(key::key_lt(es[j].0, es[i - 1].0));
            }
        }
        i = i + 1;
    }
    true
}

impl SsTable {
    /// The file is that of the table: its blocks, the descriptions of these, and
    /// where the descriptions start.
    pub open spec fn stored_as(&self, file: Seq<u8>) -> bool {
        &&& self.file@ == file
        &&& self.block_meta_offset < 0x1_0000_0000
        &&& self.block_meta_offset <= file.len()
        &&& metas_storable(self.block_meta@)
        &&& file == file.take(self.block_meta_offset as int) + BlockMeta::all_encoded(
            self.block_meta@,
        ) + endian::u32_ne(self.block_meta_offset as u32)
        &&& self.max_ts == 0
    }

    /// Whether block `i` can be read, has the keys at its ends that its
    /// description says, and its keys ascend.
    fn check_block(&self, i: usize) -> (r: bool)
        requires
            i < self.block_meta@.len(),
        ensures
            r == (self.block_wf(i as int) && sorted::strictly_ascending(
                self.block_entries(i as int),
            )),
    {
        let start: usize = self.block_meta[i].offset;
        let end: usize = if i < self.block_meta.len() - 1 {
            self.block_meta[i + 1].offset
        } else {
            self.block_meta_offset
        };
        if end < start || self.file.len() < end {
            return false;
        }
        let bytes = slice_subrange(self.file.as_slice(), start, end);
        assert(bytes@ == self.block_bytes(i as int));
        let len: usize = bytes.len();
        if len < 2 {
            return false;
        }
        let n: usize = u16_from_ne_bytes([bytes[len - 2], bytes[len - 1]]) as usize;
        if len / 2 < n + 1 {
            return false;
        }
        let b = Block::decode(bytes);
        assert(b.entries() == self.block_entries(i as int));
        if !b.is_readable() {
            return false;
        }
        let first = self.block_meta[i].first_key.as_key_slice();
        let last = self.block_meta[i].last_key.as_key_slice();
        if n == 0 {
            assert(first@.len() == 0 ==> first@ =~= Seq::<u8>::empty());
            assert(last@.len() == 0 ==> last@ =~= Seq::<u8>::empty());
            return self.block_meta.len() == 1 && first.is_empty() && last.is_empty();
        }
        b.offsets[0] == 0 && first.same(b.key_of(0)) && last.same(b.key_of(n - 1)) && keys_ascend(
            &b,
        )
    }

    /// Whether the table is well-formed.
    pub fn is_well_formed(&self) -> (r: bool)
        ensures
            r == self.wf(),
    {
        let n: usize = self.block_meta.len();
        if n == 0 {
            return false;
        }
        let mut i: usize = 0;
        while i < n
            invariant
                n == self.block_meta@.len(),
                i <= n,
                forall|j: int|
                    0 <= j < i ==> #[trigger] self.block_wf(j) && sorted::strictly_ascending(
                        self.block_entries(j),
                    ),
                forall|j: int|
                    0 < j < i ==> key::key_lt(
                        self.block_meta@[j - 1].last_key@,
                        (#[trigger] self.block_meta@[j]).first_key@,
                    ),
            decreases n - i,
        {
            if !self.check_block(i) {
                proof {
                    if self.wf() {
                        lemma_ascending(self);
                        assert(self.block_wf(i as int));
                    }
                }
                return false;
            }
            if i > 0 && !self.block_meta[i - 1].last_key.as_key_slice().lt(
                self.block_meta[i].first_key.as_key_slice(),
            ) {
                proof {
                    if self.wf() {
                        lemma_ascending(self);
                        assert(!key::key_lt(
                            self.block_meta@[i - 1].last_key@,
                            self.block_meta@[i as int].first_key@,
                        ));
                    }
                }
                return false;
            }
            assert forall|j: int| 0 <= j < i + 1 implies #[trigger] self.block_wf(j)
                && sorted::strictly_ascending(self.block_entries(j)) by {
                if j == i {
                    assert(self.block_wf(i as int));
                }
            }
            i = i + 1;
        }
        proof {
            assert forall|b: int| 0 <= b < n implies sorted::strictly_ascending(
                #[trigger] self.block_entries(b),
            ) by {
                assert(self.block_wf(b));
            }
            lemma_ascending(self);
        }
        self.first_key.as_key_slice().same(self.block_meta[0].first_key.as_key_slice())
            && self.last_key.as_key_slice().same(self.block_meta[n - 1].last_key.as_key_slice())
    }

    /// A file belongs to one table at most: two tables with that file have the
    /// same entries and the same keys at their ends.
    pub proof fn law_file_unique(&self, other: &SsTable, file: Seq<u8>)
        requires
            self.stored_as(file),
            other.stored_as(file),
        ensures
            self.block_meta_offset == other.block_meta_offset,
            self.block_meta@.len() == other.block_meta@.len(),
            forall|i: int|
                0 <= i < self.block_meta@.len() ==> same_meta(
                    #[trigger] self.block_meta@[i],
                    other.block_meta@[i],
                ),
            self.entries() == other.entries(),
            self.wf() && other.first_key@ == other.block_meta@[0].first_key@ && other.last_key@
                == other.block_meta@.last().last_key@ ==> other.wf(),
    {
        let n = file.len() as int;
        let a = self.block_meta_offset as u32;
        let b = other.block_meta_offset as u32;
        endian::law_u32_roundtrip(a);
        endian::law_u32_roundtrip(b);
        assert(file.subrange(n - 4, n) =~= endian::u32_ne(a));
        assert(file.subrange(n - 4, n) =~= endian::u32_ne(b));
        assert(a == b);
        assert(file.subrange(a as int, n - 4) =~= BlockMeta::all_encoded(self.block_meta@));
        assert(file.subrange(a as int, n - 4) =~= BlockMeta::all_encoded(other.block_meta@));
        law_metas_unique(self.block_meta@, other.block_meta@);
        assert forall|i: int| 0 <= i < self.block_meta@.len() implies {
            &&& self.block_bytes(i) == #[trigger] other.block_bytes(i)
            &&& self.block_entries(i) == other.block_entries(i)
            &&& self.block_wf(i) == other.block_wf(i)
        } by {
            assert(same_meta(self.block_meta@[i], other.block_meta@[i]));
            if i + 1 < self.block_meta@.len() {
                assert(same_meta(self.block_meta@[i + 1], other.block_meta@[i + 1]));
            }
            assert(self.block_end(i) == other.block_end(i));
        }
        assert forall|i: int| 0 <= i < self.block_meta@.len() implies self.blocks()[i]
            == #[trigger] other.blocks()[i] by {
            assert(self.block_bytes(i) == other.block_bytes(i));
        }
        assert(self.blocks() =~= other.blocks());
        if self.wf() {
            assert forall|i: int| 0 <= i < other.block_meta@.len() implies #[trigger] other.block_wf(
                i,
            ) by {
                assert(self.block_wf(i));
                assert(self.block_bytes(i) == other.block_bytes(i));
            }
        }
    }

    /// A table built from entries, in whatever order, is stored as its file, if
    /// lengths and offsets fit in the bytes that they are stored in.
    pub proof fn law_built_is_stored(&self, es: Seq<Entry>, block_size: usize, id: usize)
        requires
            builder::built_from(*self, es, block_size, id),
            builder::all_storable(es, block_size),
            builder::encoded_blocks(builder::all_blocks(es, block_size)).len() < 0x1_0000_0000,
        ensures
            self.stored_as(self.file@),
    {
        builder::lemma_metas_storable(*self, es, block_size, id);
        self.lemma_stored(builder::encoded_blocks(builder::all_blocks(es, block_size)));
    }

    /// A table whose file starts with these bytes is stored as that file.
    proof fn lemma_stored(&self, blocks: Seq<u8>)
        requires
            blocks.len() < 0x1_0000_0000,
            self.block_meta_offset == table::low32(blocks.len()),
            self.file@ == blocks + BlockMeta::all_encoded(self.block_meta@) + endian::u32_ne(
                table::low32(blocks.len()),
            ),
            metas_storable(self.block_meta@),
            self.max_ts == 0,
        ensures
            self.stored_as(self.file@),
    {
        assert(self.file@.take(self.block_meta_offset as int) =~= blocks);
    }

    /// Open SSTable from a file, given its bytes. Fails if they are not those of
    /// a well-formed table.
    pub fn open(id: usize, file: Vec<u8>) -> (r: Result<SsTable, StorageError>)
        ensures
            match r {
                Ok(u) => u.id == id && u.stored_as(file@) && u.wf(),
                Err(e) => e == StorageError::Corrupt(id) && forall|t: SsTable| #[trigger]
                    t.stored_as(file@) ==> !t.wf(),
            },
            forall|t: SsTable, es: Seq<Entry>, bs: usize|
                #![trigger builder::built_from(t, es, bs, id)]
                builder::built_from(t, es, bs, id) && builder::table_storable(es, bs) && t.file@
                    == file@ ==> (r matches Ok(u) && u.wf() && u.id == id && u.entries() == es),
    {
        let r = Self::parse(id, file);
        proof {
            assert forall|t: SsTable, es: Seq<Entry>, bs: usize|
                #![trigger builder::built_from(t, es, bs, id)]
                builder::built_from(t, es, bs, id) && builder::table_storable(es, bs) && t.file@
                    == file@ implies (r matches Ok(u) && u.wf() && u.id == id && u.entries()
                == es) by {
                builder::law_table_read_back(t, es, bs, id);
                t.law_built_is_stored(es, bs, id);
                match r {
                    Ok(u) => t.law_file_unique(&u, file@),
                    Err(_) => {},
                }
            }
        }
        r
    }

    fn parse(id: usize, file: Vec<u8>) -> (r: Result<SsTable, StorageError>)
        ensures
            match r {
                Ok(u) => u.id == id && u.stored_as(file@) && u.wf(),
                Err(e) => e == StorageError::Corrupt(id) && forall|t: SsTable| #[trigger]
                    t.stored_as(file@) ==> !t.wf(),
            },
    {
        let len: usize = file.len();
        if len < 4 {
            proof {
                assert forall|t: SsTable| #[trigger] t.stored_as(file@) implies !t.wf() by {
                    endian::law_u32_roundtrip(t.block_meta_offset as u32);
                }
            }
            return Err(StorageError::Corrupt(id));
        }
        let offset: u32 = u32_from_ne_bytes(
            [file[len - 4], file[len - 3], file[len - 2], file[len - 1]],
        );
        let ghost f = file@;
        let ghost n = len as int;
        proof {
            endian::law_u32_bytes_roundtrip(f[n - 4], f[n - 3], f[n - 2], f[n - 1]);
            assert(f.subrange(n - 4, n) =~= endian::u32_ne(offset));
            assert forall|t: SsTable| #[trigger] t.stored_as(f) implies t.block_meta_offset
                == offset && offset <= n - 4 && BlockMeta::all_encoded(t.block_meta@)
                == f.subrange(offset as int, n - 4) by {
                endian::law_u32_roundtrip(t.block_meta_offset as u32);
                endian::law_u32_roundtrip(offset);
                assert(f.subrange(n - 4, n) =~= endian::u32_ne(t.block_meta_offset as u32));
                assert(f.subrange(offset as int, n - 4) =~= BlockMeta::all_encoded(t.block_meta@));
            }
        }
        let block_meta_offset: usize = offset as usize;
        if len - 4 < block_meta_offset {
            return Err(StorageError::Corrupt(id));
        }
        let decoded = BlockMeta::decode_block_meta(
            slice_subrange(file.as_slice(), block_meta_offset, len - 4),
        );
        let block_meta = match decoded {
            Some(metas) => metas,
            None => {
                return Err(StorageError::Corrupt(id));
            },
        };
        if block_meta.len() == 0 {
            proof {
                assert forall|t: SsTable| #[trigger] t.stored_as(f) implies !t.wf() by {
                    law_metas_unique(t.block_meta@, block_meta@);
                }
            }
            return Err(StorageError::Corrupt(id));
        }
        let first_key = block_meta[0].first_key.clone();
        let last_key = block_meta[block_meta.len() - 1].last_key.clone();
        let u = SsTable { file, block_meta, block_meta_offset, id, first_key, last_key, max_ts: 0 };
        assert(f =~= f.take(offset as int) + f.subrange(offset as int, n - 4) + f.subrange(
            n - 4,
            n,
        ));
        assert(u.stored_as(f));
        if !u.is_well_formed() {
            proof {
                assert forall|t: SsTable| #[trigger] t.stored_as(f) implies !t.wf() by {
                    t.law_file_unique(&u, f);
                }
            }
            return Err(StorageError::Corrupt(id));
        }
        Ok(u)
    }
}

/// A file is that of a table if and only if it ends with the descriptions of the
/// blocks, from where the last four bytes say, and these four bytes; offsets
/// fit in four bytes and the lengths of keys in two.
pub proof fn law_stored(t: &SsTable, file: Seq<u8>)
    ensures
        t.stored_as(file) == ({
            &&& t.file@ == file
            &&& t.max_ts == 0
            &&& t.block_meta_offset < 0x1_0000_0000
            &&& file.len() == t.block_meta_offset + BlockMeta::all_encoded(t.block_meta@).len() + 4
            &&& file.subrange(t.block_meta_offset as int, file.len() - 4)
                == BlockMeta::all_encoded(t.block_meta@)
            &&& file.subrange(file.len() - 4, file.len() as int) == endian::u32_ne(
                t.block_meta_offset as u32,
            )
            &&& forall|i: int|
                0 <= i < t.block_meta@.len() ==> {
                    &&& (#[trigger] t.block_meta@[i]).offset < 0x1_0000_0000
                    &&& t.block_meta@[i].first_key@.len() < 65536
                    &&& t.block_meta@[i].last_key@.len() < 65536
                }
        }),
{
    let p = t.block_meta_offset as int;
    let metas = BlockMeta::all_encoded(t.block_meta@);
    let tail = endian::u32_ne(t.block_meta_offset as u32);
    assert(tail.len() == 4);
    if 0 <= p <= file.len() && file == file.take(p) + metas + tail {
        assert(file.subrange(p, file.len() - 4) =~= metas);
        assert(file.subrange(file.len() - 4, file.len() as int) =~= tail);
    }
    if file.len() == p + metas.len() + 4 && file.subrange(p, file.len() - 4) == metas
        && file.subrange(file.len() - 4, file.len() as int) == tail {
        assert(file =~= file.take(p) + file.subrange(p, file.len() - 4) + file.subrange(
            file.len() - 4,
            file.len() as int,
        ));
    }
    if forall|i: int|
        0 <= i < t.block_meta@.len() ==> {
            &&& (#[trigger] t.block_meta@[i]).offset < 0x1_0000_0000
            &&& t.block_meta@[i].first_key@.len() < 65536
            &&& t.block_meta@[i].last_key@.len() < 65536
        } {
        assert(metas_storable(t.block_meta@));
    }
    if metas_storable(t.block_meta@) {
        assert forall|i: int| 0 <= i < t.block_meta@.len() implies {
            &&& (#[trigger] t.block_meta@[i]).offset < 0x1_0000_0000
            &&& t.block_meta@[i].first_key@.len() < 65536
            &&& t.block_meta@[i].last_key@.len() < 65536
        } by {
            assert(meta_storable(t.block_meta@[i]));
        }
    }
}

} // verus!
