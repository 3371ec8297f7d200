//! Blocks, the units in which a table is read.
//!
//! A block is encoded as its entries, one after the other, then the offset of
//! each entry, then the number of entries. An entry is the length of its key,
//! the key, the length of its value and the value. Lengths, offsets and the
//! number of entries take two bytes each, in the byte order of the machine.
mod builder;
mod iterator;

use bytes::Bytes;
use vstd::prelude::*;
use vstd::slice::{slice_subrange, slice_to_vec};

pub use builder::BlockBuilder;
pub use iterator::BlockIterator;

use crate::buffer;
use crate::buffer::bytes_from_vec;
use crate::endian;
use crate::endian::{u16_from_ne_bytes, u16_to_ne_bytes};
use crate::key;
use crate::key::KeySlice;

verus! {

/// A key with its value.
pub type Entry = (Seq<u8>, Seq<u8>);

/// The low 16 bits of a length.
pub open spec fn low16(n: nat) -> u16 {
    (n % 65536) as u16
}

/// The two-byte integer at position `i`.
pub open spec fn u16_at(data: Seq<u8>, i: int) -> u16 {
    endian::u16_of(data[i], data[i + 1])
}

/// The bytes of an entry.
pub open spec fn entry_bytes(e: Entry) -> Seq<u8> {
    endian::u16_ne(low16(e.0.len())) + e.0 + endian::u16_ne(low16(e.1.len())) + e.1
}

/// Integers one after the other, two bytes each.
pub open spec fn u16s_bytes(s: Seq<u16>) -> Seq<u8>
    decreases s.len(),
{
    if s.len() == 0 {
        Seq::empty()
    } else {
        u16s_bytes(s.drop_last()) + endian::u16_ne(s.last())
    }
}

/// The encoding of a block with these entries and offsets.
pub open spec fn block_bytes(data: Seq<u8>, offsets: Seq<u16>) -> Seq<u8> {
    data + u16s_bytes(offsets) + endian::u16_ne(low16(offsets.len()))
}

/// The number of entries that an encoded block says it has.
pub open spec fn encoded_len(bytes: Seq<u8>) -> u16 {
    u16_at(bytes, bytes.len() - 2)
}

/// The position at which the offsets of an encoded block start.
pub open spec fn offsets_start(bytes: Seq<u8>) -> int {
    bytes.len() - 2 * (encoded_len(bytes) + 1)
}

/// Whether the bytes are long enough for the offsets that they announce.
pub open spec fn decodable(bytes: Seq<u8>) -> bool {
    bytes.len() >= 2 && offsets_start(bytes) >= 0
}

/// The entries part of an encoded block.
pub open spec fn decoded_data(bytes: Seq<u8>) -> Seq<u8> {
    bytes.take(offsets_start(bytes))
}

/// The offsets of an encoded block.
pub open spec fn decoded_offsets(bytes: Seq<u8>) -> Seq<u16> {
    Seq::new(encoded_len(bytes) as nat, |i: int| u16_at(bytes, offsets_start(bytes) + 2 * i))
}

/// The length of the key of the entry at `off`.
pub open spec fn key_len_at(data: Seq<u8>, off: int) -> int {
    u16_at(data, off) as int
}

/// The length of the value of the entry at `off`.
pub open spec fn value_len_at(data: Seq<u8>, off: int) -> int {
    u16_at(data, off + 2 + key_len_at(data, off)) as int
}

/// Whether the entry at `off` lies within the data.
pub open spec fn entry_fits(data: Seq<u8>, off: int) -> bool {
    &&& 0 <= off
    &&& off + 2 + key_len_at(data, off) + 2 + value_len_at(data, off) <= data.len()
}

/// The key of the entry at `off`.
pub open spec fn key_at(data: Seq<u8>, off: int) -> Seq<u8> {
    data.subrange(off + 2, off + 2 + key_len_at(data, off))
}

/// Where the value of the entry at `off` starts.
pub open spec fn value_start_at(data: Seq<u8>, off: int) -> int {
    off + 2 + key_len_at(data, off) + 2
}

/// The value of the entry at `off`.
pub open spec fn value_at(data: Seq<u8>, off: int) -> Seq<u8> {
    data.subrange(
        value_start_at(data, off),
        value_start_at(data, off) + value_len_at(data, off),
    )
}

/// The entry at `off`.
pub open spec fn entry_at(data: Seq<u8>, off: int) -> Entry {
    (key_at(data, off), value_at(data, off))
}

/// Every offset points at an entry that lies within the data.
pub open spec fn entries_readable(data: Seq<u8>, offsets: Seq<u16>) -> bool {
    forall|i: int| 0 <= i < offsets.len() ==> entry_fits(data, #[trigger] offsets[i] as int)
}

/// If there is an entry, one lies at the start of the data.
pub open spec fn first_readable(data: Seq<u8>, offsets: Seq<u16>) -> bool {
    offsets.len() > 0 ==> entry_fits(data, 0)
}

/// Every offset, and the start of the data if there is an entry, point at an
/// entry that lies within the data.
pub open spec fn block_readable(data: Seq<u8>, offsets: Seq<u16>) -> bool {
    entries_readable(data, offsets) && first_readable(data, offsets)
}

/// The entries of a block, in the order of their offsets.
pub open spec fn block_entries(data: Seq<u8>, offsets: Seq<u16>) -> Seq<Entry> {
    Seq::new(offsets.len(), |i: int| entry_at(data, offsets[i] as int))
}

/// The keys of the entries ascend; equal keys may follow each other.
pub open spec fn ascending(es: Seq<Entry>) -> bool {
    forall|i: int, j: int|
        #![trigger es[i], es[j]]
        0 <= i <= j < es.len() ==> key::key_le(es[i].0, es[j].0)
}

/// The bytes of the entries, one after the other.
pub open spec fn entries_bytes(es: Seq<Entry>) -> Seq<u8>
    decreases es.len(),
{
    if es.len() == 0 {
        Seq::empty()
    } else {
        entries_bytes(es.drop_last()) + entry_bytes(es.last())
    }
}

/// Where entry `i` starts in the bytes of the entries.
pub open spec fn entry_start(es: Seq<Entry>, i: int) -> nat {
    entries_bytes(es.take(i)).len()
}

/// The offsets that a block with these entries stores.
pub open spec fn entry_offsets(es: Seq<Entry>) -> Seq<u16> {
    Seq::new(es.len(), |i: int| low16(entry_start(es, i)))
}

/// The key and the value are short enough for their two-byte lengths.
pub open spec fn entry_storable(e: Entry) -> bool {
    e.0.len() < 65536 && e.1.len() < 65536
}

/// Every length, every offset and the number of entries fit in two bytes.
#[verifier::opaque]
pub open spec fn storable(es: Seq<Entry>) -> bool {
    &&& es.len() < 65536
    &&& forall|i: int| 0 <= i < es.len() ==> entry_storable(#[trigger] es[i])
    &&& forall|i: int| 0 <= i < es.len() ==> #[trigger] entry_start(es, i) < 65536
}

/// The first key; empty if there is none.
pub open spec fn first_key_of(es: Seq<Entry>) -> Seq<u8> {
    if es.len() == 0 {
        Seq::empty()
    } else {
        es[0].0
    }
}

proof fn lemma_u16s_bytes(s: Seq<u16>)
    ensures
        u16s_bytes(s).len() == 2 * s.len(),
        forall|i: int|
            0 <= i < s.len() ==> #[trigger] s[i] == u16_at(u16s_bytes(s), 2 * i),
    decreases s.len(),
{
    if s.len() > 0 {
        let p = u16s_bytes(s.drop_last());
        lemma_u16s_bytes(s.drop_last());
        endian::law_u16_roundtrip(s.last());
        assert forall|i: int| 0 <= i < s.len() implies #[trigger] s[i] == u16_at(
            u16s_bytes(s),
            2 * i,
        ) by {
            if i < s.len() - 1 {
                assert(s[i] == s.drop_last()[i]);
                assert(u16s_bytes(s)[2 * i] == p[2 * i]);
                assert(u16s_bytes(s)[2 * i + 1] == p[2 * i + 1]);
            }
        }
    }
}

/// How long the encoding of a block is.
pub proof fn lemma_block_bytes_len(data: Seq<u8>, offsets: Seq<u16>)
    ensures
        block_bytes(data, offsets).len() == data.len() + 2 * offsets.len() + 2,
{
    lemma_u16s_bytes(offsets);
}

/// Decoding the encoding of a block of fewer than 65536 entries gives the
/// block back.
pub proof fn law_decode_encode(data: Seq<u8>, offsets: Seq<u16>)
    requires
        offsets.len() < 65536,
    ensures
        decodable(block_bytes(data, offsets)),
        decoded_data(block_bytes(data, offsets)) == data,
        decoded_offsets(block_bytes(data, offsets)) == offsets,
{
    let bytes = block_bytes(data, offsets);
    lemma_u16s_bytes(offsets);
    endian::law_u16_roundtrip(low16(offsets.len()));
    assert(encoded_len(bytes) == offsets.len());
    assert(offsets_start(bytes) == data.len());
    assert(decoded_data(bytes) =~= data);
    assert forall|i: int| 0 <= i < offsets.len() implies decoded_offsets(bytes)[i]
        == #[trigger] offsets[i] by {
        assert(bytes[data.len() + 2 * i] == u16s_bytes(offsets)[2 * i]);
        assert(bytes[data.len() + 2 * i + 1] == u16s_bytes(offsets)[2 * i + 1]);
    }
    assert(decoded_offsets(bytes) =~= offsets);
}

/// Encoding what was decoded gives the bytes back.
pub proof fn law_encode_decode(bytes: Seq<u8>)
    requires
        decodable(bytes),
    ensures
        block_bytes(decoded_data(bytes), decoded_offsets(bytes)) == bytes,
{
    let offsets = decoded_offsets(bytes);
    let start = offsets_start(bytes);
    let again = block_bytes(decoded_data(bytes), offsets);
    lemma_u16s_bytes(offsets);
    endian::law_u16_bytes_roundtrip(bytes[bytes.len() - 2], bytes[bytes.len() - 1]);
    let count = endian::u16_ne(encoded_len(bytes));
    assert(count == seq![bytes[bytes.len() - 2], bytes[bytes.len() - 1]]);
    assert(low16(offsets.len()) == encoded_len(bytes));
    assert(again.len() == bytes.len());
    assert forall|p: int| 0 <= p < bytes.len() implies again[p] == #[trigger] bytes[p] by {
        if p < start {
        } else if p < bytes.len() - 2 {
            let i = (p - start) / 2;
            let t = u16s_bytes(offsets);
            assert(offsets[i] == u16_at(t, 2 * i));
            endian::law_u16_bytes_roundtrip(bytes[start + 2 * i], bytes[start + 2 * i + 1]);
            endian::law_u16_bytes_roundtrip(t[2 * i], t[2 * i + 1]);
            let x = seq![t[2 * i], t[2 * i + 1]];
            let y = seq![bytes[start + 2 * i], bytes[start + 2 * i + 1]];
            assert(x == y);
            assert(x[0] == y[0] && x[1] == y[1]);
            assert(p == start + 2 * i || p == start + 2 * i + 1);
        } else {
            assert(count[0] == bytes[bytes.len() - 2]);
            assert(count[1] == bytes[bytes.len() - 1]);
        }
    }
    assert(again =~= bytes);
}

/// The bytes of the entries hold the bytes of each entry where it starts.
proof fn lemma_entry_in_place(es: Seq<Entry>, i: int)
    requires
        0 <= i < es.len(),
    ensures
        entry_start(es, i) + entry_bytes(es[i]).len() <= entries_bytes(es).len(),
        entries_bytes(es).subrange(
            entry_start(es, i) as int,
            (entry_start(es, i) + entry_bytes(es[i]).len()) as int,
        ) == entry_bytes(es[i]),
    decreases es.len(),
{
    let start = entry_start(es, i) as int;
    let len = entry_bytes(es[i]).len() as int;
    if i == es.len() - 1 {
        assert(es.take(i) =~= es.drop_last());
        assert(entries_bytes(es).subrange(start, start + len) =~= entry_bytes(es[i]));
    } else {
        lemma_entry_in_place(es.drop_last(), i);
        assert(es.drop_last().take(i) =~= es.take(i));
        assert(entries_bytes(es).subrange(start, start + len) =~= entries_bytes(
            es.drop_last(),
        ).subrange(start, start + len));
    }
}

/// The bytes of an entry that is short enough read as that entry.
proof fn lemma_read_entry(data: Seq<u8>, off: int, e: Entry)
    requires
        entry_storable(e),
        0 <= off,
        off + entry_bytes(e).len() <= data.len(),
        data.subrange(off, off + entry_bytes(e).len()) == entry_bytes(e),
    ensures
        entry_fits(data, off),
        entry_at(data, off) == e,
{
    let b = entry_bytes(e);
    let sub = data.subrange(off, off + b.len());
    endian::law_u16_roundtrip(low16(e.0.len()));
    endian::law_u16_roundtrip(low16(e.1.len()));
    assert(sub[0] == data[off] && sub[1] == data[off + 1]);
    assert(b[0] == endian::u16_ne(low16(e.0.len()))[0]);
    assert(b[1] == endian::u16_ne(low16(e.0.len()))[1]);
    assert(key_len_at(data, off) == e.0.len());
    let v = 2 + e.0.len() as int;
    assert(sub[v] == data[off + v] && sub[v + 1] == data[off + v + 1]);
    assert(b[v] == endian::u16_ne(low16(e.1.len()))[0]);
    assert(b[v + 1] == endian::u16_ne(low16(e.1.len()))[1]);
    assert(value_len_at(data, off) == e.1.len());
    assert forall|j: int| 0 <= j < e.0.len() implies data[off + 2 + j] == #[trigger] e.0[j] by {
        assert(sub[2 + j] == b[2 + j]);
    }
    assert(key_at(data, off) =~= e.0);
    assert forall|j: int| 0 <= j < e.1.len() implies data[off + v + 2 + j] == #[trigger] e.1[j] by {
        assert(sub[v + 2 + j] == b[v + 2 + j]);
    }
    assert(value_at(data, off) =~= e.1);
}

/// Entry `i` of a block made of these entries reads as entry `i`.
proof fn lemma_entry_reads_back(es: Seq<Entry>, i: int)
    requires
        storable(es),
        0 <= i < es.len(),
    ensures
        entry_offsets(es)[i] == entry_start(es, i),
        entry_fits(entries_bytes(es), entry_start(es, i) as int),
        entry_at(entries_bytes(es), entry_start(es, i) as int) == es[i],
{
    let start = entry_start(es, i);
    assert(start < 65536 && entry_storable(es[i])) by {
        reveal(storable);
    }
    assert(entry_offsets(es)[i] == start);
    assert(entry_fits(entries_bytes(es), start as int) && entry_at(entries_bytes(es), start as int)
        == es[i]) by {
        lemma_entry_in_place(es, i);
        lemma_read_entry(entries_bytes(es), start as int, es[i]);
    }
}

/// Fewer than 65536 entries are stored together.
pub proof fn lemma_storable_len(es: Seq<Entry>)
    requires
        storable(es),
    ensures
        es.len() < 65536,
{
    reveal(storable);
}

/// The lengths of entries that are stored together fit in two bytes.
pub proof fn lemma_storable_entries(es: Seq<Entry>)
    requires
        storable(es),
    ensures
        forall|i: int| 0 <= i < es.len() ==> entry_storable(#[trigger] es[i]),
{
    reveal(storable);
}

/// One more entry behind others still fits if it starts early enough.
pub proof fn lemma_storable_push(es: Seq<Entry>, e: Entry)
    requires
        storable(es),
        entry_storable(e),
        entries_bytes(es).len() < 65536,
        es.len() < 65535,
    ensures
        storable(es.push(e)),
{
    reveal(storable);
    let more = es.push(e);
    assert forall|i: int| 0 <= i < more.len() implies #[trigger] entry_start(more, i) < 65536 by {
        assert(more.take(i) =~= es.take(i));
        if i < es.len() {
            assert(entry_start(es, i) < 65536);
        } else {
            assert(es.take(i) =~= es);
        }
    }
}

/// Entries that fit together do without the last one, which starts early
/// enough.
pub proof fn lemma_storable_pop(es: Seq<Entry>, e: Entry)
    requires
        storable(es.push(e)),
    ensures
        storable(es),
        entry_storable(e),
        entries_bytes(es).len() < 65536,
        es.len() < 65535,
{
    reveal(storable);
    let more = es.push(e);
    assert(more[es.len() as int] == e);
    assert forall|i: int| 0 <= i < es.len() implies entry_storable(#[trigger] es[i]) by {
        assert(more[i] == es[i]);
    }
    assert forall|i: int| 0 <= i < es.len() implies #[trigger] entry_start(es, i) < 65536 by {
        assert(more.take(i) =~= es.take(i));
        assert(entry_start(more, i) < 65536);
    }
    assert(more.take(es.len() as int) =~= es);
    assert(entry_start(more, es.len() as int) < 65536);
}

/// No entries are stored together.
pub proof fn lemma_storable_empty()
    ensures
        storable(Seq::empty()),
{
    reveal(storable);
}

/// A block made of entries whose lengths and offsets fit in two bytes reads
/// as those entries.
pub proof fn law_entries_read_back(es: Seq<Entry>)
    requires
        storable(es),
    ensures
        block_readable(entries_bytes(es), entry_offsets(es)),
        block_entries(entries_bytes(es), entry_offsets(es)) == es,
        es.len() > 0 ==> entry_offsets(es)[0] == 0,
{
    let data = entries_bytes(es);
    let offsets = entry_offsets(es);
    assert forall|i: int| 0 <= i < offsets.len() implies entry_fits(
        data,
        #[trigger] offsets[i] as int,
    ) by {
        lemma_entry_reads_back(es, i);
    }
    assert forall|i: int| 0 <= i < es.len() implies block_entries(data, offsets)[i]
        == #[trigger] es[i] by {
        lemma_entry_reads_back(es, i);
    }
    if es.len() > 0 {
        assert(es.take(0) =~= Seq::<Entry>::empty());
        lemma_entry_reads_back(es, 0);
    }
    assert(block_entries(data, offsets) =~= es);
}

/// A block is the smallest unit of read and caching. It is a collection of
/// sorted key-value pairs.
pub struct Block {
    /// The encoded entries.
    pub data: Vec<u8>,
    /// Where each entry starts in `data`.
    pub offsets: Vec<u16>,
}

impl Block {
    /// The entries of the block can be read.
    pub open spec fn readable(&self) -> bool {
        block_readable(self.data@, self.offsets@)
    }

    /// The first key of the block; empty if the block has no entry.
    pub open spec fn first_key(&self) -> Seq<u8> {
        first_key_of(self.entries())
    }

    /// The entries, in the order of their offsets.
    pub open spec fn entries(&self) -> Seq<Entry> {
        block_entries(self.data@, self.offsets@)
    }

    /// Encode the block to its data layout.
    pub fn encode(&self) -> (r: Bytes)
        ensures
            buffer::bytes_content(r) == block_bytes(self.data@, self.offsets@),
    {
        let mut offsets_encoded: Vec<u8> = Vec::new();
        let mut i: usize = 0;
        while i < self.offsets.len()
            invariant
                i <= self.offsets@.len(),
                offsets_encoded@ == u16s_bytes(self.offsets@.take(i as int)),
            decreases self.offsets@.len() - i,
        {
            let b = u16_to_ne_bytes(self.offsets[i]);
            offsets_encoded.extend_from_slice(b.as_slice());
            assert(self.offsets@.take(i + 1).drop_last() =~= self.offsets@.take(i as int));
            assert(offsets_encoded@ =~= u16s_bytes(self.offsets@.take(i + 1)));
            i = i + 1;
        }
        assert(self.offsets@.take(i as int) =~= self.offsets@);
        let mut block: Vec<u8> = slice_to_vec(self.data.as_slice());
        block.append(&mut offsets_encoded);
        let n: usize = self.offsets.len();
        assert(n as u16 == n % 65536) by (bit_vector);
        let num_entries: u16 = n as u16;
        let b = u16_to_ne_bytes(num_entries);
        block.extend_from_slice(b.as_slice());
        assert(block@ =~= block_bytes(self.data@, self.offsets@));
        bytes_from_vec(block)
    }

    /// Decode from the data layout, transform the input `data` to a single
    /// `Block`.
    pub fn decode(data: &[u8]) -> (r: Self)
        requires
            decodable(data@),
        ensures
            r.data@ == decoded_data(data@),
            r.offsets@ == decoded_offsets(data@),
    {
        let len: usize = data.len();
        let num: u16 = u16_from_ne_bytes([data[len - 2], data[len - 1]]);
        let start: usize = len - 2 * (num as usize + 1);
        let mut offsets: Vec<u16> = Vec::new();
        let mut i: usize = 0;
        while i < num as usize
            invariant
                len == data@.len(),
                decodable(data@),
                num == encoded_len(data@),
                start == offsets_start(data@),
                i <= num,
                offsets@ =~= decoded_offsets(data@).take(i as int),
            decreases num - i,
        {
            offsets.push(u16_from_ne_bytes([data[start + 2 * i], data[start + 2 * i + 1]]));
            i = i + 1;
        }
        assert(offsets@ =~= decoded_offsets(data@));
        Block { data: slice_to_vec(slice_subrange(data, 0, start)), offsets }
    }

    /// Whether an entry lies within the data at `off`.
    fn entry_fits(&self, off: usize) -> (r: bool)
        ensures
            r == entry_fits(self.data@, off as int),
    {
        let len: usize = self.data.len();
        if len < 4 || off > len - 4 {
            return false;
        }
        let key_len: usize = u16_from_ne_bytes([self.data[off], self.data[off + 1]]) as usize;
        if key_len > len - 4 - off {
            return false;
        }
        let at: usize = off + 2 + key_len;
        let value_len: usize = u16_from_ne_bytes([self.data[at], self.data[at + 1]]) as usize;
        value_len <= len - 2 - at
    }

    /// Whether the entries of the block can be read.
    pub fn is_readable(&self) -> (r: bool)
        ensures
            r == self.readable(),
    {
        if self.offsets.len() > 0 && !self.entry_fits(0) {
            return false;
        }
        let mut i: usize = 0;
        while i < self.offsets.len()
            invariant
                i <= self.offsets@.len(),
                forall|j: int|
                    0 <= j < i ==> entry_fits(self.data@, #[trigger] self.offsets@[j] as int),
            decreases self.offsets@.len() - i,
        {
            if !self.entry_fits(self.offsets[i] as usize) {
                return false;
            }
            i = i + 1;
        }
        true
    }

    /// The key of entry `i`.
    pub fn key_of(&self, i: usize) -> (k: KeySlice<'_>)
        requires
            self.readable(),
            i < self.offsets@.len(),
        ensures
            k@ == self.entries()[i as int].0,
    {
        let off: usize = self.offsets[i] as usize;
        assert(entry_fits(self.data@, self.offsets@[i as int] as int));
        assert(self.data.len() <= usize::MAX);
        let key_len: usize = u16_from_ne_bytes([self.data[off], self.data[off + 1]]) as usize;
        KeySlice::from_slice(
            slice_subrange(self.data.as_slice(), off + 2, off + 2 + key_len),
        )
    }
}

/// Lengths and offsets are stored as what is left of them modulo 65536.
pub proof fn law_low16(n: nat)
    ensures
        low16(n) as int == n as int % 65536,
        n < 65536 ==> low16(n) == n,
{
}

/// An entry is stored as the length of its key, the key, the length of its value
/// and the value.
pub proof fn law_entry_layout(e: Entry)
    ensures
        ({
            let b = entry_bytes(e);
            let k = e.0.len() as int;
            let v = e.1.len() as int;
            &&& b.len() == 4 + k + v
            &&& b.subrange(0, 2) == endian::u16_ne((k % 65536) as u16)
            &&& b.subrange(2, 2 + k) == e.0
            &&& b.subrange(2 + k, 4 + k) == endian::u16_ne((v % 65536) as u16)
            &&& b.subrange(4 + k, 4 + k + v) == e.1
        }),
{
    let b = entry_bytes(e);
    let k = e.0.len() as int;
    let v = e.1.len() as int;
    assert(b.subrange(0, 2) =~= endian::u16_ne((k % 65536) as u16));
    assert(b.subrange(2, 2 + k) =~= e.0);
    assert(b.subrange(2 + k, 4 + k) =~= endian::u16_ne((v % 65536) as u16));
    assert(b.subrange(4 + k, 4 + k + v) =~= e.1);
}

/// Entries are stored one after the other.
pub proof fn law_entries_append(es: Seq<Entry>, e: Entry)
    ensures
        entries_bytes(Seq::empty()) == Seq::<u8>::empty(),
        entries_bytes(es.push(e)) == entries_bytes(es) + entry_bytes(e),
{
    assert(es.push(e).drop_last() =~= es);
}

/// The offset of an entry is the length of those before it.
pub proof fn law_entry_offsets(es: Seq<Entry>, i: int)
    requires
        0 <= i < es.len(),
    ensures
        entry_offsets(es).len() == es.len(),
        entry_offsets(es)[i] as int == entries_bytes(es.take(i)).len() as int % 65536,
{
}

/// A block is encoded as its data, each offset in two bytes, and the number of
/// offsets in two bytes.
pub proof fn law_block_layout(data: Seq<u8>, offsets: Seq<u16>)
    ensures
        ({
            let b = block_bytes(data, offsets);
            let d = data.len() as int;
            let n = offsets.len() as int;
            &&& b.len() == d + 2 * n + 2
            &&& b.subrange(0, d) == data
            &&& forall|i: int|
                0 <= i < n ==> b.subrange(d + 2 * i, d + 2 * i + 2) == endian::u16_ne(
                    #[trigger] offsets[i],
                )
            &&& b.subrange(d + 2 * n, d + 2 * n + 2) == endian::u16_ne((n % 65536) as u16)
        }),
{
    let b = block_bytes(data, offsets);
    let d = data.len() as int;
    let n = offsets.len() as int;
    lemma_block_bytes_len(data, offsets);
    assert(b.subrange(0, d) =~= data);
    assert forall|i: int| 0 <= i < n implies b.subrange(d + 2 * i, d + 2 * i + 2)
        == endian::u16_ne(#[trigger] offsets[i]) by {
        lemma_offset_in_place(data, offsets, i);
    }
    assert(b.subrange(d + 2 * n, d + 2 * n + 2) =~= endian::u16_ne((n % 65536) as u16));
}

/// Each offset stands in its place behind the data.
proof fn lemma_offset_in_place(data: Seq<u8>, offsets: Seq<u16>, i: int)
    requires
        0 <= i < offsets.len(),
    ensures
        block_bytes(data, offsets).subrange(
            data.len() + 2 * i,
            data.len() + 2 * i + 2,
        ) == endian::u16_ne(offsets[i]),
{
    let t = u16s_bytes(offsets);
    let b = block_bytes(data, offsets);
    let d = data.len() as int;
    lemma_u16s_bytes(offsets);
    assert(offsets[i] == u16_at(t, 2 * i));
    endian::law_u16_bytes_roundtrip(t[2 * i], t[2 * i + 1]);
    assert(b[d + 2 * i] == t[2 * i]);
    assert(b[d + 2 * i + 1] == t[2 * i + 1]);
    assert(b.subrange(d + 2 * i, d + 2 * i + 2) =~= seq![t[2 * i], t[2 * i + 1]]);
}

/// The last two bytes of an encoded block say how many offsets stand before
/// them; what is before those is the data.
pub proof fn law_decode_layout(bytes: Seq<u8>)
    requires
        bytes.len() >= 2,
    ensures
        ({
            let len = bytes.len() as int;
            let n = endian::u16_of(bytes[len - 2], bytes[len - 1]) as int;
            let d = len - 2 - 2 * n;
            &&& decodable(bytes) == (d >= 0)
            &&& decodable(bytes) ==> {
                &&& decoded_data(bytes) == bytes.subrange(0, d)
                &&& decoded_offsets(bytes).len() == n
                &&& forall|i: int|
                    0 <= i < n ==> #[trigger] decoded_offsets(bytes)[i] == endian::u16_of(
                        bytes[d + 2 * i],
                        bytes[d + 2 * i + 1],
                    )
            }
        }),
{
}

/// There is an entry at a position if and only if the bytes there are the
/// encoding of one; and then it is that one.
pub proof fn law_entry_at(data: Seq<u8>, off: int, e: Entry)
    requires
        0 <= off,
    ensures
        entry_fits(data, off) ==> {
            let f = entry_at(data, off);
            &&& f.0.len() < 65536 && f.1.len() < 65536
            &&& off + entry_bytes(f).len() <= data.len()
            &&& data.subrange(off, off + entry_bytes(f).len()) == entry_bytes(f)
        },
        e.0.len() < 65536 && e.1.len() < 65536 && off + entry_bytes(e).len() <= data.len()
            && data.subrange(off, off + entry_bytes(e).len()) == entry_bytes(e) ==> entry_fits(
            data,
            off,
        ) && entry_at(data, off) == e,
{
    if entry_fits(data, off) {
        let f = entry_at(data, off);
        let k = key_len_at(data, off);
        endian::law_u16_bytes_roundtrip(data[off], data[off + 1]);
        endian::law_u16_bytes_roundtrip(data[off + 2 + k], data[off + 3 + k]);
        assert(f.0.len() == k);
        assert(data.subrange(off, off + entry_bytes(f).len()) =~= entry_bytes(f));
    }
    if e.0.len() < 65536 && e.1.len() < 65536 && off + entry_bytes(e).len() <= data.len()
        && data.subrange(off, off + entry_bytes(e).len()) == entry_bytes(e) {
        lemma_read_entry(data, off, e);
    }
}

/// A block can be read if there is an entry at each offset and, if there is an
/// offset, at the start; its entries are those at the offsets.
pub proof fn law_block_entries(data: Seq<u8>, offsets: Seq<u16>)
    ensures
        entries_readable(data, offsets) == (forall|i: int|
            0 <= i < offsets.len() ==> entry_fits(data, #[trigger] offsets[i] as int)),
        block_readable(data, offsets) == (entries_readable(data, offsets) && (offsets.len() > 0
            ==> entry_fits(data, 0))),
        block_entries(data, offsets).len() == offsets.len(),
        forall|i: int|
            0 <= i < offsets.len() ==> #[trigger] block_entries(data, offsets)[i] == entry_at(
                data,
                offsets[i] as int,
            ),
{
}

/// The first key is that of the first entry.
pub proof fn law_first_key(es: Seq<Entry>)
    ensures
        es.len() > 0 ==> first_key_of(es) == es[0].0,
        es.len() == 0 ==> first_key_of(es).len() == 0,
{
}

/// Entries are stored together if there are fewer than 65536 of them, and keys,
/// values and the bytes before each entry are shorter than 65536 bytes.
pub proof fn law_storable(es: Seq<Entry>)
    ensures
        storable(es) == (es.len() < 65536 && forall|i: int|
            0 <= i < es.len() ==> {
                &&& (#[trigger] es[i]).0.len() < 65536
                &&& es[i].1.len() < 65536
                &&& entries_bytes(es.take(i)).len() < 65536
            }),
{
    reveal(storable);
    if storable(es) {
        assert forall|i: int| 0 <= i < es.len() implies entry_storable(#[trigger] es[i])
            && entries_bytes(es.take(i)).len() < 65536 by {
            assert(entry_start(es, i) < 65536);
        }
    }
    if es.len() < 65536 && forall|i: int|
        0 <= i < es.len() ==> {
            &&& (#[trigger] es[i]).0.len() < 65536
            &&& es[i].1.len() < 65536
            &&& entries_bytes(es.take(i)).len() < 65536
        } {
        assert forall|i: int| 0 <= i < es.len() implies #[trigger] entry_start(es, i) < 65536 by {
            assert(es[i].0.len() < 65536);
        }
    }
}

/// A block is read as its data and its offsets say.
pub proof fn law_block_reads(b: &Block)
    ensures
        b.readable() == (forall|i: int|
            0 <= i < b.offsets@.len() ==> entry_fits(b.data@, #[trigger] b.offsets@[i] as int)
                && entry_fits(b.data@, 0)),
        b.entries().len() == b.offsets@.len(),
        forall|i: int|
            0 <= i < b.offsets@.len() ==> #[trigger] b.entries()[i] == entry_at(
                b.data@,
                b.offsets@[i] as int,
            ),
        b.offsets@.len() > 0 ==> b.first_key() == b.entries()[0].0,
        b.offsets@.len() == 0 ==> b.first_key().len() == 0,
{
    if b.offsets@.len() > 0 && (forall|i: int|
        0 <= i < b.offsets@.len() ==> entry_fits(b.data@, #[trigger] b.offsets@[i] as int)
            && entry_fits(b.data@, 0)) {
        assert(entry_fits(b.data@, b.offsets@[0] as int));
    }
}

} // verus!
