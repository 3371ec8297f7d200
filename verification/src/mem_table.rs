//! The in-memory table that takes the writes.
use bytes::Bytes;
use std::ops::Bound;
use vstd::prelude::*;
use vstd::slice::slice_to_vec;

use crate::block;
use crate::block::Entry;
use crate::buffer;
use crate::buffer::{bytes_as_slice, bytes_clone, bytes_copy_from_slice};
use crate::error::StorageError;
use crate::iterators::{Contents, StorageIterator};
use crate::key;
use crate::key::{slice_eq, slice_lt, KeySlice};
use crate::range;
use crate::range::is_below;
use crate::sorted;
use crate::table::builder;
use crate::table::builder::Tally;
use crate::table::SsTableBuilder;

verus! {

broadcast use crate::key::group_key_order;

/// A key with its value.
struct MemEntry {
    key: Vec<u8>,
    value: Bytes,
}

impl MemEntry {
    closed spec fn entry(&self) -> Entry {
        (self.key@, buffer::bytes_content(self.value))
    }

    fn duplicate(&self) -> (e: Self)
        ensures
            e.entry() == self.entry(),
    {
        MemEntry { key: slice_to_vec(self.key.as_slice()), value: bytes_clone(&self.value) }
    }
}

spec fn entries_of(v: Seq<MemEntry>) -> Seq<Entry> {
    v.map_values(|e: MemEntry| e.entry())
}

/// How much room the pairs of a table take so far.
struct Room {
    /// The size of the full blocks.
    total: u128,
    /// The size of the entries of the open block.
    len: u128,
    /// The number of the entries of the open block.
    count: u128,
}

impl Room {
    spec fn tally(&self) -> Tally {
        Tally {
            total: self.total as nat,
            len: self.len as nat,
            count: self.count as nat,
            fits: true,
        }
    }

    spec fn in_bounds(&self) -> bool {
        self.len < 200000 && self.count < 65536
    }

    /// Adds an entry with these lengths, if it fits.
    fn take(&mut self, key_len: usize, value_len: usize, block_size: usize) -> (r: bool)
        requires
            old(self).in_bounds(),
            old(self).total <= 400000 * usize::MAX,
        ensures
            r == old(self).tally().and(key_len as nat, value_len as nat, block_size).fits,
            r ==> {
                &&& final(self).tally() == old(self).tally().and(
                    key_len as nat,
                    value_len as nat,
                    block_size,
                )
                &&& final(self).in_bounds()
                &&& final(self).total <= old(self).total + 400000
            },
    {
        if key_len >= 65536 || value_len >= 65536 {
            return false;
        }
        assert(block::low16(key_len as nat) == key_len);
        assert(block::low16(value_len as nat) == value_len);
        if self.len + 2 * self.count + 2 + 2 + key_len as u128 + 2 + value_len as u128 + 2
            > block_size as u128 && self.count > 0 {
            self.total = self.total + self.len + 2 * self.count + 2;
            self.len = 0;
            self.count = 0;
        }
        if self.len >= 65536 || self.count >= 65535 {
            return false;
        }
        self.len = self.len + 4 + key_len as u128 + value_len as u128;
        self.count = self.count + 1;
        true
    }
}

/// A basic mem-table: the keys written so far, each with the value written last.
pub struct MemTable {
    /// The pairs, in ascending key order.
    map: Vec<MemEntry>,
    id: usize,
    approximate_size: usize,
}

impl MemTable {
    /// The pairs of the table, in ascending key order.
    pub closed spec fn entries(&self) -> Seq<Entry> {
        entries_of(self.map@)
    }

    /// The number of the table.
    pub closed spec fn id(&self) -> usize {
        self.id
    }

    /// The lengths of all keys and values ever put, added up.
    pub closed spec fn size(&self) -> usize {
        self.approximate_size
    }

    /// The keys ascend.
    pub open spec fn wf(&self) -> bool {
        sorted::strictly_ascending(self.entries())
    }

    /// The pairs of the table.
    pub open spec fn contents(&self) -> Contents {
        sorted::map_of(self.entries())
    }

    /// Create a new mem-table.
    pub fn create(id: usize) -> (t: Self)
        ensures
            t.wf(),
            t.entries() == Seq::<Entry>::empty(),
            t.contents() == Map::<Seq<u8>, Seq<u8>>::empty(),
            t.id() == id,
            t.size() == 0,
    {
        let t = MemTable { map: Vec::new(), id, approximate_size: 0 };
        assert(t.entries() =~= Seq::<Entry>::empty());
        assert(t.contents() =~= Map::<Seq<u8>, Seq<u8>>::empty());
        t
    }

    /// The position of the first key that is not before `key`.
    fn position(&self, key: &[u8]) -> (p: usize)
        requires
            self.wf(),
        ensures
            sorted::is_first_not_before(self.entries(), key@, p as int),
    {
        let mut low: usize = 0;
        let mut high: usize = self.map.len();
        let ghost es = self.entries();
        while low < high
            invariant
                sorted::strictly_ascending(es),
                es == self.entries(),
                low <= high <= self.map@.len(),
                forall|i: int| 0 <= i < low ==> key::key_lt((#[trigger] es[i]).0, key@),
                forall|i: int| high <= i < es.len() ==> key::key_le(key@, (#[trigger] es[i]).0),
            decreases high - low,
        {
            let mid: usize = low + (high - low) / 2;
            assert(self.map@[mid as int].entry() == es[mid as int]);
            if slice_lt(self.map[mid].key.as_slice(), key) {
                assert forall|i: int| 0 <= i <= mid implies key::key_lt(
                    (#[trigger] es[i]).0,
                    key@,
                ) by {
                    if i < mid {
                        assert(key::key_lt(es[i].0, es[mid as int].0));
                    }
                }
                low = mid + 1;
            } else {
                assert forall|i: int| mid <= i < es.len() implies key::key_le(
                    key@,
                    (#[trigger] es[i]).0,
                ) by {
                    if mid < i {
                        assert(key::key_lt(es[mid as int].0, es[i].0));
                    }
                }
                high = mid;
            }
        }
        low
    }

    /// Get a value by key.
    pub fn get(&self, key: &[u8]) -> (r: Option<Bytes>)
        requires
            self.wf(),
        ensures
            match r {
                Some(v) => self.contents().contains_key(key@) && self.contents()[key@]
                    == buffer::bytes_content(v),
                None => !self.contents().contains_key(key@),
            },
    {
        let p: usize = self.position(key);
        let ghost es = self.entries();
        if p < self.map.len() && slice_eq(self.map[p].key.as_slice(), key) {
            assert(self.map@[p as int].entry() == es[p as int]);
            proof {
                sorted::lemma_map_of(es, p as int);
            }
            return Some(bytes_clone(&self.map[p].value));
        }
        proof {
            if self.contents().contains_key(key@) {
                let i = choose|i: int| sorted::has_key_at(es, key@, i);
                assert(es[i].0 == key@);
                assert(i >= p);
                assert(self.map@[p as int].entry() == es[p as int]);
                if i > p {
                    assert(key::key_lt(es[p as int].0, es[i].0));
                }
            }
        }
        None
    }

    /// Put a key-value pair into the mem-table.
    pub fn put(&mut self, key: &[u8], value: &[u8]) -> (r: Result<(), StorageError>)
        requires
            old(self).wf(),
        ensures
            r is Ok,
            final(self).wf(),
            final(self).contents() == old(self).contents().insert(key@, value@),
            final(self).id() == old(self).id(),
            final(self).size() == if old(self).size() + key@.len() + value@.len() <= usize::MAX {
                old(self).size() + key@.len() + value@.len()
            } else {
                usize::MAX as int
            },
    {
        let p: usize = self.position(key);
        let ghost es = self.entries();
        let entry = MemEntry { key: slice_to_vec(key), value: bytes_copy_from_slice(value) };
        let ghost e = entry.entry();
        if p < self.map.len() && slice_eq(self.map[p].key.as_slice(), key) {
            assert(self.map@[p as int].entry() == es[p as int]);
            self.map.set(p, entry);
            proof {
                assert(self.entries() =~= es.update(p as int, e));
                lemma_update(es, p as int, e);
            }
        } else {
            proof {
                if p < es.len() {
                    assert(self.map@[p as int].entry() == es[p as int]);
                }
            }
            self.map.insert(p, entry);
            proof {
                assert(self.entries() =~= es.insert(p as int, e));
                lemma_insert(es, p as int, e);
            }
        }
        self.approximate_size = self.approximate_size.saturating_add(key.len()).saturating_add(
            value.len(),
        );
        Ok(())
    }

    /// The lengths of all keys and values ever put, added up.
    pub fn approximate_size(&self) -> (n: usize)
        ensures
            n == self.size(),
    {
        self.approximate_size
    }

    /// Whether nothing was put.
    pub fn is_empty(&self) -> (r: bool)
        ensures
            r == (self.entries().len() == 0),
    {
        self.map.len() == 0
    }

    /// The position of the first key that does not lie before the range.
    fn start(&self, lower: Bound<&[u8]>) -> (p: usize)
        requires
            self.wf(),
        ensures
            p <= self.entries().len(),
            forall|i: int|
                0 <= i < p ==> !range::above(
                    range::slice_bound(lower),
                    (#[trigger] self.entries()[i]).0,
                ),
            forall|i: int|
                p <= i < self.entries().len() ==> range::above(
                    range::slice_bound(lower),
                    (#[trigger] self.entries()[i]).0,
                ),
    {
        let ghost es = self.entries();
        match lower {
            Bound::Unbounded => 0,
            Bound::Included(k) => self.position(k),
            Bound::Excluded(k) => {
                let p: usize = self.position(k);
                if p < self.map.len() {
                    assert(self.map@[p as int].entry() == es[p as int]);
                    assert forall|i: int| p < i < es.len() implies key::key_lt(
                        es[p as int].0,
                        (#[trigger] es[i]).0,
                    ) by {}
                    if slice_eq(self.map[p].key.as_slice(), k) {
                        return p + 1;
                    }
                }
                p
            },
        }
    }

    /// Get an iterator over a range of keys.
    pub fn scan(&self, lower: Bound<&[u8]>, upper: Bound<&[u8]>) -> (it: MemTableIterator)
        requires
            self.wf(),
        ensures
            it.wf(),
            it.infallible(),
            it.rest() == range::in_range(
                self.contents(),
                range::slice_bound(lower),
                range::slice_bound(upper),
            ),
            forall|k: Seq<u8>| #[trigger]
                it.rest().contains_key(k) == (self.contents().contains_key(k) && match lower {
                    Bound::Included(b) => !key::key_lt(k, b@),
                    Bound::Excluded(b) => key::key_lt(b@, k),
                    Bound::Unbounded => true,
                } && match upper {
                    Bound::Included(b) => !key::key_lt(b@, k),
                    Bound::Excluded(b) => key::key_lt(k, b@),
                    Bound::Unbounded => true,
                }),
            forall|k: Seq<u8>| #[trigger]
                it.rest().contains_key(k) ==> it.rest()[k] == self.contents()[k],
    {
        let ghost es = self.entries();
        let ghost up = range::slice_bound(upper);
        let start: usize = self.start(lower);
        let mut end: usize = start;
        let mut found: Vec<MemEntry> = Vec::new();
        while end < self.map.len() && is_below(upper, self.map[end].key.as_slice())
            invariant
                self.wf(),
                es == self.entries(),
                up == range::slice_bound(upper),
                start <= end <= self.map@.len(),
                entries_of(found@) =~= es.subrange(start as int, end as int),
                forall|i: int| start <= i < end ==> range::below(up, (#[trigger] es[i]).0),
            decreases self.map@.len() - end,
        {
            assert(self.map@[end as int].entry() == es[end as int]);
            let ghost before = entries_of(found@);
            let copy = self.map[end].duplicate();
            found.push(copy);
            assert(entries_of(found@) =~= before.push(copy.entry()));
            assert(es.subrange(start as int, end + 1) =~= es.subrange(start as int, end as int).push(
                es[end as int],
            ));
            end = end + 1;
        }
        let it = MemTableIterator { entries: found, pos: 0 };
        proof {
            assert forall|i: int| end <= i < es.len() implies !range::below(
                up,
                (#[trigger] es[i]).0,
            ) by {
                assert(self.map@[end as int].entry() == es[end as int]);
                if end < i {
                    assert(key::key_lt(es[end as int].0, es[i].0));
                }
            }
            let sub = es.subrange(start as int, end as int);
            lemma_sub(es, range::slice_bound(lower), up, start as int, end as int);
            assert(it.left() =~= sub);
        }
        it
    }

    /// Whether a table with blocks of this size can hold the pairs.
    pub fn fits_in_table(&self, block_size: usize) -> (r: bool)
        requires
            self.wf(),
        ensures
            r == builder::table_storable(self.entries(), block_size),
    {
        let ghost es = self.entries();
        let mut room = Room { total: 0, len: 0, count: 0 };
        let mut i: usize = 0;
        proof {
            assert(es.take(0) =~= Seq::<Entry>::empty());
            Tally::lemma_of_none(block_size);
        }
        while i < self.map.len()
            invariant
                i <= self.map@.len(),
                es == self.entries(),
                Tally::of(es.take(i as int), block_size) == room.tally(),
                room.in_bounds(),
                room.total <= 400000 * i,
            decreases self.map@.len() - i,
        {
            let key_len: usize = self.map[i].key.len();
            let value_len: usize = bytes_as_slice(&self.map[i].value).len();
            assert(es[i as int] == self.map@[i as int].entry());
            proof {
                Tally::lemma_and(es, block_size, i as int);
            }
            if !room.take(key_len, value_len, block_size) {
                proof {
                    Tally::lemma_first(es, block_size, i + 1);
                }
                return false;
            }
            i = i + 1;
        }
        proof {
            assert(es.take(i as int) =~= es);
            Tally::lemma_all(es, block_size);
        }
        room.total + room.len + 2 * room.count + 2 < 0x1_0000_0000
    }

    /// Adds all pairs to a table builder, in ascending key order.
    pub fn flush(&self, builder: &mut SsTableBuilder)
        requires
            old(builder).wf(),
        ensures
            final(builder).wf(),
            final(builder).entries() == old(builder).entries() + self.entries(),
            final(builder).block_size() == old(builder).block_size(),
    {
        let ghost first = builder.entries();
        let ghost size = builder.block_size();
        let ghost es = self.entries();
        let mut i: usize = 0;
        assert(first + es.take(0) =~= first);
        while i < self.map.len()
            invariant
                i <= self.map@.len(),
                es == self.entries(),
                builder.wf(),
                builder.entries() == first + es.take(i as int),
                builder.block_size() == size,
            decreases self.map@.len() - i,
        {
            let e = &self.map[i];
            builder.add(KeySlice::from_slice(e.key.as_slice()), bytes_as_slice(&e.value));
            assert(es[i as int] == e.entry());
            assert(es.take(i + 1) =~= es.take(i as int).push(es[i as int]));
            assert(builder.entries() =~= first + es.take(i + 1));
            i = i + 1;
        }
        assert(es.take(i as int) =~= es);
    }
}

/// Replacing the value of an entry replaces the value of its key.
proof fn lemma_update(es: Seq<Entry>, p: int, e: Entry)
    requires
        sorted::strictly_ascending(es),
        0 <= p < es.len(),
        es[p].0 == e.0,
    ensures
        sorted::strictly_ascending(es.update(p, e)),
        sorted::map_of(es.update(p, e)) == sorted::map_of(es).insert(e.0, e.1),
{
    let ns = es.update(p, e);
    assert forall|k: Seq<u8>|
        #![trigger sorted::map_of(ns).contains_key(k)]
        #![trigger sorted::map_of(es).contains_key(k)]
        {
            let m = sorted::map_of(es).insert(e.0, e.1);
            &&& sorted::map_of(ns).contains_key(k) == m.contains_key(k)
            &&& sorted::map_of(ns).contains_key(k) ==> sorted::map_of(ns)[k] == m[k]
        } by {
        if sorted::map_of(ns).contains_key(k) {
            let i = choose|i: int| sorted::has_key_at(ns, k, i);
            assert(es[i].0 == k);
            sorted::lemma_map_of(ns, i);
            sorted::lemma_map_of(es, i);
        }
        if sorted::map_of(es).contains_key(k) {
            let i = choose|i: int| sorted::has_key_at(es, k, i);
            assert(ns[i].0 == k);
            sorted::lemma_map_of(ns, i);
        }
        if k == e.0 {
            assert(ns[p].0 == k);
            sorted::lemma_map_of(ns, p);
        }
    }
    assert(sorted::map_of(ns) =~= sorted::map_of(es).insert(e.0, e.1));
}

/// A new entry at its place adds its key.
proof fn lemma_insert(es: Seq<Entry>, p: int, e: Entry)
    requires
        sorted::strictly_ascending(es),
        sorted::is_first_not_before(es, e.0, p),
        p < es.len() ==> es[p].0 != e.0,
    ensures
        sorted::strictly_ascending(es.insert(p, e)),
        sorted::map_of(es.insert(p, e)) == sorted::map_of(es).insert(e.0, e.1),
{
    let ns = es.insert(p, e);
    assert forall|i: int, j: int|
        #![trigger ns[i], ns[j]]
        0 <= i < j < ns.len() implies key::key_lt(ns[i].0, ns[j].0) by {
        let a = if i < p {
            i
        } else {
            i - 1
        };
        let b = if j < p {
            j
        } else {
            j - 1
        };
        if i == p {
            assert(ns[j] == es[b]);
            if b > p {
                assert(key::key_lt(es[p].0, es[b].0));
            }
        } else if j == p {
            assert(ns[i] == es[a]);
        } else {
            assert(ns[i] == es[a] && ns[j] == es[b]);
        }
    }
    assert forall|k: Seq<u8>|
        #![trigger sorted::map_of(ns).contains_key(k)]
        #![trigger sorted::map_of(es).contains_key(k)]
        {
            let m = sorted::map_of(es).insert(e.0, e.1);
            &&& sorted::map_of(ns).contains_key(k) == m.contains_key(k)
            &&& sorted::map_of(ns).contains_key(k) ==> sorted::map_of(ns)[k] == m[k]
        } by {
        if sorted::map_of(ns).contains_key(k) {
            let i = choose|i: int| sorted::has_key_at(ns, k, i);
            sorted::lemma_map_of(ns, i);
            if i < p {
                assert(ns[i] == es[i]);
                sorted::lemma_map_of(es, i);
            } else if i > p {
                assert(ns[i] == es[i - 1]);
                sorted::lemma_map_of(es, i - 1);
                if i - 1 > p {
                    assert(key::key_lt(es[p].0, es[i - 1].0));
                }
            }
        }
        if sorted::map_of(es).contains_key(k) {
            let i = choose|i: int| sorted::has_key_at(es, k, i);
            if i < p {
                assert(ns[i] == es[i]);
                sorted::lemma_map_of(ns, i);
            } else {
                assert(ns[i + 1] == es[i]);
                sorted::lemma_map_of(ns, i + 1);
            }
        }
        if k == e.0 {
            assert(ns[p].0 == k);
            sorted::lemma_map_of(ns, p);
        }
    }
    assert(sorted::map_of(ns) =~= sorted::map_of(es).insert(e.0, e.1));
}

/// The entries between the ends of a range are the pairs in the range.
proof fn lemma_sub(
    es: Seq<Entry>,
    lower: Bound<Seq<u8>>,
    upper: Bound<Seq<u8>>,
    start: int,
    end: int,
)
    requires
        sorted::strictly_ascending(es),
        0 <= start <= end <= es.len(),
        forall|i: int| 0 <= i < start ==> !range::above(lower, (#[trigger] es[i]).0),
        forall|i: int| start <= i < es.len() ==> range::above(lower, (#[trigger] es[i]).0),
        forall|i: int| start <= i < end ==> range::below(upper, (#[trigger] es[i]).0),
        forall|i: int| end <= i < es.len() ==> !range::below(upper, (#[trigger] es[i]).0),
    ensures
        sorted::strictly_ascending(es.subrange(start, end)),
        sorted::map_of(es.subrange(start, end)) == range::in_range(
            sorted::map_of(es),
            lower,
            upper,
        ),
{
    let sub = es.subrange(start, end);
    let m = range::in_range(sorted::map_of(es), lower, upper);
    assert forall|i: int, j: int|
        #![trigger sub[i], sub[j]]
        0 <= i < j < sub.len() implies key::key_lt(sub[i].0, sub[j].0) by {
        assert(sub[i] == es[i + start] && sub[j] == es[j + start]);
    }
    assert forall|k: Seq<u8>|
        #![trigger sorted::map_of(sub).contains_key(k)]
        #![trigger m.contains_key(k)]
        {
            &&& sorted::map_of(sub).contains_key(k) == m.contains_key(k)
            &&& m.contains_key(k) ==> sorted::map_of(sub)[k] == m[k]
        } by {
        if sorted::map_of(sub).contains_key(k) {
            let i = choose|i: int| sorted::has_key_at(sub, k, i);
            assert(sub[i] == es[i + start]);
            sorted::lemma_map_of(sub, i);
            sorted::lemma_map_of(es, i + start);
        }
        if m.contains_key(k) {
            let i = choose|i: int| sorted::has_key_at(es, k, i);
            assert(es[i].0 == k);
            assert(start <= i < end);
            assert(sub[i - start] == es[i]);
            sorted::lemma_map_of(sub, i - start);
            sorted::lemma_map_of(es, i);
        }
    }
    assert(sorted::map_of(sub) =~= m);
}

/// An iterator over a range of a mem-table, as it was when the iterator was
/// created.
pub struct MemTableIterator {
    entries: Vec<MemEntry>,
    pos: usize,
}

impl MemTableIterator {
    /// The pairs that are still to come, in ascending key order.
    pub closed spec fn left(&self) -> Seq<Entry> {
        entries_of(self.entries@).skip(self.pos as int)
    }

    /// The position is within the list.
    pub closed spec fn in_bounds(&self) -> bool {
        self.pos <= self.entries@.len()
    }
}

impl StorageIterator for MemTableIterator {
    open spec fn wf(&self) -> bool {
        self.in_bounds() && sorted::strictly_ascending(self.left())
    }

    open spec fn rest(&self) -> Contents {
        sorted::map_of(self.left())
    }

    open spec fn infallible(&self) -> bool {
        true
    }

    open spec fn may_fail_with(&self, e: StorageError) -> bool {
        false
    }

    proof fn lemma_finite(&self) {
        sorted::lemma_map_of_finite(self.left());
    }

    fn key(&self) -> (k: KeySlice<'_>) {
        proof {
            sorted::lemma_first(self.left());
        }
        KeySlice::from_slice(self.entries[self.pos].key.as_slice())
    }

    fn value(&self) -> (v: &[u8]) {
        proof {
            sorted::lemma_first(self.left());
        }
        bytes_as_slice(&self.entries[self.pos].value)
    }

    fn is_valid(&self) -> (r: bool) {
        proof {
            sorted::lemma_first(self.left());
        }
        self.pos < self.entries.len()
    }

    fn next(&mut self) -> (r: Result<(), StorageError>) {
        proof {
            sorted::lemma_first(self.left());
            sorted::lemma_skip_ascending(self.left(), 1);
        }
        assert(self.pos < self.entries.len());
        self.pos = self.pos + 1;
        assert(self.left() =~= old(self).left().skip(1));
        assert(self.left() =~= old(self).left().drop_first());
        Ok(())
    }
}

} // verus!
