//! Merging iterators of one type.
use std::cmp::Ordering;
use vstd::prelude::*;

use super::StorageIterator;
use crate::error::StorageError;
use crate::iterators;
use crate::iterators::Contents;
use crate::key;
use crate::key::KeySlice;

verus! {

broadcast use crate::key::group_key_order;

/// An iterator with its index among those that are merged.
pub struct HeapWrapper<I: StorageIterator>(pub usize, pub Box<I>);

impl<I: StorageIterator> HeapWrapper<I> {
    /// The iterator can be used, and is valid.
    pub open spec fn live(&self) -> bool {
        self.1.wf() && iterators::has_keys(self.1.rest())
    }

    /// The key `k` is still to come, with the value `v`.
    pub open spec fn has(&self, k: Seq<u8>, v: Seq<u8>) -> bool {
        self.1.rest().contains_key(k) && self.1.rest()[k] == v
    }

    /// How the iterator compares to `other`. The one that goes first is the
    /// greater one: the one with the smaller current key and, of two with the
    /// same key, the one with the smaller index.
    pub open spec fn order(&self, other: &Self) -> Ordering {
        let mine = iterators::least(self.1.rest());
        let theirs = iterators::least(other.1.rest());
        if key::key_lt(mine, theirs) || (mine == theirs && self.0 < other.0) {
            Ordering::Greater
        } else if mine == theirs && self.0 == other.0 {
            Ordering::Equal
        } else {
            Ordering::Less
        }
    }

    /// The current key comes before that of `other`, or is the same and the
    /// index is not larger.
    pub open spec fn ranks_before(&self, other: &Self) -> bool {
        let mine = iterators::least(self.1.rest());
        let theirs = iterators::least(other.1.rest());
        key::key_lt(mine, theirs) || (mine == theirs && self.0 <= other.0)
    }

    /// The order is total: it turns round with its arguments, it is equal only
    /// for the same key and the same index, and it is transitive.
    pub proof fn law_order(a: &Self, b: &Self, c: &Self)
        ensures
            (a.order(b) == Ordering::Greater) == (b.order(a) == Ordering::Less),
            (a.order(b) == Ordering::Equal) == (b.order(a) == Ordering::Equal),
            a.order(a) == Ordering::Equal,
            (a.order(b) == Ordering::Equal) == (iterators::least(a.1.rest()) == iterators::least(
                b.1.rest(),
            ) && a.0 == b.0),
            a.ranks_before(b) == (a.order(b) != Ordering::Less),
            key::key_lt(iterators::least(a.1.rest()), iterators::least(b.1.rest())) ==> a.order(b)
                == Ordering::Greater && b.order(a) == Ordering::Less,
            iterators::least(a.1.rest()) == iterators::least(b.1.rest()) && a.0 < b.0 ==> a.order(
                b,
            ) == Ordering::Greater && b.order(a) == Ordering::Less,
            a.ranks_before(b) || b.ranks_before(a),
            a.ranks_before(b) && b.ranks_before(c) ==> a.ranks_before(c),
    {
    }

    /// Compares the iterators by their current keys, then by their indices; the
    /// smaller is the greater one.
    pub fn cmp(&self, other: &Self) -> (r: Ordering)
        requires
            self.live(),
            other.live(),
        ensures
            r == self.order(other),
    {
        let mine = self.1.key();
        let theirs = other.1.key();
        if mine.lt(theirs) {
            Ordering::Greater
        } else if theirs.lt(mine) {
            Ordering::Less
        } else if self.0 < other.0 {
            Ordering::Greater
        } else if self.0 == other.0 {
            Ordering::Equal
        } else {
            Ordering::Less
        }
    }

    /// Whether this iterator goes first: by its current key, then by its index.
    fn goes_first(&self, other: &Self) -> (r: bool)
        requires
            self.live(),
            other.live(),
        ensures
            r == self.ranks_before(other),
    {
        match self.cmp(other) {
            Ordering::Less => false,
            Ordering::Equal => true,
            Ordering::Greater => true,
        }
    }
}

/// The key `k` is still to come from the iterator with index `id`, with the
/// value `v`.
pub open spec fn yields<I: StorageIterator>(
    ws: Seq<HeapWrapper<I>>,
    id: usize,
    k: Seq<u8>,
    v: Seq<u8>,
) -> bool {
    exists|j: int| 0 <= j < ws.len() && (#[trigger] ws[j]).0 == id && ws[j].has(k, v)
}

/// Among the iterators that have `k`, number `j` has the smallest index.
pub open spec fn is_owner<I: StorageIterator>(
    ws: Seq<HeapWrapper<I>>,
    k: Seq<u8>,
    j: int,
) -> bool {
    &&& 0 <= j < ws.len()
    &&& ws[j].1.rest().contains_key(k)
    &&& forall|i: int|
        0 <= i < ws.len() && (#[trigger] ws[i]).1.rest().contains_key(k) ==> ws[j].0 <= ws[i].0
}

/// What the iterators yield together: every key of any of them, with the value
/// that the iterator with the smallest index has for it.
pub open spec fn merged<I: StorageIterator>(ws: Seq<HeapWrapper<I>>) -> Contents {
    Map::new(
        |k: Seq<u8>|
            exists|j: int| 0 <= j < ws.len() && (#[trigger] ws[j]).1.rest().contains_key(k),
        |k: Seq<u8>| ws[choose|j: int| is_owner(ws, k, j)].1.rest()[k],
    )
}

/// No two iterators have the same index.
pub open spec fn distinct<I: StorageIterator>(ws: Seq<HeapWrapper<I>>) -> bool {
    forall|i: int, j: int|
        #![trigger ws[i], ws[j]]
        0 <= i < j < ws.len() ==> ws[i].0 != ws[j].0
}

/// Every iterator is valid.
pub open spec fn all_live<I: StorageIterator>(ws: Seq<HeapWrapper<I>>) -> bool {
    forall|j: int| 0 <= j < ws.len() ==> (#[trigger] ws[j]).live()
}

/// No iterator ever fails.
pub open spec fn all_infallible<I: StorageIterator>(ws: Seq<HeapWrapper<I>>) -> bool {
    forall|j: int| 0 <= j < ws.len() ==> (#[trigger] ws[j]).1.infallible()
}

/// One of the iterators may fail with `e`.
pub open spec fn any_may_fail_with<I: StorageIterator>(
    ws: Seq<HeapWrapper<I>>,
    e: StorageError,
) -> bool {
    exists|j: int| 0 <= j < ws.len() && (#[trigger] ws[j]).1.may_fail_with(e)
}

/// What is left of `ws` when all iterators were to move past `k`, those with a
/// smaller index first, and number `j` failed with `e`: it is gone, those with
/// a smaller index have moved past `k`, and the others are as they were.
pub open spec fn lost<I: StorageIterator>(
    ws: Seq<HeapWrapper<I>>,
    left: Seq<HeapWrapper<I>>,
    k: Seq<u8>,
    e: StorageError,
    j: int,
) -> bool {
    &&& 0 <= j < ws.len()
    &&& iterators::least(ws[j].1.rest()) == k
    &&& ws[j].1.may_fail_with(e)
    &&& forall|i: int| 0 <= i < left.len() ==> (#[trigger] left[i]).0 != ws[j].0
    &&& forall|id: usize, q: Seq<u8>, v: Seq<u8>| #[trigger]
        yields(left, id, q, v) == (id != ws[j].0 && (q != k || id > ws[j].0) && yields(
            ws,
            id,
            q,
            v,
        ))
}

/// `w` goes before each of the iterators.
pub open spec fn goes_before_all<I: StorageIterator>(
    w: HeapWrapper<I>,
    ws: Seq<HeapWrapper<I>>,
) -> bool {
    forall|j: int| 0 <= j < ws.len() ==> w.ranks_before(#[trigger] &ws[j])
}

/// The list without number `b`, whose place the last one takes.
pub open spec fn without<I: StorageIterator>(ws: Seq<HeapWrapper<I>>, b: int) -> Seq<
    HeapWrapper<I>,
> {
    ws.update(b, ws.last()).drop_last()
}

proof fn lemma_owner_exists<I: StorageIterator>(
    ws: Seq<HeapWrapper<I>>,
    k: Seq<u8>,
    i: int,
) -> (j: int)
    requires
        0 <= i < ws.len(),
        ws[i].1.rest().contains_key(k),
    ensures
        is_owner(ws, k, j),
    decreases ws[i].0,
{
    if is_owner(ws, k, i) {
        i
    } else {
        let l = choose|l: int|
            0 <= l < ws.len() && (#[trigger] ws[l]).1.rest().contains_key(k) && ws[l].0 < ws[i].0;
        lemma_owner_exists(ws, k, l)
    }
}

/// The value of a key is that of its owner.
proof fn lemma_merged<I: StorageIterator>(ws: Seq<HeapWrapper<I>>, k: Seq<u8>, j: int)
    requires
        distinct(ws),
        is_owner(ws, k, j),
    ensures
        merged(ws).contains_key(k),
        merged(ws)[k] == ws[j].1.rest()[k],
{
    let c = choose|c: int| is_owner(ws, k, c);
    assert(is_owner(ws, k, c));
    assert(ws[c].0 == ws[j].0);
    assert(c == j);
}

/// If one list has all that another has of a key, it has the key if the other
/// does; and its owner has no larger index.
proof fn lemma_owner_of<I: StorageIterator>(
    ws: Seq<HeapWrapper<I>>,
    xs: Seq<HeapWrapper<I>>,
    k: Seq<u8>,
    j: int,
) -> (c: int)
    requires
        is_owner(ws, k, j),
        forall|id: usize, v: Seq<u8>| #[trigger] yields(ws, id, k, v) ==> yields(xs, id, k, v),
    ensures
        is_owner(xs, k, c),
        xs[c].0 <= ws[j].0,
        xs[c].0 == ws[j].0 && distinct(xs) ==> xs[c].1.rest()[k] == ws[j].1.rest()[k],
{
    assert(ws[j].has(k, ws[j].1.rest()[k]));
    assert(yields(ws, ws[j].0, k, ws[j].1.rest()[k]));
    let a = choose|a: int|
        0 <= a < xs.len() && (#[trigger] xs[a]).0 == ws[j].0 && xs[a].has(k, ws[j].1.rest()[k]);
    lemma_owner_exists(xs, k, a)
}

/// Two lists that have the same of a key have the same value for it together.
proof fn lemma_merged_agree<I: StorageIterator>(
    ws: Seq<HeapWrapper<I>>,
    xs: Seq<HeapWrapper<I>>,
    k: Seq<u8>,
)
    requires
        distinct(ws),
        distinct(xs),
        forall|id: usize, v: Seq<u8>| #[trigger] yields(ws, id, k, v) == yields(xs, id, k, v),
    ensures
        merged(ws).contains_key(k) == merged(xs).contains_key(k),
        merged(ws).contains_key(k) ==> merged(ws)[k] == merged(xs)[k],
{
    if merged(ws).contains_key(k) {
        let i = choose|i: int| 0 <= i < ws.len() && (#[trigger] ws[i]).1.rest().contains_key(k);
        let j = lemma_owner_exists(ws, k, i);
        lemma_merged(ws, k, j);
        let c = lemma_owner_of(ws, xs, k, j);
        lemma_merged(xs, k, c);
        let d = lemma_owner_of(xs, ws, k, c);
        assert(ws[j].0 <= ws[d].0);
    } else if merged(xs).contains_key(k) {
        let i = choose|i: int| 0 <= i < xs.len() && (#[trigger] xs[i]).1.rest().contains_key(k);
        let j = lemma_owner_exists(xs, k, i);
        let c = lemma_owner_of(xs, ws, k, j);
        lemma_merged(ws, k, c);
    }
}

/// What a longer list yields.
proof fn lemma_yields_push<I: StorageIterator>(
    ws: Seq<HeapWrapper<I>>,
    w: HeapWrapper<I>,
    id: usize,
    k: Seq<u8>,
    v: Seq<u8>,
)
    ensures
        yields(ws.push(w), id, k, v) == (yields(ws, id, k, v) || (w.0 == id && w.has(k, v))),
{
    let xs = ws.push(w);
    if yields(ws, id, k, v) {
        let j = choose|j: int| 0 <= j < ws.len() && (#[trigger] ws[j]).0 == id && ws[j].has(k, v);
        assert(xs[j] == ws[j]);
    }
    if w.0 == id && w.has(k, v) {
        assert(xs[ws.len() as int] == w);
    }
    if yields(xs, id, k, v) {
        let j = choose|j: int| 0 <= j < xs.len() && (#[trigger] xs[j]).0 == id && xs[j].has(k, v);
        if j < ws.len() {
            assert(ws[j] == xs[j]);
        }
    }
}

/// What a list yields, given what it yields without one of its iterators.
proof fn lemma_yields_without<I: StorageIterator>(
    ws: Seq<HeapWrapper<I>>,
    b: int,
    id: usize,
    k: Seq<u8>,
    v: Seq<u8>,
)
    requires
        0 <= b < ws.len(),
    ensures
        yields(ws, id, k, v) == (yields(without(ws, b), id, k, v) || (ws[b].0 == id && ws[b].has(
            k,
            v,
        ))),
{
    let xs = without(ws, b);
    if yields(ws, id, k, v) {
        let j = choose|j: int| 0 <= j < ws.len() && (#[trigger] ws[j]).0 == id && ws[j].has(k, v);
        if j == b {
        } else if j < ws.len() - 1 {
            assert(xs[j] == ws[j]);
        } else {
            assert(xs[b] == ws[j]);
        }
    }
    if yields(xs, id, k, v) {
        let j = choose|j: int| 0 <= j < xs.len() && (#[trigger] xs[j]).0 == id && xs[j].has(k, v);
        if j == b {
            assert(ws[ws.len() - 1] == xs[j]);
        } else {
            assert(ws[j] == xs[j]);
        }
    }
}

proof fn lemma_merged_finite<I: StorageIterator>(ws: Seq<HeapWrapper<I>>)
    requires
        forall|j: int| 0 <= j < ws.len() ==> (#[trigger] ws[j]).1.wf(),
    ensures
        merged(ws).dom().finite(),
    decreases ws.len(),
{
    if ws.len() == 0 {
        assert(merged(ws).dom() =~= Set::empty());
    } else {
        let last = ws.last().1.rest();
        let init = ws.drop_last();
        assert forall|j: int| 0 <= j < init.len() implies (#[trigger] init[j]).1.wf() by {
            assert(init[j] == ws[j]);
        }
        lemma_merged_finite(init);
        ws[ws.len() - 1].1.lemma_finite();
        assert forall|k: Seq<u8>| #[trigger] merged(ws).dom().contains(k) implies merged(
            init,
        ).dom().union(last.dom()).contains(k) by {
            let j = choose|j: int| 0 <= j < ws.len() && (#[trigger] ws[j]).1.rest().contains_key(k);
            if j < ws.len() - 1 {
                assert(init[j] == ws[j]);
            }
        }
        vstd::set_lib::lemma_set_subset_finite(
            merged(init).dom().union(last.dom()),
            merged(ws).dom(),
        );
    }
}

/// The position of the iterator that goes first; there is none in an empty list.
fn top<I: StorageIterator>(ws: &Vec<HeapWrapper<I>>) -> (r: Option<usize>)
    requires
        all_live(ws@),
    ensures
        match r {
            Some(b) => b < ws@.len() && goes_before_all(ws@[b as int], ws@),
            None => ws@.len() == 0,
        },
{
    if ws.len() == 0 {
        return None;
    }
    let mut best: usize = 0;
    let mut i: usize = 1;
    while i < ws.len()
        invariant
            all_live(ws@),
            best < i <= ws@.len(),
            forall|j: int| 0 <= j < i ==> ws@[best as int].ranks_before(#[trigger] &ws@[j]),
        decreases ws@.len() - i,
    {
        if !ws[best].goes_first(&ws[i]) {
            best = i;
        }
        i = i + 1;
    }
    Some(best)
}

/// Taking one iterator out of a list leaves the others valid and distinct.
proof fn lemma_without<I: StorageIterator>(ws: Seq<HeapWrapper<I>>, b: int)
    requires
        0 <= b < ws.len(),
        distinct(ws),
    ensures
        distinct(without(ws, b)),
        all_live(ws) ==> all_live(without(ws, b)),
        all_infallible(ws) ==> all_infallible(without(ws, b)),
        forall|e: StorageError| #[trigger]
            any_may_fail_with(without(ws, b), e) ==> any_may_fail_with(ws, e),
        forall|j: int| 0 <= j < ws.len() - 1 ==> ws.contains(#[trigger] without(ws, b)[j]),
        forall|j: int|
            0 <= j < ws.len() - 1 ==> (#[trigger] without(ws, b)[j]).0 != ws[b].0,
{
    let xs = without(ws, b);
    assert forall|j: int| 0 <= j < xs.len() implies #[trigger] xs[j] == if j == b {
        ws[ws.len() - 1]
    } else {
        ws[j]
    } by {}
    assert forall|e: StorageError| #[trigger] any_may_fail_with(xs, e) implies any_may_fail_with(
        ws,
        e,
    ) by {
        let j = choose|j: int| 0 <= j < xs.len() && (#[trigger] xs[j]).1.may_fail_with(e);
        let i = if j == b {
            ws.len() - 1
        } else {
            j
        };
        assert(ws[i].1.may_fail_with(e));
    }
}

/// One more iterator may fail as it does.
proof fn lemma_fail_push<I: StorageIterator>(
    ws: Seq<HeapWrapper<I>>,
    w: HeapWrapper<I>,
    e: StorageError,
)
    ensures
        any_may_fail_with(ws.push(w), e) == (any_may_fail_with(ws, e) || w.1.may_fail_with(e)),
{
    let xs = ws.push(w);
    if any_may_fail_with(ws, e) {
        let j = choose|j: int| 0 <= j < ws.len() && (#[trigger] ws[j]).1.may_fail_with(e);
        assert(xs[j] == ws[j]);
    }
    if w.1.may_fail_with(e) {
        assert(xs[ws.len() as int] == w);
    }
    if any_may_fail_with(xs, e) {
        let j = choose|j: int| 0 <= j < xs.len() && (#[trigger] xs[j]).1.may_fail_with(e);
        if j < ws.len() {
            assert(ws[j] == xs[j]);
        }
    }
}

/// If the iterator that goes first is past `k`, no iterator has `k`.
proof fn lemma_none_has<I: StorageIterator>(ws: Seq<HeapWrapper<I>>, b: int, k: Seq<u8>)
    requires
        all_live(ws),
        0 <= b < ws.len(),
        goes_before_all(ws[b], ws),
        key::key_le(k, iterators::least(ws[b].1.rest())),
        k != iterators::least(ws[b].1.rest()),
    ensures
        forall|id: usize, v: Seq<u8>| !#[trigger] yields(ws, id, k, v),
{
    assert forall|id: usize, v: Seq<u8>| !#[trigger] yields(ws, id, k, v) by {
        if yields(ws, id, k, v) {
            let j = choose|j: int|
                0 <= j < ws.len() && (#[trigger] ws[j]).0 == id && ws[j].has(k, v);
            ws[j].1.lemma_finite();
            iterators::lemma_least(ws[j].1.rest());
            assert(ws[b].ranks_before(&ws[j]));
        }
    }
}

/// A list that yields no more than another has no other indices.
proof fn lemma_ids_kept<I: StorageIterator>(
    ws: Seq<HeapWrapper<I>>,
    xs: Seq<HeapWrapper<I>>,
    id: usize,
)
    requires
        all_live(xs),
        forall|i: usize, k: Seq<u8>, v: Seq<u8>| #[trigger]
            yields(xs, i, k, v) ==> yields(ws, i, k, v),
        forall|j: int| 0 <= j < ws.len() ==> (#[trigger] ws[j]).0 != id,
    ensures
        forall|j: int| 0 <= j < xs.len() ==> (#[trigger] xs[j]).0 != id,
{
    assert forall|j: int| 0 <= j < xs.len() implies (#[trigger] xs[j]).0 != id by {
        let k = choose|k: Seq<u8>| xs[j].1.rest().contains_key(k);
        assert(xs[j].has(k, xs[j].1.rest()[k]));
        assert(yields(xs, xs[j].0, k, xs[j].1.rest()[k]));
        assert(yields(ws, xs[j].0, k, xs[j].1.rest()[k]));
    }
}

/// An iterator that goes before a list goes before one that yields no more.
proof fn lemma_before_kept<I: StorageIterator>(
    w: HeapWrapper<I>,
    ws: Seq<HeapWrapper<I>>,
    xs: Seq<HeapWrapper<I>>,
)
    requires
        goes_before_all(w, ws),
        all_live(ws),
        all_live(xs),
        forall|i: usize, k: Seq<u8>, v: Seq<u8>| #[trigger]
            yields(xs, i, k, v) ==> yields(ws, i, k, v),
    ensures
        goes_before_all(w, xs),
{
    assert forall|j: int| 0 <= j < xs.len() implies w.ranks_before(#[trigger] &xs[j]) by {
        xs[j].1.lemma_finite();
        iterators::lemma_least(xs[j].1.rest());
        let k = iterators::least(xs[j].1.rest());
        assert(xs[j].has(k, xs[j].1.rest()[k]));
        assert(yields(xs, xs[j].0, k, xs[j].1.rest()[k]));
        assert(yields(ws, xs[j].0, k, xs[j].1.rest()[k]));
        let i = choose|i: int|
            0 <= i < ws.len() && (#[trigger] ws[i]).0 == xs[j].0 && ws[i].has(
                k,
                xs[j].1.rest()[k],
            );
        ws[i].1.lemma_finite();
        iterators::lemma_least(ws[i].1.rest());
        assert(w.ranks_before(&ws[i]));
    }
}

/// An iterator that goes before a list goes before the list without one.
proof fn lemma_before_without<I: StorageIterator>(
    w: HeapWrapper<I>,
    ws: Seq<HeapWrapper<I>>,
    b: int,
)
    requires
        0 <= b < ws.len(),
        goes_before_all(w, ws),
    ensures
        goes_before_all(w, without(ws, b)),
{
    let xs = without(ws, b);
    assert forall|j: int| 0 <= j < xs.len() implies w.ranks_before(#[trigger] &xs[j]) by {
        let i = if j == b {
            ws.len() - 1
        } else {
            j
        };
        assert(xs[j] == ws[i]);
        assert(w.ranks_before(&ws[i]));
    }
}

/// The indices of the iterators that have `k`.
spec fn ids_with<I: StorageIterator>(ws: Seq<HeapWrapper<I>>, k: Seq<u8>) -> Set<usize> {
    Set::new(|id: usize| exists|v: Seq<u8>| yields(ws, id, k, v))
}

proof fn lemma_ids_finite<I: StorageIterator>(ws: Seq<HeapWrapper<I>>, k: Seq<u8>)
    ensures
        ids_with(ws, k).finite(),
{
    let ids = ws.map_values(|w: HeapWrapper<I>| w.0);
    assert forall|id: usize| #[trigger] ids_with(ws, k).contains(id) implies ids.to_set().contains(
        id,
    ) by {
        let v = choose|v: Seq<u8>| yields(ws, id, k, v);
        let j = choose|j: int| 0 <= j < ws.len() && (#[trigger] ws[j]).0 == id && ws[j].has(k, v);
        assert(ids[j] == id);
    }
    vstd::seq_lib::seq_to_set_is_finite(ids);
    vstd::set_lib::lemma_set_subset_finite(ids.to_set(), ids_with(ws, k));
}

/// Moves every iterator that stands on `k` past it, those with a smaller index
/// first; drops those that become invalid. One that fails is dropped too, and
/// the rest is left as it is then.
fn skip_key<I: StorageIterator>(ws: &mut Vec<HeapWrapper<I>>, k: KeySlice) -> (r: Result<
    (),
    StorageError,
>)
    requires
        all_live(old(ws)@),
        distinct(old(ws)@),
        forall|j: int|
            0 <= j < old(ws)@.len() ==> key::key_le(
                k@,
                iterators::least((#[trigger] old(ws)@[j]).1.rest()),
            ),
    ensures
        all_live(final(ws)@),
        distinct(final(ws)@),
        r is Ok ==> forall|id: usize, q: Seq<u8>, v: Seq<u8>| #[trigger]
            yields(final(ws)@, id, q, v) == (q != k@ && yields(old(ws)@, id, q, v)),
        r matches Err(e) ==> exists|j: int| #[trigger] lost(old(ws)@, final(ws)@, k@, e, j),
        forall|e: StorageError| #[trigger]
            any_may_fail_with(final(ws)@, e) ==> any_may_fail_with(old(ws)@, e),
        all_infallible(old(ws)@) ==> r is Ok && all_infallible(final(ws)@),
{
    let ghost first = ws@;
    // the iterators with an index below this one are past the key
    let ghost mut bound: int = 0;
    loop
        invariant
            first == old(ws)@,
            all_live(ws@),
            distinct(ws@),
            forall|j: int|
                0 <= j < ws@.len() && iterators::least((#[trigger] ws@[j]).1.rest()) == k@
                    ==> first.contains(ws@[j]),
            forall|e: StorageError| #[trigger]
                any_may_fail_with(ws@, e) ==> any_may_fail_with(first, e),
            forall|j: int|
                0 <= j < ws@.len() ==> key::key_le(
                    k@,
                    iterators::least((#[trigger] ws@[j]).1.rest()),
                ),
            forall|id: usize, q: Seq<u8>, v: Seq<u8>|
                q != k@ ==> #[trigger] yields(ws@, id, q, v) == yields(first, id, q, v),
            forall|id: usize, v: Seq<u8>| #[trigger]
                yields(ws@, id, k@, v) == (id >= bound && yields(first, id, k@, v)),
            all_infallible(first) ==> all_infallible(ws@),
        decreases ids_with(ws@, k@).len(),
    {
        let b: usize = match top(ws) {
            None => {
                return Ok(());
            },
            Some(b) => b,
        };
        if !ws[b].1.key().same(k) {
            proof {
                lemma_none_has(ws@, b as int, k@);
            }
            return Ok(());
        }
        let ghost whole = ws@;
        let mut w = ws.swap_remove(b);
        let ghost others = ws@;
        let ghost w0 = w;
        assert(others == without(whole, b as int));
        proof {
            w0.1.lemma_finite();
            iterators::lemma_least(w0.1.rest());
            lemma_without(whole, b as int);
            lemma_ids_finite(whole, k@);
            // no iterator with a smaller index stands on the key
            assert forall|id: usize, v: Seq<u8>| #[trigger] yields(whole, id, k@, v) implies id
                >= w0.0 by {
                let j = choose|j: int|
                    0 <= j < whole.len() && (#[trigger] whole[j]).0 == id && whole[j].has(k@, v);
                whole[j].1.lemma_finite();
                iterators::lemma_least(whole[j].1.rest());
                assert(whole[b as int].ranks_before(&whole[j]));
            }
            assert(w0.has(k@, w0.1.rest()[k@]));
            lemma_yields_without(whole, b as int, w0.0, k@, w0.1.rest()[k@]);
            assert(w0.0 >= bound);
        }
        match w.1.next() {
            Err(e) => {
                proof {
                    assert(whole[b as int] == w0);
                    let j = choose|j: int| 0 <= j < first.len() && first[j] == w0;
                    assert forall|id: usize, q: Seq<u8>, v: Seq<u8>| #[trigger]
                        yields(ws@, id, q, v) == (id != first[j].0 && (q != k@ || id > first[j].0)
                            && yields(first, id, q, v)) by {
                        lemma_yields_without(whole, b as int, id, q, v);
                        if id == w0.0 && yields(others, id, q, v) {
                            let i = choose|i: int|
                                0 <= i < others.len() && (#[trigger] others[i]).0 == id
                                    && others[i].has(q, v);
                            assert(without(whole, b as int)[i].0 != w0.0);
                        }
                    }
                    assert(lost(first, ws@, k@, e, j));
                }
                return Err(e);
            },
            Ok(()) => {},
        }
        let ghost w1 = w;
        proof {
            w1.1.lemma_finite();
        }
        if w.1.is_valid() {
            ws.push(w);
            proof {
                iterators::lemma_least(w1.1.rest());
                assert(w0.1.rest().contains_key(iterators::least(w1.1.rest())));
            }
        }
        proof {
            assert forall|j: int|
                0 <= j < ws@.len() && iterators::least((#[trigger] ws@[j]).1.rest())
                    == k@ implies first.contains(ws@[j]) by {
                if j < others.len() {
                    assert(ws@[j] == others[j]);
                    assert(whole.contains(without(whole, b as int)[j]));
                } else {
                    iterators::lemma_least(w1.1.rest());
                }
            }
            assert forall|e: StorageError| #[trigger]
                any_may_fail_with(ws@, e) implies any_may_fail_with(first, e) by {
                lemma_fail_push(others, w1, e);
                if w1.1.may_fail_with(e) {
                    assert(whole[b as int].1.may_fail_with(e));
                    assert(any_may_fail_with(whole, e));
                }
            }
            assert forall|j: int| 0 <= j < ws@.len() implies key::key_le(
                k@,
                iterators::least((#[trigger] ws@[j]).1.rest()),
            ) by {
                if j < others.len() {
                    assert(ws@[j] == others[j]);
                    assert(others[j] == if j == b {
                        whole[whole.len() - 1]
                    } else {
                        whole[j]
                    });
                }
            }
            assert forall|id: usize, q: Seq<u8>, v: Seq<u8>| #[trigger]
                yields(ws@, id, q, v) == (yields(whole, id, q, v) && !(q == k@ && id == w0.0)) by {
                lemma_yields_without(whole, b as int, id, q, v);
                lemma_yields_push(others, w1, id, q, v);
                if id == w0.0 && yields(others, id, q, v) {
                    let j = choose|j: int|
                        0 <= j < others.len() && (#[trigger] others[j]).0 == id && others[j].has(
                            q,
                            v,
                        );
                    assert(without(whole, b as int)[j].0 != w0.0);
                }
            }
            bound = w0.0 + 1;
            assert(ids_with(whole, k@).contains(w0.0));
            assert(ids_with(ws@, k@) =~= ids_with(whole, k@).remove(w0.0)) by {
                assert forall|id: usize| #[trigger] ids_with(ws@, k@).contains(id) == ids_with(
                    whole,
                    k@,
                ).remove(w0.0).contains(id) by {
                    if ids_with(ws@, k@).contains(id) {
                        let v = choose|v: Seq<u8>| yields(ws@, id, k@, v);
                        assert(yields(whole, id, k@, v));
                    }
                    if ids_with(whole, k@).contains(id) && id != w0.0 {
                        let v = choose|v: Seq<u8>| yields(whole, id, k@, v);
                        assert(yields(ws@, id, k@, v));
                    }
                }
            }
        }
    }
}

/// An iterator that is valid and goes before all others holds the first key of
/// them all, and owns it.
proof fn lemma_turn<I: StorageIterator>(waiting: Seq<HeapWrapper<I>>, cur: HeapWrapper<I>)
    requires
        distinct(waiting.push(cur)),
        all_live(waiting),
        cur.live(),
        goes_before_all(cur, waiting),
    ensures
        iterators::has_keys(merged(waiting.push(cur))),
        iterators::least(merged(waiting.push(cur))) == iterators::least(cur.1.rest()),
        merged(waiting.push(cur))[iterators::least(cur.1.rest())]
            == cur.1.rest()[iterators::least(cur.1.rest())],
{
    let ws = waiting.push(cur);
    let k = iterators::least(cur.1.rest());
    let n = waiting.len() as int;
    assert(ws[n] == cur);
    cur.1.lemma_finite();
    iterators::lemma_least(cur.1.rest());
    assert forall|i: int, q: Seq<u8>|
        0 <= i < ws.len() && (#[trigger] ws[i]).1.rest().contains_key(
            q,
        ) implies #[trigger] key::key_le(k, q) && (q == k ==> cur.0 <= ws[i].0) by {
        if i < n {
            assert(ws[i] == waiting[i]);
            waiting[i].1.lemma_finite();
            iterators::lemma_least(waiting[i].1.rest());
            assert(cur.ranks_before(&waiting[i]));
        }
    }
    assert(is_owner(ws, k, n));
    lemma_merged(ws, k, n);
    assert forall|q: Seq<u8>| #[trigger] merged(ws).contains_key(q) implies key::key_le(k, q) by {
        let i = choose|i: int| 0 <= i < ws.len() && (#[trigger] ws[i]).1.rest().contains_key(q);
        assert(key::key_le(k, q));
    }
    assert(iterators::is_least(merged(ws), k));
    iterators::lemma_least_unique(merged(ws), k);
}

/// Moving number `b` of a list to its end changes neither what the list yields
/// nor that its indices are distinct.
proof fn lemma_to_end<I: StorageIterator>(ws: Seq<HeapWrapper<I>>, b: int)
    requires
        0 <= b < ws.len(),
        distinct(ws),
    ensures
        distinct(without(ws, b).push(ws[b])),
        forall|id: usize, k: Seq<u8>, v: Seq<u8>| #[trigger]
            yields(without(ws, b).push(ws[b]), id, k, v) == yields(ws, id, k, v),
{
    lemma_without(ws, b);
    let xs = without(ws, b).push(ws[b]);
    assert forall|i: int, j: int|
        #![trigger xs[i], xs[j]]
        0 <= i < j < xs.len() implies xs[i].0 != xs[j].0 by {
        assert(xs[i] == without(ws, b)[i]);
        if j < ws.len() - 1 {
            assert(xs[j] == without(ws, b)[j]);
        }
    }
    assert forall|id: usize, k: Seq<u8>, v: Seq<u8>| #[trigger]
        yields(xs, id, k, v) == yields(ws, id, k, v) by {
        lemma_yields_push(without(ws, b), ws[b], id, k, v);
        lemma_yields_without(ws, b, id, k, v);
    }
}

/// Lists with distinct indices that yield the same are the same when merged.
proof fn lemma_merged_same<I: StorageIterator>(ws: Seq<HeapWrapper<I>>, xs: Seq<HeapWrapper<I>>)
    requires
        distinct(ws),
        distinct(xs),
        forall|id: usize, k: Seq<u8>, v: Seq<u8>| #[trigger]
            yields(ws, id, k, v) == yields(xs, id, k, v),
    ensures
        merged(ws) == merged(xs),
{
    assert forall|k: Seq<u8>|
        #![trigger merged(ws).contains_key(k)]
        #![trigger merged(xs).contains_key(k)]
        merged(ws).contains_key(k) == merged(xs).contains_key(k) && (merged(ws).contains_key(k)
            ==> merged(ws)[k] == merged(xs)[k]) by {
        lemma_merged_agree(ws, xs, k);
    }
    assert(merged(ws) =~= merged(xs));
}

/// A list that yields what another does, without one key, is the other one
/// without that key when merged.
proof fn lemma_merged_remove<I: StorageIterator>(
    ws: Seq<HeapWrapper<I>>,
    xs: Seq<HeapWrapper<I>>,
    gone: Seq<u8>,
)
    requires
        distinct(ws),
        distinct(xs),
        forall|id: usize, k: Seq<u8>, v: Seq<u8>| #[trigger]
            yields(xs, id, k, v) == (k != gone && yields(ws, id, k, v)),
    ensures
        merged(xs) == merged(ws).remove(gone),
{
    assert forall|k: Seq<u8>|
        #![trigger merged(xs).contains_key(k)]
        #![trigger merged(ws).contains_key(k)]
        merged(xs).contains_key(k) == merged(ws).remove(gone).contains_key(k) && (merged(
            xs,
        ).contains_key(k) ==> merged(xs)[k] == merged(ws)[k]) by {
        if k == gone {
            if merged(xs).contains_key(k) {
                let j = choose|j: int|
                    0 <= j < xs.len() && (#[trigger] xs[j]).1.rest().contains_key(k);
                assert(xs[j].has(k, xs[j].1.rest()[k]));
                assert(yields(xs, xs[j].0, k, xs[j].1.rest()[k]));
            }
        } else {
            lemma_merged_agree(ws, xs, k);
        }
    }
    assert(merged(xs) =~= merged(ws).remove(gone));
}

/// Iterators whose indices are their positions are layers when merged.
proof fn lemma_merged_layered<I: StorageIterator>(
    ws: Seq<HeapWrapper<I>>,
    parts: Seq<Contents>,
)
    requires
        parts.len() <= usize::MAX,
        distinct(ws),
        forall|id: usize, k: Seq<u8>, v: Seq<u8>| #[trigger]
            yields(ws, id, k, v) == (id < parts.len() && parts[id as int].contains_key(k)
                && parts[id as int][k] == v),
    ensures
        merged(ws) == iterators::layered(parts),
{
    assert forall|k: Seq<u8>|
        #![trigger merged(ws).contains_key(k)]
        #![trigger iterators::layered(parts).contains_key(k)]
        merged(ws).contains_key(k) == iterators::layered(parts).contains_key(k) && (merged(
            ws,
        ).contains_key(k) ==> merged(ws)[k] == iterators::layered(parts)[k]) by {
        iterators::lemma_layered_keys(parts, k);
        if merged(ws).contains_key(k) {
            let i = choose|i: int| 0 <= i < ws.len() && (#[trigger] ws[i]).1.rest().contains_key(k);
            let j = lemma_owner_exists(ws, k, i);
            lemma_merged(ws, k, j);
            let v = ws[j].1.rest()[k];
            assert(ws[j].has(k, v));
            assert(yields(ws, ws[j].0, k, v));
            let id = ws[j].0 as int;
            assert forall|l: int| 0 <= l < id implies !(#[trigger] parts[l]).contains_key(k) by {
                if parts[l].contains_key(k) {
                    assert(yields(ws, l as usize, k, parts[l][k]));
                    let c = choose|c: int|
                        0 <= c < ws.len() && (#[trigger] ws[c]).0 == l as usize && ws[c].has(
                            k,
                            parts[l][k],
                        );
                    assert(ws[j].0 <= ws[c].0);
                }
            }
            iterators::lemma_layered_value(parts, k, id);
        } else if iterators::layered(parts).contains_key(k) {
            let l = choose|l: int| 0 <= l < parts.len() && (#[trigger] parts[l]).contains_key(k);
            assert(yields(ws, l as usize, k, parts[l][k]));
        }
    }
    assert(merged(ws) =~= iterators::layered(parts));
}

/// Merge multiple iterators of the same type. If the same key occurs multiple
/// times in some iterators, prefer the one with smaller index.
pub struct MergeIterator<I: StorageIterator> {
    /// The valid iterators that wait for their turn, in no particular order.
    iters: Vec<HeapWrapper<I>>,
    /// The iterator that goes before all that wait. Once it is invalid, none
    /// waits.
    current: Option<HeapWrapper<I>>,
}

impl<I: StorageIterator> MergeIterator<I> {
    /// The iterators that wait for their turn.
    pub closed spec fn waiting(&self) -> Seq<HeapWrapper<I>> {
        self.iters@
    }

    /// The iterator whose turn it is.
    pub closed spec fn current(&self) -> Option<HeapWrapper<I>> {
        self.current
    }

    /// All the iterators.
    pub open spec fn all(&self) -> Seq<HeapWrapper<I>> {
        match self.current() {
            Some(cur) => self.waiting().push(cur),
            None => self.waiting(),
        }
    }

    /// The iterators given, in their order: what each of them yields.
    pub open spec fn parts(iters: Seq<Box<I>>) -> Seq<Contents> {
        iters.map_values(|it: Box<I>| it.rest())
    }

    /// `self` after moving on has failed with `e` because one of the iterators
    /// that wait has: only that one is lost, and the current pair is as before.
    pub open spec fn waiting_failed(&self, e: StorageError, after: &Self) -> bool {
        let k = iterators::least(self.rest());
        &&& after.wf()
        &&& after.current() == self.current()
        &&& exists|j: int| #[trigger] lost(self.waiting(), after.waiting(), k, e, j)
        &&& iterators::has_keys(after.rest())
        &&& iterators::least(after.rest()) == k
        &&& after.rest()[k] == self.rest()[k]
    }

    /// `self` after moving on has failed with `e` because the current iterator
    /// has: those that wait are past the current key, and else as before.
    pub open spec fn current_failed(&self, e: StorageError, after: &Self) -> bool {
        let k = iterators::least(self.rest());
        &&& self.current().unwrap().1.may_fail_with(e)
        &&& after.current() is Some
        &&& after.current().unwrap().0 == self.current().unwrap().0
        &&& distinct(after.waiting())
        &&& all_live(after.waiting())
        &&& forall|id: usize, q: Seq<u8>, v: Seq<u8>| #[trigger]
            yields(after.waiting(), id, q, v) == (q != k && yields(self.waiting(), id, q, v))
    }

    /// Creates a merge iterator from iterators; a smaller position is a smaller
    /// index.
    pub fn create(iters: Vec<Box<I>>) -> (m: Self)
        requires
            forall|j: int| 0 <= j < iters@.len() ==> (#[trigger] iters@[j]).wf(),
        ensures
            m.wf(),
            m.rest() == iterators::layered(Self::parts(iters@)),
            forall|k: Seq<u8>, n: int|
                #![trigger m.rest().contains_key(k), iters@[n]]
                0 <= n < iters@.len() && iters@[n].rest().contains_key(k) && (forall|i: int|
                    0 <= i < n ==> !(#[trigger] iters@[i]).rest().contains_key(k))
                    ==> m.rest().contains_key(k) && m.rest()[k] == iters@[n].rest()[k],
            forall|k: Seq<u8>| #[trigger]
                m.rest().contains_key(k) ==> exists|n: int|
                    0 <= n < iters@.len() && (#[trigger] iters@[n]).rest().contains_key(k),
            forall|id: usize, k: Seq<u8>, v: Seq<u8>| #[trigger]
                yields(m.all(), id, k, v) == (id < iters@.len() && iters@[id as int].rest().contains_key(
                    k,
                ) && iters@[id as int].rest()[k] == v),
            forall|e: StorageError| #[trigger]
                m.may_fail_with(e) ==> exists|j: int|
                    0 <= j < iters@.len() && (#[trigger] iters@[j]).may_fail_with(e),
            (forall|j: int| 0 <= j < iters@.len() ==> (#[trigger] iters@[j]).infallible())
                ==> m.infallible(),
    {
        let ghost given = iters@;
        let ghost parts = Self::parts(iters@);
        let mut iters = iters;
        let mut heap: Vec<HeapWrapper<I>> = Vec::new();
        assert(given.len() == iters.len());
        while iters.len() > 0
            invariant
                iters@.len() <= given.len(),
                given.len() <= usize::MAX,
                iters@ == given.take(iters@.len() as int),
                parts == Self::parts(given),
                forall|j: int| 0 <= j < given.len() ==> (#[trigger] given[j]).wf(),
                all_live(heap@),
                distinct(heap@),
                forall|j: int| 0 <= j < heap@.len() ==> (#[trigger] heap@[j]).0 >= iters@.len(),
                forall|id: usize, k: Seq<u8>, v: Seq<u8>| #[trigger]
                    yields(heap@, id, k, v) == (iters@.len() <= id < given.len()
                        && parts[id as int].contains_key(k) && parts[id as int][k] == v),
                forall|e: StorageError| #[trigger]
                    any_may_fail_with(heap@, e) ==> exists|j: int|
                        0 <= j < given.len() && (#[trigger] given[j]).may_fail_with(e),
                (forall|j: int| 0 <= j < given.len() ==> (#[trigger] given[j]).infallible())
                    ==> all_infallible(heap@),
            decreases iters@.len(),
        {
            let ghost before = heap@;
            let it = iters.pop().unwrap();
            let idx: usize = iters.len();
            assert(it == given[idx as int]);
            assert(parts[idx as int] == it.rest());
            assert(iters@ =~= given.take(idx as int));
            if it.is_valid() {
                let w = HeapWrapper(idx, it);
                heap.push(w);
                assert forall|id: usize, k: Seq<u8>, v: Seq<u8>| #[trigger]
                    yields(heap@, id, k, v) == (iters@.len() <= id < given.len()
                        && parts[id as int].contains_key(k) && parts[id as int][k] == v) by {
                    lemma_yields_push(before, w, id, k, v);
                }
                assert forall|e: StorageError| #[trigger]
                    any_may_fail_with(heap@, e) implies exists|j: int|
                    0 <= j < given.len() && (#[trigger] given[j]).may_fail_with(e) by {
                    lemma_fail_push(before, w, e);
                    if w.1.may_fail_with(e) {
                        assert(given[idx as int].may_fail_with(e));
                    }
                }
            }
        }
        let ghost whole = heap@;
        proof {
            lemma_merged_layered(whole, parts);
            assert forall|k: Seq<u8>, n: int|
                #![trigger iterators::layered(parts).contains_key(k), given[n]]
                0 <= n < given.len() && given[n].rest().contains_key(k) && (forall|i: int|
                    0 <= i < n ==> !(#[trigger] given[i]).rest().contains_key(k)) implies
                iterators::layered(parts).contains_key(k) && iterators::layered(parts)[k]
                == given[n].rest()[k] by {
                assert forall|i: int| 0 <= i < n implies !(#[trigger] parts[i]).contains_key(k) by {
                    assert(!given[i].rest().contains_key(k));
                }
                iterators::lemma_layered_value(parts, k, n);
            }
            assert forall|k: Seq<u8>| #[trigger]
                iterators::layered(parts).contains_key(k) implies exists|n: int|
                0 <= n < given.len() && (#[trigger] given[n]).rest().contains_key(k) by {
                iterators::lemma_layered_keys(parts, k);
                let j = choose|j: int|
                    0 <= j < parts.len() && (#[trigger] parts[j]).contains_key(k);
                assert(given[j].rest().contains_key(k));
            }
        }
        match top(&heap) {
            Some(b) => {
                proof {
                    lemma_without(whole, b as int);
                    lemma_to_end(whole, b as int);
                    lemma_merged_same(without(whole, b as int).push(whole[b as int]), whole);
                    assert forall|e: StorageError| #[trigger]
                        any_may_fail_with(
                            without(whole, b as int).push(whole[b as int]),
                            e,
                        ) implies any_may_fail_with(whole, e) by {
                        lemma_fail_push(without(whole, b as int), whole[b as int], e);
                    }
                }
                let w = heap.swap_remove(b);
                MergeIterator { iters: heap, current: Some(w) }
            },
            None => MergeIterator { iters: heap, current: None },
        }
    }
}

impl<I: StorageIterator> StorageIterator for MergeIterator<I> {
    open spec fn wf(&self) -> bool {
        &&& distinct(self.all())
        &&& all_live(self.waiting())
        &&& match self.current() {
            Some(cur) => {
                &&& cur.1.wf()
                &&& if iterators::has_keys(cur.1.rest()) {
                    goes_before_all(cur, self.waiting())
                } else {
                    self.waiting().len() == 0
                }
            },
            None => self.waiting().len() == 0,
        }
    }

    open spec fn rest(&self) -> Contents {
        merged(self.all())
    }

    open spec fn infallible(&self) -> bool {
        all_infallible(self.all())
    }

    open spec fn may_fail_with(&self, e: StorageError) -> bool {
        any_may_fail_with(self.all(), e)
    }

    proof fn lemma_finite(&self) {
        lemma_merged_finite(self.all());
    }

    fn key(&self) -> (k: KeySlice<'_>) {
        proof {
            self.lemma_current();
        }
        self.current.as_ref().unwrap().1.key()
    }

    fn value(&self) -> (v: &[u8]) {
        proof {
            self.lemma_current();
        }
        self.current.as_ref().unwrap().1.value()
    }

    fn is_valid(&self) -> (r: bool) {
        proof {
            self.lemma_current();
        }
        match &self.current {
            Some(cur) => cur.1.is_valid(),
            None => false,
        }
    }

    /// Moves every iterator that stands on the current key past it, and no
    /// other. On failure, either one of the iterators that wait has failed, or
    /// the current one has.
    fn next(&mut self) -> (r: Result<(), StorageError>)
        ensures
            r is Ok ==> forall|id: usize, q: Seq<u8>, v: Seq<u8>| #[trigger]
                yields(final(self).all(), id, q, v) == (q != iterators::least(old(self).rest())
                    && yields(old(self).all(), id, q, v)),
            r matches Err(e) ==> {
                &&& old(self).waiting_failed(e, final(self)) || old(self).current_failed(
                    e,
                    final(self),
                )
                &&& old(self).current().unwrap().1.infallible() ==> old(self).waiting_failed(
                    e,
                    final(self),
                )
                &&& all_infallible(old(self).waiting()) ==> old(self).current_failed(
                    e,
                    final(self),
                )
            },
    {
        let ghost all0 = self.all();
        let ghost iters0 = self.iters@;
        let ghost k = iterators::least(self.rest());
        proof {
            self.lemma_current();
        }
        let mut cur = self.current.take().unwrap();
        let ghost cur0 = cur;
        proof {
            cur0.1.lemma_finite();
            iterators::lemma_least(cur0.1.rest());
            assert(all0[iters0.len() as int] == cur0);
            assert forall|j: int| 0 <= j < iters0.len() implies all0[j] == #[trigger] iters0[j] by {}
            assert forall|j: int| 0 <= j < iters0.len() implies key::key_le(
                k,
                iterators::least((#[trigger] iters0[j]).1.rest()),
            ) by {
                assert(cur0.ranks_before(&iters0[j]));
            }
        }
        match skip_key(&mut self.iters, cur.1.key()) {
            Err(e) => {
                self.current = Some(cur);
                proof {
                    lemma_ids_kept(iters0, self.iters@, cur0.0);
                    lemma_before_kept(cur0, iters0, self.iters@);
                    self.lemma_current();
                    let j = choose|j: int| #[trigger] lost(iters0, self.iters@, k, e, j);
                    assert(all0[j] == iters0[j]);
                    assert(any_may_fail_with(all0, e));
                }
                return Err(e);
            },
            Ok(()) => {},
        }
        let ghost iters1 = self.iters@;
        match cur.1.next() {
            Err(e) => {
                self.current = Some(cur);
                assert(all0[iters0.len() as int].1.may_fail_with(e));
                return Err(e);
            },
            Ok(()) => {},
        }
        let ghost cur1 = cur;
        let ghost pool = iters1.push(cur1);
        proof {
            assert forall|e: StorageError| #[trigger] any_may_fail_with(pool, e) implies
                any_may_fail_with(all0, e) by {
                lemma_fail_push(iters1, cur1, e);
                lemma_fail_push(iters0, cur0, e);
            }
            lemma_ids_kept(iters0, iters1, cur0.0);
            assert forall|id: usize, q: Seq<u8>, v: Seq<u8>| #[trigger]
                yields(pool, id, q, v) == (q != k && yields(all0, id, q, v)) by {
                lemma_yields_push(iters1, cur1, id, q, v);
                lemma_yields_push(iters0, cur0, id, q, v);
            }
            lemma_merged_remove(all0, pool, k);
        }
        if !cur.1.is_valid() {
            match top(&self.iters) {
                Some(b) => {
                    let w = self.iters.swap_remove(b);
                    self.current = Some(w);
                    proof {
                        lemma_without(iters1, b as int);
                        lemma_to_end(iters1, b as int);
                        assert forall|id: usize, q: Seq<u8>, v: Seq<u8>| #[trigger]
                            yields(iters1, id, q, v) == yields(pool, id, q, v) by {
                            lemma_yields_push(iters1, cur1, id, q, v);
                        }
                        lemma_merged_same(self.all(), pool);
                        lemma_before_without(w, iters1, b as int);
                        assert forall|e: StorageError| #[trigger]
                            any_may_fail_with(self.all(), e) implies any_may_fail_with(all0, e) by {
                            lemma_fail_push(without(iters1, b as int), w, e);
                            lemma_fail_push(iters1, cur1, e);
                        }
                    }
                },
                None => {
                    self.current = Some(cur);
                },
            }
            return Ok(());
        }
        match top(&self.iters) {
            Some(b) => {
                if self.iters[b].goes_first(&cur) {
                    self.iters.push(cur);
                    let w = self.iters.swap_remove(b);
                    self.current = Some(w);
                    proof {
                        assert(pool[b as int] == w);
                        assert forall|j: int| 0 <= j < pool.len() implies w.ranks_before(
                            #[trigger] &pool[j],
                        ) by {
                            if j < iters1.len() {
                                assert(pool[j] == iters1[j]);
                                assert(w.ranks_before(&iters1[j]));
                            }
                        }
                        lemma_without(pool, b as int);
                        lemma_to_end(pool, b as int);
                        lemma_merged_same(self.all(), pool);
                        lemma_before_without(w, pool, b as int);
                        assert forall|e: StorageError| #[trigger]
                            any_may_fail_with(self.all(), e) implies any_may_fail_with(all0, e) by {
                            lemma_fail_push(without(pool, b as int), w, e);
                            if w.1.may_fail_with(e) {
                                assert(pool[b as int].1.may_fail_with(e));
                            }
                            assert(any_may_fail_with(pool, e));
                        }
                    }
                } else {
                    self.current = Some(cur);
                    assert forall|j: int| 0 <= j < iters1.len() implies cur1.ranks_before(
                        #[trigger] &iters1[j],
                    ) by {
                        assert(iters1[b as int].ranks_before(&iters1[j]));
                    }
                }
            },
            None => {
                self.current = Some(cur);
            },
        }
        Ok(())
    }
}

impl<I: StorageIterator> MergeIterator<I> {
    /// The iterator is valid if and only if the current one is; and then the
    /// current pair is that of the current one.
    proof fn lemma_current(&self)
        requires
            self.wf(),
        ensures
            iterators::has_keys(self.rest()) <==> self.current() is Some && iterators::has_keys(
                self.current().unwrap().1.rest(),
            ),
            iterators::has_keys(self.rest()) ==> {
                let cur = self.current().unwrap().1.rest();
                &&& iterators::least(self.rest()) == iterators::least(cur)
                &&& self.rest()[iterators::least(cur)] == cur[iterators::least(cur)]
            },
    {
        match self.current() {
            Some(cur) => {
                if iterators::has_keys(cur.1.rest()) {
                    lemma_turn(self.waiting(), cur);
                } else if iterators::has_keys(self.rest()) {
                    let k = choose|k: Seq<u8>| self.rest().contains_key(k);
                    assert(self.rest().contains_key(k));
                }
            },
            None => {},
        }
    }
}

/// What a list of iterators yields is what each of them has.
pub proof fn law_yields<I: StorageIterator>(
    ws: Seq<HeapWrapper<I>>,
    w: HeapWrapper<I>,
    id: usize,
    k: Seq<u8>,
    v: Seq<u8>,
)
    ensures
        !yields(Seq::<HeapWrapper<I>>::empty(), id, k, v),
        yields(ws.push(w), id, k, v) == (yields(ws, id, k, v) || (w.0 == id
            && w.1.rest().contains_key(k) && w.1.rest()[k] == v)),
{
    lemma_yields_push(ws, w, id, k, v);
}

/// When one of the iterators fails on its way past a key, what it would still
/// have yielded is gone. Of the others nothing is gone but that key, where it
/// comes before the one that failed.
pub proof fn law_lost<I: StorageIterator>(
    ws: Seq<HeapWrapper<I>>,
    left: Seq<HeapWrapper<I>>,
    k: Seq<u8>,
    e: StorageError,
    j: int,
    id: usize,
    q: Seq<u8>,
    v: Seq<u8>,
)
    requires
        lost(ws, left, k, e, j),
    ensures
        0 <= j < ws.len(),
        ws[j].1.may_fail_with(e),
        !yields(left, ws[j].0, q, v),
        id != ws[j].0 && q != k ==> yields(left, id, q, v) == yields(ws, id, q, v),
        id < ws[j].0 ==> !yields(left, id, k, v),
        id > ws[j].0 ==> yields(left, id, q, v) == yields(ws, id, q, v),
{
}

/// When an iterator that waits fails, the merge stays on its current pair. When
/// the current one fails, those that wait are past the current key and lose
/// nothing else.
pub proof fn law_failed<I: StorageIterator>(
    before: &MergeIterator<I>,
    e: StorageError,
    after: &MergeIterator<I>,
    id: usize,
    q: Seq<u8>,
    v: Seq<u8>,
)
    ensures
        before.waiting_failed(e, after) ==> {
            let k = iterators::least(before.rest());
            &&& after.current() == before.current()
            &&& exists|j: Seq<u8>| #[trigger] after.rest().contains_key(j)
            &&& iterators::least(after.rest()) == k
            &&& after.rest()[k] == before.rest()[k]
            &&& any_may_fail_with(before.waiting(), e)
            &&& yields(after.waiting(), id, q, v) ==> yields(before.waiting(), id, q, v)
        },
        before.current_failed(e, after) ==> {
            let k = iterators::least(before.rest());
            &&& before.current().unwrap().1.may_fail_with(e)
            &&& after.current().unwrap().0 == before.current().unwrap().0
            &&& !yields(after.waiting(), id, k, v)
            &&& q != k ==> yields(after.waiting(), id, q, v) == yields(before.waiting(), id, q, v)
        },
{
    if before.waiting_failed(e, after) {
        let k = iterators::least(before.rest());
        let j = choose|j: int| #[trigger] lost(before.waiting(), after.waiting(), k, e, j);
        law_lost(before.waiting(), after.waiting(), k, e, j, id, q, v);
        assert(before.waiting()[j].1.may_fail_with(e));
    }
}

} // verus!
