//! What a scan hands out.
use bytes::Bytes;
use std::ops::Bound;
use vstd::prelude::*;

use crate::error::StorageError;
use crate::iterators;
use crate::iterators::merge_iterator::MergeIterator;
use crate::iterators::two_merge_iterator::TwoMergeIterator;
use crate::iterators::{Contents, StorageIterator};
use crate::key;
use crate::key::KeySlice;
use crate::mem_table::MemTableIterator;
use crate::range;
use crate::range::{borrow_bound, is_below};
use crate::table::SsTableIterator;

verus! {

broadcast use crate::key::group_key_order;

/// The mem-tables on top of the tables.
pub type LsmIteratorInner = TwoMergeIterator<
    MergeIterator<MemTableIterator>,
    MergeIterator<SsTableIterator>,
>;

/// The pairs that do not lie behind the range and whose value is not empty.
pub open spec fn visible(m: Contents, upper: Bound<Seq<u8>>) -> Contents {
    Map::new(
        |k: Seq<u8>| m.contains_key(k) && m[k].len() > 0 && range::below(upper, k),
        |k: Seq<u8>| m[k],
    )
}

/// The first pair decides: if it lies behind the range, all do; if its value is
/// empty, it is not visible; else it is the first visible one.
proof fn lemma_visible(m: Contents, upper: Bound<Seq<u8>>)
    requires
        m.dom().finite(),
        iterators::has_keys(m),
    ensures
        !range::below(upper, iterators::least(m)) ==> !iterators::has_keys(visible(m, upper)),
        m[iterators::least(m)].len() == 0 ==> visible(m.remove(iterators::least(m)), upper)
            == visible(m, upper),
        range::below(upper, iterators::least(m)) && m[iterators::least(m)].len() > 0 ==> {
            &&& iterators::has_keys(visible(m, upper))
            &&& iterators::least(visible(m, upper)) == iterators::least(m)
            &&& visible(m, upper)[iterators::least(m)] == m[iterators::least(m)]
            &&& visible(m.remove(iterators::least(m)), upper) == visible(m, upper).remove(
                iterators::least(m),
            )
        },
{
    let k = iterators::least(m);
    let v = visible(m, upper);
    iterators::lemma_least(m);
    if !range::below(upper, k) {
        assert forall|j: Seq<u8>| !v.contains_key(j) by {
            if m.contains_key(j) {
                assert(key::key_le(k, j));
            }
        }
    }
    if m[k].len() == 0 {
        assert(visible(m.remove(k), upper) =~= v);
    }
    if range::below(upper, k) && m[k].len() > 0 {
        assert(v.contains_key(k));
        assert(iterators::is_least(v, k)) by {
            assert forall|j: Seq<u8>| #[trigger] v.contains_key(j) implies key::key_le(k, j) by {
                assert(m.contains_key(j));
            }
        }
        iterators::lemma_least_unique(v, k);
        assert(visible(m.remove(k), upper) =~= v.remove(k));
    }
}

/// An iterator over the pairs of a scan: it ends at the upper bound, and leaves
/// deleted keys out.
pub struct LsmIterator {
    inner: LsmIteratorInner,
    end_bound: Bound<Bytes>,
    is_valid: bool,
}

impl LsmIterator {
    /// What the merged iterators yield.
    pub closed spec fn all(&self) -> Contents {
        self.inner.rest()
    }

    /// The upper bound.
    pub closed spec fn upper(&self) -> Bound<Seq<u8>> {
        range::bytes_bound(self.end_bound)
    }

    /// Checks whether the current pair is there and within the bound.
    fn check(&self) -> (r: bool)
        requires
            self.inner.wf(),
        ensures
            r == (iterators::has_keys(self.all()) && range::below(
                self.upper(),
                iterators::least(self.all()),
            )),
    {
        self.inner.is_valid() && is_below(borrow_bound(&self.end_bound), self.inner.key().raw_ref())
    }

    /// Moves to the first pair whose value is not empty, if there is one within
    /// the bound.
    fn move_to_non_deleted(&mut self) -> (r: Result<(), StorageError>)
        requires
            old(self).inner.wf(),
        ensures
            r is Ok ==> {
                &&& final(self).wf()
                &&& final(self).rest() == visible(old(self).all(), old(self).upper())
                &&& final(self).upper() == old(self).upper()
                &&& old(self).inner.infallible() ==> final(self).inner.infallible()
                &&& forall|e: StorageError| #[trigger]
                    final(self).inner.may_fail_with(e) ==> old(self).inner.may_fail_with(e)
            },
            r matches Err(e) ==> old(self).inner.may_fail_with(e),
            old(self).inner.infallible() ==> r is Ok,
    {
        self.is_valid = self.check();
        proof {
            self.inner.lemma_finite();
            if iterators::has_keys(self.all()) {
                lemma_visible(self.all(), self.upper());
            }
        }
        while self.is_valid && self.inner.value().len() == 0
            invariant
                self.inner.wf(),
                self.all().dom().finite(),
                self.end_bound == old(self).end_bound,
                self.is_valid == (iterators::has_keys(self.all()) && range::below(
                    self.upper(),
                    iterators::least(self.all()),
                )),
                visible(self.all(), self.upper()) == visible(old(self).all(), old(self).upper()),
                old(self).inner.infallible() ==> self.inner.infallible(),
                forall|e: StorageError| #[trigger]
                    self.inner.may_fail_with(e) ==> old(self).inner.may_fail_with(e),
            decreases self.all().dom().len(),
        {
            proof {
                iterators::lemma_least(self.all());
                lemma_visible(self.all(), self.upper());
            }
            match self.inner.next() {
                Err(e) => {
                    return Err(e);
                },
                Ok(()) => {},
            }
            proof {
                self.inner.lemma_finite();
            }
            self.is_valid = self.check();
        }
        proof {
            if iterators::has_keys(self.all()) {
                lemma_visible(self.all(), self.upper());
            } else if iterators::has_keys(visible(self.all(), self.upper())) {
                let k = choose|k: Seq<u8>| visible(self.all(), self.upper()).contains_key(k);
                assert(self.all().contains_key(k));
            }
        }
        Ok(())
    }

    /// Creates the iterator; fails if the merged iterators fail to move past
    /// deleted keys.
    pub fn new(iter: LsmIteratorInner, end_bound: Bound<Bytes>) -> (r: Result<Self, StorageError>)
        requires
            iter.wf(),
        ensures
            r matches Ok(it) ==> {
                &&& it.wf()
                &&& it.rest() == visible(iter.rest(), range::bytes_bound(end_bound))
                &&& iter.infallible() ==> it.infallible()
                &&& forall|e: StorageError| #[trigger]
                    it.may_fail_with(e) ==> iter.may_fail_with(e)
            },
            r matches Err(e) ==> iter.may_fail_with(e),
            iter.infallible() ==> r is Ok,
    {
        let mut it = LsmIterator { inner: iter, end_bound, is_valid: false };
        match it.move_to_non_deleted() {
            Err(e) => Err(e),
            Ok(()) => Ok(it),
        }
    }
}

impl StorageIterator for LsmIterator {
    closed spec fn wf(&self) -> bool {
        &&& self.inner.wf()
        &&& self.is_valid == iterators::has_keys(visible(self.all(), self.upper()))
        &&& self.is_valid ==> {
            &&& iterators::has_keys(self.all())
            &&& range::below(self.upper(), iterators::least(self.all()))
            &&& self.all()[iterators::least(self.all())].len() > 0
        }
    }

    open spec fn rest(&self) -> Contents {
        visible(self.all(), self.upper())
    }

    closed spec fn infallible(&self) -> bool {
        self.inner.infallible()
    }

    closed spec fn may_fail_with(&self, e: StorageError) -> bool {
        self.inner.may_fail_with(e)
    }

    proof fn lemma_finite(&self) {
        self.inner.lemma_finite();
        assert(self.rest().dom().subset_of(self.all().dom()));
        vstd::set_lib::lemma_set_subset_finite(self.all().dom(), self.rest().dom());
    }

    fn key(&self) -> (k: KeySlice<'_>) {
        proof {
            self.inner.lemma_finite();
            lemma_visible(self.all(), self.upper());
        }
        self.inner.key()
    }

    fn value(&self) -> (v: &[u8]) {
        proof {
            self.inner.lemma_finite();
            lemma_visible(self.all(), self.upper());
        }
        self.inner.value()
    }

    fn is_valid(&self) -> (r: bool) {
        self.is_valid
    }

    fn next(&mut self) -> (r: Result<(), StorageError>) {
        proof {
            self.inner.lemma_finite();
            lemma_visible(self.all(), self.upper());
        }
        match self.inner.next() {
            Err(e) => {
                return Err(e);
            },
            Ok(()) => {},
        }
        self.move_to_non_deleted()
    }
}

/// A wrapper around an iterator that prevents its use once it is invalid or has
/// failed: moving on from an invalid position does nothing, and after a failure
/// the iterator is invalid and keeps failing.
pub struct FusedIterator<I: StorageIterator> {
    iter: I,
    has_errored: bool,
}

impl<I: StorageIterator> FusedIterator<I> {
    /// The iterator has failed.
    pub closed spec fn failed(&self) -> bool {
        self.has_errored
    }

    /// The wrapped iterator.
    pub closed spec fn inner(&self) -> I {
        self.iter
    }

    /// Unless it has failed, the wrapped iterator can be used.
    pub open spec fn wf(&self) -> bool {
        !self.failed() ==> self.inner().wf()
    }

    /// The pairs that are still to come: none after a failure.
    pub open spec fn rest(&self) -> Contents {
        if self.failed() {
            Map::empty()
        } else {
            self.inner().rest()
        }
    }

    pub fn new(iter: I) -> (f: Self)
        requires
            iter.wf(),
        ensures
            f.wf(),
            !f.failed(),
            f.inner() == iter,
    {
        FusedIterator { iter, has_errored: false }
    }

    /// Check if the current iterator is valid.
    pub fn is_valid(&self) -> (r: bool)
        requires
            self.wf(),
        ensures
            r == iterators::has_keys(self.rest()),
    {
        !self.has_errored && self.iter.is_valid()
    }

    /// Get the current key.
    pub fn key(&self) -> (k: KeySlice<'_>)
        requires
            self.wf(),
            iterators::has_keys(self.rest()),
        ensures
            k@ == iterators::least(self.rest()),
    {
        self.iter.key()
    }

    /// Get the current value.
    pub fn value(&self) -> (v: &[u8])
        requires
            self.wf(),
            iterators::has_keys(self.rest()),
        ensures
            v@ == self.rest()[iterators::least(self.rest())],
    {
        self.iter.value()
    }

    /// Move to the next position.
    pub fn next(&mut self) -> (r: Result<(), StorageError>)
        requires
            old(self).wf(),
        ensures
            final(self).wf(),
            old(self).failed() ==> r == Err::<(), StorageError>(StorageError::Tainted)
                && final(self).failed(),
            r matches Err(e) ==> final(self).failed() && (old(self).failed()
                || old(self).inner().may_fail_with(e)),
            r is Ok ==> {
                &&& !final(self).failed()
                &&& final(self).rest() == if iterators::has_keys(old(self).rest()) {
                    old(self).rest().remove(iterators::least(old(self).rest()))
                } else {
                    old(self).rest()
                }
                &&& old(self).inner().infallible() ==> final(self).inner().infallible()
            },
            !old(self).failed() && old(self).inner().infallible() ==> r is Ok,
            !old(self).failed() && !iterators::has_keys(old(self).rest()) ==> r is Ok,
    {
        if self.has_errored {
            return Err(StorageError::Tainted);
        }
        if self.iter.is_valid() {
            match self.iter.next() {
                Err(e) => {
                    self.has_errored = true;
                    return Err(e);
                },
                Ok(()) => {},
            }
        }
        Ok(())
    }
}

/// What is visible up to a bound: the pairs whose value is not empty and whose
/// key is not behind the bound, which an excluded bound is itself.
pub proof fn law_visible(m: Contents, b: Seq<u8>, k: Seq<u8>)
    ensures
        visible(m, Bound::Included(b)).contains_key(k) == (m.contains_key(k) && m[k].len() > 0
            && !key::key_lt(b, k)),
        visible(m, Bound::Excluded(b)).contains_key(k) == (m.contains_key(k) && m[k].len() > 0
            && key::key_lt(k, b)),
        visible(m, Bound::Unbounded).contains_key(k) == (m.contains_key(k) && m[k].len() > 0),
        forall|upper: Bound<Seq<u8>>|
            visible(m, upper).contains_key(k) ==> #[trigger] visible(m, upper)[k] == m[k],
{
}

/// A fused iterator has what the wrapped one has, until it fails: then it has
/// nothing.
pub proof fn law_fused<I: StorageIterator>(it: &FusedIterator<I>, k: Seq<u8>)
    ensures
        it.failed() ==> !it.rest().contains_key(k),
        !it.failed() ==> it.rest() == it.inner().rest(),
        it.wf() == (it.failed() || it.inner().wf()),
{
}

} // verus!
