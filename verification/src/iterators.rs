//! Iterators over key-value pairs in ascending key order.
pub mod merge_iterator;
pub mod two_merge_iterator;

use vstd::prelude::*;

use crate::error::StorageError;
use crate::key;
use crate::key::KeySlice;

verus! {

broadcast use crate::key::group_key_order;

/// Keys with their values.
pub type Contents = Map<Seq<u8>, Seq<u8>>;

/// `k` is a key of `m`, and no key of `m` comes before it.
pub open spec fn is_least(m: Contents, k: Seq<u8>) -> bool {
    m.contains_key(k) && forall|j: Seq<u8>| #[trigger] m.contains_key(j) ==> key::key_le(k, j)
}

/// The first key of `m`.
pub open spec fn least(m: Contents) -> Seq<u8> {
    choose|k: Seq<u8>| is_least(m, k)
}

/// There is a key in `m`.
pub open spec fn has_keys(m: Contents) -> bool {
    exists|k: Seq<u8>| m.contains_key(k)
}

/// Layers on top of each other: the value of a key is that of the first layer
/// that has the key.
pub open spec fn layered(parts: Seq<Contents>) -> Contents
    decreases parts.len(),
{
    if parts.len() == 0 {
        Map::empty()
    } else {
        layered(parts.drop_first()).union_prefer_right(parts[0])
    }
}

/// Finitely many keys, if there is one, have a first one among them.
pub proof fn lemma_least(m: Contents)
    requires
        m.dom().finite(),
        has_keys(m),
    ensures
        is_least(m, least(m)),
    decreases m.dom().len(),
{
    let k = choose|k: Seq<u8>| m.contains_key(k);
    let n = m.remove(k);
    assert(m.dom().remove(k) =~= n.dom());
    if has_keys(n) {
        lemma_least(n);
        let l = least(n);
        if key::key_lt(k, l) {
            assert(is_least(m, k));
        } else {
            assert forall|j: Seq<u8>| #[trigger] m.contains_key(j) implies key::key_le(l, j) by {
                if j != k {
                    assert(n.contains_key(j));
                }
            }
            assert(n.contains_key(l));
            assert(is_least(m, l));
        }
    } else {
        assert forall|j: Seq<u8>| #[trigger] m.contains_key(j) implies key::key_le(k, j) by {
            if j != k {
                assert(n.contains_key(j));
            }
        }
        assert(is_least(m, k));
    }
}

/// There is only one first key.
pub proof fn lemma_least_unique(m: Contents, k: Seq<u8>)
    requires
        is_least(m, k),
    ensures
        k == least(m),
{
    let l = least(m);
    assert(is_least(m, l));
    assert(key::key_le(k, l) && key::key_le(l, k));
}

/// A key is in the layers if and only if some layer has it.
pub proof fn lemma_layered_keys(parts: Seq<Contents>, k: Seq<u8>)
    ensures
        layered(parts).contains_key(k) <==> exists|j: int|
            0 <= j < parts.len() && (#[trigger] parts[j]).contains_key(k),
    decreases parts.len(),
{
    if parts.len() > 0 {
        let tail = parts.drop_first();
        lemma_layered_keys(tail, k);
        if parts[0].contains_key(k) {
        } else if layered(tail).contains_key(k) {
            let j = choose|j: int| 0 <= j < tail.len() && (#[trigger] tail[j]).contains_key(k);
            assert(parts[j + 1] == tail[j]);
        } else {
            assert forall|j: int| 0 <= j < parts.len() implies !(
            #[trigger] parts[j]).contains_key(k) by {
                if j > 0 {
                    assert(tail[j - 1] == parts[j]);
                }
            }
        }
    }
}

/// The value of a key is that of the first layer that has it.
pub proof fn lemma_layered_value(parts: Seq<Contents>, k: Seq<u8>, j: int)
    requires
        0 <= j < parts.len(),
        parts[j].contains_key(k),
        forall|i: int| 0 <= i < j ==> !(#[trigger] parts[i]).contains_key(k),
    ensures
        layered(parts).contains_key(k),
        layered(parts)[k] == parts[j][k],
    decreases parts.len(),
{
    if j > 0 {
        let tail = parts.drop_first();
        assert forall|i: int| 0 <= i < j - 1 implies !(#[trigger] tail[i]).contains_key(k) by {
            assert(parts[i + 1] == tail[i]);
        }
        lemma_layered_value(tail, k, j - 1);
        assert(!parts[0].contains_key(k));
    }
}

/// Layers on top of other layers.
pub proof fn lemma_layered_concat(a: Seq<Contents>, b: Seq<Contents>)
    ensures
        layered(a + b) == layered(b).union_prefer_right(layered(a)),
    decreases a.len(),
{
    if a.len() == 0 {
        assert(a + b =~= b);
        assert(layered(b).union_prefer_right(layered(a)) =~= layered(b));
    } else {
        lemma_layered_concat(a.drop_first(), b);
        assert((a + b).drop_first() =~= a.drop_first() + b);
        assert(layered(a + b) =~= layered(b).union_prefer_right(layered(a)));
    }
}

/// One more layer at the bottom.
pub proof fn lemma_layered_push(parts: Seq<Contents>, p: Contents)
    ensures
        layered(parts.push(p)) == p.union_prefer_right(layered(parts)),
{
    lemma_layered_concat(parts, seq![p]);
    assert(parts + seq![p] =~= parts.push(p));
    lemma_layered_one(p);
}

/// A single layer.
pub proof fn lemma_layered_one(p: Contents)
    ensures
        layered(seq![p]) == p,
{
    reveal_with_fuel(layered, 2);
    assert(layered(seq![p]) =~= p);
}

/// An iterator over key-value pairs. The keys come in ascending order, each of
/// them once.
pub trait StorageIterator: Sized {
    /// The iterator is in a state in which it can be used.
    spec fn wf(&self) -> bool;

    /// The pairs that are still to come, the current one among them.
    spec fn rest(&self) -> Contents;

    /// Moving on never fails.
    spec fn infallible(&self) -> bool;

    /// Moving on, now or later, may fail with `e`.
    spec fn may_fail_with(&self, e: StorageError) -> bool;

    /// Only finitely many pairs are still to come.
    proof fn lemma_finite(&self)
        requires
            self.wf(),
        ensures
            self.rest().dom().finite(),
    ;

    /// Get the current key.
    fn key(&self) -> (k: KeySlice<'_>)
        requires
            self.wf(),
            has_keys(self.rest()),
        ensures
            k@ == least(self.rest()),
    ;

    /// Get the current value.
    fn value(&self) -> (v: &[u8])
        requires
            self.wf(),
            has_keys(self.rest()),
        ensures
            v@ == self.rest()[least(self.rest())],
    ;

    /// Check if the current iterator is valid.
    fn is_valid(&self) -> (r: bool)
        requires
            self.wf(),
        ensures
            r == has_keys(self.rest()),
    ;

    /// Move to the next position.
    fn next(&mut self) -> (r: Result<(), StorageError>)
        requires
            old(self).wf(),
            has_keys(old(self).rest()),
        ensures
            r is Ok ==> {
                &&& final(self).wf()
                &&& final(self).rest() == old(self).rest().remove(least(old(self).rest()))
                &&& old(self).infallible() ==> final(self).infallible()
                &&& forall|e: StorageError| #[trigger]
                    final(self).may_fail_with(e) ==> old(self).may_fail_with(e)
            },
            r matches Err(e) ==> old(self).may_fail_with(e),
            old(self).infallible() ==> r is Ok,
    ;
}

/// The first key of finitely many pairs is one of them, and none comes before
/// it; there is one if there is a pair.
pub proof fn law_least(m: Contents, k: Seq<u8>)
    requires
        m.dom().finite(),
        m.contains_key(k),
    ensures
        has_keys(m),
        m.contains_key(least(m)),
        !key::key_lt(k, least(m)),
{
    lemma_least(m);
}

/// Pairs without a key have no first one.
pub proof fn law_no_keys(m: Contents)
    ensures
        has_keys(m) == (m != Map::<Seq<u8>, Seq<u8>>::empty()),
{
    if !has_keys(m) {
        assert(m =~= Map::<Seq<u8>, Seq<u8>>::empty());
    } else {
        let k = choose|k: Seq<u8>| m.contains_key(k);
        assert(m.contains_key(k));
    }
}

/// Layers have the keys of all of them; a key that the first layer has reads as
/// there, and any other as without that layer.
pub proof fn law_layered(first: Contents, others: Seq<Contents>, k: Seq<u8>)
    ensures
        layered(Seq::empty()) == Map::<Seq<u8>, Seq<u8>>::empty(),
        layered(seq![first] + others).contains_key(k) == (first.contains_key(k) || layered(
            others,
        ).contains_key(k)),
        first.contains_key(k) ==> layered(seq![first] + others)[k] == first[k],
        !first.contains_key(k) && layered(others).contains_key(k) ==> layered(
            seq![first] + others,
        )[k] == layered(others)[k],
{
    assert((seq![first] + others).drop_first() =~= others);
}

} // verus!
