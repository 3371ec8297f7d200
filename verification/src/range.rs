//! Ranges of keys.
use bytes::Bytes;
use std::ops::Bound;
use vstd::prelude::*;

use crate::buffer;
use crate::buffer::{bytes_as_slice, bytes_copy_from_slice};
use crate::iterators::Contents;
use crate::key;
use crate::key::slice_lt;

verus! {

/// `std::ops::Bound`, one end of a range.
#[verifier::external_type_specification]
#[verifier::reject_recursive_types(T)]
pub struct ExBound<T>(std::ops::Bound<T>);

/// The key of a bound.
pub open spec fn slice_bound(b: Bound<&[u8]>) -> Bound<Seq<u8>> {
    match b {
        Bound::Included(k) => Bound::Included(k@),
        Bound::Excluded(k) => Bound::Excluded(k@),
        Bound::Unbounded => Bound::Unbounded,
    }
}

/// The key of a bound that owns its bytes.
pub open spec fn bytes_bound(b: Bound<Bytes>) -> Bound<Seq<u8>> {
    match b {
        Bound::Included(k) => Bound::Included(buffer::bytes_content(k)),
        Bound::Excluded(k) => Bound::Excluded(buffer::bytes_content(k)),
        Bound::Unbounded => Bound::Unbounded,
    }
}

/// `k` does not lie before a range with this lower bound.
pub open spec fn above(lower: Bound<Seq<u8>>, k: Seq<u8>) -> bool {
    match lower {
        Bound::Included(b) => key::key_le(b, k),
        Bound::Excluded(b) => key::key_lt(b, k),
        Bound::Unbounded => true,
    }
}

/// `k` does not lie behind a range with this upper bound.
pub open spec fn below(upper: Bound<Seq<u8>>, k: Seq<u8>) -> bool {
    match upper {
        Bound::Included(b) => key::key_le(k, b),
        Bound::Excluded(b) => key::key_lt(k, b),
        Bound::Unbounded => true,
    }
}

/// The pairs whose key lies in the range.
pub open spec fn in_range(m: Contents, lower: Bound<Seq<u8>>, upper: Bound<Seq<u8>>) -> Contents {
    Map::new(
        |k: Seq<u8>| m.contains_key(k) && above(lower, k) && below(upper, k),
        |k: Seq<u8>| m[k],
    )
}

/// Whether `k` does not lie before a range with this lower bound.
pub fn is_above(lower: Bound<&[u8]>, k: &[u8]) -> (r: bool)
    ensures
        r == above(slice_bound(lower), k@),
        r == match lower {
            Bound::Included(b) => !key::key_lt(k@, b@),
            Bound::Excluded(b) => key::key_lt(b@, k@),
            Bound::Unbounded => true,
        },
{
    match lower {
        Bound::Included(b) => !slice_lt(k, b),
        Bound::Excluded(b) => slice_lt(b, k),
        Bound::Unbounded => true,
    }
}

/// Whether `k` does not lie behind a range with this upper bound.
pub fn is_below(upper: Bound<&[u8]>, k: &[u8]) -> (r: bool)
    ensures
        r == below(slice_bound(upper), k@),
        r == match upper {
            Bound::Included(b) => !key::key_lt(b@, k@),
            Bound::Excluded(b) => key::key_lt(k@, b@),
            Bound::Unbounded => true,
        },
{
    match upper {
        Bound::Included(b) => !slice_lt(b, k),
        Bound::Excluded(b) => slice_lt(k, b),
        Bound::Unbounded => true,
    }
}

/// The bound with a key of its own.
pub fn own_bound(b: Bound<&[u8]>) -> (r: Bound<Bytes>)
    ensures
        bytes_bound(r) == slice_bound(b),
{
    match b {
        Bound::Included(k) => Bound::Included(bytes_copy_from_slice(k)),
        Bound::Excluded(k) => Bound::Excluded(bytes_copy_from_slice(k)),
        Bound::Unbounded => Bound::Unbounded,
    }
}

/// The bound with a borrowed key.
pub fn borrow_bound(b: &Bound<Bytes>) -> (r: Bound<&[u8]>)
    ensures
        slice_bound(r) == bytes_bound(*b),
{
    match b {
        Bound::Included(k) => Bound::Included(bytes_as_slice(k)),
        Bound::Excluded(k) => Bound::Excluded(bytes_as_slice(k)),
        Bound::Unbounded => Bound::Unbounded,
    }
}

/// A lower bound holds back the keys before it, and one that is excluded holds
/// back itself; an upper bound those behind it. No bound holds nothing back.
pub proof fn law_bounds(b: Seq<u8>, k: Seq<u8>)
    ensures
        above(Bound::Included(b), k) == (key::key_lt(b, k) || b == k),
        above(Bound::Excluded(b), k) == key::key_lt(b, k),
        above(Bound::Unbounded, k),
        below(Bound::Included(b), k) == (key::key_lt(k, b) || k == b),
        below(Bound::Excluded(b), k) == key::key_lt(k, b),
        below(Bound::Unbounded, k),
{
    key::law_key_le(b, k);
    key::law_key_le(k, b);
}

/// The range between two bounds, of all pairs, has those whose keys lie between
/// them, with their values.
pub proof fn law_in_range(m: Contents, lower: Seq<u8>, upper: Seq<u8>, k: Seq<u8>)
    ensures
        in_range(m, Bound::Included(lower), Bound::Included(upper)).contains_key(k) == (
        m.contains_key(k) && !key::key_lt(k, lower) && !key::key_lt(upper, k)),
        in_range(m, Bound::Excluded(lower), Bound::Excluded(upper)).contains_key(k) == (
        m.contains_key(k) && key::key_lt(lower, k) && key::key_lt(k, upper)),
        in_range(m, Bound::Unbounded, Bound::Unbounded) == m,
        forall|lo: Bound<Seq<u8>>, up: Bound<Seq<u8>>| #[trigger]
            in_range(m, lo, up).contains_key(k) == (m.contains_key(k) && match lo {
                Bound::Included(b) => !key::key_lt(k, b),
                Bound::Excluded(b) => key::key_lt(b, k),
                Bound::Unbounded => true,
            } && match up {
                Bound::Included(b) => !key::key_lt(b, k),
                Bound::Excluded(b) => key::key_lt(k, b),
                Bound::Unbounded => true,
            }),
        forall|lo: Bound<Seq<u8>>, up: Bound<Seq<u8>>|
            in_range(m, lo, up).contains_key(k) ==> #[trigger] in_range(m, lo, up)[k] == m[k]
                && m.contains_key(k),
{
    assert(in_range(m, Bound::Unbounded, Bound::Unbounded) =~= m);
}

/// A bound keeps its key and whether it is included, borrowed or owned.
pub proof fn law_bound_keys(s: &[u8], b: Bytes)
    ensures
        slice_bound(Bound::Included(s)) == Bound::Included(s@),
        slice_bound(Bound::Excluded(s)) == Bound::Excluded(s@),
        slice_bound(Bound::Unbounded) == Bound::<Seq<u8>>::Unbounded,
        bytes_bound(Bound::Included(b)) == Bound::Included(buffer::bytes_content(b)),
        bytes_bound(Bound::Excluded(b)) == Bound::Excluded(buffer::bytes_content(b)),
        bytes_bound(Bound::Unbounded) == Bound::<Seq<u8>>::Unbounded,
{
}

} // verus!
