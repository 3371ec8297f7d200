//! Merging two iterators of different types.
use vstd::prelude::*;

use super::StorageIterator;
use crate::error::StorageError;
use crate::iterators;
use crate::iterators::Contents;
use crate::key;
use crate::key::KeySlice;

verus! {

broadcast use crate::key::group_key_order;

/// Merges two iterators of different types into one. If the two iterators have
/// the same key, only produce the key once and prefer the entry from `a`.
pub struct TwoMergeIterator<A: StorageIterator, B: StorageIterator> {
    a: A,
    b: B,
    choose_a: bool,
}

/// `a` on top of `b`.
pub open spec fn on_top(a: Contents, b: Contents) -> Contents {
    b.union_prefer_right(a)
}

/// It is the turn of `a`: it is valid, and `b` is not or has a later key.
pub open spec fn turn_of_a(a: Contents, b: Contents) -> bool {
    iterators::has_keys(a) && (!iterators::has_keys(b) || key::key_lt(
        iterators::least(a),
        iterators::least(b),
    ))
}

/// The two do not stand on the same key.
pub open spec fn apart(a: Contents, b: Contents) -> bool {
    iterators::has_keys(a) && iterators::has_keys(b) ==> iterators::least(a) != iterators::least(b)
}

/// The first pair of two that do not stand on the same key is the first pair of
/// the one whose turn it is.
proof fn lemma_turn(a: Contents, b: Contents)
    requires
        a.dom().finite(),
        b.dom().finite(),
        apart(a, b),
    ensures
        iterators::has_keys(on_top(a, b)) == (iterators::has_keys(a) || iterators::has_keys(b)),
        turn_of_a(a, b) ==> {
            &&& iterators::least(on_top(a, b)) == iterators::least(a)
            &&& on_top(a, b)[iterators::least(a)] == a[iterators::least(a)]
            &&& on_top(a, b).remove(iterators::least(a)) == on_top(a.remove(iterators::least(a)), b)
        },
        !turn_of_a(a, b) && iterators::has_keys(b) ==> {
            &&& iterators::least(on_top(a, b)) == iterators::least(b)
            &&& on_top(a, b)[iterators::least(b)] == b[iterators::least(b)]
            &&& on_top(a, b).remove(iterators::least(b)) == on_top(a, b.remove(iterators::least(b)))
        },
{
    let m = on_top(a, b);
    if iterators::has_keys(a) {
        iterators::lemma_least(a);
        assert(m.contains_key(iterators::least(a)));
    }
    if iterators::has_keys(b) {
        iterators::lemma_least(b);
        assert(m.contains_key(iterators::least(b)));
    }
    if iterators::has_keys(m) {
        let k = choose|k: Seq<u8>| m.contains_key(k);
        assert(a.contains_key(k) || b.contains_key(k));
    }
    if turn_of_a(a, b) {
        let k = iterators::least(a);
        assert(!b.contains_key(k));
        assert(iterators::is_least(m, k));
        iterators::lemma_least_unique(m, k);
        assert(m.remove(k) =~= on_top(a.remove(k), b));
    } else if iterators::has_keys(b) {
        let k = iterators::least(b);
        assert(!a.contains_key(k));
        assert(iterators::is_least(m, k));
        iterators::lemma_least_unique(m, k);
        assert(m.remove(k) =~= on_top(a, b.remove(k)));
    }
}

impl<A: StorageIterator, B: StorageIterator> TwoMergeIterator<A, B> {
    /// What `a` yields.
    pub closed spec fn rest_a(&self) -> Contents {
        self.a.rest()
    }

    /// What `b` yields.
    pub closed spec fn rest_b(&self) -> Contents {
        self.b.rest()
    }

    /// Both iterators can be used.
    closed spec fn parts_wf(&self) -> bool {
        self.a.wf() && self.b.wf()
    }

    /// Moves `b` on if it stands on the key of `a`, and says whose turn it is.
    fn settle(&mut self) -> (r: Result<(), StorageError>)
        requires
            old(self).parts_wf(),
        ensures
            r is Ok ==> {
                &&& final(self).wf()
                &&& final(self).rest() == old(self).rest()
                &&& old(self).infallible() ==> final(self).infallible()
                &&& forall|e: StorageError| #[trigger]
                    final(self).may_fail_with(e) ==> old(self).may_fail_with(e)
            },
            r matches Err(e) ==> old(self).b.may_fail_with(e),
            old(self).infallible() ==> r is Ok,
    {
        let ghost a0 = self.a.rest();
        let ghost b0 = self.b.rest();
        proof {
            self.a.lemma_finite();
            self.b.lemma_finite();
        }
        if self.a.is_valid() && self.b.is_valid() && self.a.key().same(self.b.key()) {
            match self.b.next() {
                Err(e) => {
                    return Err(e);
                },
                Ok(()) => {},
            }
            proof {
                iterators::lemma_least(a0);
                iterators::lemma_least(b0);
                self.b.lemma_finite();
                if iterators::has_keys(self.b.rest()) {
                    iterators::lemma_least(self.b.rest());
                }
            }
        }
        self.choose_a = self.a.is_valid() && (!self.b.is_valid() || self.a.key().lt(self.b.key()));
        assert(self.rest() =~= on_top(a0, b0));
        Ok(())
    }

    /// Creates the iterator; fails if `b` fails to move past the key of `a`.
    pub fn create(a: A, b: B) -> (r: Result<Self, StorageError>)
        requires
            a.wf(),
            b.wf(),
        ensures
            r matches Ok(m) ==> {
                &&& m.wf()
                &&& m.rest() == on_top(a.rest(), b.rest())
                &&& a.infallible() && b.infallible() ==> m.infallible()
                &&& forall|e: StorageError| #[trigger]
                    m.may_fail_with(e) ==> a.may_fail_with(e) || b.may_fail_with(e)
            },
            r matches Err(e) ==> b.may_fail_with(e),
            a.infallible() && b.infallible() ==> r is Ok,
    {
        let mut m = TwoMergeIterator { a, b, choose_a: false };
        match m.settle() {
            Err(e) => Err(e),
            Ok(()) => Ok(m),
        }
    }
}

impl<A: StorageIterator, B: StorageIterator> StorageIterator for TwoMergeIterator<A, B> {
    closed spec fn wf(&self) -> bool {
        &&& self.a.wf()
        &&& self.b.wf()
        &&& apart(self.a.rest(), self.b.rest())
        &&& self.choose_a == turn_of_a(self.a.rest(), self.b.rest())
    }

    open spec fn rest(&self) -> Contents {
        on_top(self.rest_a(), self.rest_b())
    }

    closed spec fn infallible(&self) -> bool {
        self.a.infallible() && self.b.infallible()
    }

    closed spec fn may_fail_with(&self, e: StorageError) -> bool {
        self.a.may_fail_with(e) || self.b.may_fail_with(e)
    }

    proof fn lemma_finite(&self) {
        self.a.lemma_finite();
        self.b.lemma_finite();
        assert(self.rest().dom() =~= self.a.rest().dom().union(self.b.rest().dom()));
    }

    fn key(&self) -> (k: KeySlice<'_>) {
        proof {
            self.a.lemma_finite();
            self.b.lemma_finite();
            lemma_turn(self.a.rest(), self.b.rest());
        }
        if self.choose_a {
            self.a.key()
        } else {
            self.b.key()
        }
    }

    fn value(&self) -> (v: &[u8]) {
        proof {
            self.a.lemma_finite();
            self.b.lemma_finite();
            lemma_turn(self.a.rest(), self.b.rest());
        }
        if self.choose_a {
            self.a.value()
        } else {
            self.b.value()
        }
    }

    fn is_valid(&self) -> (r: bool) {
        proof {
            self.a.lemma_finite();
            self.b.lemma_finite();
            lemma_turn(self.a.rest(), self.b.rest());
        }
        if self.choose_a {
            self.a.is_valid()
        } else {
            self.b.is_valid()
        }
    }

    fn next(&mut self) -> (r: Result<(), StorageError>) {
        proof {
            self.a.lemma_finite();
            self.b.lemma_finite();
            lemma_turn(self.a.rest(), self.b.rest());
        }
        let moved = if self.choose_a {
            self.a.next()
        } else {
            self.b.next()
        };
        match moved {
            Err(e) => {
                return Err(e);
            },
            Ok(()) => {},
        }
        self.settle()
    }
}

/// A key that is on top reads as there, and any other as below.
pub proof fn law_on_top(a: Contents, b: Contents, k: Seq<u8>)
    ensures
        on_top(a, b).contains_key(k) == (a.contains_key(k) || b.contains_key(k)),
        a.contains_key(k) ==> on_top(a, b)[k] == a[k],
        !a.contains_key(k) && b.contains_key(k) ==> on_top(a, b)[k] == b[k],
{
}

} // verus!
