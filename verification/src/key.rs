//! Keys: byte strings in lexicographic order.
use bytes::Bytes;
use vstd::prelude::*;
use vstd::slice::slice_to_vec;

use crate::buffer;
use crate::buffer::{bytes_as_slice, bytes_clone, bytes_from_vec};

verus! {

/// `a` comes before `b` in the lexicographic order of byte strings.
pub open spec fn key_lt(a: Seq<u8>, b: Seq<u8>) -> bool
    decreases a.len(),
{
    if b.len() == 0 {
        false
    } else if a.len() == 0 {
        true
    } else {
        a[0] < b[0] || (a[0] == b[0] && key_lt(a.drop_first(), b.drop_first()))
    }
}

/// `a` comes before `b`, or is `b`.
pub open spec fn key_le(a: Seq<u8>, b: Seq<u8>) -> bool {
    !key_lt(b, a)
}

/// No key comes before itself.
pub broadcast proof fn law_key_lt_irreflexive(a: Seq<u8>)
    ensures
        !#[trigger] key_lt(a, a),
    decreases a.len(),
{
    if a.len() > 0 {
        law_key_lt_irreflexive(a.drop_first());
    }
}

/// The order of keys is transitive.
pub broadcast proof fn law_key_lt_transitive(a: Seq<u8>, b: Seq<u8>, c: Seq<u8>)
    requires
        #[trigger] key_lt(a, b),
        #[trigger] key_lt(b, c),
    ensures
        key_lt(a, c),
    decreases a.len(),
{
    if a.len() > 0 && b.len() > 0 && c.len() > 0 && a[0] == b[0] && b[0] == c[0] {
        law_key_lt_transitive(a.drop_first(), b.drop_first(), c.drop_first());
    }
}

/// Of two different keys one comes before the other.
pub broadcast proof fn law_key_lt_total(a: Seq<u8>, b: Seq<u8>)
    ensures
        #[trigger] key_lt(a, b) || key_lt(b, a) || a == b,
    decreases a.len(),
{
    if a.len() > 0 && b.len() > 0 {
        law_key_lt_total(a.drop_first(), b.drop_first());
        if a[0] == b[0] && a.drop_first() == b.drop_first() {
            assert(a =~= seq![a[0]] + a.drop_first());
            assert(b =~= seq![b[0]] + b.drop_first());
        }
    } else if a.len() == 0 && b.len() == 0 {
        assert(a =~= b);
    }
}

/// A common first byte does not matter.
pub proof fn law_key_lt_cons(x: u8, a: Seq<u8>, b: Seq<u8>)
    ensures
        key_lt(seq![x] + a, seq![x] + b) == key_lt(a, b),
{
    assert((seq![x] + a).drop_first() =~= a);
    assert((seq![x] + b).drop_first() =~= b);
}

/// The first byte in which two keys differ decides, whatever follows it and
/// however much.
pub proof fn law_key_lt_first_difference(
    p: Seq<u8>,
    x: u8,
    y: u8,
    s: Seq<u8>,
    t: Seq<u8>,
)
    requires
        x < y,
    ensures
        key_lt(p + seq![x] + s, p + seq![y] + t),
        !key_lt(p + seq![y] + t, p + seq![x] + s),
    decreases p.len(),
{
    if p.len() > 0 {
        let q = p.drop_first();
        law_key_lt_first_difference(q, x, y, s, t);
        assert(p + seq![x] + s =~= seq![p[0]] + (q + seq![x] + s));
        assert(p + seq![y] + t =~= seq![p[0]] + (q + seq![y] + t));
        law_key_lt_cons(p[0], q + seq![x] + s, q + seq![y] + t);
        law_key_lt_cons(p[0], q + seq![y] + t, q + seq![x] + s);
    }
}

/// A key comes before every longer key that starts with it.
pub proof fn law_key_lt_longer(p: Seq<u8>, s: Seq<u8>)
    requires
        s.len() > 0,
    ensures
        key_lt(p, p + s),
        !key_lt(p + s, p),
    decreases p.len(),
{
    if p.len() > 0 {
        let q = p.drop_first();
        law_key_lt_longer(q, s);
        assert(p =~= seq![p[0]] + q);
        assert(p + s =~= seq![p[0]] + (q + s));
        law_key_lt_cons(p[0], q, q + s);
        law_key_lt_cons(p[0], q + s, q);
    }
}

/// A key is not behind another one if it comes before it or is the same.
pub proof fn law_key_le(a: Seq<u8>, b: Seq<u8>)
    ensures
        key_le(a, b) == (key_lt(a, b) || a == b),
{
    law_key_lt_irreflexive(a);
    law_key_lt_total(a, b);
    if key_lt(a, b) && key_lt(b, a) {
        law_key_lt_transitive(a, b, a);
    }
}

pub broadcast group group_key_order {
    law_key_lt_irreflexive,
    law_key_lt_transitive,
    law_key_lt_total,
}

/// Whether `a` comes before `b`.
pub fn slice_lt(a: &[u8], b: &[u8]) -> (r: bool)
    ensures
        r == key_lt(a@, b@),
{
    let mut i: usize = 0;
    assert(a@.skip(0) =~= a@);
    assert(b@.skip(0) =~= b@);
    while i < a.len() && i < b.len()
        invariant
            i <= a@.len(),
            i <= b@.len(),
            key_lt(a@, b@) == key_lt(a@.skip(i as int), b@.skip(i as int)),
        decreases a@.len() - i,
    {
        if a[i] < b[i] {
            return true;
        }
        if b[i] < a[i] {
            return false;
        }
        assert(a@.skip(i as int).drop_first() =~= a@.skip(i + 1));
        assert(b@.skip(i as int).drop_first() =~= b@.skip(i + 1));
        i = i + 1;
    }
    i < b.len()
}

/// Whether `a` and `b` hold the same bytes.
pub fn slice_eq(a: &[u8], b: &[u8]) -> (r: bool)
    ensures
        r == (a@ == b@),
{
    if a.len() != b.len() {
        return false;
    }
    let mut i: usize = 0;
    while i < a.len()
        invariant
            i <= a@.len(),
            a@.len() == b@.len(),
            forall|j: int| 0 <= j < i ==> a@[j] == b@[j],
        decreases a@.len() - i,
    {
        if a[i] != b[i] {
            return false;
        }
        i = i + 1;
    }
    assert(a@ =~= b@);
    true
}

/// A borrowed key.
#[derive(Clone, Copy)]
pub struct KeySlice<'a> {
    bytes: &'a [u8],
}

impl<'a> View for KeySlice<'a> {
    type V = Seq<u8>;

    closed spec fn view(&self) -> Seq<u8> {
        self.bytes@
    }
}

impl<'a> KeySlice<'a> {
    pub fn from_slice(bytes: &'a [u8]) -> (k: Self)
        ensures
            k@ == bytes@,
    {
        KeySlice { bytes }
    }

    pub fn raw_ref(&self) -> (s: &'a [u8])
        ensures
            s@ == self@,
    {
        self.bytes
    }

    pub fn len(&self) -> (n: usize)
        ensures
            n == self@.len(),
    {
        self.bytes.len()
    }

    pub fn is_empty(&self) -> (r: bool)
        ensures
            r == (self@.len() == 0),
    {
        self.bytes.len() == 0
    }

    /// Whether this key comes before `other`.
    pub fn lt(&self, other: KeySlice) -> (r: bool)
        ensures
            r == key_lt(self@, other@),
    {
        slice_lt(self.bytes, other.bytes)
    }

    /// Whether this key comes before `other`, or is `other`.
    pub fn le(&self, other: KeySlice) -> (r: bool)
        ensures
            r == key_le(self@, other@),
    {
        !slice_lt(other.bytes, self.bytes)
    }

    /// Whether the two keys are the same.
    pub fn same(&self, other: KeySlice) -> (r: bool)
        ensures
            r == (self@ == other@),
    {
        slice_eq(self.bytes, other.bytes)
    }
}

/// A key that owns its bytes.
pub struct KeyVec {
    bytes: Vec<u8>,
}

impl View for KeyVec {
    type V = Seq<u8>;

    closed spec fn view(&self) -> Seq<u8> {
        self.bytes@
    }
}

impl KeyVec {
    /// The empty key.
    pub fn new() -> (k: Self)
        ensures
            k@ == Seq::<u8>::empty(),
    {
        KeyVec { bytes: Vec::new() }
    }

    pub fn from_vec(bytes: Vec<u8>) -> (k: Self)
        ensures
            k@ == bytes@,
    {
        KeyVec { bytes }
    }

    pub fn as_key_slice(&self) -> (k: KeySlice<'_>)
        ensures
            k@ == self@,
    {
        KeySlice::from_slice(self.bytes.as_slice())
    }

    pub fn len(&self) -> (n: usize)
        ensures
            n == self@.len(),
    {
        self.bytes.len()
    }

    pub fn is_empty(&self) -> (r: bool)
        ensures
            r == (self@.len() == 0),
    {
        self.bytes.len() == 0
    }

    /// Replaces the key by a copy of `key`.
    pub fn set_from_slice(&mut self, key: KeySlice)
        ensures
            final(self)@ == key@,
    {
        self.bytes = slice_to_vec(key.raw_ref());
    }

    /// The same bytes, in a shared buffer.
    pub fn into_key_bytes(self) -> (k: KeyBytes)
        ensures
            k@ == self@,
    {
        KeyBytes { bytes: bytes_from_vec(self.bytes) }
    }
}

impl Clone for KeyVec {
    fn clone(&self) -> (k: Self)
        ensures
            k@ == self@,
    {
        KeyVec { bytes: slice_to_vec(self.bytes.as_slice()) }
    }
}

/// A key in a shared buffer.
pub struct KeyBytes {
    bytes: Bytes,
}

impl View for KeyBytes {
    type V = Seq<u8>;

    closed spec fn view(&self) -> Seq<u8> {
        buffer::bytes_content(self.bytes)
    }
}

impl KeyBytes {
    pub fn as_key_slice(&self) -> (k: KeySlice<'_>)
        ensures
            k@ == self@,
    {
        KeySlice::from_slice(bytes_as_slice(&self.bytes))
    }
}

impl Clone for KeyBytes {
    fn clone(&self) -> (k: Self)
        ensures
            k@ == self@,
    {
        KeyBytes { bytes: bytes_clone(&self.bytes) }
    }
}

} // verus!
