//! Entries in ascending key order, and the pairs they stand for.
use vstd::prelude::*;

use crate::block::Entry;
use crate::iterators;
use crate::iterators::Contents;
use crate::key;

verus! {

broadcast use crate::key::group_key_order;

/// The keys ascend, each of them once.
pub open spec fn strictly_ascending(es: Seq<Entry>) -> bool {
    forall|i: int, j: int|
        #![trigger es[i], es[j]]
        0 <= i < j < es.len() ==> key::key_lt(es[i].0, es[j].0)
}

/// Entry `i` has the key `k`.
pub open spec fn has_key_at(es: Seq<Entry>, k: Seq<u8>, i: int) -> bool {
    0 <= i < es.len() && es[i].0 == k
}

/// The keys of the entries with their values.
pub open spec fn map_of(es: Seq<Entry>) -> Contents {
    Map::new(
        |k: Seq<u8>| exists|i: int| has_key_at(es, k, i),
        |k: Seq<u8>| es[choose|i: int| has_key_at(es, k, i)].1,
    )
}

/// The entries from position `p` on, where `p` is the first whose key is not
/// before `k`.
pub open spec fn is_first_not_before(es: Seq<Entry>, k: Seq<u8>, p: int) -> bool {
    &&& 0 <= p <= es.len()
    &&& forall|i: int| 0 <= i < p ==> key::key_lt((#[trigger] es[i]).0, k)
    &&& forall|i: int| p <= i < es.len() ==> key::key_le(k, (#[trigger] es[i]).0)
}

/// An entry is in the map.
pub proof fn lemma_map_of(es: Seq<Entry>, i: int)
    requires
        strictly_ascending(es),
        0 <= i < es.len(),
    ensures
        map_of(es).contains_key(es[i].0),
        map_of(es)[es[i].0] == es[i].1,
{
    let k = es[i].0;
    assert(has_key_at(es, k, i));
    let c = choose|c: int| has_key_at(es, k, c);
    assert(has_key_at(es, k, c));
    if c < i {
        assert(key::key_lt(es[c].0, es[i].0));
    } else if i < c {
        assert(key::key_lt(es[i].0, es[c].0));
    }
}

pub proof fn lemma_map_of_finite(es: Seq<Entry>)
    ensures
        map_of(es).dom().finite(),
{
    let keys = es.map_values(|e: Entry| e.0);
    assert forall|k: Seq<u8>| #[trigger] map_of(es).dom().contains(k) implies keys.to_set().contains(
        k,
    ) by {
        let i = choose|i: int| has_key_at(es, k, i);
        assert(keys[i] == k);
    }
    vstd::seq_lib::seq_to_set_is_finite(keys);
    vstd::set_lib::lemma_set_subset_finite(keys.to_set(), map_of(es).dom());
}

/// The first entry is the first pair; without it, the other entries are left.
pub proof fn lemma_first(es: Seq<Entry>)
    requires
        strictly_ascending(es),
    ensures
        iterators::has_keys(map_of(es)) == (es.len() > 0),
        es.len() > 0 ==> {
            &&& iterators::least(map_of(es)) == es[0].0
            &&& map_of(es)[es[0].0] == es[0].1
            &&& map_of(es.drop_first()) == map_of(es).remove(es[0].0)
        },
{
    if iterators::has_keys(map_of(es)) {
        let k = choose|k: Seq<u8>| map_of(es).contains_key(k);
        assert(exists|i: int| has_key_at(es, k, i));
    }
    if es.len() > 0 {
        let m = map_of(es);
        let tail = es.drop_first();
        lemma_map_of(es, 0);
        assert forall|j: Seq<u8>| #[trigger] m.contains_key(j) implies key::key_le(es[0].0, j) by {
            let i = choose|i: int| has_key_at(es, j, i);
            assert(es[i].0 == j);
        }
        assert(iterators::is_least(m, es[0].0));
        iterators::lemma_least_unique(m, es[0].0);
        assert(strictly_ascending(tail)) by {
            assert forall|i: int, j: int|
                #![trigger tail[i], tail[j]]
                0 <= i < j < tail.len() implies key::key_lt(tail[i].0, tail[j].0) by {
                assert(tail[i] == es[i + 1] && tail[j] == es[j + 1]);
            }
        }
        assert forall|k: Seq<u8>|
            #![trigger map_of(tail).contains_key(k)]
            #![trigger m.contains_key(k)]
            map_of(tail).contains_key(k) == m.remove(es[0].0).contains_key(k) && (map_of(
                tail,
            ).contains_key(k) ==> map_of(tail)[k] == m[k]) by {
            if map_of(tail).contains_key(k) {
                let i = choose|i: int| has_key_at(tail, k, i);
                assert(tail[i] == es[i + 1]);
                lemma_map_of(tail, i);
                lemma_map_of(es, i + 1);
                assert(key::key_lt(es[0].0, es[i + 1].0));
            }
            if m.remove(es[0].0).contains_key(k) {
                let i = choose|i: int| has_key_at(es, k, i);
                assert(es[i] == tail[i - 1]);
                lemma_map_of(tail, i - 1);
            }
        }
        assert(map_of(tail) =~= m.remove(es[0].0));
    }
}

/// The entries from some position on ascend as well.
pub proof fn lemma_skip_ascending(es: Seq<Entry>, p: int)
    requires
        strictly_ascending(es),
        0 <= p <= es.len(),
    ensures
        strictly_ascending(es.skip(p)),
{
    let t = es.skip(p);
    assert forall|i: int, j: int|
        #![trigger t[i], t[j]]
        0 <= i < j < t.len() implies key::key_lt(t[i].0, t[j].0) by {
        assert(t[i] == es[i + p] && t[j] == es[j + p]);
    }
}

/// Pairs stand in ascending order in one way only.
pub proof fn law_entries_of_map_unique(a: Seq<Entry>, b: Seq<Entry>)
    requires
        strictly_ascending(a),
        strictly_ascending(b),
        map_of(a) == map_of(b),
    ensures
        a == b,
    decreases a.len(),
{
    lemma_first(a);
    lemma_first(b);
    if a.len() > 0 {
        lemma_skip_ascending(a, 1);
        lemma_skip_ascending(b, 1);
        assert(a.skip(1) =~= a.drop_first());
        assert(b.skip(1) =~= b.drop_first());
        law_entries_of_map_unique(a.drop_first(), b.drop_first());
        assert(a =~= seq![a[0]] + a.drop_first());
        assert(b =~= seq![b[0]] + b.drop_first());
    } else {
        assert(a =~= b);
    }
}

/// The pairs whose key is not before `k`.
pub open spec fn from_key(m: Contents, k: Seq<u8>) -> Contents {
    Map::new(|j: Seq<u8>| m.contains_key(j) && key::key_le(k, j), |j: Seq<u8>| m[j])
}

/// The entries from the first whose key is not before `k` on are the pairs
/// whose key is not before `k`.
pub proof fn lemma_skip_before(es: Seq<Entry>, k: Seq<u8>, p: int)
    requires
        strictly_ascending(es),
        is_first_not_before(es, k, p),
    ensures
        map_of(es.skip(p)) == from_key(map_of(es), k),
{
    let t = es.skip(p);
    lemma_skip_ascending(es, p);
    assert forall|j: Seq<u8>|
        #![trigger map_of(t).contains_key(j)]
        #![trigger map_of(es).contains_key(j)]
        {
            &&& map_of(t).contains_key(j) == (map_of(es).contains_key(j) && key::key_le(k, j))
            &&& map_of(t).contains_key(j) ==> map_of(t)[j] == map_of(es)[j]
        } by {
        if map_of(t).contains_key(j) {
            let i = choose|i: int| has_key_at(t, j, i);
            assert(t[i] == es[i + p]);
            lemma_map_of(t, i);
            lemma_map_of(es, i + p);
        }
        if map_of(es).contains_key(j) && key::key_le(k, j) {
            let i = choose|i: int| has_key_at(es, j, i);
            assert(es[i].0 == j);
            assert(i >= p);
            assert(t[i - p] == es[i]);
            lemma_map_of(t, i - p);
        }
    }
    assert(map_of(t) =~= from_key(map_of(es), k));
}

/// The pairs of ascending entries are exactly the entries.
pub proof fn law_map_of(es: Seq<Entry>, k: Seq<u8>, v: Seq<u8>)
    requires
        forall|i: int, j: int|
            #![trigger es[i], es[j]]
            0 <= i < j < es.len() ==> key::key_lt(es[i].0, es[j].0),
    ensures
        strictly_ascending(es),
        (map_of(es).contains_key(k) && map_of(es)[k] == v) == es.contains((k, v)),
        map_of(es).contains_key(k) ==> es.contains((k, map_of(es)[k])),
{
    if map_of(es).contains_key(k) {
        let i = choose|i: int| has_key_at(es, k, i);
        lemma_map_of(es, i);
        assert(es[i] == (k, map_of(es)[k]));
    }
    if es.contains((k, v)) {
        lemma_map_of(es, es.index_of((k, v)));
    }
}

/// Entries ascend strictly if and only if each key comes before every later one.
pub proof fn law_strictly_ascending(es: Seq<Entry>)
    ensures
        strictly_ascending(es) == (forall|i: int, j: int|
            #![trigger es[i], es[j]]
            0 <= i < j < es.len() ==> key::key_lt(es[i].0, es[j].0)),
{
}

/// The pairs from a key on are those whose key does not come before it.
pub proof fn law_from_key(m: Contents, k: Seq<u8>, j: Seq<u8>)
    ensures
        from_key(m, k).contains_key(j) == (m.contains_key(j) && !key::key_lt(j, k)),
        from_key(m, k).contains_key(j) ==> from_key(m, k)[j] == m[j],
{
}

} // verus!
