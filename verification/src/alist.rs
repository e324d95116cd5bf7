//! Association lists: the relation store.
//!
//! Each relation is held as a vector of `(key, values)` pairs whose keys
//! are pairwise distinct. This gives the store the get / insert /
//! contains-key semantics the components need, with every operation
//! proved rather than assumed, and keeps each value list in insertion
//! order.

use crate::ids::id_eq;
use crate::ids::DIDType;
use vstd::prelude::*;

verus! {

/// Whether `m` holds an entry whose key views to `k`.
pub open spec fn alist_has_key<T>(m: Seq<(DIDType, Vec<T>)>, k: Seq<u8>) -> bool {
    exists|i: int| 0 <= i < m.len() && (#[trigger] m[i]).0@ == k
}

/// The index of the entry whose key views to `k`.
pub open spec fn alist_index<T>(m: Seq<(DIDType, Vec<T>)>, k: Seq<u8>) -> int {
    choose|i: int| 0 <= i < m.len() && (#[trigger] m[i]).0@ == k
}

/// The values recorded under `k`; empty when `k` is unknown.
pub open spec fn alist_vals<T>(m: Seq<(DIDType, Vec<T>)>, k: Seq<u8>) -> Seq<T> {
    if alist_has_key(m, k) {
        m[alist_index(m, k)].1@
    } else {
        Seq::empty()
    }
}

/// Pairwise distinct keys.
pub open spec fn alist_keys_unique<T>(m: Seq<(DIDType, Vec<T>)>) -> bool {
    forall|i: int, j: int| 0 <= i < j < m.len() ==> (#[trigger] m[i]).0@ != (#[trigger] m[j]).0@
}

/// With distinct keys, the entry at `i` is exactly the one its key finds.
pub proof fn lemma_alist_at<T>(m: Seq<(DIDType, Vec<T>)>, i: int)
    requires
        alist_keys_unique(m),
        0 <= i < m.len(),
    ensures
        alist_has_key(m, m[i].0@),
        alist_index(m, m[i].0@) == i,
        alist_vals(m, m[i].0@) == m[i].1@,
{
    assert(alist_has_key(m, m[i].0@));
    let j = alist_index(m, m[i].0@);
    assert(0 <= j < m.len() && m[j].0@ == m[i].0@);
    if i < j {
        assert(m[i].0@ != m[j].0@);
    }
    if j < i {
        assert(m[j].0@ != m[i].0@);
    }
}

/// Finds the entry keyed by `k`.
pub fn alist_find<T>(m: &Vec<(DIDType, Vec<T>)>, k: &DIDType) -> (r: Option<usize>)
    ensures
        match r {
            Some(i) => i < m@.len() && m@[i as int].0@ == k@,
            None => !alist_has_key(m@, k@),
        },
{
    let mut i: usize = 0;
    while i < m.len()
        invariant
            0 <= i <= m@.len(),
            forall|j: int| 0 <= j < i ==> (#[trigger] m@[j]).0@ != k@,
        decreases m@.len() - i,
    {
        if id_eq(&m[i].0, k) {
            return Some(i);
        }
        i = i + 1;
    }
    None
}

/// Appends `v` to the values of the entry at `i`, leaving every other
/// entry in place.
pub fn alist_push_at<T>(m: &mut Vec<(DIDType, Vec<T>)>, i: usize, v: T)
    requires
        i < old(m)@.len(),
    ensures
        final(m)@.len() == old(m)@.len(),
        final(m)@[i as int].0 == old(m)@[i as int].0,
        final(m)@[i as int].1@ == old(m)@[i as int].1@.push(v),
        forall|j: int| 0 <= j < old(m)@.len() && j != i ==> final(m)@[j] == old(m)@[j],
{
    let ghost before = m@;
    let (key, mut vals) = m.remove(i);
    vals.push(v);
    let ghost gpair = (key, vals);
    m.insert(i, (key, vals));
    proof {
        let ii = i as int;
        let mid = before.remove(ii);
        before.remove_ensures(ii);
        mid.insert_ensures(ii, gpair);
        assert(m@[ii] == gpair);
        assert forall|j: int| 0 <= j < before.len() && j != ii implies m@[j] == before[j] by {
            if j < ii {
                assert(m@[j] == mid[j]);
                assert(mid[j] == before[j]);
            } else {
                assert(m@[j] == mid[j - 1]);
                assert(mid[j - 1] == before[j]);
            }
        }
    }
}

/// Removes the value at position `j` of the entry at `i`, leaving every
/// other entry in place. The entry itself stays, even when its value
/// list becomes empty: the key remains known.
pub fn alist_remove_at<T>(m: &mut Vec<(DIDType, Vec<T>)>, i: usize, j: usize)
    requires
        i < old(m)@.len(),
        j < old(m)@[i as int].1@.len(),
    ensures
        final(m)@.len() == old(m)@.len(),
        final(m)@[i as int].0 == old(m)@[i as int].0,
        final(m)@[i as int].1@ == old(m)@[i as int].1@.remove(j as int),
        forall|k: int| 0 <= k < old(m)@.len() && k != i ==> final(m)@[k] == old(m)@[k],
{
    let ghost before = m@;
    let (key, mut vals) = m.remove(i);
    let _ = vals.remove(j);
    let ghost gpair = (key, vals);
    m.insert(i, (key, vals));
    proof {
        let ii = i as int;
        let mid = before.remove(ii);
        before.remove_ensures(ii);
        mid.insert_ensures(ii, gpair);
        assert(m@[ii] == gpair);
        assert forall|k: int| 0 <= k < before.len() && k != ii implies m@[k] == before[k] by {
            if k < ii {
                assert(m@[k] == mid[k]);
                assert(mid[k] == before[k]);
            } else {
                assert(m@[k] == mid[k - 1]);
                assert(mid[k - 1] == before[k]);
            }
        }
    }
}

/// `map_values` looks through `push`.
pub proof fn lemma_map_values_push<A, B>(s: Seq<A>, f: spec_fn(A) -> B, v: A)
    ensures
        s.push(v).map_values(f) == s.map_values(f).push(f(v)),
{
    assert(s.push(v).map_values(f) =~= s.map_values(f).push(f(v)));
}

/// `map_values` looks through `remove`.
pub proof fn lemma_map_values_remove<A, B>(s: Seq<A>, f: spec_fn(A) -> B, j: int)
    requires
        0 <= j < s.len(),
    ensures
        s.remove(j).map_values(f) == s.map_values(f).remove(j),
{
    s.remove_ensures(j);
    s.map_values(f).remove_ensures(j);
    assert(s.remove(j).map_values(f) =~= s.map_values(f).remove(j));
}

/// Removing one value of a duplicate-free sequence removes exactly that
/// value from the sequence's range.
pub proof fn lemma_remove_contains<A>(s: Seq<A>, j: int)
    requires
        s.no_duplicates(),
        0 <= j < s.len(),
    ensures
        forall|x: A| s.remove(j).contains(x) <==> s.contains(x) && x != s[j],
{
    s.remove_ensures(j);
    assert forall|x: A| s.remove(j).contains(x) <==> s.contains(x) && x != s[j] by {
        if s.remove(j).contains(x) {
            let w = choose|w: int| 0 <= w < s.remove(j).len() && s.remove(j)[w] == x;
            if w < j {
                assert(s[w] == x);
                assert(s[w] != s[j]);
            } else {
                assert(s[w + 1] == x);
                assert(s[w + 1] != s[j]);
            }
        }
        if s.contains(x) && x != s[j] {
            let w = choose|w: int| 0 <= w < s.len() && s[w] == x;
            if w < j {
                assert(s.remove(j)[w] == x);
            } else {
                assert(w > j);
                assert(s.remove(j)[w - 1] == x);
            }
            assert(s.remove(j).contains(x));
        }
    }
}

/// Removing a value keeps a duplicate-free sequence duplicate-free.
pub proof fn lemma_remove_no_duplicates<A>(s: Seq<A>, j: int)
    requires
        s.no_duplicates(),
        0 <= j < s.len(),
    ensures
        s.remove(j).no_duplicates(),
{
    s.remove_ensures(j);
    assert forall|p: int, q: int|
        0 <= p < s.remove(j).len() && 0 <= q < s.remove(j).len() && p != q implies s.remove(j)[p]
        != s.remove(j)[q] by {
        let p0 = if p < j {
            p
        } else {
            p + 1
        };
        let q0 = if q < j {
            q
        } else {
            q + 1
        };
        assert(s.remove(j)[p] == s[p0]);
        assert(s.remove(j)[q] == s[q0]);
        assert(s[p0] != s[q0]);
    }
}

/// Appending a value adds exactly that value to the sequence's range.
pub proof fn lemma_push_contains<A>(s: Seq<A>, v: A)
    ensures
        forall|x: A| s.push(v).contains(x) <==> s.contains(x) || x == v,
{
    assert forall|x: A| s.push(v).contains(x) <==> s.contains(x) || x == v by {
        if s.push(v).contains(x) {
            let w = choose|w: int| 0 <= w < s.push(v).len() && s.push(v)[w] == x;
            if w < s.len() {
                assert(s[w] == x);
            }
        }
        if s.contains(x) {
            let w = choose|w: int| 0 <= w < s.len() && s[w] == x;
            assert(s.push(v)[w] == x);
            assert(s.push(v).contains(x));
        }
        if x == v {
            assert(s.push(v)[s.len() as int] == x);
            assert(s.push(v).contains(x));
        }
    }
}

} // verus!
