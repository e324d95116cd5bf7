//! Identifiers and their byte-wise order.
//!
//! Every entity of the system — user, group, role or permission — is named
//! by an opaque 32-byte token. Identifiers are compared and ordered
//! byte-wise; nothing is parsed out of them.

use vstd::prelude::*;

verus! {

/// A decentralized identifier: an opaque 32-byte token.
pub type DIDType = [u8; 32];

/// `i` witnesses that `a` is strictly below `b` in the byte-wise
/// lexicographic order: the bytes before `i` agree and at `i` the byte of
/// `a` is the smaller one.
pub open spec fn lt_witness(a: Seq<u8>, b: Seq<u8>, i: int) -> bool {
    &&& 0 <= i < a.len()
    &&& i < b.len()
    &&& (forall|j: int| 0 <= j < i ==> a[j] == b[j])
    &&& a[i] < b[i]
}

/// Byte-wise lexicographic order on identifiers.
pub open spec fn id_lt(a: Seq<u8>, b: Seq<u8>) -> bool {
    exists|i: int| lt_witness(a, b, i)
}

pub proof fn lemma_id_lt_irreflexive(a: Seq<u8>)
    ensures
        !id_lt(a, a),
{
    if id_lt(a, a) {
        let i = choose|i: int| lt_witness(a, a, i);
        assert(a[i] < a[i]);
    }
}

pub proof fn lemma_id_lt_transitive(a: Seq<u8>, b: Seq<u8>, c: Seq<u8>)
    requires
        id_lt(a, b),
        id_lt(b, c),
    ensures
        id_lt(a, c),
{
    let i1 = choose|i: int| lt_witness(a, b, i);
    let i2 = choose|i: int| lt_witness(b, c, i);
    if i1 <= i2 {
        assert(lt_witness(a, c, i1));
    } else {
        assert(lt_witness(a, c, i2));
    }
}

/// Two distinct identifiers of equal length are ordered one way or the
/// other: the order is total.
pub proof fn lemma_id_lt_connected(a: Seq<u8>, b: Seq<u8>)
    requires
        a.len() == b.len(),
    ensures
        a != b ==> id_lt(a, b) || id_lt(b, a),
{
    if a != b {
        assert(exists|j: int| 0 <= j < a.len() && a[j] != b[j]) by {
            if forall|j: int| 0 <= j < a.len() ==> a[j] == b[j] {
                assert(a =~= b);
            }
        }
        lemma_first_difference(a, b, 0);
    }
}

proof fn lemma_first_difference(a: Seq<u8>, b: Seq<u8>, n: int)
    requires
        a.len() == b.len(),
        0 <= n < a.len(),
        forall|j: int| 0 <= j < n ==> a[j] == b[j],
        exists|j: int| n <= j < a.len() && a[j] != b[j],
    ensures
        id_lt(a, b) || id_lt(b, a),
    decreases a.len() - n,
{
    if a[n] != b[n] {
        if a[n] < b[n] {
            assert(lt_witness(a, b, n));
        } else {
            assert(lt_witness(b, a, n));
        }
    } else {
        let j0 = choose|j: int| n <= j < a.len() && a[j] != b[j];
        assert(n + 1 <= j0 < a.len());
        lemma_first_difference(a, b, n + 1);
    }
}

/// Byte-wise equality of two identifiers.
pub fn id_eq(a: &DIDType, b: &DIDType) -> (r: bool)
    ensures
        r <==> a@ == b@,
{
    let mut i: usize = 0;
    while i < 32
        invariant
            0 <= i <= 32,
            forall|j: int| 0 <= j < i ==> a@[j] == b@[j],
        decreases 32 - i,
    {
        if a[i] != b[i] {
            proof {
                assert(a@[i as int] != b@[i as int]);
            }
            return false;
        }
        i = i + 1;
    }
    proof {
        assert(a@ =~= b@);
    }
    true
}

/// Byte-wise strict comparison of two identifiers.
pub fn id_lt_exec(a: &DIDType, b: &DIDType) -> (r: bool)
    ensures
        r <==> id_lt(a@, b@),
{
    let mut i: usize = 0;
    while i < 32
        invariant
            0 <= i <= 32,
            forall|j: int| 0 <= j < i ==> a@[j] == b@[j],
        decreases 32 - i,
    {
        if a[i] < b[i] {
            proof {
                assert(lt_witness(a@, b@, i as int));
            }
            return true;
        }
        if a[i] > b[i] {
            proof {
                if id_lt(a@, b@) {
                    let k = choose|k: int| lt_witness(a@, b@, k);
                    if k < i {
                        assert(a@[k] == b@[k]);
                    } else if k == i {
                        assert(a@[k] < b@[k]);
                    } else {
                        assert(a@[i as int] == b@[i as int]);
                    }
                }
            }
            return false;
        }
        i = i + 1;
    }
    proof {
        assert(a@ =~= b@);
        lemma_id_lt_irreflexive(a@);
    }
    false
}

/// The identifiers of `s`, in order, each strictly below its successors.
pub open spec fn strictly_sorted(s: Seq<DIDType>) -> bool {
    forall|i: int, j: int| 0 <= i < j < s.len() ==> id_lt(s[i]@, s[j]@)
}

/// Whether some identifier of `s` views to `x`.
pub open spec fn contains_id(s: Seq<DIDType>, x: Seq<u8>) -> bool {
    exists|i: int| 0 <= i < s.len() && s[i]@ == x
}

/// The views of a sequence of identifiers.
pub open spec fn id_views(s: Seq<DIDType>) -> Seq<Seq<u8>> {
    s.map_values(|d: DIDType| d@)
}

/// An identifier sequence holds `x` exactly when its views do.
pub proof fn lemma_id_views_contains(s: Seq<DIDType>, x: Seq<u8>)
    ensures
        id_views(s).contains(x) <==> contains_id(s, x),
{
    if id_views(s).contains(x) {
        let w = choose|w: int| 0 <= w < id_views(s).len() && id_views(s)[w] == x;
        assert(s[w]@ == x);
        assert(contains_id(s, x));
    }
    if contains_id(s, x) {
        let w = choose|w: int| 0 <= w < s.len() && s[w]@ == x;
        assert(id_views(s)[w] == x);
        assert(id_views(s).contains(x));
    }
}

/// The identifiers of `new` are those of `prior` together with `x`.
pub open spec fn inserted_id(new: Seq<DIDType>, prior: Seq<DIDType>, x: Seq<u8>) -> bool {
    forall|id: Seq<u8>| contains_id(new, id) <==> contains_id(prior, id) || id == x
}

/// Inserts `x` into the strictly sorted `v`, keeping it sorted and
/// duplicate-free: the ordered-set accumulation behind role resolution.
pub fn sorted_insert(v: &mut Vec<DIDType>, x: DIDType)
    requires
        strictly_sorted(old(v)@),
    ensures
        strictly_sorted(final(v)@),
        inserted_id(final(v)@, old(v)@, x@),
{
    let mut i: usize = 0;
    while i < v.len()
        invariant
            strictly_sorted(v@),
            v@ == old(v)@,
            0 <= i <= v@.len(),
            forall|j: int| 0 <= j < i ==> id_lt(v@[j]@, x@),
        decreases v@.len() - i,
    {
        if id_eq(&v[i], &x) {
            proof {
                assert forall|id: Seq<u8>|
                    contains_id(v@, id) <==> contains_id(old(v)@, id) || id == x@ by {
                    if id == x@ {
                        assert(v@[i as int]@ == id);
                        assert(contains_id(v@, id));
                    }
                }
                assert(inserted_id(v@, old(v)@, x@));
            }
            return ;
        }
        if !id_lt_exec(&v[i], &x) {
            proof {
                lemma_id_lt_connected(v@[i as int]@, x@);
                assert(id_lt(x@, v@[i as int]@));
            }
            let ghost before = v@;
            let ghost ii = i as int;
            v.insert(i, x);
            proof {
                before.insert_ensures(ii, x);
                assert forall|p: int, q: int| 0 <= p < q < v@.len() implies id_lt(
                    v@[p]@,
                    v@[q]@,
                ) by {
                    if q < ii {
                        assert(v@[p] == before[p] && v@[q] == before[q]);
                    } else if q == ii {
                        assert(v@[q]@ == x@);
                        assert(v@[p] == before[p]);
                        assert(id_lt(before[p]@, x@));
                    } else {
                        assert(v@[q] == before[q - 1]);
                        if p < ii {
                            assert(v@[p] == before[p]);
                            assert(p < q - 1);
                            assert(id_lt(before[p]@, before[q - 1]@));
                        } else if p == ii {
                            assert(v@[p]@ == x@);
                            assert(ii <= q - 1 < before.len());
                            assert(id_lt(x@, before[ii]@));
                            if q - 1 == ii {
                                assert(v@[q] == before[ii]);
                            } else {
                                assert(id_lt(before[ii]@, before[q - 1]@));
                                lemma_id_lt_transitive(x@, before[ii]@, before[q - 1]@);
                            }
                        } else {
                            assert(v@[p] == before[p - 1]);
                            assert(id_lt(before[p - 1]@, before[q - 1]@));
                        }
                    }
                }
                assert forall|id: Seq<u8>|
                    contains_id(v@, id) <==> contains_id(before, id) || id == x@ by {
                    if contains_id(v@, id) {
                        let w = choose|w: int| 0 <= w < v@.len() && v@[w]@ == id;
                        if w < ii {
                            assert(before[w]@ == id);
                        } else if w == ii {
                            assert(id == x@);
                        } else {
                            assert(before[w - 1]@ == id);
                        }
                    }
                    if contains_id(before, id) {
                        let w = choose|w: int| 0 <= w < before.len() && before[w]@ == id;
                        if w < ii {
                            assert(v@[w]@ == id);
                        } else {
                            assert(v@[w + 1]@ == id);
                        }
                        assert(contains_id(v@, id));
                    }
                    if id == x@ {
                        assert(v@[ii]@ == id);
                        assert(contains_id(v@, id));
                    }
                }
                assert(inserted_id(v@, old(v)@, x@));
            }
            return ;
        }
        i = i + 1;
    }
    let ghost before = v@;
    v.push(x);
    proof {
        assert(before == old(v)@);
        assert forall|p: int, q: int| 0 <= p < q < v@.len() implies id_lt(v@[p]@, v@[q]@) by {
            if q < before.len() {
                assert(v@[p] == before[p] && v@[q] == before[q]);
            } else {
                assert(v@[q]@ == x@);
                assert(v@[p] == before[p]);
                assert(id_lt(before[p]@, x@));
            }
        }
        assert forall|id: Seq<u8>|
            contains_id(v@, id) <==> contains_id(before, id) || id == x@ by {
            if contains_id(v@, id) {
                let w = choose|w: int| 0 <= w < v@.len() && v@[w]@ == id;
                if w < before.len() {
                    assert(before[w]@ == id);
                } else {
                    assert(id == x@);
                }
            }
            if contains_id(before, id) {
                let w = choose|w: int| 0 <= w < before.len() && before[w]@ == id;
                assert(v@[w]@ == id);
                assert(contains_id(v@, id));
            }
            if id == x@ {
                assert(v@[before.len() as int]@ == id);
                assert(contains_id(v@, id));
            }
        }
        assert(inserted_id(v@, old(v)@, x@));
    }
}

} // verus!
