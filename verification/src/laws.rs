//! Laws relating the different ways of answering a k-nearest-neighbour
//! query.
//!
//! The contract of a search pins its result down to a best-`k` selection of
//! the tree's labelled entries ([`is_k_best`]). A selection is not unique
//! when distances tie — which of two equally distant payloads is returned is
//! unspecified — but the *distances* returned are: this module proves that
//! any two best-`k` selections of the same multiset carry exactly the same
//! sequence of distances. The pruning search, the brute-force reference
//! search, a repeated search with the same arguments, and any entry of a
//! batch therefore all agree, as distance multisets, on every input.

use vstd::prelude::*;
use vstd::multiset::Multiset;
use crate::tracker::{is_k_best, min_nat};
use crate::KDTree;

verus! {

broadcast use {
    vstd::seq_lib::group_to_multiset_ensures,
    vstd::multiset::group_multiset_axioms,
};

/// The distances of a result list, in order.
pub open spec fn dists_of<T>(s: Seq<(u64, T)>) -> Seq<u64> {
    s.map_values(|e: (u64, T)| e.0)
}

/// A sub-multiset is no longer than what contains it.
proof fn lemma_subset_len<T>(a: Multiset<T>, b: Multiset<T>)
    requires
        a.subset_of(b),
    ensures
        a.len() <= b.len(),
{
    assert(b =~= a.add(b.sub(a)));
}

/// The first entry of a non-empty best-`k` selection carries the smallest
/// distance of the whole multiset.
proof fn lemma_k_best_min<T>(L: Multiset<(u64, T)>, k: nat, r: Seq<(u64, T)>)
    requires
        is_k_best(r, L, k),
        r.len() > 0,
    ensures
        forall|c: (u64, T)| #[trigger] L.count(c) > 0 ==> r[0].0 <= c.0,
{
    assert forall|c: (u64, T)| #[trigger] L.count(c) > 0 implies r[0].0 <= c.0 by {
        if r.to_multiset().count(c) > 0 {
            assert(r.contains(c));
            let i = choose|i: int| 0 <= i < r.len() && r[i] == c;
            assert(r[0].0 <= r[i].0);
        } else {
            assert(L.sub(r.to_multiset()).count(c) > 0);
            assert(r[0].0 <= c.0);
        }
    }
}

/// Every entry of a best-`k` selection belongs to the multiset.
proof fn lemma_k_best_entry_in<T>(L: Multiset<(u64, T)>, k: nat, r: Seq<(u64, T)>, j: int)
    requires
        is_k_best(r, L, k),
        0 <= j < r.len(),
    ensures
        L.count(r[j]) > 0,
{
    assert(r.contains(r[j]));
    assert(r.to_multiset().count(r[j]) > 0);
}

/// Removing one entry of a best-`k` selection from both the selection and
/// the multiset leaves a best-`(k-1)` selection.
proof fn lemma_k_best_peel<T>(L: Multiset<(u64, T)>, k: nat, r: Seq<(u64, T)>, i: int)
    requires
        is_k_best(r, L, k),
        k >= 1,
        0 <= i < r.len(),
    ensures
        is_k_best(r.remove(i), L.remove(r[i]), (k - 1) as nat),
{
    let e = r[i];
    let r2 = r.remove(i);
    let l2 = L.remove(e);
    r.remove_ensures(i);
    lemma_k_best_entry_in(L, k, r, i);
    assert(r2.to_multiset() == r.to_multiset().remove(e));
    // sortedness is preserved by removing one entry
    assert forall|a: int, b: int| 0 <= a <= b < r2.len() implies (#[trigger] r2[a]).0 <= (
    #[trigger] r2[b]).0 by {
        if a < i {
            assert(r2[a] == r[a]);
        } else {
            assert(r2[a] == r[a + 1]);
        }
        if b < i {
            assert(r2[b] == r[b]);
        } else {
            assert(r2[b] == r[b + 1]);
        }
    }
    // cardinality
    assert(r.len() == min_nat(k, L.len()));
    assert(L.len() >= 1);
    assert(r2.len() == min_nat((k - 1) as nat, l2.len()));
    // sub-multiset
    assert forall|c: (u64, T)| true implies #[trigger] r2.to_multiset().count(c) <= l2.count(c) by {
        assert(r.to_multiset().count(c) <= L.count(c));
    }
    assert(r2.to_multiset().subset_of(l2));
    // the excluded entries are unchanged, and still dominate
    assert forall|c: (u64, T), j: int|
        #[trigger] l2.sub(r2.to_multiset()).count(c) > 0 && 0 <= j < r2.len() implies (
    #[trigger] r2[j]).0 <= c.0 by {
        assert(l2.sub(r2.to_multiset()).count(c) == L.sub(r.to_multiset()).count(c));
        if j < i {
            assert(r2[j] == r[j]);
        } else {
            assert(r2[j] == r[j + 1]);
        }
    }
}

/// Any two best-`k` selections of one multiset return the same distances, in
/// the same (ascending) order. Ties may shuffle payloads, never distances.
pub proof fn lemma_k_best_dists_unique<T>(
    L: Multiset<(u64, T)>,
    k: nat,
    r1: Seq<(u64, T)>,
    r2: Seq<(u64, T)>,
)
    requires
        is_k_best(r1, L, k),
        is_k_best(r2, L, k),
    ensures
        dists_of(r1) == dists_of(r2),
    decreases r1.len(),
{
    assert(r1.len() == r2.len());
    if r1.len() == 0 {
        assert(dists_of(r1) =~= dists_of(r2));
    } else {
        assert(k >= 1);
        lemma_k_best_min(L, k, r1);
        lemma_k_best_min(L, k, r2);
        lemma_k_best_entry_in(L, k, r1, 0);
        lemma_k_best_entry_in(L, k, r2, 0);
        let e = r1[0];
        let d0 = e.0;
        assert(r2[0].0 == d0);
        if r2.to_multiset().count(e) > 0 {
            // the same pair appears in both results: peel it from both
            assert(r2.contains(e));
            let i = choose|i: int| 0 <= i < r2.len() && r2[i] == e;
            // all of r2 up to i ties at d0
            assert(forall|j: int| 0 <= j <= i ==> (#[trigger] r2[j]).0 == d0);
            lemma_k_best_peel(L, k, r1, 0);
            lemma_k_best_peel(L, k, r2, i);
            assert(r2[i] == e);
            lemma_k_best_dists_unique(L.remove(e), (k - 1) as nat, r1.remove(0), r2.remove(i));
            r1.remove_ensures(0);
            r2.remove_ensures(i);
            // removing index i of an all-tied prefix changes the distances as
            // removing index 0 would
            assert(dists_of(r1.remove(0)) =~= dists_of(r1).remove(0));
            assert(dists_of(r2.remove(i)) =~= dists_of(r2).remove(i));
            assert(dists_of(r2).remove(i) =~= dists_of(r2).remove(0)) by {
                let s = dists_of(r2);
                assert forall|j: int| 0 <= j < s.remove(i).len() implies s.remove(i)[j] == s.remove(
                    0,
                )[j] by {
                    if j < i {
                        assert(s.remove(i)[j] == s[j]);
                        assert(s.remove(0)[j] == s[j + 1]);
                        assert(r2[j].0 == d0 && r2[j + 1].0 == d0);
                    } else {
                        assert(s.remove(i)[j] == s[j + 1]);
                        assert(s.remove(0)[j] == s[j + 1]);
                    }
                }
            }
            assert(dists_of(r1) =~= dists_of(r2)) by {
                assert(dists_of(r1)[0] == d0 && dists_of(r2)[0] == d0);
                assert(dists_of(r1).remove(0) == dists_of(r2).remove(0));
                assert forall|j: int| 0 <= j < dists_of(r1).len() implies dists_of(r1)[j]
                    == dists_of(r2)[j] by {
                    if j > 0 {
                        assert(dists_of(r1).remove(0)[j - 1] == dists_of(r1)[j]);
                        assert(dists_of(r2).remove(0)[j - 1] == dists_of(r2)[j]);
                    }
                }
            }
        } else {
            // r1's closest pair is not in r2 at all, so it is excluded from
            // r2: everything r2 keeps then ties at d0
            assert(L.sub(r2.to_multiset()).count(e) > 0);
            assert(forall|j: int| 0 <= j < r2.len() ==> (#[trigger] r2[j]).0 <= d0);
            assert forall|j: int| 0 <= j < r2.len() implies (#[trigger] r2[j]).0 == d0 by {
                lemma_k_best_entry_in(L, k, r2, j);
            }
            // and so does everything r1 keeps
            let w = r2.to_multiset().insert(e);
            assert(w.subset_of(L));
            assert(w.len() == r1.len() + 1);
            assert forall|j: int| 0 <= j < r1.len() implies (#[trigger] r1[j]).0 == d0 by {
                lemma_k_best_entry_in(L, k, r1, j);
                if r1[j].0 != d0 {
                    assert(r1[j].0 > d0);
                    // w holds one more d0-distance pair than r1 can: some pair
                    // of w is excluded from r1, yet r1 keeps a farther one
                    assert(exists|c: (u64, T)|
                        #[trigger] w.count(c) > 0 && w.count(c) > r1.to_multiset().count(c)) by {
                        if forall|c: (u64, T)|
                            #[trigger] w.count(c) <= r1.to_multiset().count(c) || w.count(c) == 0 {
                            assert(w.subset_of(r1.to_multiset())) by {
                                assert forall|c: (u64, T)| true implies #[trigger] w.count(c)
                                    <= r1.to_multiset().count(c) by {
                                    assert(w.count(c) <= r1.to_multiset().count(c) || w.count(c)
                                        == 0);
                                }
                            }
                            lemma_subset_len(w, r1.to_multiset());
                            assert(false);
                        }
                    }
                    let c = choose|c: (u64, T)|
                        #[trigger] w.count(c) > 0 && w.count(c) > r1.to_multiset().count(c);
                    assert(c.0 == d0) by {
                        if c != e {
                            assert(r2.to_multiset().count(c) > 0);
                            assert(r2.contains(c));
                            let jj = choose|jj: int| 0 <= jj < r2.len() && r2[jj] == c;
                            assert(r2[jj].0 == d0);
                        }
                    }
                    assert(L.count(c) >= w.count(c));
                    assert(L.sub(r1.to_multiset()).count(c) > 0);
                    assert(r1[j].0 <= c.0);
                    assert(false);
                }
            }
            assert(dists_of(r1) =~= dists_of(r2));
        }
    }
}

/// One law, three readings. For a built tree, a query `x`, an exponent `p`
/// and a bound `k`, every function of this library that answers the query —
/// the pruning [`KDTree::search`], the brute-force reference
/// [`KDTree::brute_search`], a repeated call of either with the same
/// arguments, or the entry for `x` of a [`KDTree::batch_search`] under any
/// chunking — returns results that agree as multisets of distances: their
/// contracts all pin a best-`k` selection of the same labelled multiset, and
/// two such selections carry identical distance sequences.
pub proof fn lemma_knn_results_agree<T>(
    tree: KDTree<T>,
    x: Seq<i64>,
    p: nat,
    k: nat,
    r1: Seq<(u64, T)>,
    r2: Seq<(u64, T)>,
)
    requires
        is_k_best(r1, tree.labeled(x, p), k),
        is_k_best(r2, tree.labeled(x, p), k),
    ensures
        dists_of(r1) == dists_of(r2),
{
    lemma_k_best_dists_unique(tree.labeled(x, p), k, r1, r2);
}

} // verus!
