//! The candidate tracker: a bounded collection keeping the `k` closest
//! candidates offered so far.
//!
//! Entries are `(distance, payload)` pairs ordered by distance alone; the
//! payload rides along. The tracker holds at most `k` entries; once full, an
//! offer evicts a largest-distance entry, so it always keeps `k` smallest
//! distances of everything offered. This is the max-heap discipline of the
//! search, realised as a vector kept sorted by distance.

use vstd::prelude::*;
use vstd::multiset::Multiset;

verus! {

broadcast use {vstd::seq_lib::group_to_multiset_ensures, vstd::multiset::group_multiset_axioms};

/// The smaller of two cardinalities.
pub open spec fn min_nat(a: nat, b: nat) -> nat {
    if a <= b {
        a
    } else {
        b
    }
}

/// Entries appear in non-decreasing distance order.
pub open spec fn sorted_by_dist<T>(s: Seq<(u64, T)>) -> bool {
    forall|i: int, j: int| 0 <= i <= j < s.len() ==> (#[trigger] s[i]).0 <= (#[trigger] s[j]).0
}

/// `s` is a selection of `min(k, |off|)` entries of the multiset `off` such
/// that every entry of `off` left out is at least as far as every entry kept.
pub open spec fn is_k_best<T>(s: Seq<(u64, T)>, off: Multiset<(u64, T)>, k: nat) -> bool {
    &&& sorted_by_dist(s)
    &&& s.len() == min_nat(k, off.len())
    &&& s.to_multiset().subset_of(off)
    &&& forall|c: (u64, T), j: int|
        #[trigger] off.sub(s.to_multiset()).count(c) > 0 && 0 <= j < s.len() ==> (#[trigger] s[j]).0
            <= c.0
}

/// The pruning threshold: the largest kept distance once the tracker is
/// full, and unreachably far (one past `u64::MAX`) while it is not.
pub open spec fn worst_ext<T>(s: Seq<(u64, T)>, k: nat) -> int {
    if s.len() < k {
        u64::MAX as int + 1
    } else {
        s.last().0 as int
    }
}

/// Tracks the `k` best candidates seen so far during one search.
pub struct Tracker<T> {
    cap: usize,
    items: Vec<(u64, T)>,
    seen: Ghost<Multiset<(u64, T)>>,
}

impl<T> Tracker<T> {
    /// The bound `k`.
    pub closed spec fn cap_spec(self) -> nat {
        self.cap as nat
    }

    /// The entries currently held, in distance order.
    pub closed spec fn items_seq(self) -> Seq<(u64, T)> {
        self.items@
    }

    /// Everything offered so far.
    pub closed spec fn offered(self) -> Multiset<(u64, T)> {
        self.seen@
    }

    /// The tracker's invariant: it holds a best-`k` selection of what has
    /// been offered.
    pub open spec fn wf(self) -> bool {
        &&& self.cap_spec() >= 1
        &&& is_k_best(self.items_seq(), self.offered(), self.cap_spec())
    }

    /// Creates an empty tracker bounded at `k`.
    pub fn new(k: usize) -> (t: Tracker<T>)
        requires
            k >= 1,
        ensures
            t.wf(),
            t.cap_spec() == k as nat,
            t.offered() == Multiset::<(u64, T)>::empty(),
            t.items_seq() == Seq::<(u64, T)>::empty(),
    {
        let t = Tracker { cap: k, items: Vec::new(), seen: Ghost(Multiset::empty()) };
        proof {
            assert(t.items@.to_multiset() =~= Multiset::<(u64, T)>::empty());
            assert(t.offered().sub(t.items@.to_multiset()) =~= Multiset::<(u64, T)>::empty());
        }
        t
    }

    /// The number of entries currently held.
    pub fn len(&self) -> (n: usize)
        ensures
            n == self.items_seq().len(),
    {
        self.items.len()
    }

    /// The current pruning threshold: the `k`-th smallest distance offered so
    /// far, or `u64::MAX` while fewer than `k` candidates have been offered.
    pub fn peek_worst(&self) -> (w: u64)
        requires
            self.wf(),
        ensures
            self.items_seq().len() < self.cap_spec() ==> w == u64::MAX,
            self.items_seq().len() == self.cap_spec() ==> w as int == worst_ext(
                self.items_seq(),
                self.cap_spec(),
            ),
            worst_ext(self.items_seq(), self.cap_spec()) >= w as int,
    {
        if self.items.len() < self.cap {
            u64::MAX
        } else {
            self.items[self.items.len() - 1].0
        }
    }

    /// Offers a candidate; keeps it if it is among the `k` best seen so far,
    /// evicting a farthest entry when over the bound.
    #[verifier::rlimit(80)]
    pub fn offer(&mut self, d: u64, t: T)
        requires
            old(self).wf(),
        ensures
            final(self).wf(),
            final(self).cap_spec() == old(self).cap_spec(),
            final(self).offered() == old(self).offered().insert((d, t)),
            worst_ext(final(self).items_seq(), final(self).cap_spec()) <= worst_ext(
                old(self).items_seq(),
                old(self).cap_spec(),
            ),
            final(self).items_seq().len() >= old(self).items_seq().len(),
    {
        let ghost old_items = self.items@;
        let ghost old_seen = self.seen@;
        let ghost cap = self.cap as nat;
        let mut idx: usize = 0;
        while idx < self.items.len() && self.items[idx].0 <= d
            invariant
                0 <= idx <= self.items@.len(),
                forall|j: int| 0 <= j < idx ==> (#[trigger] self.items@[j]).0 <= d,
                self.cap == old(self).cap,
                self.seen@ == old_seen,
                self.items@ == old_items,
            decreases self.items@.len() - idx,
        {
            idx = idx + 1;
        }
        let ghost iidx = idx as int;
        assert(forall|j: int| 0 <= j < iidx ==> (#[trigger] old_items[j]).0 <= d);
        assert(forall|j: int| iidx <= j < old_items.len() ==> d < (#[trigger] old_items[j]).0) by {
            assert(iidx < old_items.len() ==> old_items[iidx].0 > d);
        }
        self.items.insert(idx, (d, t));
        self.seen = Ghost(old_seen.insert((d, t)));
        let ghost ins = self.items@;
        proof {
            old_items.insert_ensures(iidx, (d, t));
            // the inserted sequence is sorted
            assert forall|a: int, b: int| 0 <= a <= b < ins.len() implies (#[trigger] ins[a]).0
                <= (#[trigger] ins[b]).0 by {
                if a < iidx {
                    assert(ins[a] == old_items[a]);
                }
                if b < iidx {
                    assert(ins[b] == old_items[b]);
                }
                if a > iidx {
                    assert(ins[a] == old_items[a - 1]);
                }
                if b > iidx {
                    assert(ins[b] == old_items[b - 1]);
                }
            }
            // its multiset is the old one plus the new entry
            assert(ins.remove(iidx) =~= old_items);
            assert(ins.to_multiset().remove((d, t)) == old_items.to_multiset());
            assert(ins.contains((d, t)));
            assert(ins.to_multiset().count((d, t)) > 0);
            assert(ins.to_multiset() =~= old_items.to_multiset().insert((d, t)));
        }
        if self.items.len() > self.cap {
            let ghost evicted = ins.last();
            let _ = self.items.pop();
            proof {
                let fin = self.items@;
                assert(fin == ins.subrange(0, ins.len() - 1));
                assert(fin =~= ins.remove(ins.len() - 1));
                assert(fin.to_multiset() == ins.to_multiset().remove(evicted));
                // the old tracker was exactly full
                assert(old_items.len() == cap);
                assert(fin.len() == cap);
                assert(old_seen.len() >= cap);
                // kept entries form a sub-multiset of everything offered
                assert forall|c: (u64, T)| true implies fin.to_multiset().count(c) <= #[trigger] self.seen@.count(c) by {
                    assert(ins.to_multiset().count(c) <= old_seen.insert((d, t)).count(c));
                }
                assert(fin.to_multiset().subset_of(self.seen@));
                // every entry of the inserted sequence is at most the evicted one
                assert(forall|j: int| 0 <= j < fin.len() ==> (#[trigger] fin[j]).0 <= evicted.0) by {
                    assert(forall|j: int| 0 <= j < ins.len() ==> (#[trigger] ins[j]).0 <= ins.last().0);
                }
                // excluded entries of the new state: the old exclusions plus the evicted entry
                let old_excl = old_seen.sub(old_items.to_multiset());
                let new_excl = self.seen@.sub(fin.to_multiset());
                assert(new_excl =~= old_excl.insert(evicted)) by {
                    assert forall|c: (u64, T)| true implies new_excl.count(c) == #[trigger] old_excl.insert(evicted).count(c) by {
                        assert(ins.to_multiset().count(c) == old_items.to_multiset().count(c) + (
                        if c == (d, t) {
                            1int
                        } else {
                            0
                        }));
                        assert(fin.to_multiset().count(c) == ins.to_multiset().count(c) - (
                        if c == evicted {
                            1int
                        } else {
                            0
                        }));
                    }
                }
                // exclusions dominate every kept entry
                assert forall|c: (u64, T), j: int|
                    #[trigger] new_excl.count(c) > 0 && 0 <= j < fin.len() implies (#[trigger] fin[j]).0 <= c.0 by {
                    if old_excl.count(c) > 0 {
                        // c was already excluded: it dominates every old entry, and the
                        // new entry d sits below the evicted maximum
                        assert(old_items.len() > 0);
                        assert(old_items[old_items.len() - 1].0 <= c.0);
                        if j < iidx {
                            assert(fin[j] == old_items[j]);
                            assert(old_items[j].0 <= old_items[old_items.len() - 1].0);
                        } else if j == iidx {
                            assert(fin[j] == (d, t));
                            // d was kept, so the eviction removed the old maximum
                            assert(iidx < ins.len() - 1);
                            assert(evicted == old_items[old_items.len() - 1]);
                            assert(d < evicted.0 || d <= evicted.0);
                            assert(ins[ins.len() - 1] == old_items[old_items.len() - 2 + 1]);
                            assert(d <= c.0);
                        } else {
                            assert(fin[j] == old_items[j - 1]);
                            assert(old_items[j - 1].0 <= old_items[old_items.len() - 1].0);
                        }
                    } else {
                        assert(c == evicted);
                        assert(fin[j].0 <= evicted.0);
                    }
                }
                // the threshold never increases
                assert(worst_ext(fin, cap) <= worst_ext(old_items, cap)) by {
                    assert(fin.len() == cap && old_items.len() == cap);
                    if iidx == ins.len() - 1 {
                        assert(fin =~= old_items);
                    } else {
                        assert(fin.last() == ins[ins.len() - 2]);
                        assert(evicted == old_items[old_items.len() - 1]);
                        assert(sorted_by_dist(ins));
                        assert(ins[ins.len() - 2].0 <= ins[ins.len() - 1].0);
                        assert(fin.last().0 <= old_items.last().0);
                    }
                }
            }
        } else {
            proof {
                let fin = self.items@;
                assert(fin == ins);
                assert(old_items.len() < cap);
                assert(old_items.len() == min_nat(cap, old_seen.len()));
                assert(old_seen.len() == old_items.len());
                assert(old_seen.sub(old_items.to_multiset()).len() == 0) by {
                    assert(old_items.to_multiset().subset_of(old_seen));
                }
                assert(old_seen =~= old_items.to_multiset()) by {
                    assert forall|c: (u64, T)| true implies old_seen.count(c) == #[trigger] old_items.to_multiset().count(c) by {
                        if old_seen.count(c) > old_items.to_multiset().count(c) {
                            assert(old_seen.sub(old_items.to_multiset()).count(c) > 0);
                            assert(old_seen.sub(old_items.to_multiset()).len() > 0);
                        }
                    }
                }
                assert(self.seen@ =~= fin.to_multiset());
                assert(self.seen@.sub(fin.to_multiset()) =~= Multiset::<(u64, T)>::empty());
                assert(fin.len() == min_nat(cap, self.seen@.len()));
                assert(worst_ext(fin, cap) <= worst_ext(old_items, cap)) by {
                    if fin.len() == cap {
                        assert(fin.last().0 <= u64::MAX);
                    }
                }
            }
        }
    }

    /// Returns all held entries in ascending distance order, consuming the
    /// tracker.
    pub fn drain(self) -> (r: Vec<(u64, T)>)
        ensures
            r@ == self.items_seq(),
    {
        self.items
    }
}

} // verus!
