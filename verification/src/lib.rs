//! A KD-tree answering exact k-nearest-neighbour queries under a Minkowski
//! p-norm, over fixed-point integer coordinates.
//!
//! The tree is built once from a list of `(point, payload)` pairs and then
//! only read. A search keeps the `k` closest candidates in a bounded
//! [`tracker::Tracker`] and skips any subtree whose bounding box provably
//! cannot contain a closer point than the current `k`-th best. Distances are
//! the `p`-th powers of the Minkowski `p`-norm (see [`util`]), which order
//! points exactly as the norm itself does.

use vstd::prelude::*;
use vstd::multiset::Multiset;

pub mod arith;
pub mod laws;
pub mod tracker;
pub mod util;

use crate::tracker::{Tracker, is_k_best, min_nat, worst_ext};
use crate::util::{BoundBox, dist_spec, lemma_dist_upto_bounds, pdist};

verus! {

broadcast use {
    vstd::seq_lib::group_to_multiset_ensures,
    vstd::multiset::group_multiset_axioms,
    vstd::seq_lib::lemma_multiset_commutative,
};

/// Relies on rand::random: a uniformly distributed value; nothing is assumed
/// of the result, any value of the type may come back.
pub assume_specification<T>[ rand::random::<T> ]() -> (r: T)
    where
        rand::distributions::Standard: rand::distributions::Distribution<T>,
;

/// The mathematical view of a list of data points: each pair as
/// (coordinate sequence, payload).
pub open spec fn pairs_view<T>(s: Seq<(Vec<i64>, T)>) -> Seq<(Seq<i64>, T)> {
    s.map_values(|pr: (Vec<i64>, T)| (pr.0@, pr.1))
}

/// The entries are in non-decreasing order of their coordinate on axis `t`.
pub open spec fn sorted_on_axis<T>(s: Seq<(Vec<i64>, T)>, t: int) -> bool {
    forall|i: int, j: int|
        0 <= i <= j < s.len() ==> ((#[trigger] s[i]).0)@[t] <= ((#[trigger] s[j]).0)@[t]
}

/// A node of the KD-tree: one pivot point with its payload, the bounding box
/// of every point in its subtree, and up to two children.
pub struct KDTree<T> {
    bbox: BoundBox,
    l: Option<Box<KDTree<T>>>,
    r: Option<Box<KDTree<T>>>,
    pdiv: Vec<i64>,
    meta: T,
}

/// The multiset of (point, payload) pairs held by an optional subtree.
pub open spec fn child_points<T>(c: Option<Box<KDTree<T>>>) -> Multiset<(Seq<i64>, T)>
    decreases c,
{
    match c {
        Option::Some(n) => (*n).points(),
        Option::None => Multiset::empty(),
    }
}

/// The multiset of (distance, payload) pairs of an optional subtree, for a
/// query point `x` and exponent `p`.
pub open spec fn child_labeled<T>(c: Option<Box<KDTree<T>>>, x: Seq<i64>, p: nat) -> Multiset<
    (u64, T),
>
    decreases c,
{
    match c {
        Option::Some(n) => (*n).labeled(x, p),
        Option::None => Multiset::empty(),
    }
}

impl<T> KDTree<T> {
    /// The number of axes of this tree's points.
    pub closed spec fn dim(self) -> nat {
        self.pdiv@.len()
    }

    /// The multiset of (point, payload) pairs held by this subtree.
    pub closed spec fn points(self) -> Multiset<(Seq<i64>, T)>
        decreases self,
    {
        Multiset::singleton((self.pdiv@, self.meta)).add(child_points(self.l)).add(
            child_points(self.r),
        )
    }

    /// The multiset of (distance to `x`, payload) pairs of this subtree.
    pub closed spec fn labeled(self, x: Seq<i64>, p: nat) -> Multiset<(u64, T)>
        decreases self,
    {
        Multiset::singleton(((dist_spec(x, self.pdiv@, p) as u64), self.meta)).add(
            child_labeled(self.l, x, p),
        ).add(child_labeled(self.r, x, p))
    }

    /// Structural invariant, relative to a dimension: every point of the
    /// subtree lies inside the node's bounding box, and the children satisfy
    /// the same invariant.
    pub closed spec fn wf_dim(self, dim: nat) -> bool
        decreases self,
    {
        &&& self.pdiv@.len() == dim
        &&& self.bbox.wf()
        &&& self.bbox.dim() == dim
        &&& forall|c: (Seq<i64>, T)|
            #[trigger] self.points().count(c) > 0 ==> self.bbox.contains_pt(c.0)
        &&& match self.l {
            Option::Some(n) => (*n).wf_dim(dim),
            Option::None => true,
        }
        &&& match self.r {
            Option::Some(n) => (*n).wf_dim(dim),
            Option::None => true,
        }
    }

    /// Structural invariant of a built tree.
    pub open spec fn wf(self) -> bool {
        self.wf_dim(self.dim())
    }

    /// Every labelled entry of a subtree whose points all lie inside box `b`
    /// is at least as far from `x` as `b`'s lower bound.
    proof fn lemma_labeled_in_box(self, b: BoundBox, x: Seq<i64>, p: nat)
        requires
            b.wf(),
            x.len() == b.dim(),
            forall|c: (Seq<i64>, T)| #[trigger] self.points().count(c) > 0 ==> b.contains_pt(c.0),
        ensures
            forall|c: (u64, T)|
                #[trigger] self.labeled(x, p).count(c) > 0 ==> b.lb_spec(x, p) <= c.0 as int,
        decreases self,
    {
        let pvp = (self.pdiv@, self.meta);
        assert(self.points().count(pvp) > 0);
        b.lemma_lb_sound(x, self.pdiv@, p);
        lemma_dist_upto_bounds(x, self.pdiv@, p, x.len());
        match self.l {
            Option::Some(n) => {
                assert forall|c: (Seq<i64>, T)| #[trigger] (*n).points().count(c) > 0 implies
                    b.contains_pt(c.0) by {
                    assert(self.points().count(c) >= (*n).points().count(c));
                }
                (*n).lemma_labeled_in_box(b, x, p);
            },
            Option::None => {},
        }
        match self.r {
            Option::Some(n) => {
                assert forall|c: (Seq<i64>, T)| #[trigger] (*n).points().count(c) > 0 implies
                    b.contains_pt(c.0) by {
                    assert(self.points().count(c) >= (*n).points().count(c));
                }
                (*n).lemma_labeled_in_box(b, x, p);
            },
            Option::None => {},
        }
        assert forall|c: (u64, T)| #[trigger] self.labeled(x, p).count(c) > 0 implies b.lb_spec(
            x,
            p,
        ) <= c.0 as int by {
            let dp = ((dist_spec(x, self.pdiv@, p) as u64), self.meta);
            if c == dp {
                assert(c.0 as int == dist_spec(x, self.pdiv@, p));
            } else {
                assert(child_labeled(self.l, x, p).count(c) > 0 || child_labeled(self.r, x, p).count(c)
                    > 0);
                if child_labeled(self.l, x, p).count(c) > 0 {
                    match self.l {
                        Option::Some(n) => {
                            assert((*n).labeled(x, p).count(c) > 0);
                        },
                        Option::None => {
                            assert(false);
                        },
                    }
                } else {
                    match self.r {
                        Option::Some(n) => {
                            assert((*n).labeled(x, p).count(c) > 0);
                        },
                        Option::None => {
                            assert(false);
                        },
                    }
                }
            }
        }
    }
}

/// Combining per-child bookkeeping: what a visit offers overall is the
/// node's own labelled multiset less the exclusions of both children.
proof fn lemma_offer_assemble<T>(
    off0: Multiset<(u64, T)>,
    pv: (u64, T),
    ll: Multiset<(u64, T)>,
    lr: Multiset<(u64, T)>,
    g1: Multiset<(u64, T)>,
    g2: Multiset<(u64, T)>,
)
    requires
        g1.subset_of(ll),
        g2.subset_of(lr),
    ensures
        off0.insert(pv).add(ll.sub(g1)).add(lr.sub(g2)) == off0.add(
            Multiset::singleton(pv).add(ll).add(lr).sub(g1.add(g2)),
        ),
        g1.add(g2).subset_of(Multiset::singleton(pv).add(ll).add(lr)),
{
    let lhs = off0.insert(pv).add(ll.sub(g1)).add(lr.sub(g2));
    let rhs = off0.add(Multiset::singleton(pv).add(ll).add(lr).sub(g1.add(g2)));
    assert forall|c: (u64, T)| true implies #[trigger] lhs.count(c) == rhs.count(c) by {
        assert(g1.count(c) <= ll.count(c));
        assert(g2.count(c) <= lr.count(c));
    }
    assert(lhs =~= rhs);
    assert forall|c: (u64, T)| true implies #[trigger] g1.add(g2).count(c) <= Multiset::singleton(
        pv,
    ).add(ll).add(lr).count(c) by {
        assert(g1.count(c) <= ll.count(c));
        assert(g2.count(c) <= lr.count(c));
    }
}

impl<T: Copy> KDTree<T> {
    /// Builds a KD-tree from a list of `(point, payload)` pairs, all of
    /// dimension `dim`. The result is the empty tree (`None`) exactly when
    /// the input is empty; otherwise the tree holds exactly the input pairs.
    ///
    /// The split axis of each node is chosen at random; the choice affects
    /// only the shape of the tree, never which points it holds.
    pub fn build(data: Vec<(Vec<i64>, T)>, dim: usize) -> (r: Option<Box<KDTree<T>>>)
        requires
            dim >= 1,
            forall|j: int| 0 <= j < data@.len() ==> ((#[trigger] data@[j]).0)@.len() == dim,
        ensures
            (r is None) <==> data@.len() == 0,
            r matches Some(tree) ==> (*tree).wf() && (*tree).dim() == dim && (*tree).points()
                == pairs_view(data@).to_multiset(),
        decreases data@.len(),
    {
        if data.len() == 0 {
            return None;
        }
        let rnd: usize = rand::random::<usize>();
        let t = rnd % dim;
        let sorted = sort_by_axis(data, t, dim);
        let ghost sortedv = sorted@;
        let bbox = BoundBox::from_vec(&sorted, dim);
        let idiv = sorted.len() / 2;
        let mut ldata = sorted;
        let mut rdata = ldata.split_off(idiv);
        let pm = rdata.remove(0);
        let pdiv = pm.0;
        let meta = pm.1;
        proof {
            assert(ldata@ == sortedv.subrange(0, idiv as int));
            assert(rdata@ == sortedv.subrange(idiv as int, sortedv.len() as int).remove(0));
            assert(ldata@.len() < sortedv.len());
            assert(rdata@.len() < sortedv.len());
            assert(forall|j: int|
                0 <= j < ldata@.len() ==> ((#[trigger] ldata@[j]).0)@.len() == dim);
            assert(forall|j: int|
                0 <= j < rdata@.len() ==> ((#[trigger] rdata@[j]).0)@.len() == dim);
        }
        let l = Self::build(ldata, dim);
        let r = Self::build(rdata, dim);
        let node = KDTree { bbox, l, r, pdiv, meta };
        proof {
            let pvm = (node.pdiv@, node.meta);
            // the three parts tile the sorted list
            assert(pairs_view(sortedv) =~= pairs_view(ldata@) + (seq![pvm] + pairs_view(rdata@)));
            assert(pairs_view(sortedv).to_multiset() == pairs_view(ldata@).to_multiset().add(
                (seq![pvm] + pairs_view(rdata@)).to_multiset(),
            ));
            assert(seq![pvm].to_multiset() =~= Multiset::singleton(pvm)) by {
                assert(seq![pvm] =~= Seq::<(Seq<i64>, T)>::empty().push(pvm));
                assert(Seq::<(Seq<i64>, T)>::empty().to_multiset() =~= Multiset::<(
                    Seq<i64>,
                    T,
                )>::empty());
            }
            assert(child_points(node.l) == pairs_view(ldata@).to_multiset()) by {
                if ldata@.len() == 0 {
                    assert(pairs_view(ldata@).to_multiset() =~= Multiset::<(Seq<i64>, T)>::empty());
                }
            }
            assert(child_points(node.r) == pairs_view(rdata@).to_multiset()) by {
                if rdata@.len() == 0 {
                    assert(pairs_view(rdata@).to_multiset() =~= Multiset::<(Seq<i64>, T)>::empty());
                }
            }
            assert(node.points() =~= pairs_view(sortedv).to_multiset());
            assert(node.points() =~= pairs_view(data@).to_multiset());
            // well-formedness: all points lie inside the box computed over the
            // whole sorted list
            assert forall|c: (Seq<i64>, T)| #[trigger] node.points().count(c) > 0 implies
                node.bbox.contains_pt(c.0) by {
                assert(pairs_view(sortedv).to_multiset().count(c) > 0);
                assert(pairs_view(sortedv).contains(c));
                let j = choose|j: int| 0 <= j < pairs_view(sortedv).len() && pairs_view(sortedv)[j]
                    == c;
                assert(node.bbox.contains_pt((sortedv[j].0)@));
            }
            assert(node.wf_dim(dim as nat));
        }
        Some(Box::new(node))
    }

    /// Visits a subtree: offers the pivot, then descends into the children
    /// unless the node's bounding box already lies beyond the current
    /// threshold. Returns (as a ghost value) the multiset of entries that
    /// were skipped; each of them is at least as far as the final threshold.
    fn search_rec(&self, x: &Vec<i64>, p: u64, tr: &mut Tracker<T>) -> (g: Ghost<
        Multiset<(u64, T)>,
    >)
        requires
            self.wf(),
            x@.len() == self.dim(),
            old(tr).wf(),
        ensures
            final(tr).wf(),
            final(tr).cap_spec() == old(tr).cap_spec(),
            g@.subset_of(self.labeled(x@, p as nat)),
            final(tr).offered() == old(tr).offered().add(self.labeled(x@, p as nat).sub(g@)),
            forall|c: (u64, T)|
                #[trigger] g@.count(c) > 0 ==> worst_ext(
                    final(tr).items_seq(),
                    final(tr).cap_spec(),
                ) <= c.0 as int,
            worst_ext(final(tr).items_seq(), final(tr).cap_spec()) <= worst_ext(
                old(tr).items_seq(),
                old(tr).cap_spec(),
            ),
            g@.len() > 0 ==> final(tr).items_seq().len() == final(tr).cap_spec(),
            final(tr).items_seq().len() >= old(tr).items_seq().len(),
        decreases self,
    {
        let ghost dimn = self.dim();
        let ghost lbl = self.labeled(x@, p as nat);
        let ghost off0 = tr.offered();
        let ghost items0 = tr.items_seq();
        let ghost cap = tr.cap_spec();
        let d = pdist(x, &self.pdiv, p);
        proof {
            lemma_dist_upto_bounds(x@, self.pdiv@, p as nat, x@.len());
        }
        let ghost pv = (d, self.meta);
        tr.offer(d, self.meta);
        let ghost off1 = tr.offered();
        let ghost w1 = worst_ext(tr.items_seq(), cap);
        let ghost ll = child_labeled(self.l, x@, p as nat);
        let ghost lr = child_labeled(self.r, x@, p as nat);
        proof {
            assert(lbl == Multiset::singleton(pv).add(ll).add(lr));
        }
        let w = tr.peek_worst();
        let lb = self.bbox.cdist(x, p);
        if lb <= w {
            let mut g: Ghost<Multiset<(u64, T)>> = Ghost(Multiset::empty());
            match &self.l {
                Some(c) => {
                    proof {
                        assert((**c).wf_dim(dimn));
                        assert((**c).wf() && (**c).dim() == dimn);
                    }
                    let g1 = c.search_rec(x, p, tr);
                    g = Ghost(g1@);
                },
                None => {
                    proof {
                        assert(tr.offered() =~= off1.add(ll.sub(g@)));
                    }
                },
            }
            let ghost gl = g@;
            let ghost off2 = tr.offered();
            let ghost w2 = worst_ext(tr.items_seq(), cap);
            let ghost items2 = tr.items_seq();
            match &self.r {
                Some(c) => {
                    proof {
                        assert((**c).wf_dim(dimn));
                        assert((**c).wf() && (**c).dim() == dimn);
                    }
                    let g2 = c.search_rec(x, p, tr);
                    g = Ghost(g@.add(g2@));
                },
                None => {
                    proof {
                        assert(g@.add(Multiset::<(u64, T)>::empty()) =~= g@);
                        assert(tr.offered() =~= off2.add(lr.sub(Multiset::<(u64, T)>::empty())));
                    }
                },
            }
            let ghost gr = g@.sub(gl);
            proof {
                assert(gr =~= g@.sub(gl));
                assert(g@ =~= gl.add(gr));
                assert(gl.subset_of(ll));
                assert(gr.subset_of(lr));
                assert(tr.offered() == off2.add(lr.sub(gr)));
                lemma_offer_assemble(off0, pv, ll, lr, gl, gr);
                assert(tr.offered() == off0.add(lbl.sub(g@)));
                // each skipped entry is at least the final threshold
                let wf_ = worst_ext(tr.items_seq(), cap);
                assert forall|c: (u64, T)| #[trigger] g@.count(c) > 0 implies wf_ <= c.0 as int by {
                    if gl.count(c) > 0 {
                        assert(w2 <= c.0 as int);
                        assert(wf_ <= w2);
                    } else {
                        assert(gr.count(c) > 0);
                    }
                }
                assert(g@.len() > 0 ==> tr.items_seq().len() == cap) by {
                    if g@.len() > 0 {
                        if gl.len() > 0 {
                            assert(items2.len() == cap);
                            assert(tr.items_seq().len() >= items2.len());
                            assert(tr.items_seq().len() <= cap) by {
                                assert(is_k_best(tr.items_seq(), tr.offered(), cap));
                            }
                        } else {
                            assert(gl =~= Multiset::<(u64, T)>::empty());
                            assert(gr.len() > 0);
                        }
                    }
                }
            }
            g
        } else {
            let g: Ghost<Multiset<(u64, T)>> = Ghost(ll.add(lr));
            proof {
                // pruning can only happen once the tracker is full
                assert(tr.items_seq().len() == cap);
                assert(w as int == w1);
                // every skipped entry sits beyond the node's own lower bound
                match &self.l {
                    Option::Some(n) => {
                        assert forall|c: (Seq<i64>, T)| #[trigger] (**n).points().count(c)
                            > 0 implies self.bbox.contains_pt(c.0) by {
                            assert(self.points().count(c) >= (**n).points().count(c));
                        }
                        (**n).lemma_labeled_in_box(self.bbox, x@, p as nat);
                    },
                    Option::None => {},
                }
                match &self.r {
                    Option::Some(n) => {
                        assert forall|c: (Seq<i64>, T)| #[trigger] (**n).points().count(c)
                            > 0 implies self.bbox.contains_pt(c.0) by {
                            assert(self.points().count(c) >= (**n).points().count(c));
                        }
                        (**n).lemma_labeled_in_box(self.bbox, x@, p as nat);
                    },
                    Option::None => {},
                }
                assert forall|c: (u64, T)| #[trigger] g@.count(c) > 0 implies worst_ext(
                    tr.items_seq(),
                    cap,
                ) <= c.0 as int by {
                    assert(ll.count(c) > 0 || lr.count(c) > 0);
                    assert(self.bbox.lb_spec(x@, p as nat) <= c.0 as int);
                    assert(w1 <= lb as int);
                }
                assert(g@.subset_of(lbl));
                assert(tr.offered() == off0.add(lbl.sub(g@))) by {
                    assert(lbl.sub(g@) =~= Multiset::singleton(pv));
                    assert(off1 =~= off0.add(Multiset::singleton(pv)));
                }
            }
            g
        }
    }

    /// Returns the `k` nearest neighbours of `x` in this tree: a list of
    /// (distance, payload) pairs in ascending distance order, of length
    /// `min(k, number of points)`, such that every point of the tree that is
    /// not returned is at least as far from `x` as every returned entry.
    pub fn search(&self, k: usize, x: &Vec<i64>, p: u64) -> (r: Vec<(u64, T)>)
        requires
            self.wf(),
            x@.len() == self.dim(),
            k >= 1,
            p >= 1,
        ensures
            is_k_best(r@, self.labeled(x@, p as nat), k as nat),
    {
        let mut tr = Tracker::new(k);
        let g = self.search_rec(x, p, &mut tr);
        proof {
            assert(tr.offered() =~= self.labeled(x@, p as nat).sub(g@));
            lemma_k_best_widen(tr.items_seq(), tr.offered(), self.labeled(x@, p as nat), g@, k as nat);
        }
        tr.drain()
    }

    /// Offers every entry of the subtree to the tracker, with no pruning.
    fn offer_all(&self, x: &Vec<i64>, p: u64, tr: &mut Tracker<T>)
        requires
            self.wf(),
            x@.len() == self.dim(),
            old(tr).wf(),
        ensures
            final(tr).wf(),
            final(tr).cap_spec() == old(tr).cap_spec(),
            final(tr).offered() == old(tr).offered().add(self.labeled(x@, p as nat)),
        decreases self,
    {
        let ghost dimn = self.dim();
        let ghost lbl = self.labeled(x@, p as nat);
        let ghost off0 = tr.offered();
        let ghost cap = tr.cap_spec();
        let d = pdist(x, &self.pdiv, p);
        proof {
            lemma_dist_upto_bounds(x@, self.pdiv@, p as nat, x@.len());
        }
        let ghost pv = (d, self.meta);
        tr.offer(d, self.meta);
        let ghost off1 = tr.offered();
        let ghost ll = child_labeled(self.l, x@, p as nat);
        let ghost lr = child_labeled(self.r, x@, p as nat);
        match &self.l {
            Some(c) => {
                proof {
                    assert((**c).wf_dim(dimn));
                    assert((**c).wf() && (**c).dim() == dimn);
                }
                c.offer_all(x, p, tr);
            },
            None => {
                proof {
                    assert(tr.offered() =~= off1.add(ll));
                }
            },
        }
        let ghost off2 = tr.offered();
        match &self.r {
            Some(c) => {
                proof {
                    assert((**c).wf_dim(dimn));
                    assert((**c).wf() && (**c).dim() == dimn);
                }
                c.offer_all(x, p, tr);
            },
            None => {
                proof {
                    assert(tr.offered() =~= off2.add(lr));
                }
            },
        }
        proof {
            assert(lbl == Multiset::singleton(pv).add(ll).add(lr));
            assert(tr.offered() =~= off0.add(lbl));
        }
    }

    /// The brute-force reference search: offers every point of the tree to a
    /// fresh tracker, with no pruning, and returns the tracker's contents.
    /// Its contract is the same as [`KDTree::search`]'s.
    pub fn brute_search(&self, k: usize, x: &Vec<i64>, p: u64) -> (r: Vec<(u64, T)>)
        requires
            self.wf(),
            x@.len() == self.dim(),
            k >= 1,
            p >= 1,
        ensures
            is_k_best(r@, self.labeled(x@, p as nat), k as nat),
    {
        let mut tr = Tracker::new(k);
        self.offer_all(x, p, &mut tr);
        proof {
            assert(tr.offered() =~= self.labeled(x@, p as nat));
        }
        tr.drain()
    }

    /// Runs [`KDTree::search`] for the queries `x[start], ..., x[end - 1]`,
    /// in order.
    pub fn search_chunk(
        &self,
        k: usize,
        x: &Vec<Vec<i64>>,
        p: u64,
        start: usize,
        end: usize,
    ) -> (r: Vec<Vec<(u64, T)>>)
        requires
            self.wf(),
            k >= 1,
            p >= 1,
            start <= end <= x@.len(),
            forall|j: int| 0 <= j < x@.len() ==> (#[trigger] x@[j])@.len() == self.dim(),
        ensures
            r@.len() == end - start,
            forall|j: int|
                0 <= j < r@.len() ==> is_k_best(
                    (#[trigger] r@[j])@,
                    self.labeled(x@[start + j]@, p as nat),
                    k as nat,
                ),
    {
        let mut out: Vec<Vec<(u64, T)>> = Vec::new();
        let mut i: usize = start;
        while i < end
            invariant
                self.wf(),
                k >= 1,
                p >= 1,
                start <= i <= end <= x@.len(),
                forall|j: int| 0 <= j < x@.len() ==> (#[trigger] x@[j])@.len() == self.dim(),
                out@.len() == i - start,
                forall|j: int|
                    0 <= j < out@.len() ==> is_k_best(
                        (#[trigger] out@[j])@,
                        self.labeled(x@[start + j]@, p as nat),
                        k as nat,
                    ),
            decreases end - i,
        {
            let res = self.search(k, &x[i], p);
            out.push(res);
            i = i + 1;
        }
        out
    }

    /// Answers a batch of queries: `r[i]` is the result of
    /// `search(k, x[i], p)`'s contract for each `i`, in input order. The
    /// queries are processed in `DIVIDE` contiguous chunks (the last absorbs
    /// the remainder), each chunk independently; the chunking is invisible in
    /// the result.
    pub fn batch_search(&self, k: usize, x: Vec<Vec<i64>>, p: u64) -> (r: Vec<Vec<(u64, T)>>)
        requires
            self.wf(),
            k >= 1,
            p >= 1,
            forall|j: int| 0 <= j < x@.len() ==> (#[trigger] x@[j])@.len() == self.dim(),
        ensures
            r@.len() == x@.len(),
            forall|j: int|
                0 <= j < r@.len() ==> is_k_best(
                    (#[trigger] r@[j])@,
                    self.labeled(x@[j]@, p as nat),
                    k as nat,
                ),
    {
        let n = x.len();
        let q = n / DIVIDE;
        proof {
            vstd::arithmetic::div_mod::lemma_fundamental_div_mod(n as int, DIVIDE as int);
        }
        let mut out: Vec<Vec<(u64, T)>> = Vec::new();
        let mut i: usize = 0;
        while i < DIVIDE - 1
            invariant
                self.wf(),
                k >= 1,
                p >= 1,
                forall|j: int| 0 <= j < x@.len() ==> (#[trigger] x@[j])@.len() == self.dim(),
                0 <= i <= DIVIDE - 1,
                q == x@.len() as int / DIVIDE as int,
                n == x@.len(),
                out@.len() == i * q,
                out@.len() <= x@.len(),
                forall|j: int|
                    0 <= j < out@.len() ==> is_k_best(
                        (#[trigger] out@[j])@,
                        self.labeled(x@[j]@, p as nat),
                        k as nat,
                    ),
            decreases DIVIDE - i,
        {
            proof {
                vstd::arithmetic::div_mod::lemma_fundamental_div_mod(n as int, DIVIDE as int);
                vstd::arithmetic::mul::lemma_mul_inequality(i as int + 1, DIVIDE as int, q as int);
                assert((i + 1) * q == i * q + q) by (nonlinear_arith);
            }
            let start = i * q;
            let end = (i + 1) * q;
            let mut chunk = self.search_chunk(k, &x, p, start, end);
            let ghost out_old = out@;
            let ghost chunkv = chunk@;
            out.append(&mut chunk);
            proof {
                assert forall|j: int| 0 <= j < out@.len() implies is_k_best(
                    (#[trigger] out@[j])@,
                    self.labeled(x@[j]@, p as nat),
                    k as nat,
                ) by {
                    if j >= out_old.len() {
                        assert(out@[j] == chunkv[j - start]);
                        assert(is_k_best(
                            (chunkv[j - start])@,
                            self.labeled(x@[start + (j - start)]@, p as nat),
                            k as nat,
                        ));
                    }
                }
            }
            i = i + 1;
        }
        proof {
            vstd::arithmetic::div_mod::lemma_fundamental_div_mod(n as int, DIVIDE as int);
            vstd::arithmetic::mul::lemma_mul_inequality(i as int, DIVIDE as int, q as int);
            assert(i == DIVIDE - 1);
        }
        let start = i * q;
        let mut chunk = self.search_chunk(k, &x, p, start, n);
        let ghost out_old = out@;
        let ghost chunkv = chunk@;
        out.append(&mut chunk);
        proof {
            assert forall|j: int| 0 <= j < out@.len() implies is_k_best(
                (#[trigger] out@[j])@,
                self.labeled(x@[j]@, p as nat),
                k as nat,
            ) by {
                if j >= out_old.len() {
                    assert(out@[j] == chunkv[j - start]);
                    assert(is_k_best(
                        (chunkv[j - start])@,
                        self.labeled(x@[start + (j - start)]@, p as nat),
                        k as nat,
                    ));
                }
            }
        }
        out
    }
}

/// The number of chunks a batch of queries is split into.
pub const DIVIDE: usize = 8;

/// Sorts a list of data points by their coordinate on axis `t`, by repeated
/// insertion. The result holds exactly the input pairs.
#[verifier::rlimit(80)]
fn sort_by_axis<T>(data: Vec<(Vec<i64>, T)>, t: usize, dim: usize) -> (out: Vec<(Vec<i64>, T)>)
    requires
        t < dim,
        forall|j: int| 0 <= j < data@.len() ==> ((#[trigger] data@[j]).0)@.len() == dim,
    ensures
        out@.len() == data@.len(),
        forall|j: int| 0 <= j < out@.len() ==> ((#[trigger] out@[j]).0)@.len() == dim,
        sorted_on_axis(out@, t as int),
        pairs_view(out@).to_multiset() == pairs_view(data@).to_multiset(),
{
    let ghost orig = data@;
    let mut src = data;
    let mut out: Vec<(Vec<i64>, T)> = Vec::new();
    proof {
        assert(pairs_view(out@).to_multiset() =~= Multiset::<(Seq<i64>, T)>::empty());
        assert(pairs_view(out@).to_multiset().add(pairs_view(src@).to_multiset()) =~= pairs_view(
            orig,
        ).to_multiset());
    }
    while src.len() > 0
        invariant
            t < dim,
            forall|j: int| 0 <= j < src@.len() ==> ((#[trigger] src@[j]).0)@.len() == dim,
            forall|j: int| 0 <= j < out@.len() ==> ((#[trigger] out@[j]).0)@.len() == dim,
            sorted_on_axis(out@, t as int),
            out@.len() + src@.len() == orig.len(),
            pairs_view(out@).to_multiset().add(pairs_view(src@).to_multiset()) == pairs_view(
                orig,
            ).to_multiset(),
        decreases src@.len(),
    {
        let ghost src_old = src@;
        let ghost out_old = out@;
        let e = src.remove(0);
        let ghost pe = (e.0@, e.1);
        proof {
            assert(pairs_view(src@) =~= pairs_view(src_old).remove(0));
            assert(pe == pairs_view(src_old)[0]);
            assert(pairs_view(src@).to_multiset() == pairs_view(src_old).to_multiset().remove(pe));
            assert(pairs_view(src_old).to_multiset().count(pe) > 0) by {
                assert(pairs_view(src_old).contains(pe));
            }
        }
        let key = e.0[t];
        let mut idx: usize = 0;
        while idx < out.len() && out[idx].0[t] <= key
            invariant
                t < dim,
                forall|j: int| 0 <= j < out@.len() ==> ((#[trigger] out@[j]).0)@.len() == dim,
                0 <= idx <= out@.len(),
                forall|j: int| 0 <= j < idx ==> ((#[trigger] out@[j]).0)@[t as int] <= key,
                out@ == out_old,
            decreases out@.len() - idx,
        {
            idx = idx + 1;
        }
        let ghost iidx = idx as int;
        assert(forall|j: int|
            iidx <= j < out_old.len() ==> key < ((#[trigger] out_old[j]).0)@[t as int]) by {
            assert(iidx < out_old.len() ==> (out_old[iidx].0)@[t as int] > key);
        }
        out.insert(idx, e);
        proof {
            out_old.insert_ensures(iidx, out@[iidx]);
            assert(out@[iidx] == out_old.insert(iidx, out@[iidx])[iidx]);
            assert(pairs_view(out@)[iidx] == pe) by {
                assert(((out@[iidx]).0)@ == pe.0 && (out@[iidx]).1 == pe.1);
            }
            // the new sequence is sorted on axis t
            assert forall|a: int, b: int| 0 <= a <= b < out@.len() implies ((
            #[trigger] out@[a]).0)@[t as int] <= ((#[trigger] out@[b]).0)@[t as int] by {
                if a < iidx {
                    assert(out@[a] == out_old[a]);
                }
                if b < iidx {
                    assert(out@[b] == out_old[b]);
                }
                if a > iidx {
                    assert(out@[a] == out_old[a - 1]);
                }
                if b > iidx {
                    assert(out@[b] == out_old[b - 1]);
                }
                if a == iidx {
                    assert((out@[a].0)@ == pe.0);
                }
                if b == iidx {
                    assert((out@[b].0)@ == pe.0);
                }
            }
            // its multiset gains exactly the inserted pair
            assert(pairs_view(out@).remove(iidx) =~= pairs_view(out_old));
            assert(pairs_view(out@).to_multiset().remove(pe) == pairs_view(out_old).to_multiset());
            assert(pairs_view(out@).to_multiset().count(pe) > 0) by {
                assert(pairs_view(out@).contains(pe));
            }
            assert(pairs_view(out@).to_multiset() =~= pairs_view(out_old).to_multiset().insert(pe));
            assert(pairs_view(out@).to_multiset().add(pairs_view(src@).to_multiset()) =~= pairs_view(
                orig,
            ).to_multiset());
        }
    }
    proof {
        assert(pairs_view(src@).to_multiset() =~= Multiset::<(Seq<i64>, T)>::empty());
        assert(pairs_view(out@).to_multiset() =~= pairs_view(orig).to_multiset());
    }
    out
}

/// A best-`k` selection of everything offered is a best-`k` selection of the
/// whole labelled multiset, provided every entry skipped (never offered) is
/// at least the final threshold.
proof fn lemma_k_best_widen<T>(
    s: Seq<(u64, T)>,
    off: Multiset<(u64, T)>,
    lbl: Multiset<(u64, T)>,
    g: Multiset<(u64, T)>,
    k: nat,
)
    requires
        k >= 1,
        is_k_best(s, off, k),
        g.subset_of(lbl),
        off == lbl.sub(g),
        forall|c: (u64, T)| #[trigger] g.count(c) > 0 ==> worst_ext(s, k) <= c.0 as int,
        g.len() > 0 ==> s.len() == k,
    ensures
        is_k_best(s, lbl, k),
{
    broadcast use vstd::multiset::group_multiset_axioms;

    assert forall|c: (u64, T)| true implies #[trigger] off.count(c) == lbl.count(c) - g.count(
        c,
    ) by {
        assert(g.count(c) <= lbl.count(c));
    }
    assert(off.len() == lbl.len() - g.len()) by {
        assert(g.subset_of(lbl));
    }
    // cardinality
    if g.len() == 0 {
        assert(g =~= Multiset::<(u64, T)>::empty()) by {
            assert forall|c: (u64, T)| true implies #[trigger] g.count(c) == 0 by {
                assert(g.count(c) <= g.len());
            }
        }
        assert(off =~= lbl);
    } else {
        assert(s.len() == k);
        assert(min_nat(k, off.len()) == k);
        assert(off.len() >= k);
        assert(lbl.len() >= k);
        assert(s.len() == min_nat(k, lbl.len()));
    }
    // sub-multiset
    assert forall|c: (u64, T)| true implies #[trigger] s.to_multiset().count(c) <= lbl.count(c) by {
        assert(s.to_multiset().count(c) <= off.count(c));
    }
    assert(s.to_multiset().subset_of(lbl));
    // exclusions dominate
    assert forall|c: (u64, T), j: int|
        #[trigger] lbl.sub(s.to_multiset()).count(c) > 0 && 0 <= j < s.len() implies (
    #[trigger] s[j]).0 <= c.0 by {
        if off.sub(s.to_multiset()).count(c) > 0 {
        } else {
            assert(off.count(c) <= s.to_multiset().count(c));
            assert(s.to_multiset().count(c) <= off.count(c));
            assert(g.count(c) > 0);
            assert(worst_ext(s, k) <= c.0 as int);
            assert(s.len() == k);
            assert(s[j].0 <= s[s.len() - 1].0);
        }
    }
}

} // verus!
