//! Minkowski distance and axis-aligned bounding boxes over fixed-point
//! integer coordinates.
//!
//! A point is a vector of `i64` coordinates. For an exponent `p >= 1` the
//! distance between two points is the saturating sum over the axes of the
//! saturating `p`-th power of the per-axis absolute difference, that is the
//! `p`-th power of the Minkowski `p`-norm of their difference. The `p`-th
//! root is omitted: it is monotone, so nearest-neighbour comparisons are
//! unchanged, and every distance stays an exact integer.

use vstd::prelude::*;
use crate::arith::{sat64, sat_add_spec, sat_pow_spec, sat_add, sat_pow, lemma_pow_nonneg,
    lemma_sat_pow_le_base};

verus! {

/// Absolute difference of two coordinates, as a mathematical integer.
pub open spec fn axis_gap(a: int, b: int) -> int {
    if a >= b {
        a - b
    } else {
        b - a
    }
}

/// Distance restricted to the first `n` axes.
pub open spec fn dist_upto(x: Seq<i64>, y: Seq<i64>, p: nat, n: nat) -> int
    decreases n,
{
    if n == 0 {
        0
    } else {
        sat_add_spec(
            dist_upto(x, y, p, (n - 1) as nat),
            sat_pow_spec(axis_gap(x[n - 1] as int, y[n - 1] as int), p),
        )
    }
}

/// The distance between two points of equal dimension.
pub open spec fn dist_spec(x: Seq<i64>, y: Seq<i64>, p: nat) -> int {
    dist_upto(x, y, p, x.len())
}

/// Every partial distance lies in the `u64` range.
pub proof fn lemma_dist_upto_bounds(x: Seq<i64>, y: Seq<i64>, p: nat, n: nat)
    ensures
        0 <= dist_upto(x, y, p, n) <= u64::MAX as int,
    decreases n,
{
    if n > 0 {
        lemma_dist_upto_bounds(x, y, p, (n - 1) as nat);
        lemma_pow_nonneg(axis_gap(x[n - 1] as int, y[n - 1] as int), p);
    }
}

/// Computes the distance between two points.
pub fn pdist(x: &Vec<i64>, y: &Vec<i64>, p: u64) -> (d: u64)
    requires
        x@.len() == y@.len(),
    ensures
        d as int == dist_spec(x@, y@, p as nat),
{
    let mut d: u64 = 0;
    let mut i: usize = 0;
    while i < x.len()
        invariant
            0 <= i <= x@.len(),
            x@.len() == y@.len(),
            d as int == dist_upto(x@, y@, p as nat, i as nat),
        decreases x@.len() - i,
    {
        let a = x[i];
        let b = y[i];
        let diff: u64 = if a >= b {
            ((a as i128) - (b as i128)) as u64
        } else {
            ((b as i128) - (a as i128)) as u64
        };
        assert(diff as int == axis_gap(a as int, b as int));
        d = sat_add(d, sat_pow(diff, p));
        i = i + 1;
    }
    d
}

/// The value `v` occurs as coordinate `i` of one of the first `upto` points.
pub open spec fn achieved<T>(v: i64, data: Seq<(Vec<i64>, T)>, upto: int, i: int) -> bool {
    exists|j: int| 0 <= j < upto && v == (#[trigger] data[j].0)@[i]
}

/// A coordinate achieved among the first `a` points is achieved among the
/// first `b >= a` as well.
pub proof fn lemma_achieved_widen<T>(v: i64, data: Seq<(Vec<i64>, T)>, a: int, b: int, i: int)
    requires
        achieved(v, data, a, i),
        a <= b,
    ensures
        achieved(v, data, b, i),
{
    let w = choose|j: int| 0 <= j < a && v == (#[trigger] data[j].0)@[i];
    assert(0 <= w < b && v == (data[w].0)@[i]);
}

/// An axis-aligned hyperrectangle, stored by its two extreme corners.
///
/// The corners carry the same information as a centre and a per-axis
/// half-width: `centre = (lo + hi) / 2` and `half_width = (hi - lo) / 2`.
/// Keeping the exact corners avoids the rounding that the halved form
/// would need on integer coordinates.
pub struct BoundBox {
    lo: Vec<i64>,
    hi: Vec<i64>,
}

impl BoundBox {
    /// The lower corner.
    pub closed spec fn lo_spec(self) -> Seq<i64> {
        self.lo@
    }

    /// The upper corner.
    pub closed spec fn hi_spec(self) -> Seq<i64> {
        self.hi@
    }

    /// The number of axes.
    pub open spec fn dim(self) -> nat {
        self.lo_spec().len()
    }

    /// Both corners have the same dimension and are ordered.
    pub open spec fn wf(self) -> bool {
        &&& self.hi_spec().len() == self.dim()
        &&& forall|i: int| 0 <= i < self.dim() ==> self.lo_spec()[i] <= self.hi_spec()[i]
    }

    /// The point `y` lies inside the box.
    pub open spec fn contains_pt(self, y: Seq<i64>) -> bool {
        &&& y.len() == self.dim()
        &&& forall|i: int|
            0 <= i < self.dim() ==> self.lo_spec()[i] <= y[i] && y[i] <= self.hi_spec()[i]
    }

    /// Per-axis distance from `x` to the interval of the box on axis `i`.
    pub open spec fn gap_spec(self, x: Seq<i64>, i: int) -> int {
        if (x[i] as int) < (self.lo_spec()[i] as int) {
            self.lo_spec()[i] - x[i]
        } else if (x[i] as int) > (self.hi_spec()[i] as int) {
            x[i] - self.hi_spec()[i]
        } else {
            0
        }
    }

    /// Lower bound restricted to the first `n` axes.
    pub open spec fn lb_upto(self, x: Seq<i64>, p: nat, n: nat) -> int
        decreases n,
    {
        if n == 0 {
            0
        } else {
            sat_add_spec(
                self.lb_upto(x, p, (n - 1) as nat),
                sat_pow_spec(self.gap_spec(x, n - 1), p),
            )
        }
    }

    /// A lower bound on the distance from `x` to any point inside the box:
    /// the distance from `x` to the point of the box closest to it.
    pub open spec fn lb_spec(self, x: Seq<i64>, p: nat) -> int {
        self.lb_upto(x, p, self.dim())
    }

    /// Every partial lower bound lies in the `u64` range.
    pub proof fn lemma_lb_upto_bounds(self, x: Seq<i64>, p: nat, n: nat)
        requires
            self.wf(),
            forall|i: int| 0 <= i < n ==> 0 <= self.gap_spec(x, i),
        ensures
            0 <= self.lb_upto(x, p, n) <= u64::MAX as int,
        decreases n,
    {
        if n > 0 {
            self.lemma_lb_upto_bounds(x, p, (n - 1) as nat);
            lemma_pow_nonneg(self.gap_spec(x, n - 1), p);
        }
    }

    /// On each axis the gap to the box is at most the gap to any point in it,
    /// so the bound is below the distance, axis by axis.
    proof fn lemma_lb_upto_le_dist(self, x: Seq<i64>, y: Seq<i64>, p: nat, n: nat)
        requires
            self.wf(),
            self.contains_pt(y),
            x.len() == self.dim(),
            n <= self.dim(),
        ensures
            self.lb_upto(x, p, n) <= dist_upto(x, y, p, n),
        decreases n,
    {
        if n > 0 {
            self.lemma_lb_upto_le_dist(x, y, p, (n - 1) as nat);
            let g = self.gap_spec(x, n - 1);
            let a = axis_gap(x[n - 1] as int, y[n - 1] as int);
            assert(0 <= g <= a);
            lemma_sat_pow_le_base(g, a, p);
        }
    }

    /// Soundness of the pruning bound: for every point `y` inside a box, the
    /// box's lower bound at a query `x` is at most the distance from `x` to
    /// `y`.
    pub proof fn lemma_lb_sound(self, x: Seq<i64>, y: Seq<i64>, p: nat)
        requires
            self.wf(),
            self.contains_pt(y),
            x.len() == self.dim(),
        ensures
            self.lb_spec(x, p) <= dist_spec(x, y, p),
    {
        self.lemma_lb_upto_le_dist(x, y, p, self.dim());
    }

    /// Builds the bounding box of a non-empty list of points, scanning for
    /// the per-axis minimum and maximum.
    pub fn from_vec<T>(data: &Vec<(Vec<i64>, T)>, dim: usize) -> (b: BoundBox)
        requires
            data@.len() >= 1,
            forall|j: int| 0 <= j < data@.len() ==> (#[trigger] data@[j].0)@.len() == dim,
        ensures
            b.wf(),
            b.dim() == dim,
            forall|j: int| 0 <= j < data@.len() ==> b.contains_pt((#[trigger] data@[j].0)@),
            forall|i: int|
                0 <= i < dim ==> #[trigger] achieved(b.lo_spec()[i], data@, data@.len() as int, i),
            forall|i: int|
                0 <= i < dim ==> #[trigger] achieved(b.hi_spec()[i], data@, data@.len() as int, i),
    {
        let mut lo = data[0].0.clone();
        let mut hi = data[0].0.clone();
        proof {
            assert(lo@ =~= (data@[0].0)@);
            assert(hi@ =~= (data@[0].0)@);
            assert forall|i: int| 0 <= i < dim implies #[trigger] achieved(lo@[i], data@, 1, i) by {
                assert(lo@[i] == (data@[0].0)@[i]);
            }
            assert forall|i: int| 0 <= i < dim implies #[trigger] achieved(hi@[i], data@, 1, i) by {
                assert(hi@[i] == (data@[0].0)@[i]);
            }
        }
        let mut j: usize = 1;
        while j < data.len()
            invariant
                1 <= j <= data@.len(),
                forall|jj: int| 0 <= jj < data@.len() ==> (#[trigger] data@[jj].0)@.len() == dim,
                lo@.len() == dim,
                hi@.len() == dim,
                forall|i: int| 0 <= i < dim ==> lo@[i] <= hi@[i],
                forall|jj: int, i: int|
                    0 <= jj < j && 0 <= i < dim ==> lo@[i] <= #[trigger] (data@[jj].0)@[i]
                        && (data@[jj].0)@[i] <= hi@[i],
                forall|i: int| 0 <= i < dim ==> #[trigger] achieved(lo@[i], data@, j as int, i),
                forall|i: int| 0 <= i < dim ==> #[trigger] achieved(hi@[i], data@, j as int, i),
            decreases data@.len() - j,
        {
            let mut i: usize = 0;
            while i < dim
                invariant
                    0 <= i <= dim,
                    1 <= j < data@.len(),
                    forall|jj: int|
                        0 <= jj < data@.len() ==> (#[trigger] data@[jj].0)@.len() == dim,
                    lo@.len() == dim,
                    hi@.len() == dim,
                    forall|ii: int| 0 <= ii < dim ==> lo@[ii] <= hi@[ii],
                    forall|jj: int, ii: int|
                        0 <= jj < j && 0 <= ii < dim ==> lo@[ii] <= #[trigger] (data@[jj].0)@[ii]
                            && (data@[jj].0)@[ii] <= hi@[ii],
                    forall|ii: int|
                        0 <= ii < i ==> lo@[ii] <= (data@[j as int].0)@[ii]
                            && (data@[j as int].0)@[ii] <= hi@[ii],
                    forall|ii: int|
                        0 <= ii < i ==> #[trigger] achieved(lo@[ii], data@, j + 1, ii),
                    forall|ii: int|
                        0 <= ii < i ==> #[trigger] achieved(hi@[ii], data@, j + 1, ii),
                    forall|ii: int|
                        i <= ii < dim ==> #[trigger] achieved(lo@[ii], data@, j as int, ii),
                    forall|ii: int|
                        i <= ii < dim ==> #[trigger] achieved(hi@[ii], data@, j as int, ii),
                decreases dim - i,
            {
                let c = data[j].0[i];
                proof {
                    lemma_achieved_widen(lo@[i as int], data@, j as int, j + 1, i as int);
                    lemma_achieved_widen(hi@[i as int], data@, j as int, j + 1, i as int);
                }
                if c < lo[i] {
                    lo[i] = c;
                    proof {
                        assert(lo@[i as int] == (data@[j as int].0)@[i as int]);
                        assert(achieved(lo@[i as int], data@, j + 1, i as int));
                    }
                }
                if c > hi[i] {
                    hi[i] = c;
                    proof {
                        assert(hi@[i as int] == (data@[j as int].0)@[i as int]);
                        assert(achieved(hi@[i as int], data@, j + 1, i as int));
                    }
                }
                i = i + 1;
            }
            j = j + 1;
        }
        BoundBox { lo, hi }
    }

    /// Computes the lower bound on the distance from `x` to any point the
    /// box could contain.
    pub fn cdist(&self, x: &Vec<i64>, p: u64) -> (d: u64)
        requires
            self.wf(),
            x@.len() == self.dim(),
        ensures
            d as int == self.lb_spec(x@, p as nat),
    {
        let mut d: u64 = 0;
        let mut i: usize = 0;
        while i < self.lo.len()
            invariant
                0 <= i <= self.dim(),
                self.wf(),
                x@.len() == self.dim(),
                d as int == self.lb_upto(x@, p as nat, i as nat),
            decreases self.dim() - i,
        {
            let c = x[i];
            let g: u64 = if c < self.lo[i] {
                ((self.lo[i] as i128) - (c as i128)) as u64
            } else if c > self.hi[i] {
                ((c as i128) - (self.hi[i] as i128)) as u64
            } else {
                0
            };
            assert(g as int == self.gap_spec(x@, i as int));
            d = sat_add(d, sat_pow(g, p));
            i = i + 1;
        }
        d
    }
}

} // verus!
