//! Axis-aligned bounding boxes over a point batch: one `(min, max)` pair per
//! dimension. Used by the builder to pick split dimensions and split values;
//! queries never look at them.

use vstd::prelude::*;
use crate::distance::COORD_LIMIT;
use crate::kdtree::KdtreePointTrait;
use crate::kdtree::point_wf;

verus! {

/// Width of one dimension of a bounding box.
pub open spec fn spread(pr: (i64, i64)) -> int {
    pr.1 - pr.0
}

/// Per-dimension `(min, max)` extent of a point batch.
pub struct Bounds {
    pub bounds: Vec<(i64, i64)>,
}

impl Bounds {
    /// At least one dimension, and every pair ordered and within the
    /// coordinate range.
    pub open spec fn wf(&self) -> bool {
        &&& self.bounds@.len() >= 1
        &&& forall|d: int|
            0 <= d < self.bounds@.len() ==> -COORD_LIMIT <= (#[trigger] self.bounds@[d]).0
                <= self.bounds@[d].1 <= COORD_LIMIT
    }

    /// Every point of `ps[lo..hi)` lies within these bounds on every
    /// dimension.
    pub open spec fn contains_points<T: KdtreePointTrait>(
        &self,
        ps: Seq<T>,
        lo: int,
        hi: int,
    ) -> bool {
        forall|j: int, d: int|
            lo <= j < hi && 0 <= d < self.bounds@.len()
                ==> self.bounds@[d].0 <= #[trigger] ps[j].coords()[d] <= self.bounds@[d].1
    }

    /// Folds over the batch, taking the per-dimension minimum and maximum;
    /// each resulting bound is attained by some point of the batch.
    pub fn new_from_points<T: KdtreePointTrait>(points: &Vec<T>) -> (b: Bounds)
        requires
            points@.len() > 0,
            points@[0].coords().len() >= 1,
            forall|j: int|
                0 <= j < points@.len() ==> point_wf(
                    #[trigger] points@[j],
                    points@[0].coords().len() as int,
                ),
        ensures
            b.wf(),
            b.bounds@.len() == points@[0].coords().len(),
            b.contains_points(points@, 0, points@.len() as int),
            forall|d: int|
                0 <= d < b.bounds@.len() ==> exists|j: int|
                    0 <= j < points@.len() && points@[j].coords()[d] == (#[trigger] b.bounds@[d]).0,
            forall|d: int|
                0 <= d < b.bounds@.len() ==> exists|j: int|
                    0 <= j < points@.len() && points@[j].coords()[d] == (#[trigger] b.bounds@[d]).1,
    {
        let p0 = points[0];
        let first = p0.dims();
        let k = first.len();
        let mut bv: Vec<(i64, i64)> = Vec::new();
        let mut d: usize = 0;
        while d < k
            invariant
                0 <= d <= k,
                k == points@[0].coords().len(),
                first@ == points@[0].coords(),
                k == first@.len(),
                points@.len() > 0,
                forall|j: int| 0 <= j < points@.len() ==> point_wf(#[trigger] points@[j], k as int),
                bv@.len() == d,
                forall|e: int| 0 <= e < d ==> (#[trigger] bv@[e]).0 == points@[0].coords()[e],
                forall|e: int| 0 <= e < d ==> (#[trigger] bv@[e]).1 == points@[0].coords()[e],
            decreases k - d,
        {
            bv.push((first[d], first[d]));
            d = d + 1;
        }
        let mut i: usize = 0;
        while i < points.len()
            invariant
                0 <= i <= points@.len(),
                points@.len() > 0,
                k == points@[0].coords().len(),
                forall|j: int| 0 <= j < points@.len() ==> point_wf(#[trigger] points@[j], k as int),
                bv@.len() == k,
                forall|e: int|
                    0 <= e < k ==> -COORD_LIMIT <= (#[trigger] bv@[e]).0 <= bv@[e].1 <= COORD_LIMIT,
                forall|e: int|
                    0 <= e < k ==> exists|j: int|
                        0 <= j < points@.len() && points@[j].coords()[e] == (#[trigger] bv@[e]).0,
                forall|e: int|
                    0 <= e < k ==> exists|j: int|
                        0 <= j < points@.len() && points@[j].coords()[e] == (#[trigger] bv@[e]).1,
                forall|j: int, e: int|
                    0 <= j < i && 0 <= e < k ==> bv@[e].0 <= #[trigger] points@[j].coords()[e]
                        <= bv@[e].1,
            decreases points@.len() - i,
        {
            let pi = points[i];
            let vd = pi.dims();
            let mut e: usize = 0;
            while e < k
                invariant
                    0 <= e <= k,
                    0 <= i < points@.len(),
                    k == points@[0].coords().len(),
                    forall|j: int|
                        0 <= j < points@.len() ==> point_wf(#[trigger] points@[j], k as int),
                    vd@ == points@[i as int].coords(),
                    bv@.len() == k,
                    forall|f: int|
                        0 <= f < k ==> -COORD_LIMIT <= (#[trigger] bv@[f]).0 <= bv@[f].1
                            <= COORD_LIMIT,
                    forall|f: int|
                        0 <= f < k ==> exists|j: int|
                            0 <= j < points@.len() && points@[j].coords()[f] == (#[trigger] bv@[f]).0,
                    forall|f: int|
                        0 <= f < k ==> exists|j: int|
                            0 <= j < points@.len() && points@[j].coords()[f] == (#[trigger] bv@[f]).1,
                    forall|j: int, f: int|
                        0 <= j < i && 0 <= f < k ==> bv@[f].0 <= #[trigger] points@[j].coords()[f]
                            <= bv@[f].1,
                    forall|f: int|
                        0 <= f < e ==> bv@[f].0 <= #[trigger] points@[i as int].coords()[f]
                            <= bv@[f].1,
                decreases k - e,
            {
                let c = vd[e];
                let pr = bv[e];
                if c < pr.0 {
                    bv.set(e, (c, pr.1));
                }
                let pr2 = bv[e];
                if c > pr2.1 {
                    bv.set(e, (pr2.0, c));
                }
                e = e + 1;
            }
            i = i + 1;
        }
        Bounds { bounds: bv }
    }

    /// The dimension with the largest spread; ties go to the lowest index.
    pub fn get_widest_dim(&self) -> (d: usize)
        requires
            self.wf(),
        ensures
            d < self.bounds@.len(),
            forall|i: int|
                0 <= i < self.bounds@.len() ==> spread(#[trigger] self.bounds@[i]) <= spread(
                    self.bounds@[d as int],
                ),
            forall|i: int|
                0 <= i < d ==> spread(#[trigger] self.bounds@[i]) < spread(self.bounds@[d as int]),
    {
        let mut widest_dimension: usize = 0;
        let first = self.bounds[0];
        let mut max_found_spread: i64 = first.1 - first.0;
        let mut i: usize = 0;
        while i < self.bounds.len()
            invariant
                self.wf(),
                0 <= i <= self.bounds@.len(),
                widest_dimension < self.bounds@.len(),
                max_found_spread as int == spread(self.bounds@[widest_dimension as int]),
                forall|e: int|
                    0 <= e < i ==> spread(#[trigger] self.bounds@[e]) <= max_found_spread as int,
                forall|e: int|
                    0 <= e < widest_dimension ==> spread(#[trigger] self.bounds@[e])
                        < max_found_spread as int,
            decreases self.bounds@.len() - i,
        {
            let pr = self.bounds[i];
            let dimension_spread = pr.1 - pr.0;
            if dimension_spread > max_found_spread {
                max_found_spread = dimension_spread;
                widest_dimension = i;
            }
            i = i + 1;
        }
        widest_dimension
    }

    /// The midpoint `min + (max - min) / 2` of the widest dimension.
    pub fn get_midvalue_of_widest_dim(&self) -> (v: i64)
        requires
            self.wf(),
        ensures
            -COORD_LIMIT <= v <= COORD_LIMIT,
            exists|d: int|
                {
                    &&& 0 <= d < self.bounds@.len()
                    &&& (forall|i: int|
                        0 <= i < self.bounds@.len() ==> spread(#[trigger] self.bounds@[i])
                            <= spread(self.bounds@[d]))
                    &&& (forall|i: int|
                        0 <= i < d ==> spread(#[trigger] self.bounds@[i]) < spread(
                            self.bounds@[d],
                        ))
                    &&& (#[trigger] self.bounds@[d]).0 <= v <= self.bounds@[d].1
                    &&& v == self.bounds@[d].0 + (self.bounds@[d].1 - self.bounds@[d].0) / 2
                },
    {
        let d = self.get_widest_dim();
        let pr = self.bounds[d];
        let diff: i64 = pr.1 - pr.0;
        let half: i64 = ((diff as u64) / 2) as i64;
        let v = pr.0 + half;
        proof {
            assert(0 <= diff as int / 2 <= diff as int);
            assert(0 <= d < self.bounds@.len() && (forall|i: int|
                0 <= i < self.bounds@.len() ==> spread(#[trigger] self.bounds@[i]) <= spread(
                    self.bounds@[d as int],
                )) && (forall|i: int|
                0 <= i < d ==> spread(#[trigger] self.bounds@[i]) < spread(self.bounds@[d as int]))
                && (self.bounds@[d as int]).0 <= v <= self.bounds@[d as int].1 && v
                == self.bounds@[d as int].0 + (self.bounds@[d as int].1 - self.bounds@[d as int].0) / 2);
        }
        v
    }

    /// A copy of these bounds with dimension `dimension`'s max moved down to
    /// `value`. Deliberately loose: the true extent of the child subset may
    /// be tighter, but deriving it this way costs nothing.
    pub fn clone_moving_max(&self, value: i64, dimension: usize) -> (b: Bounds)
        requires
            self.wf(),
            dimension < self.bounds@.len(),
            self.bounds@[dimension as int].0 <= value <= COORD_LIMIT,
        ensures
            b.wf(),
            b.bounds@ =~= self.bounds@.update(
                dimension as int,
                (self.bounds@[dimension as int].0, value),
            ),
    {
        let mut bv = self.copy_pairs();
        let pr = bv[dimension];
        bv.set(dimension, (pr.0, value));
        Bounds { bounds: bv }
    }

    /// A copy of these bounds with dimension `dimension`'s min moved up to
    /// `value`.
    pub fn clone_moving_min(&self, value: i64, dimension: usize) -> (b: Bounds)
        requires
            self.wf(),
            dimension < self.bounds@.len(),
            -COORD_LIMIT <= value <= self.bounds@[dimension as int].1,
        ensures
            b.wf(),
            b.bounds@ =~= self.bounds@.update(
                dimension as int,
                (value, self.bounds@[dimension as int].1),
            ),
    {
        let mut bv = self.copy_pairs();
        let pr = bv[dimension];
        bv.set(dimension, (value, pr.1));
        Bounds { bounds: bv }
    }

    fn copy_pairs(&self) -> (r: Vec<(i64, i64)>)
        ensures
            r@ =~= self.bounds@,
    {
        let mut r: Vec<(i64, i64)> = Vec::new();
        let mut i: usize = 0;
        while i < self.bounds.len()
            invariant
                0 <= i <= self.bounds@.len(),
                r@.len() == i,
                forall|e: int| 0 <= e < i ==> #[trigger] r@[e] == self.bounds@[e],
            decreases self.bounds@.len() - i,
        {
            r.push(self.bounds[i]);
            i = i + 1;
        }
        r
    }
}

} // verus!
