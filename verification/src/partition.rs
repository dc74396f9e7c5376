//! The sliding-midpoint partitioner. Reorders a slice of the point batch in
//! place around a pivot value on one dimension, sliding the requested split
//! value toward the data whenever splitting exactly there would leave one
//! side empty.

use vstd::prelude::*;
use vstd::pervasive::VecAdditionalExecFns;
use crate::distance::COORD_LIMIT;
use crate::distance::coords_in_range;
use crate::kdtree::KdtreePointTrait;
use crate::kdtree::coord_at;

verus! {

broadcast use {vstd::seq_lib::group_to_multiset_ensures, vstd::multiset::group_multiset_axioms};

/// Every point of `ps[lo..hi)` has more than `d` coordinates, all within the
/// coordinate range.
pub open spec fn range_dims_ok<T: KdtreePointTrait>(ps: Seq<T>, lo: int, hi: int, d: int) -> bool {
    forall|j: int|
        lo <= j < hi ==> d < (#[trigger] ps[j].coords()).len() && coords_in_range(ps[j].coords())
}

/// Swapping two entries of a sequence leaves the multiset of any subrange
/// containing both unchanged.
proof fn lemma_swap_subrange_multiset<T>(s1: Seq<T>, s2: Seq<T>, lo: int, hi: int, a: int, b: int)
    requires
        0 <= lo <= a <= b < hi <= s1.len(),
        s2.len() == s1.len(),
        s2[a] == s1[b],
        s2[b] == s1[a],
        forall|j: int| 0 <= j < s1.len() && j != a && j != b ==> s2[j] == #[trigger] s1[j],
    ensures
        s2.subrange(lo, hi).to_multiset() == s1.subrange(lo, hi).to_multiset(),
{
    let sub1 = s1.subrange(lo, hi);
    let sub2 = s2.subrange(lo, hi);
    if a == b {
        assert(sub2 =~= sub1);
    } else {
        let mid = s1.subrange(lo, hi).update(a - lo, s1[b]);
        assert(sub2 =~= mid.update(b - lo, s1[a]));
        assert(mid[b - lo] == s1[b]);
        assert(sub1[a - lo] == s1[a]);
        assert(sub1.contains(s1[a]));
        assert(sub1.to_multiset().count(s1[a]) > 0);
        assert(sub2.to_multiset() =~= sub1.to_multiset());
    }
}

/// Reorders `points[lo..hi)` so that, with result `(m, v)`, the entries at
/// `[lo, m]` have coordinate `dimension` at most `v` and those at `(m, hi)`
/// lie strictly above `v`. `v` is the requested split value when points fall
/// on both sides of it, and otherwise slides to a coordinate present in the
/// data so that a single point is always cut off, even when every
/// coordinate is identical.
pub fn partition_sliding_midpoint<T: KdtreePointTrait>(
    points: &mut Vec<T>,
    lo: usize,
    hi: usize,
    target_split_value: i64,
    dimension: usize,
) -> (r: (usize, i64))
    requires
        lo < hi <= old(points)@.len(),
        range_dims_ok(old(points)@, lo as int, hi as int, dimension as int),
        -COORD_LIMIT <= target_split_value <= COORD_LIMIT,
    ensures
        final(points)@.len() == old(points)@.len(),
        lo <= r.0 < hi,
        -COORD_LIMIT <= r.1 <= COORD_LIMIT,
        range_dims_ok(final(points)@, lo as int, hi as int, dimension as int),
        forall|j: int|
            0 <= j < lo || hi <= j < final(points)@.len() ==> final(points)@[j] == #[trigger] old(points)@[j],
        final(points)@.subrange(lo as int, hi as int).to_multiset() == old(points)@.subrange(
            lo as int,
            hi as int,
        ).to_multiset(),
        forall|j: int|
            lo <= j <= r.0 ==> #[trigger] final(points)@[j].coords()[dimension as int] <= r.1,
        forall|j: int| r.0 < j < hi ==> #[trigger] final(points)@[j].coords()[dimension as int] > r.1,
        r.1 == target_split_value || exists|j: int|
            lo <= j < hi && #[trigger] old(points)@[j].coords()[dimension as int] == r.1,
        (exists|j1: int, j2: int|
            lo <= j1 < hi && lo <= j2 < hi && #[trigger] old(points)@[j1].coords()[dimension as int]
                != #[trigger] old(points)@[j2].coords()[dimension as int]) ==> r.0 + 1 < hi,
        (forall|j: int|
            lo <= j < hi ==> #[trigger] old(points)@[j].coords()[dimension as int] == old(
                points,
            )@[lo as int].coords()[dimension as int]) ==> r.0 + 1 == hi,
{
    let ghost d = dimension as int;
    let ghost orig = points@;
    let p_lo = points[lo];
    let mut min_c: i64 = coord_at(&p_lo, dimension);
    let mut max_c: i64 = min_c;
    let mut any_le = false;
    let mut any_gt = false;
    let mut j: usize = lo;
    while j < hi
        invariant
            lo <= j <= hi <= points@.len(),
            points@ == orig,
            range_dims_ok(points@, lo as int, hi as int, d),
            d == dimension as int,
            any_le <==> exists|x: int|
                lo <= x < j && #[trigger] points@[x].coords()[d] <= target_split_value,
            any_gt <==> exists|x: int|
                lo <= x < j && #[trigger] points@[x].coords()[d] > target_split_value,
            exists|x: int| lo <= x < hi && #[trigger] points@[x].coords()[d] == min_c,
            exists|x: int| lo <= x < hi && #[trigger] points@[x].coords()[d] == max_c,
            forall|x: int| lo <= x < j ==> min_c <= #[trigger] points@[x].coords()[d] <= max_c,
            min_c <= max_c,
        decreases hi - j,
    {
        let pj = points[j];
        let c = coord_at(&pj, dimension);
        if c <= target_split_value {
            any_le = true;
        } else {
            any_gt = true;
        }
        if c < min_c {
            min_c = c;
        }
        if c > max_c {
            max_c = c;
        }
        j = j + 1;
    }
    proof {
        assert forall|x: int| lo <= x < hi implies -COORD_LIMIT <= #[trigger] points@[x].coords()[d]
            <= COORD_LIMIT by {
            assert(coords_in_range(points@[x].coords()));
        }
    }
    let v: i64;
    if any_le && any_gt {
        v = target_split_value;
        proof {
            assert(exists|x: int| lo <= x < hi && #[trigger] points@[x].coords()[d] <= v);
            assert(exists|x: int| lo <= x < hi && #[trigger] points@[x].coords()[d] > v);
        }
    } else if !any_le {
        // everything sits above the requested split: slide right, down to the
        // smallest coordinate present
        v = min_c;
        proof {
            assert(exists|x: int| lo <= x < hi && #[trigger] points@[x].coords()[d] <= v);
            if min_c < max_c {
                assert(exists|x: int| lo <= x < hi && #[trigger] points@[x].coords()[d] > v);
            }
        }
    } else if min_c < max_c {
        // everything sits at or below the requested split and the points are
        // not all identical on this dimension: slide left, to the largest
        // coordinate below the maximum
        let mut m2: i64 = min_c;
        let mut x: usize = lo;
        while x < hi
            invariant
                lo <= x <= hi <= points@.len(),
                points@ == orig,
                range_dims_ok(points@, lo as int, hi as int, d),
                d == dimension as int,
                min_c < max_c,
                m2 < max_c,
                exists|y: int| lo <= y < hi && #[trigger] points@[y].coords()[d] == m2,
                forall|y: int|
                    lo <= y < x && #[trigger] points@[y].coords()[d] < max_c
                        ==> points@[y].coords()[d] <= m2,
                exists|y: int| lo <= y < hi && #[trigger] points@[y].coords()[d] == max_c,
                forall|y: int| lo <= y < hi ==> min_c <= #[trigger] points@[y].coords()[d] <= max_c,
            decreases hi - x,
        {
            let px = points[x];
            let c = coord_at(&px, dimension);
            if c > m2 && c < max_c {
                m2 = c;
            }
            x = x + 1;
        }
        v = m2;
        proof {
            assert(exists|y: int| lo <= y < hi && #[trigger] points@[y].coords()[d] <= v);
            assert(exists|y: int| lo <= y < hi && #[trigger] points@[y].coords()[d] > v);
            // everything below the maximum is at most m2, the rest is above it
            assert forall|y: int| lo <= y < hi implies (#[trigger] points@[y].coords()[d] <= v
                || points@[y].coords()[d] > v) by {}
        }
    } else {
        // every coordinate is identical: isolate one point as the pivot
        v = max_c;
        proof {
            assert(exists|x: int| lo <= x < hi && #[trigger] points@[x].coords()[d] <= v);
        }
    }
    proof {
        assert(-COORD_LIMIT <= v <= COORD_LIMIT);
        assert(exists|x: int| lo <= x < hi && #[trigger] points@[x].coords()[d] <= v);
        if exists|x1: int, x2: int|
            lo <= x1 < hi && lo <= x2 < hi && #[trigger] points@[x1].coords()[d]
                != #[trigger] points@[x2].coords()[d] {
            let (x1, x2) = choose|x1: int, x2: int|
                lo <= x1 < hi && lo <= x2 < hi && #[trigger] points@[x1].coords()[d]
                    != #[trigger] points@[x2].coords()[d];
            assert(min_c <= points@[x1].coords()[d] <= max_c);
            assert(min_c <= points@[x2].coords()[d] <= max_c);
            assert(min_c < max_c);
            assert(exists|x: int| lo <= x < hi && #[trigger] points@[x].coords()[d] > v);
        }
        if forall|x: int|
            lo <= x < hi ==> #[trigger] points@[x].coords()[d] == points@[lo as int].coords()[d] {
            assert(min_c == points@[lo as int].coords()[d]);
            assert(max_c == points@[lo as int].coords()[d]);
            assert(forall|x: int| lo <= x < hi ==> #[trigger] points@[x].coords()[d] <= v);
        }
    }
    let ghost le_exists = exists|x: int| lo <= x < hi && #[trigger] points@[x].coords()[d] <= v;
    let ghost gt_exists = exists|x: int| lo <= x < hi && #[trigger] points@[x].coords()[d] > v;
    let ghost all_le = forall|x: int| lo <= x < hi ==> #[trigger] points@[x].coords()[d] <= v;
    // partition pass: move everything at or below v to the front
    let mut i: usize = lo;
    let mut w: usize = lo;
    while w < hi
        invariant
            lo <= i <= w <= hi <= points@.len(),
            points@.len() == orig.len(),
            range_dims_ok(points@, lo as int, hi as int, d),
            d == dimension as int,
            forall|y: int| 0 <= y < lo || hi <= y < points@.len() ==> points@[y] == #[trigger] orig[y],
            points@.subrange(lo as int, hi as int).to_multiset() == orig.subrange(
                lo as int,
                hi as int,
            ).to_multiset(),
            forall|y: int| lo <= y < i ==> #[trigger] points@[y].coords()[d] <= v,
            forall|y: int| i <= y < w ==> #[trigger] points@[y].coords()[d] > v,
        decreases hi - w,
    {
        let pw = points[w];
        let c = coord_at(&pw, dimension);
        if c <= v {
            let ghost before = points@;
            let pi = points[i];
            points.set(i, pw);
            points.set(w, pi);
            proof {
                lemma_swap_subrange_multiset(
                    before,
                    points@,
                    lo as int,
                    hi as int,
                    i as int,
                    w as int,
                );
            }
            i = i + 1;
        }
        w = w + 1;
    }
    proof {
        // the pivot side is never empty: some point with coordinate <= v
        // survived the reordering
        let sub_o = orig.subrange(lo as int, hi as int);
        let sub_n = points@.subrange(lo as int, hi as int);
        assert(sub_n.to_multiset() == sub_o.to_multiset());
        if le_exists {
            let x = choose|x: int| lo <= x < hi && #[trigger] orig[x].coords()[d] <= v;
            let p = orig[x];
            assert(sub_o[x - lo] == p);
            assert(sub_o.contains(p));
            assert(sub_n.to_multiset().contains(p));
            assert(sub_n.contains(p));
            let y = choose|y: int| 0 <= y < sub_n.len() && sub_n[y] == p;
            assert(points@[lo + y] == p);
            assert(lo + y < i);
        }
        if gt_exists {
            let x = choose|x: int| lo <= x < hi && #[trigger] orig[x].coords()[d] > v;
            let p = orig[x];
            assert(sub_o[x - lo] == p);
            assert(sub_o.contains(p));
            assert(sub_n.to_multiset().contains(p));
            assert(sub_n.contains(p));
            let y = choose|y: int| 0 <= y < sub_n.len() && sub_n[y] == p;
            assert(points@[lo + y] == p);
            assert(i <= lo + y);
            assert(i < hi);
        }
        if all_le {
            assert forall|y: int| lo <= y < hi implies #[trigger] points@[y].coords()[d] <= v by {
                let p = points@[y];
                assert(sub_n[y - lo] == p);
                assert(sub_n.contains(p));
                assert(sub_o.to_multiset().contains(p));
                assert(sub_o.contains(p));
                let x = choose|x: int| 0 <= x < sub_o.len() && sub_o[x] == p;
                assert(orig[lo + x] == p);
                assert(orig[lo + x].coords()[d] <= v);
            }
            if i < hi {
                assert(points@[i as int].coords()[d] <= v);
                assert(points@[i as int].coords()[d] > v);
            }
            assert(i == hi);
        }
    }
    let m = i - 1;
    (m, v)
}

} // verus!
