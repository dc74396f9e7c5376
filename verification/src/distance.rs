//! The two canonical metrics over fixed-length integer coordinate sequences:
//! squared Euclidean distance (exact) and Euclidean distance (rounded down to
//! the nearest integer), together with the mathematical model `sqdist` that
//! the rest of the crate states its contracts over.

use vstd::prelude::*;

verus! {

/// Largest magnitude a coordinate may have. Keeping every coordinate within
/// this bound lets squared distances be computed exactly in `u128` arithmetic
/// for any number of dimensions.
pub const COORD_LIMIT: i64 = 1_000_000_000;

/// Largest possible value of one squared coordinate difference,
/// `(2 * COORD_LIMIT)^2`.
pub const MAX_SQUARED_DIFF: u128 = 4_000_000_000_000_000_000;

/// Every coordinate of `s` lies within `[-COORD_LIMIT, COORD_LIMIT]`.
pub open spec fn coords_in_range(s: Seq<i64>) -> bool {
    forall|i: int| 0 <= i < s.len() ==> -COORD_LIMIT <= #[trigger] s[i] <= COORD_LIMIT
}

/// Sum of the squared differences of the first `n` coordinates.
pub open spec fn sqdist_prefix(a: Seq<i64>, b: Seq<i64>, n: int) -> int
    decreases n,
{
    if n <= 0 {
        0
    } else {
        sqdist_prefix(a, b, n - 1) + (a[n - 1] - b[n - 1]) * (a[n - 1] - b[n - 1])
    }
}

/// Squared Euclidean distance between two coordinate sequences of equal length.
pub open spec fn sqdist(a: Seq<i64>, b: Seq<i64>) -> int {
    sqdist_prefix(a, b, a.len() as int)
}

pub proof fn lemma_sqdist_prefix_bound(a: Seq<i64>, b: Seq<i64>, n: int)
    requires
        coords_in_range(a),
        coords_in_range(b),
        a.len() == b.len(),
        0 <= n <= a.len(),
    ensures
        0 <= sqdist_prefix(a, b, n) <= n * (MAX_SQUARED_DIFF as int),
    decreases n,
{
    if n > 0 {
        lemma_sqdist_prefix_bound(a, b, n - 1);
        let d = a[n - 1] - b[n - 1];
        assert(0 <= d * d <= MAX_SQUARED_DIFF as int) by (nonlinear_arith)
            requires -2 * COORD_LIMIT <= d <= 2 * COORD_LIMIT,
        {}
    }
}

/// The squared distance is bounded below by any single squared coordinate
/// difference.
pub proof fn lemma_sqdist_dim_bound(a: Seq<i64>, b: Seq<i64>, d: int, n: int)
    requires
        0 <= d < n <= a.len(),
        a.len() == b.len(),
    ensures
        sqdist_prefix(a, b, n) >= (a[d] - b[d]) * (a[d] - b[d]),
    decreases n,
{
    lemma_sqdist_prefix_nonneg(a, b, n - 1);
    if d < n - 1 {
        lemma_sqdist_dim_bound(a, b, d, n - 1);
        let e = a[n - 1] - b[n - 1];
        assert(e * e >= 0) by (nonlinear_arith) {}
    }
}

pub proof fn lemma_sqdist_prefix_nonneg(a: Seq<i64>, b: Seq<i64>, n: int)
    ensures
        sqdist_prefix(a, b, n) >= 0,
    decreases n,
{
    if n > 0 {
        lemma_sqdist_prefix_nonneg(a, b, n - 1);
        let e = a[n - 1] - b[n - 1];
        assert(e * e >= 0) by (nonlinear_arith) {}
    }
}

/// Two sequences at squared distance zero agree on every coordinate.
pub proof fn lemma_sqdist_zero(a: Seq<i64>, b: Seq<i64>)
    requires
        a.len() == b.len(),
        sqdist(a, b) == 0,
    ensures
        a =~= b,
{
    assert forall|d: int| 0 <= d < a.len() implies a[d] == b[d] by {
        lemma_sqdist_dim_bound(a, b, d, a.len() as int);
        let e = a[d] - b[d];
        assert(e * e > 0 || e == 0) by (nonlinear_arith) {}
    }
}

/// A sequence is at squared distance zero from itself.
pub proof fn lemma_sqdist_self(a: Seq<i64>, b: Seq<i64>)
    requires
        a.len() == b.len(),
        a =~= b,
    ensures
        sqdist(a, b) == 0,
{
    lemma_sqdist_prefix_self(a, b, a.len() as int);
}

proof fn lemma_sqdist_prefix_self(a: Seq<i64>, b: Seq<i64>, n: int)
    requires
        n <= a.len() && n <= b.len(),
        forall|i: int| 0 <= i < n ==> a[i] == b[i],
    ensures
        sqdist_prefix(a, b, n) == 0,
    decreases n,
{
    if n > 0 {
        lemma_sqdist_prefix_self(a, b, n - 1);
        assert(a[n - 1] == b[n - 1]);
    }
}

/// The metric a range query compares distances under: the true Euclidean
/// distance, or its square (preferred on hot paths, since it needs no
/// square root). The radius handed to the query must be in the same units.
#[derive(Clone, Copy, PartialEq, Eq, Debug)]
pub enum DistanceMetric {
    Euclidean,
    SquaredEuclidean,
}

/// The bound a radius puts on the squared distance: under the Euclidean
/// metric a point matches when its squared distance is at most
/// `radius * radius`, under the squared metric when it is at most `radius`
/// itself.
pub open spec fn within_limit(metric: DistanceMetric, radius: u128) -> int {
    match metric {
        DistanceMetric::Euclidean => (radius as int) * (radius as int),
        DistanceMetric::SquaredEuclidean => radius as int,
    }
}

/// Squared Euclidean distance between two equal-length coordinate vectors.
pub fn squared_euclidean(a: &Vec<i64>, b: &Vec<i64>) -> (r: u128)
    requires
        a@.len() == b@.len(),
        coords_in_range(a@),
        coords_in_range(b@),
    ensures
        r as int == sqdist(a@, b@),
{
    let mut total: u128 = 0;
    let mut i: usize = 0;
    while i < a.len()
        invariant
            a@.len() == b@.len(),
            coords_in_range(a@),
            coords_in_range(b@),
            0 <= i <= a.len(),
            total as int == sqdist_prefix(a@, b@, i as int),
        decreases a.len() - i,
    {
        let d: i128 = (a[i] as i128) - (b[i] as i128);
        proof {
            assert(0 <= d * d <= MAX_SQUARED_DIFF as int) by (nonlinear_arith)
                requires -2 * (COORD_LIMIT as i128) <= d <= 2 * (COORD_LIMIT as i128),
            {}
            lemma_sqdist_prefix_bound(a@, b@, i as int);
            assert((i as int) * (MAX_SQUARED_DIFF as int) <= 18446744073709551615int
                * (MAX_SQUARED_DIFF as int)) by (nonlinear_arith)
                requires 0 <= i as int <= 18446744073709551615int,
            {}
        }
        let sq: u128 = (d * d) as u128;
        total = total + sq;
        i = i + 1;
    }
    total
}

/// Euclidean distance between two equal-length coordinate vectors, rounded
/// down to the nearest integer: the result `r` satisfies
/// `r * r <= sqdist < (r + 1) * (r + 1)`.
pub fn euclidean(a: &Vec<i64>, b: &Vec<i64>) -> (r: u64)
    requires
        a@.len() == b@.len(),
        coords_in_range(a@),
        coords_in_range(b@),
    ensures
        (r as int) * (r as int) <= sqdist(a@, b@),
        sqdist(a@, b@) < (r as int + 1) * (r as int + 1),
{
    let sq = squared_euclidean(a, b);
    isqrt(sq)
}

/// Integer square root, rounded down.
fn isqrt(x: u128) -> (r: u64)
    ensures
        (r as int) * (r as int) <= x as int,
        (x as int) < (r as int + 1) * (r as int + 1),
{
    let mut lo: u128 = 0;
    let mut hi: u128 = 0x1_0000_0000_0000_0000;
    proof {
        assert((hi as int) * (hi as int) > u128::MAX as int) by (nonlinear_arith)
            requires hi == 0x1_0000_0000_0000_0000u128,
        {}
    }
    while lo + 1 < hi
        invariant
            0 <= lo < hi <= 0x1_0000_0000_0000_0000u128,
            (lo as int) * (lo as int) <= x as int,
            (x as int) < (hi as int) * (hi as int),
        decreases hi - lo,
    {
        let mid: u128 = lo + (hi - lo) / 2;
        proof {
            assert((mid as int) * (mid as int) <= (0xffff_ffff_ffff_ffffu128 as int)
                * (0xffff_ffff_ffff_ffffu128 as int)) by (nonlinear_arith)
                requires 0 <= mid as int <= 0xffff_ffff_ffff_ffffu128 as int,
            {}
        }
        if mid * mid <= x {
            lo = mid;
        } else {
            hi = mid;
        }
    }
    lo as u64
}

} // verus!
