//! The metric: exact squared Euclidean distance over fixed-point
//! coordinates. Ordering by squared distance is the same as ordering by
//! distance, which is all the graph index ever relies on.

use vstd::prelude::*;

verus! {

/// Largest coordinate magnitude the index accepts (2^30). Keeping every
/// coordinate within this bound keeps every squared distance within `u128`.
pub const COORD_LIMIT: i64 = 0x4000_0000;

pub open spec fn coord_ok(c: i64) -> bool {
    -COORD_LIMIT <= c <= COORD_LIMIT
}

pub open spec fn coords_ok(v: Seq<i64>) -> bool {
    forall|i: int| 0 <= i < v.len() ==> coord_ok(#[trigger] v[i])
}

/// Squared Euclidean distance over the first `n` coordinates.
pub open spec fn dist_sq_prefix(a: Seq<i64>, b: Seq<i64>, n: int) -> int
    decreases n,
{
    if n <= 0 {
        0
    } else {
        dist_sq_prefix(a, b, n - 1) + (a[n - 1] - b[n - 1]) * (a[n - 1] - b[n - 1])
    }
}

/// Squared Euclidean distance between two equal-length vectors.
pub open spec fn spec_dist_sq(a: Seq<i64>, b: Seq<i64>) -> int {
    dist_sq_prefix(a, b, a.len() as int)
}

proof fn lemma_square_bounds(d: int) by (nonlinear_arith)
    requires
        -0x8000_0000 <= d <= 0x8000_0000,
    ensures
        0 <= d * d <= 0x4000_0000_0000_0000,
{
}

proof fn lemma_dist_sq_prefix_bound(a: Seq<i64>, b: Seq<i64>, n: int)
    requires
        0 <= n <= a.len(),
        n <= b.len(),
        coords_ok(a),
        coords_ok(b),
    ensures
        0 <= dist_sq_prefix(a, b, n) <= n * 0x4000_0000_0000_0000,
    decreases n,
{
    if n > 0 {
        lemma_dist_sq_prefix_bound(a, b, n - 1);
        lemma_square_bounds(a[n - 1] - b[n - 1]);
    }
}

/// The distance of a vector to itself is zero.
pub proof fn lemma_dist_sq_self_zero(a: Seq<i64>, b: Seq<i64>, n: int)
    requires
        0 <= n <= a.len(),
        a == b,
    ensures
        dist_sq_prefix(a, b, n) == 0,
    decreases n,
{
    if n > 0 {
        lemma_dist_sq_self_zero(a, b, n - 1);
    }
}

/// Squared Euclidean distance, computed exactly.
pub fn euclidean_distance_sq(a: &Vec<i64>, b: &Vec<i64>) -> (r: u128)
    requires
        a@.len() == b@.len(),
        coords_ok(a@),
        coords_ok(b@),
    ensures
        r == spec_dist_sq(a@, b@),
{
    let mut acc: u128 = 0;
    let mut i: usize = 0;
    while i < a.len()
        invariant
            a@.len() == b@.len(),
            coords_ok(a@),
            coords_ok(b@),
            0 <= i <= a@.len(),
            acc == dist_sq_prefix(a@, b@, i as int),
            acc <= (i as int) * 0x4000_0000_0000_0000,
        decreases a@.len() - i,
    {
        let d: i64 = a[i] - b[i];
        proof {
            lemma_square_bounds(d as int);
        }
        let t: i64 = d * d;
        proof {
            lemma_dist_sq_prefix_bound(a@, b@, i as int);
        }
        acc = acc + (t as u128);
        i = i + 1;
    }
    acc
}

} // verus!
