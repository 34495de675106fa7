//! The neighbor index: range queries over the point set, and the spec-level
//! neighborhood model (`within`, `count_within`, `is_core`) that every engine
//! contract is stated over.

use vstd::prelude::*;

use crate::point::{MAX_COORD, Point, dist_sq, sq_dist, valid_point, lemma_dist_zero_iff_eq};

verus! {

/// Every point of the sequence is within the representable coordinate range.
pub open spec fn all_valid(points: Seq<Point>) -> bool {
    forall|i: int| 0 <= i < points.len() ==> valid_point(#[trigger] points[i])
}

/// Point `j` lies within angular radius `eps` of point `i` (squared
/// comparison, which is exact in integers).
pub open spec fn within(points: Seq<Point>, eps: int, i: int, j: int) -> bool {
    sq_dist(points[i], points[j]) <= eps * eps
}

/// How many indices `j < m` lie within `eps` of point `i` (the point itself
/// counts, as the neighborhood includes it).
pub open spec fn count_within(points: Seq<Point>, eps: int, i: int, m: int) -> int
    decreases m,
{
    if m <= 0 {
        0
    } else {
        count_within(points, eps, i, m - 1) + if within(points, eps, i, m - 1) {
            1int
        } else {
            0int
        }
    }
}

/// A core point has at least `min_pts` points (itself included) within `eps`.
pub open spec fn is_core(points: Seq<Point>, eps: int, min_pts: int, i: int) -> bool {
    count_within(points, eps, i, points.len() as int) >= min_pts
}

/// The neighborhood count over `j < m` is between zero and `m`.
pub proof fn lemma_count_within_bounds(points: Seq<Point>, eps: int, i: int, m: int)
    ensures
        0 <= count_within(points, eps, i, m),
        m >= 0 ==> count_within(points, eps, i, m) <= m,
    decreases m,
{
    if m > 0 {
        lemma_count_within_bounds(points, eps, i, m - 1);
    }
}

/// A point is always within `eps >= 0` of itself, so its neighborhood count
/// over any range that covers it is at least one.
pub proof fn lemma_count_within_self(points: Seq<Point>, eps: int, i: int, m: int)
    requires
        0 <= i < m,
        eps >= 0,
    ensures
        count_within(points, eps, i, m) >= 1,
        within(points, eps, i, i),
    decreases m,
{
    lemma_dist_zero_iff_eq(points[i], points[i]);
    assert(eps * eps >= 0) by (nonlinear_arith)
        requires eps >= 0;
    if i < m - 1 {
        lemma_count_within_self(points, eps, i, m - 1);
    } else {
        lemma_count_within_bounds(points, eps, i, m - 1);
    }
}

/// With `min_pts == 1`, every point is a core point.
pub proof fn lemma_min_pts_one_all_core(points: Seq<Point>, eps: int, i: int)
    requires
        0 <= i < points.len(),
        eps >= 0,
    ensures
        is_core(points, eps, 1, i),
{
    lemma_count_within_self(points, eps, i, points.len() as int);
}

/// Answers the range query of the neighbor index: all indices whose point lies
/// within `eps` of point `i`, in ascending index order. Together, the length
/// clause (the count of qualifying indices), strict sortedness, and soundness
/// of every element pin the result down to the unique ascending enumeration
/// of the neighborhood.
pub fn range_query(points: &Vec<Point>, i: usize, eps: i64) -> (r: Vec<usize>)
    requires
        all_valid(points@),
        i < points@.len(),
        eps >= 0,
    ensures
        r@.len() == count_within(points@, eps as int, i as int, points@.len() as int),
        forall|t: int|
            0 <= t < r@.len() ==> (#[trigger] r@[t]) < points@.len() && within(
                points@,
                eps as int,
                i as int,
                r@[t] as int,
            ),
        forall|t1: int, t2: int| 0 <= t1 < t2 < r@.len() ==> r@[t1] < r@[t2],
        forall|j2: int|
            0 <= j2 < points@.len() && #[trigger] within(points@, eps as int, i as int, j2)
                ==> exists|t: int| 0 <= t < r@.len() && r@[t] == j2,
{
    let n = points.len();
    proof {
        assert((eps as u128) * (eps as u128) <= u128::MAX) by (nonlinear_arith)
            requires 0 <= (eps as u128) < 0x1_0000_0000_0000_0000;
        assert((eps as u128) * (eps as u128) == eps * eps) by (nonlinear_arith)
            requires eps >= 0;
    }
    let eps_sq: u128 = (eps as u128) * (eps as u128);
    let mut r: Vec<usize> = Vec::new();
    let mut j: usize = 0;
    while j < n
        invariant
            j <= n,
            n == points@.len(),
            all_valid(points@),
            i < n,
            eps >= 0,
            eps_sq == eps * eps,
            r@.len() == count_within(points@, eps as int, i as int, j as int),
            forall|t: int|
                0 <= t < r@.len() ==> (#[trigger] r@[t]) < j && within(
                    points@,
                    eps as int,
                    i as int,
                    r@[t] as int,
                ),
            forall|t1: int, t2: int| 0 <= t1 < t2 < r@.len() ==> r@[t1] < r@[t2],
            forall|j2: int|
                0 <= j2 < j && #[trigger] within(points@, eps as int, i as int, j2)
                    ==> exists|t: int| 0 <= t < r@.len() && r@[t] == j2,
        decreases n - j,
    {
        let d = dist_sq(&points[i], &points[j]);
        let ghost r0 = r@;
        if (d as u128) <= eps_sq {
            r.push(j);
        }
        proof {
            assert forall|j2: int|
                0 <= j2 < j + 1 && #[trigger] within(points@, eps as int, i as int, j2)
                    implies exists|t: int| 0 <= t < r@.len() && r@[t] == j2 by {
                if j2 == j {
                    assert(r@[r@.len() - 1] == j);
                } else {
                    let t0 = choose|t: int| 0 <= t < r0.len() && r0[t] == j2;
                    assert(r@[t0] == j2);
                }
            }
        }
        j = j + 1;
    }
    r
}

/// How many indices `j < m` have a squared distance to point `i` of at most
/// `d`.
pub open spec fn count_dist_le(points: Seq<Point>, i: int, d: int, m: int) -> int
    decreases m,
{
    if m <= 0 {
        0
    } else {
        count_dist_le(points, i, d, m - 1) + if sq_dist(points[i], points[m - 1]) <= d {
            1int
        } else {
            0int
        }
    }
}

/// When `d` is within the radius and covers the distance of every neighbor,
/// the points within distance `d` are exactly the neighborhood.
pub proof fn lemma_count_le_eq_count_within(
    points: Seq<Point>,
    eps: int,
    i: int,
    d: int,
    m: int,
)
    requires
        d <= eps * eps,
        forall|j: int|
            0 <= j < m && #[trigger] within(points, eps, i, j) ==> sq_dist(points[i], points[j])
                <= d,
    ensures
        count_dist_le(points, i, d, m) == count_within(points, eps, i, m),
    decreases m,
{
    if m > 0 {
        lemma_count_le_eq_count_within(points, eps, i, d, m - 1);
    }
}

/// Counts the points whose squared distance to point `i` is at most `d`.
#[verifier::loop_isolation(false)]
pub fn count_le(points: &Vec<Point>, i: usize, d: u64) -> (r: usize)
    requires
        all_valid(points@),
        i < points@.len(),
    ensures
        r == count_dist_le(points@, i as int, d as int, points@.len() as int),
{
    let n = points.len();
    let mut r: usize = 0;
    let mut j: usize = 0;
    while j < n
        invariant
            j <= n,
            r == count_dist_le(points@, i as int, d as int, j as int),
            r <= j,
        decreases n - j,
    {
        let dj = dist_sq(&points[i], &points[j]);
        if dj <= d {
            r = r + 1;
        }
        j = j + 1;
    }
    r
}

/// Whether every coordinate of every point is within the representable range.
pub fn all_points_valid(points: &Vec<Point>) -> (r: bool)
    ensures
        r == all_valid(points@),
{
    let n = points.len();
    let mut i: usize = 0;
    while i < n
        invariant
            i <= n,
            n == points@.len(),
            forall|m: int| 0 <= m < i ==> valid_point(#[trigger] points@[m]),
        decreases n - i,
    {
        let p = points[i];
        if !(-MAX_COORD <= p.x && p.x <= MAX_COORD && -MAX_COORD <= p.y && p.y <= MAX_COORD) {
            assert(!valid_point(points@[i as int]));
            return false;
        }
        i = i + 1;
    }
    true
}

} // verus!
