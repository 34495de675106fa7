//! Points in fixed-point angular coordinates, and the squared-distance metric.

use vstd::prelude::*;

verus! {

/// Largest magnitude a coordinate may have. One unit is 1e-8 radian, so the
/// whole range of latitudes and longitudes (|v| <= 2*pi) fits comfortably.
pub const MAX_COORD: i64 = 1_000_000_000;

/// A point in fixed-point angular coordinates (latitude, longitude), one unit
/// being 1e-8 radian. A point is identified by its index in the input
/// sequence; the struct itself carries only the coordinates.
#[derive(Debug, Clone, Copy, PartialEq, Eq, Structural)]
pub struct Point {
    pub x: i64,
    pub y: i64,
}

/// Whether both coordinates are within the representable angular range.
pub open spec fn valid_point(p: Point) -> bool {
    -MAX_COORD <= p.x <= MAX_COORD && -MAX_COORD <= p.y <= MAX_COORD
}

/// Squared Euclidean distance between two points, as a mathematical integer.
pub open spec fn sq_dist(a: Point, b: Point) -> int {
    (a.x - b.x) * (a.x - b.x) + (a.y - b.y) * (a.y - b.y)
}

/// Squared Euclidean distance in coordinate units. This is the metric every
/// neighborhood comparison uses: comparing squared distances against a squared
/// radius is exact in integers, and order-equivalent to comparing distances.
pub fn dist_sq(a: &Point, b: &Point) -> (r: u64)
    requires
        valid_point(*a),
        valid_point(*b),
    ensures
        r == sq_dist(*a, *b),
{
    let dx: i64 = a.x - b.x;
    let dy: i64 = a.y - b.y;
    proof {
        assert(dx * dx <= 4_000_000_000_000_000_000 && dx * dx >= 0) by (nonlinear_arith)
            requires -2_000_000_000 <= dx <= 2_000_000_000;
        assert(dy * dy <= 4_000_000_000_000_000_000 && dy * dy >= 0) by (nonlinear_arith)
            requires -2_000_000_000 <= dy <= 2_000_000_000;
    }
    (dx * dx) as u64 + (dy * dy) as u64
}

/// The metric is symmetric.
pub proof fn lemma_dist_symmetric(a: Point, b: Point)
    ensures
        sq_dist(a, b) == sq_dist(b, a),
{
    assert((a.x - b.x) * (a.x - b.x) == (b.x - a.x) * (b.x - a.x)) by (nonlinear_arith);
    assert((a.y - b.y) * (a.y - b.y) == (b.y - a.y) * (b.y - a.y)) by (nonlinear_arith);
}

/// The metric is non-negative, and zero exactly on coincident points.
pub proof fn lemma_dist_zero_iff_eq(a: Point, b: Point)
    ensures
        sq_dist(a, b) >= 0,
        sq_dist(a, b) == 0 <==> (a.x == b.x && a.y == b.y),
{
    assert((a.x - b.x) * (a.x - b.x) >= 0) by (nonlinear_arith);
    assert((a.y - b.y) * (a.y - b.y) >= 0) by (nonlinear_arith);
    if a.x != b.x {
        assert((a.x - b.x) * (a.x - b.x) > 0) by (nonlinear_arith)
            requires a.x != b.x;
    }
    if a.y != b.y {
        assert((a.y - b.y) * (a.y - b.y) > 0) by (nonlinear_arith)
            requires a.y != b.y;
    }
    if a.x == b.x && a.y == b.y {
        assert((a.x - b.x) * (a.x - b.x) == 0) by (nonlinear_arith)
            requires a.x == b.x;
        assert((a.y - b.y) * (a.y - b.y) == 0) by (nonlinear_arith)
            requires a.y == b.y;
    }
}

} // verus!
