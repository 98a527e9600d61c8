use vstd::prelude::*;

verus! {

/// A pixel position in image coordinates (x grows right, y grows down).
#[derive(Debug, Clone, Copy, PartialEq, Eq, Hash, Structural)]
pub struct Position {
    pub x: i32,
    pub y: i32,
}

impl Position {
    pub fn new(x: i32, y: i32) -> (p: Position)
        ensures
            p == (Position { x, y }),
    {
        Position { x, y }
    }
}

/// Squared Euclidean distance between two positions, in mathematical integers.
pub open spec fn sq_dist(a: Position, b: Position) -> int {
    (a.x - b.x) * (a.x - b.x) + (a.y - b.y) * (a.y - b.y)
}

/// A squared distance is never negative, and each axis difference is bounded by it.
pub proof fn lemma_sq_dist_bounds(a: Position, b: Position)
    ensures
        0 <= (a.x - b.x) * (a.x - b.x) <= sq_dist(a, b),
        0 <= (a.y - b.y) * (a.y - b.y) <= sq_dist(a, b),
{
    let dx = a.x - b.x;
    let dy = a.y - b.y;
    assert(0 <= dx * dx) by (nonlinear_arith);
    assert(0 <= dy * dy) by (nonlinear_arith);
}

/// If a square of an integer is at most i32::MAX, the integer itself fits comfortably in i32.
pub proof fn lemma_square_small(d: int)
    requires
        d * d <= i32::MAX,
    ensures
        -46341 < d < 46341,
{
    if d >= 46341 {
        assert(d * d >= 46341 * 46341) by (nonlinear_arith)
            requires
                d >= 46341,
        ;
    }
    if d <= -46341 {
        assert(d * d >= 46341 * 46341) by (nonlinear_arith)
            requires
                d <= -46341,
        ;
    }
}

/// Squared distance between two points, computed in i32 as the planner does.
/// The squared distance must fit in i32.
pub fn squared_distance(a: &Position, b: &Position) -> (d: i32)
    requires
        sq_dist(*a, *b) <= i32::MAX,
    ensures
        d == sq_dist(*a, *b),
{
    proof {
        lemma_sq_dist_bounds(*a, *b);
        lemma_square_small(a.x - b.x);
        lemma_square_small(a.y - b.y);
    }
    let dx: i64 = a.x as i64 - b.x as i64;
    let dy: i64 = a.y as i64 - b.y as i64;
    assert(dx * dx <= 46341 * 46341) by (nonlinear_arith)
        requires
            -46341 < dx < 46341,
    ;
    assert(dy * dy <= 46341 * 46341) by (nonlinear_arith)
        requires
            -46341 < dy < 46341,
    ;
    let s: i64 = dx * dx + dy * dy;
    s as i32
}

/// Squared distance from `point1` to `point2`.
pub fn pythagoras(point1: &Position, point2: &Position) -> (d: i32)
    requires
        sq_dist(*point1, *point2) <= i32::MAX,
    ensures
        d == sq_dist(*point1, *point2),
{
    proof {
        lemma_sq_dist_symmetric(*point1, *point2);
    }
    squared_distance(point2, point1)
}

/// Squared distance does not depend on the order of the two points.
pub proof fn lemma_sq_dist_symmetric(a: Position, b: Position)
    ensures
        sq_dist(a, b) == sq_dist(b, a),
{
    assert((a.x - b.x) * (a.x - b.x) == (b.x - a.x) * (b.x - a.x)) by (nonlinear_arith);
    assert((a.y - b.y) * (a.y - b.y) == (b.y - a.y) * (b.y - a.y)) by (nonlinear_arith);
}

/// The squared distance between two points when it fits in i32, else `None`.
pub fn checked_squared_distance(a: &Position, b: &Position) -> (r: Option<i32>)
    ensures
        r is None <==> sq_dist(*a, *b) > i32::MAX,
        r matches Some(d) ==> d == sq_dist(*a, *b),
{
    let dx: i128 = a.x as i128 - b.x as i128;
    let dy: i128 = a.y as i128 - b.y as i128;
    assert(dx * dx <= 0x1_0000_0000 * 0x1_0000_0000 && dy * dy <= 0x1_0000_0000 * 0x1_0000_0000
        && 0 <= dx * dx && 0 <= dy * dy) by (nonlinear_arith)
        requires
            -0x1_0000_0000 <= dx <= 0x1_0000_0000,
            -0x1_0000_0000 <= dy <= 0x1_0000_0000,
    ;
    let s: i128 = dx * dx + dy * dy;
    if s > i32::MAX as i128 {
        None
    } else {
        Some(s as i32)
    }
}

} // verus!
