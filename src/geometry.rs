//! Distances between grid coordinates.

use vstd::prelude::*;

verus! {

/// Largest grid side the library works with; coordinates lie in `[0, MAX_GRID_SIZE)`.
pub const MAX_GRID_SIZE: usize = 1024;

/// Squared Euclidean distance between `(x1, y1)` and `(x2, y2)`.
pub open spec fn dist2(x1: int, y1: int, x2: int, y2: int) -> int {
    (x1 - x2) * (x1 - x2) + (y1 - y2) * (y1 - y2)
}

/// A coordinate that can stand on a grid of the largest size.
pub open spec fn in_bounds(c: int) -> bool {
    0 <= c < MAX_GRID_SIZE as int
}

/// Squared Euclidean distance between two grid coordinates.
pub fn distance_squared(x1: isize, y1: isize, x2: isize, y2: isize) -> (r: u64)
    requires
        in_bounds(x1 as int),
        in_bounds(y1 as int),
        in_bounds(x2 as int),
        in_bounds(y2 as int),
    ensures
        r as int == dist2(x1 as int, y1 as int, x2 as int, y2 as int),
{
    let dx: i64 = (x1 as i64) - (x2 as i64);
    let dy: i64 = (y1 as i64) - (y2 as i64);
    assert(dx * dx <= 1024 * 1024) by (nonlinear_arith)
        requires -1024 < dx < 1024;
    assert(dy * dy <= 1024 * 1024) by (nonlinear_arith)
        requires -1024 < dy < 1024;
    assert(dx * dx >= 0 && dy * dy >= 0) by (nonlinear_arith);
    (dx * dx + dy * dy) as u64
}

} // verus!
