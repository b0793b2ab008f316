//! Distances between grid positions.
//!
//! Positions are integer grid points, so every comparison of Euclidean
//! distances is made exactly on their squares.

use vstd::prelude::*;

verus! {

/// The square of the Euclidean distance between two grid positions.
pub open spec fn sq_dist(a: (i32, i32), b: (i32, i32)) -> int {
    (a.0 - b.0) * (a.0 - b.0) + (a.1 - b.1) * (a.1 - b.1)
}

proof fn lemma_square_bound(d: int)
    requires
        -0x1_0000_0000 < d < 0x1_0000_0000,
    ensures
        0 <= d * d < 0x1_0000_0000_0000_0000,
{
    assert(0 <= d * d < 0x1_0000_0000_0000_0000) by (nonlinear_arith)
        requires
            -0x1_0000_0000 < d < 0x1_0000_0000,
    ;
}

/// Computes the squared Euclidean distance between two grid positions.
pub fn squared_distance(a: (i32, i32), b: (i32, i32)) -> (d: u128)
    ensures
        d == sq_dist(a, b),
{
    let dx: i128 = a.0 as i128 - b.0 as i128;
    let dy: i128 = a.1 as i128 - b.1 as i128;
    proof {
        lemma_square_bound(dx as int);
        lemma_square_bound(dy as int);
    }
    let sx: i128 = dx * dx;
    let sy: i128 = dy * dy;
    (sx + sy) as u128
}

/// Whether two positions lie within `threshold` of each other, the
/// boundary included.
pub open spec fn within(a: (i32, i32), b: (i32, i32), threshold: i64) -> bool {
    sq_dist(a, b) <= threshold * threshold
}

/// Decides `within` for a threshold that is not negative.
pub fn within_threshold(a: (i32, i32), b: (i32, i32), threshold: i64) -> (close: bool)
    requires
        threshold >= 0,
    ensures
        close == within(a, b, threshold),
{
    let t: u128 = threshold as u128;
    assert(0 <= t * t < 0x4000_0000_0000_0000_0000_0000_0000_0000) by (nonlinear_arith)
        requires
            0 <= t < 0x8000_0000_0000_0000,
    ;
    squared_distance(a, b) <= t * t
}

} // verus!
