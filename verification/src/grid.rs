//! Cells on the `X`/`Z` plane, the four grid headings and the distances between cells.
use vstd::prelude::*;

verus! {

/// One of the four directions a rider can face on the grid.
#[derive(Debug, Clone, Copy, PartialEq, Eq, Structural)]
pub enum Heading {
    PosX,
    NegX,
    PosZ,
    NegZ,
}

/// Absolute value of an integer.
pub open spec fn abs_int(v: int) -> int {
    if v < 0 { -v } else { v }
}

/// Taxicab distance between two cells.
pub open spec fn manhattan(a: (i32, i32), b: (i32, i32)) -> int {
    abs_int(a.0 - b.0) + abs_int(a.1 - b.1)
}

/// Chessboard distance between two cells.
pub open spec fn chebyshev_spec(a: (i32, i32), b: (i32, i32)) -> int {
    let dx = abs_int(a.0 - b.0);
    let dz = abs_int(a.1 - b.1);
    if dx >= dz { dx } else { dz }
}

/// The taxicab distance between the two cells can be computed in `i32` without overflow.
pub open spec fn manhattan_fits(a: (i32, i32), b: (i32, i32)) -> bool {
    manhattan(a, b) <= i32::MAX
}

/// Both axis gaps between the two cells can be computed in `i32` without overflow.
pub open spec fn chebyshev_fits(a: (i32, i32), b: (i32, i32)) -> bool {
    abs_int(a.0 - b.0) <= i32::MAX && abs_int(a.1 - b.1) <= i32::MAX
}

/// Chessboard distance between two cells.
pub fn chebyshev(a: (i32, i32), b: (i32, i32)) -> (d: i32)
    requires
        chebyshev_fits(a, b),
    ensures
        d == chebyshev_spec(a, b),
{
    let dx = a.0 - b.0;
    let dz = a.1 - b.1;
    let ax = if dx < 0 { -dx } else { dx };
    let az = if dz < 0 { -dz } else { dz };
    if ax >= az { ax } else { az }
}

/// Taxicab distance between two cells.
pub fn manhattan_distance(a: (i32, i32), b: (i32, i32)) -> (d: i32)
    requires
        manhattan_fits(a, b),
    ensures
        d == manhattan(a, b),
{
    let dx = a.0 - b.0;
    let dz = a.1 - b.1;
    let ax = if dx < 0 { -dx } else { dx };
    let az = if dz < 0 { -dz } else { dz };
    ax + az
}

} // verus!
