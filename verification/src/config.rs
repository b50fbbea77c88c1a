//! Tuning constants shared by the arcade modes.
use vstd::prelude::*;

verus! {

/// Tail length a snake run starts with, in cells.
pub const SNAKE_TAIL_START: usize = 8;

/// Cells every power-up adds to the snake's tail.
pub const SNAKE_TAIL_GROWTH: usize = 4;

/// Preferred Chebyshev distance between a power-up and the rider's spawn.
pub const SNAKE_MIN_FOOD_DISTANCE: i32 = 3;

/// Most directories the visit history remembers.
pub const HISTORY_LIMIT: usize = 64;

/// Default multisample count.
pub const MSAA_SAMPLES: u32 = 1;

/// Rows of the cube pyramid; row `r` holds `r + 1` cubes.
pub const QBERT_ROWS: usize = 6;

/// Lives a pyramid run starts with.
pub const QBERT_LIVES: u8 = 3;

/// Stealth room width, in cells.
pub const STEALTH_WIDTH: i32 = 20;

/// Stealth room depth, in cells.
pub const STEALTH_HEIGHT: i32 = 14;

/// Pieces of cover a stealth room tries to place.
pub const STEALTH_COVER: usize = 18;

} // verus!
