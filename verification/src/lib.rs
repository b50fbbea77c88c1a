//! Game rules of a filesystem explorer's arcade modes, stated and proved.
use vstd::prelude::*;

pub mod config;
pub mod glyph;
pub mod grid;
pub mod lcg;
pub mod qbert;
pub mod scheduler;
pub mod snake;
pub mod state;
pub mod status;
pub mod stealth;
pub mod surfer;
pub mod text;

verus! {

} // verus!
