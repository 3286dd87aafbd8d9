//! Tile-based movement planning over a chunked world map.
//!
//! The crate builds, stores and queries per-tile mobility data (ordinary
//! walking, a short dash and two directional teleports), computes an
//! admissible cooldown-aware heuristic table, and runs a best-first search
//! over position, facing and cooldown state.

use vstd::prelude::*;

pub mod builder;
pub mod grid;
pub mod heuristic;
pub mod map_section;
pub mod movemap;
pub mod search;
pub mod state;
pub mod util;
pub mod window;

verus! {

} // verus!
