//! A rectangular region of per-tile movement bitmasks.
//!
//! The tile database builder consults movement data for arbitrary nearby
//! tiles; every tile outside the region held here (including everything
//! beyond the world extents) counts as fully blocked, with all eight edge
//! bits clear.

use vstd::prelude::*;
use crate::grid::ByteGrid;

verus! {

/// World extent along the x axis, in tiles.
pub const RS_LENGTH: usize = 6400;

/// World extent along the y axis, in tiles.
pub const RS_HEIGHT: usize = 12800;

/// Whether a tile coordinate lies within the world extents.
pub open spec fn in_world(x: int, y: int) -> bool {
    0 <= x < RS_LENGTH && 0 <= y < RS_HEIGHT
}

/// Movement bitmasks for the tiles of one rectangular world region.
pub struct MoveMap {
    pub x0: usize,
    pub y0: usize,
    pub grid: ByteGrid,
}

impl MoveMap {
    pub open spec fn wf(self) -> bool {
        &&& self.grid.wf()
        &&& self.x0 + self.grid.width <= RS_LENGTH
        &&& self.y0 + self.grid.height <= RS_HEIGHT
    }

    /// Movement bitmask of a tile; zero for any tile outside the region.
    pub open spec fn at(self, x: int, y: int) -> u8 {
        if self.x0 <= x < self.x0 + self.grid.width && self.y0 <= y < self.y0
            + self.grid.height {
            self.grid.at(x - self.x0, y - self.y0)
        } else {
            0
        }
    }

    /// Wraps a movement grid whose origin tile is `(x0, y0)`; refused when
    /// the region does not fit the world extents or the grid is ragged.
    pub fn new(x0: usize, y0: usize, grid: ByteGrid) -> (r: Option<Self>)
        ensures
            r is Some <==> (grid.wf() && x0 + grid.width <= RS_LENGTH && y0 + grid.height
                <= RS_HEIGHT),
            r matches Some(m) ==> m.wf() && m.x0 == x0 && m.y0 == y0 && m.grid == grid,
    {
        if grid.width <= 65536 && grid.height <= 65536 && x0 <= RS_LENGTH - grid.width.min(
            RS_LENGTH,
        ) && grid.width <= RS_LENGTH && y0 <= RS_HEIGHT - grid.height.min(RS_HEIGHT)
            && grid.height <= RS_HEIGHT {
            proof {
                assert((grid.width as int) * (grid.height as int) <= 65536 * 65536)
                    by (nonlinear_arith)
                    requires
                        grid.width <= 65536,
                        grid.height <= 65536,
                ;
            }
            let expected = (grid.width as u64) * (grid.height as u64);
            if (grid.data.len() as u64) == expected {
                return Some(MoveMap { x0, y0, grid });
            }
        }
        None
    }

    /// Movement bitmask of the tile at `(x, y)`, blocked outside the region.
    pub fn get(&self, x: i64, y: i64) -> (r: u8)
        requires
            self.wf(),
        ensures
            r == self.at(x as int, y as int),
    {
        let x0 = self.x0 as i64;
        let y0 = self.y0 as i64;
        if x0 <= x && x < x0 + self.grid.width as i64 && y0 <= y && y < y0
            + self.grid.height as i64 {
            self.grid.get((x - x0) as usize, (y - y0) as usize)
        } else {
            0
        }
    }
}

} // verus!
