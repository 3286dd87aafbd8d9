//! Compass directions, their edge bits in a movement bitmask, and the
//! coordinates of the eight neighbouring tiles.
//!
//! Direction indices run clockwise from north: 0 = N, 1 = NE, 2 = E,
//! 3 = SE, 4 = S, 5 = SW, 6 = W, 7 = NW.

use vstd::prelude::*;

verus! {

/// Unit x-offset of a compass direction.
pub open spec fn dir_dx(direction: int) -> int {
    if direction == 1 || direction == 2 || direction == 3 {
        1
    } else if direction == 5 || direction == 6 || direction == 7 {
        -1
    } else {
        0
    }
}

/// Unit y-offset of a compass direction.
pub open spec fn dir_dy(direction: int) -> int {
    if direction == 7 || direction == 0 || direction == 1 {
        1
    } else if direction == 3 || direction == 4 || direction == 5 {
        -1
    } else {
        0
    }
}

/// The bit that a movement bitmask uses for the edge in a given direction.
pub open spec fn dir_bit(direction: int) -> u8 {
    if direction == 0 {
        2
    } else if direction == 1 {
        32
    } else if direction == 2 {
        4
    } else if direction == 3 {
        64
    } else if direction == 4 {
        8
    } else if direction == 5 {
        128
    } else if direction == 6 {
        1
    } else {
        16
    }
}

/// Whether a movement bitmask allows leaving a tile in a given direction.
pub open spec fn spec_free_direction(data: u8, direction: int) -> bool {
    data & dir_bit(direction) != 0
}

/// Tests the edge bit of one compass direction in a movement bitmask.
pub fn free_direction(data: u8, direction: usize) -> (r: bool)
    requires
        direction < 8,
    ensures
        r == spec_free_direction(data, direction as int),
{
    let bit: u8 = if direction == 0 {
        2
    } else if direction == 1 {
        32
    } else if direction == 2 {
        4
    } else if direction == 3 {
        64
    } else if direction == 4 {
        8
    } else if direction == 5 {
        128
    } else if direction == 6 {
        1
    } else {
        16
    };
    data & bit != 0
}

/// The eight neighbours of a tile, listed by compass direction.
pub fn adj_positions(x: usize, y: usize) -> (r: [(usize, usize); 8])
    requires
        1 <= x < usize::MAX,
        1 <= y < usize::MAX,
    ensures
        forall|j: int|
            0 <= j < 8 ==> (#[trigger] r@[j]).0 == x + dir_dx(j) && r@[j].1 == y + dir_dy(j),
{
    let r = [
        (x, y + 1),
        (x + 1, y + 1),
        (x + 1, y),
        (x + 1, y - 1),
        (x, y - 1),
        (x - 1, y - 1),
        (x - 1, y),
        (x - 1, y + 1),
    ];
    assert(forall|j: int|
        0 <= j < 8 ==> (#[trigger] r@[j]).0 == x + dir_dx(j) && r@[j].1 == y + dir_dy(j));
    r
}

} // verus!
