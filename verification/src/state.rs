//! The immutable search-node value: position, facing and the four ability
//! cooldowns, with the transition operations of the search.
//!
//! Cooldowns count down from 17 ("just used") to 0 ("ready") and tick once
//! per timestep. Two states are the same search node exactly when all seven
//! fields match.

use vstd::prelude::*;
use crate::map_section::MapSection;
use crate::map_section::abs_of;

verus! {

/// One cooldown counter after a timestep: decremented, floored at zero.
pub open spec fn tick8(c: u8) -> u8 {
    if c == 0 {
        0
    } else {
        (c - 1) as u8
    }
}

/// A cooldown raised to at least two, as using one teleport does to the
/// counters of the other.
pub open spec fn raise8(c: u8) -> u8 {
    if c < 2 {
        2
    } else {
        c
    }
}

/// A search state.
#[derive(PartialEq, Eq, Structural, Hash, Clone, Copy, Debug)]
pub struct State {
    pub pos_x: u16,
    pub pos_y: u16,
    pub direction: u8,
    pub secd: u8,
    pub scd: u8,
    pub ecd: u8,
    pub bdcd: u8,
}

impl State {
    /// Cooldowns lie in their domain and the facing is a compass direction.
    pub open spec fn wf(self) -> bool {
        &&& self.secd <= 17
        &&& self.scd <= 17
        &&& self.ecd <= 17
        &&& self.bdcd <= 17
        &&& self.direction < 8
    }

    /// The state one timestep later: position and facing unchanged, every
    /// cooldown ticked down.
    pub open spec fn update_spec(self) -> State {
        State {
            secd: tick8(self.secd),
            scd: tick8(self.scd),
            ecd: tick8(self.ecd),
            bdcd: tick8(self.bdcd),
            ..self
        }
    }

    /// The state after relocating, cooldowns preserved.
    pub open spec fn move_spec(self, x: u16, y: u16, direction: u8) -> State {
        State { pos_x: x, pos_y: y, direction, ..self }
    }

    /// The state after a dash to `(x, y)`: the dash cooldown restarts, all
    /// else is preserved.
    pub open spec fn bd_spec(self, x: u16, y: u16, direction: u8) -> State {
        State { pos_x: x, pos_y: y, direction, bdcd: 17, ..self }
    }

    pub open spec fn can_bd_spec(self) -> bool {
        self.bdcd == 0
    }

    pub open spec fn can_surge_spec(self) -> bool {
        self.secd == 0 || self.scd == 0
    }

    pub open spec fn can_escape_spec(self) -> bool {
        self.secd == 0 || self.ecd == 0
    }

    /// The state after a forward teleport within `section`: the destination
    /// follows from the stored offset along the facing, and the cooldowns
    /// update according to which guard admitted the teleport.
    pub open spec fn surge_spec(self, section: MapSection) -> State {
        let d = section.surge_dest(self.pos_x as int, self.pos_y as int, self.direction as int);
        if self.secd == 0 {
            State {
                pos_x: d.0 as u16,
                pos_y: d.1 as u16,
                secd: 17,
                scd: raise8(self.scd),
                ecd: 17,
                ..self
            }
        } else {
            State {
                pos_x: d.0 as u16,
                pos_y: d.1 as u16,
                secd: raise8(self.secd),
                scd: 17,
                ecd: raise8(self.ecd),
                ..self
            }
        }
    }

    /// The state after a backward teleport within `section`.
    pub open spec fn escape_spec(self, section: MapSection) -> State {
        let d = section.escape_dest(self.pos_x as int, self.pos_y as int, self.direction as int);
        if self.secd == 0 {
            State {
                pos_x: d.0 as u16,
                pos_y: d.1 as u16,
                secd: 17,
                scd: 17,
                ecd: raise8(self.ecd),
                ..self
            }
        } else {
            State {
                pos_x: d.0 as u16,
                pos_y: d.1 as u16,
                secd: raise8(self.secd),
                scd: raise8(self.scd),
                ecd: 17,
                ..self
            }
        }
    }

    /// The goal test: within Chebyshev distance one of the goal tile.
    pub open spec fn at_goal_spec(self, end: (u16, u16)) -> bool {
        abs_of(self.pos_x - end.0) <= 1 && abs_of(self.pos_y - end.1) <= 1
    }

    /// One timestep passes while waiting or walking: each cooldown ticks
    /// down, floored at zero.
    pub fn update(&self) -> (r: State)
        ensures
            r == self.update_spec(),
            self.wf() ==> r.wf(),
    {
        let secd = if self.secd > 0 {
            self.secd - 1
        } else {
            0
        };
        let scd = if self.scd > 0 {
            self.scd - 1
        } else {
            0
        };
        let ecd = if self.ecd > 0 {
            self.ecd - 1
        } else {
            0
        };
        let bdcd = if self.bdcd > 0 {
            self.bdcd - 1
        } else {
            0
        };
        State {
            pos_x: self.pos_x,
            pos_y: self.pos_y,
            direction: self.direction,
            secd,
            scd,
            ecd,
            bdcd,
        }
    }

    /// Relocates, preserving all cooldowns; the caller pairs this with
    /// `update` to account for the timestep the move costs.
    pub fn move_to(&self, x: u16, y: u16, direction: u8) -> (r: State)
        ensures
            r == self.move_spec(x, y, direction),
    {
        State {
            pos_x: x,
            pos_y: y,
            direction,
            secd: self.secd,
            scd: self.scd,
            ecd: self.ecd,
            bdcd: self.bdcd,
        }
    }

    /// Forward teleport: allowed only while its shared or specific cooldown
    /// is ready; costs no timestep.
    pub fn surge(&self, section: &MapSection) -> (r: State)
        requires
            self.wf(),
            self.can_surge_spec(),
            section.wf(),
            section.contains(self.pos_x as int, self.pos_y as int),
        ensures
            r == self.surge_spec(*section),
            r.wf(),
            r.direction == self.direction,
    {
        let (new_x, new_y) = section.surge_range(self.pos_x, self.pos_y, self.direction);
        if self.secd == 0 {
            State {
                pos_x: new_x as u16,
                pos_y: new_y as u16,
                direction: self.direction,
                secd: 17,
                scd: if self.scd < 2 {
                    2
                } else {
                    self.scd
                },
                ecd: 17,
                bdcd: self.bdcd,
            }
        } else {
            State {
                pos_x: new_x as u16,
                pos_y: new_y as u16,
                direction: self.direction,
                secd: if self.secd < 2 {
                    2
                } else {
                    self.secd
                },
                scd: 17,
                ecd: if self.ecd < 2 {
                    2
                } else {
                    self.ecd
                },
                bdcd: self.bdcd,
            }
        }
    }

    /// Backward teleport: allowed only while its shared or specific cooldown
    /// is ready; costs no timestep.
    pub fn escape(&self, section: &MapSection) -> (r: State)
        requires
            self.wf(),
            self.can_escape_spec(),
            section.wf(),
            section.contains(self.pos_x as int, self.pos_y as int),
        ensures
            r == self.escape_spec(*section),
            r.wf(),
            r.direction == self.direction,
    {
        let (new_x, new_y) = section.escape_range(self.pos_x, self.pos_y, self.direction);
        if self.secd == 0 {
            State {
                pos_x: new_x as u16,
                pos_y: new_y as u16,
                direction: self.direction,
                secd: 17,
                scd: 17,
                ecd: if self.ecd < 2 {
                    2
                } else {
                    self.ecd
                },
                bdcd: self.bdcd,
            }
        } else {
            State {
                pos_x: new_x as u16,
                pos_y: new_y as u16,
                direction: self.direction,
                secd: if self.secd < 2 {
                    2
                } else {
                    self.secd
                },
                scd: if self.scd < 2 {
                    2
                } else {
                    self.scd
                },
                ecd: 17,
                bdcd: self.bdcd,
            }
        }
    }

    /// Dash to `(x, y)`: allowed only while the dash cooldown is ready,
    /// which it then restarts; costs no timestep.
    pub fn bd(&self, x: u16, y: u16, direction: u8) -> (r: State)
        requires
            self.bdcd == 0,
        ensures
            r == self.bd_spec(x, y, direction),
    {
        State {
            pos_x: x,
            pos_y: y,
            direction,
            secd: self.secd,
            scd: self.scd,
            ecd: self.ecd,
            bdcd: 17,
        }
    }

    pub fn can_bd(&self) -> (r: bool)
        ensures
            r == self.can_bd_spec(),
    {
        self.bdcd == 0
    }

    pub fn can_surge(&self) -> (r: bool)
        ensures
            r == self.can_surge_spec(),
    {
        self.secd == 0 || self.scd == 0
    }

    pub fn can_escape(&self) -> (r: bool)
        ensures
            r == self.can_escape_spec(),
    {
        self.secd == 0 || self.ecd == 0
    }

    /// Whether the state lies within the 3×3 goal tolerance box around the
    /// goal tile.
    pub fn at_goal(&self, end: &(u16, u16)) -> (r: bool)
        ensures
            r == self.at_goal_spec(*end),
    {
        let dx = self.pos_x as i32 - end.0 as i32;
        let dy = self.pos_y as i32 - end.1 as i32;
        -1 <= dx && dx <= 1 && -1 <= dy && dy <= 1
    }
}

} // verus!
