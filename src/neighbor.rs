use vstd::prelude::*;
use crate::pos::WorldPos;

verus! {

/// Which of the six face neighbours comes next.
#[derive(Debug, Copy, Clone, PartialEq, Eq, Structural)]
pub enum NeighborState {
    XPlus,
    XMinus,
    YPlus,
    YMinus,
    ZPlus,
    ZMinus,
}

/// The six face neighbours of a voxel, in the order +x, -x, +y, -y, +z, -z.
pub struct NeighborIterator {
    pos: WorldPos,
    state: Option<NeighborState>,
}

/// The voxel one step from `pos` in the direction of `state`.
pub open spec fn spec_apply_state(pos: WorldPos, state: NeighborState) -> WorldPos {
    match state {
        NeighborState::XPlus => WorldPos { x: (pos.x + 1) as i32, ..pos },
        NeighborState::XMinus => WorldPos { x: (pos.x - 1) as i32, ..pos },
        NeighborState::YPlus => WorldPos { y: (pos.y + 1) as u8, ..pos },
        NeighborState::YMinus => WorldPos { y: (pos.y - 1) as u8, ..pos },
        NeighborState::ZPlus => WorldPos { z: (pos.z + 1) as i32, ..pos },
        NeighborState::ZMinus => WorldPos { z: (pos.z - 1) as i32, ..pos },
    }
}

pub open spec fn spec_next_state(state: NeighborState) -> Option<NeighborState> {
    match state {
        NeighborState::XPlus => Some(NeighborState::XMinus),
        NeighborState::XMinus => Some(NeighborState::YPlus),
        NeighborState::YPlus => Some(NeighborState::YMinus),
        NeighborState::YMinus => Some(NeighborState::ZPlus),
        NeighborState::ZPlus => Some(NeighborState::ZMinus),
        NeighborState::ZMinus => None,
    }
}

/// `pos` has all six neighbours inside the coordinate ranges.
pub open spec fn is_interior(pos: WorldPos) -> bool {
    i32::MIN < pos.x < i32::MAX && 0 < pos.y < 255 && i32::MIN < pos.z < i32::MAX
}

fn apply_state(pos: &WorldPos, state: NeighborState) -> (r: WorldPos)
    requires
        is_interior(*pos),
    ensures
        r == spec_apply_state(*pos, state),
{
    match state {
        NeighborState::XPlus => WorldPos { x: pos.x + 1, y: pos.y, z: pos.z, dimension: pos.dimension },
        NeighborState::XMinus => WorldPos { x: pos.x - 1, y: pos.y, z: pos.z, dimension: pos.dimension },
        NeighborState::YPlus => WorldPos { x: pos.x, y: pos.y + 1, z: pos.z, dimension: pos.dimension },
        NeighborState::YMinus => WorldPos { x: pos.x, y: pos.y - 1, z: pos.z, dimension: pos.dimension },
        NeighborState::ZPlus => WorldPos { x: pos.x, y: pos.y, z: pos.z + 1, dimension: pos.dimension },
        NeighborState::ZMinus => WorldPos { x: pos.x, y: pos.y, z: pos.z - 1, dimension: pos.dimension },
    }
}

fn next_state(state: NeighborState) -> (r: Option<NeighborState>)
    ensures
        r == spec_next_state(state),
{
    match state {
        NeighborState::XPlus => Some(NeighborState::XMinus),
        NeighborState::XMinus => Some(NeighborState::YPlus),
        NeighborState::YPlus => Some(NeighborState::YMinus),
        NeighborState::YMinus => Some(NeighborState::ZPlus),
        NeighborState::ZPlus => Some(NeighborState::ZMinus),
        NeighborState::ZMinus => None,
    }
}

impl NeighborIterator {
    pub closed spec fn center(&self) -> WorldPos {
        self.pos
    }

    pub closed spec fn pending(&self) -> Option<NeighborState> {
        self.state
    }

    /// Starts at the +x neighbour of `pos`.
    pub fn new(pos: WorldPos) -> (r: Self)
        ensures
            r.center() == pos,
            r.pending() == Some(NeighborState::XPlus),
    {
        NeighborIterator { pos, state: Some(NeighborState::XPlus) }
    }

    /// The next neighbour, or `None` after the sixth.
    pub fn next(&mut self) -> (r: Option<WorldPos>)
        requires
            is_interior(old(self).center()),
        ensures
            final(self).center() == old(self).center(),
            match old(self).pending() {
                Some(s) => r == Some(spec_apply_state(old(self).center(), s)) && final(self).pending()
                    == spec_next_state(s),
                None => r is None && final(self).pending() is None,
            },
    {
        if let Some(state) = self.state {
            let result = apply_state(&self.pos, state);
            self.state = next_state(state);
            Some(result)
        } else {
            None
        }
    }
}

} // verus!
