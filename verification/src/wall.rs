//! Walls and the way neighbouring walls join.

use vstd::prelude::*;

verus! {

/// A segment of wall, one cell wide.
#[derive(Copy, Clone, Eq, PartialEq, Debug, Structural)]
pub struct Wall {
    pub level: u8,
}

/// How a segment of wall joins its neighbours: the segment one column to the
/// left, and the segment one row further on, called the right one.
#[derive(Copy, Clone, Eq, PartialEq, Debug, Structural)]
pub enum WallConnectionType {
    /// No neighbour on either side.
    Lonely,
    /// A neighbour on both sides.
    RightLeft,
    /// A neighbour to the left only.
    LeftOnly,
    /// A neighbour to the right only.
    RightOnly,
}

impl WallConnectionType {
    /// The name of the picture that shows the join.
    pub fn name(&self) -> (name: &'static str)
        ensures
            name@ == match self {
                WallConnectionType::Lonely => "lonely"@,
                WallConnectionType::RightLeft => "corner"@,
                WallConnectionType::LeftOnly => "connected_left"@,
                WallConnectionType::RightOnly => "connected_right"@,
            },
    {
        match self {
            WallConnectionType::Lonely => "lonely",
            WallConnectionType::RightLeft => "corner",
            WallConnectionType::LeftOnly => "connected_left",
            WallConnectionType::RightOnly => "connected_right",
        }
    }
}

} // verus!
