use vstd::prelude::*;

verus! {

/// One of the two players.
#[derive(Debug, Clone, Copy, PartialEq, Eq, Structural)]
pub enum Side {
    South,
    North,
}

impl Side {
    /// The row of the board that belongs to this side.
    pub open spec fn row(self) -> nat {
        match self {
            Side::South => 0,
            Side::North => 1,
        }
    }

    /// The other player.
    pub open spec fn other(self) -> Side {
        match self {
            Side::South => Side::North,
            Side::North => Side::South,
        }
    }

    pub fn opposite(&self) -> (r: Side)
        ensures
            r == self.other(),
            r != *self,
    {
        match self {
            Side::South => Side::North,
            Side::North => Side::South,
        }
    }

    pub fn index(&self) -> (r: usize)
        ensures
            r as nat == self.row(),
            r < 2,
    {
        match self {
            Side::South => 0,
            Side::North => 1,
        }
    }
}

} // verus!
