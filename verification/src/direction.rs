//! The six faces of a voxel and of a chunk.

use vstd::prelude::*;

verus! {

/// One of the six axis-aligned directions.
#[derive(Clone, Copy, Debug, PartialEq, Eq, Structural)]
pub enum Direction {
    /// x + 1
    Front,
    /// x - 1
    Back,
    /// z + 1
    Left,
    /// z - 1
    Right,
    /// y + 1
    Top,
    /// y - 1
    Bottom,
}

impl Direction {
    /// Place of this direction in a table of six entries.
    pub open spec fn spec_index(self) -> int {
        match self {
            Direction::Front => 0,
            Direction::Back => 1,
            Direction::Left => 2,
            Direction::Right => 3,
            Direction::Top => 4,
            Direction::Bottom => 5,
        }
    }

    /// The direction with this place in a table of six entries.
    pub open spec fn spec_from_index(index: int) -> Direction {
        if index == 0 {
            Direction::Front
        } else if index == 1 {
            Direction::Back
        } else if index == 2 {
            Direction::Left
        } else if index == 3 {
            Direction::Right
        } else if index == 4 {
            Direction::Top
        } else {
            Direction::Bottom
        }
    }

    /// The direction that looks the other way.
    pub open spec fn spec_opposite(&self) -> Direction {
        match *self {
            Direction::Front => Direction::Back,
            Direction::Back => Direction::Front,
            Direction::Left => Direction::Right,
            Direction::Right => Direction::Left,
            Direction::Top => Direction::Bottom,
            Direction::Bottom => Direction::Top,
        }
    }

    /// The step that this direction makes, as `(x, y, z)`.
    pub open spec fn spec_offset(self) -> (int, int, int) {
        match self {
            Direction::Front => (1, 0, 0),
            Direction::Back => (-1, 0, 0),
            Direction::Left => (0, 0, 1),
            Direction::Right => (0, 0, -1),
            Direction::Top => (0, 1, 0),
            Direction::Bottom => (0, -1, 0),
        }
    }

    /// Place of this direction in a table of six entries.
    pub fn index(&self) -> (index: usize)
        ensures
            index == self.spec_index(),
            index < 6,
    {
        match self {
            Direction::Front => 0,
            Direction::Back => 1,
            Direction::Left => 2,
            Direction::Right => 3,
            Direction::Top => 4,
            Direction::Bottom => 5,
        }
    }

    /// The direction with this place in a table of six entries.
    pub fn from_index(index: usize) -> (direction: Direction)
        requires
            index < 6,
        ensures
            direction == Direction::spec_from_index(index as int),
            direction.spec_index() == index,
    {
        if index == 0 {
            Direction::Front
        } else if index == 1 {
            Direction::Back
        } else if index == 2 {
            Direction::Left
        } else if index == 3 {
            Direction::Right
        } else if index == 4 {
            Direction::Top
        } else {
            Direction::Bottom
        }
    }

    /// The direction that looks the other way.
    #[verifier::when_used_as_spec(spec_opposite)]
    pub fn opposite(&self) -> (opposite: Direction)
        ensures
            opposite == self.spec_opposite(),
    {
        match self {
            Direction::Front => Direction::Back,
            Direction::Back => Direction::Front,
            Direction::Left => Direction::Right,
            Direction::Right => Direction::Left,
            Direction::Top => Direction::Bottom,
            Direction::Bottom => Direction::Top,
        }
    }

    /// The step that this direction makes, as `(x, y, z)`.
    pub fn offset(&self) -> (step: (i32, i32, i32))
        ensures
            (step.0 as int, step.1 as int, step.2 as int) == self.spec_offset(),
    {
        match self {
            Direction::Front => (1, 0, 0),
            Direction::Back => (-1, 0, 0),
            Direction::Left => (0, 0, 1),
            Direction::Right => (0, 0, -1),
            Direction::Top => (0, 1, 0),
            Direction::Bottom => (0, -1, 0),
        }
    }

    /// Opposite directions pair up: the opposite of the opposite is the
    /// direction itself, it is a different direction, and it steps back.
    pub proof fn lemma_opposite_involution(direction: Direction)
        ensures
            direction.spec_opposite().spec_opposite() == direction,
            direction.spec_opposite() != direction,
            direction.spec_opposite().spec_offset() == (
                -direction.spec_offset().0,
                -direction.spec_offset().1,
                -direction.spec_offset().2,
            ),
    {
    }

    /// Every direction has its own index below six, and is found again by it.
    pub proof fn lemma_index_round_trip(direction: Direction, index: int)
        ensures
            0 <= direction.spec_index() < 6,
            Direction::spec_from_index(direction.spec_index()) == direction,
            0 <= index < 6 ==> Direction::spec_from_index(index).spec_index() == index,
    {
    }
}

} // verus!
