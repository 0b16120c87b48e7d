//! Voxel types.

use vstd::prelude::*;
use crate::direction::Direction;

verus! {

/// The type of a single voxel.
#[derive(Clone, Copy, Debug, PartialEq, Eq, Structural)]
pub enum Block {
    Air,
    Grass,
    Dirt,
    Metal,
    Glass,
}

impl Block {
    /// Everything but air is filled.
    pub open spec fn spec_is_filled(&self) -> bool {
        *self != Block::Air
    }

    /// Layer of the texture atlas shown on the face of this block that looks
    /// in `direction`.
    pub open spec fn spec_face_index(self, direction: Direction) -> u32 {
        match self {
            Block::Air => 0,
            Block::Grass => match direction {
                Direction::Top => 0,
                Direction::Bottom => 2,
                _ => 1,
            },
            Block::Dirt => 2,
            Block::Metal => match direction {
                Direction::Top => 5,
                Direction::Bottom => 6,
                _ => 3,
            },
            Block::Glass => 4,
        }
    }

    /// Number that stands for this block in the binary encoding.
    pub open spec fn spec_tag(self) -> u32 {
        match self {
            Block::Air => 0,
            Block::Grass => 1,
            Block::Dirt => 2,
            Block::Metal => 3,
            Block::Glass => 4,
        }
    }

    /// The block that `tag` stands for, if any.
    pub open spec fn spec_from_tag(tag: u32) -> Option<Block> {
        if tag == 0 {
            Some(Block::Air)
        } else if tag == 1 {
            Some(Block::Grass)
        } else if tag == 2 {
            Some(Block::Dirt)
        } else if tag == 3 {
            Some(Block::Metal)
        } else if tag == 4 {
            Some(Block::Glass)
        } else {
            None
        }
    }

    /// Whether this block fills its voxel: every block but air does.
    #[verifier::when_used_as_spec(spec_is_filled)]
    pub fn is_filled(&self) -> (filled: bool)
        ensures
            filled == self.spec_is_filled(),
    {
        !matches!(self, Block::Air)
    }

    /// Layer of the texture atlas shown on the face of this block that looks
    /// in `direction`.
    pub fn get_face_index(&self, direction: Direction) -> (index: u32)
        ensures
            index == self.spec_face_index(direction),
    {
        match self {
            Block::Air => 0,
            Block::Grass => match direction {
                Direction::Front | Direction::Back | Direction::Left | Direction::Right => 1,
                Direction::Top => 0,
                Direction::Bottom => 2,
            },
            Block::Dirt => 2,
            Block::Metal => match direction {
                Direction::Front | Direction::Back | Direction::Left | Direction::Right => 3,
                Direction::Top => 5,
                Direction::Bottom => 6,
            },
            Block::Glass => 4,
        }
    }

    /// Number that stands for this block in the binary encoding.
    pub fn tag(&self) -> (tag: u32)
        ensures
            tag == self.spec_tag(),
    {
        match self {
            Block::Air => 0,
            Block::Grass => 1,
            Block::Dirt => 2,
            Block::Metal => 3,
            Block::Glass => 4,
        }
    }

    /// The block that `tag` stands for, if any.
    pub fn from_tag(tag: u32) -> (block: Option<Block>)
        ensures
            block == Block::spec_from_tag(tag),
    {
        if tag == 0 {
            Some(Block::Air)
        } else if tag == 1 {
            Some(Block::Grass)
        } else if tag == 2 {
            Some(Block::Dirt)
        } else if tag == 3 {
            Some(Block::Metal)
        } else if tag == 4 {
            Some(Block::Glass)
        } else {
            None
        }
    }

    /// A tag is read back as the block it was written for, and nothing else
    /// is read as a block.
    pub proof fn lemma_tag_round_trip(block: Block, tag: u32)
        ensures
            Block::spec_from_tag(block.spec_tag()) == Some(block),
            Block::spec_from_tag(tag) matches Some(b) ==> b.spec_tag() == tag,
    {
    }
}

impl Default for Block {
    fn default() -> (block: Block)
        ensures
            block == Block::Air,
    {
        Block::Air
    }
}

} // verus!
