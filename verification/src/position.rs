//! Integer positions, and how a position in the world splits into the chunk
//! that holds it and the place inside that chunk.

use vstd::prelude::*;
use crate::direction::Direction;

verus! {

/// Three signed coordinates: a voxel in the world, a chunk in the grid of
/// chunks, or a voxel inside a chunk.
#[derive(Clone, Copy, Debug, PartialEq, Eq, Structural, Hash)]
pub struct IVec3 {
    pub x: i32,
    pub y: i32,
    pub z: i32,
}

/// The chunk that holds coordinate `p` on one axis: `p / 16`, rounded down.
pub open spec fn chunk_coordinate(p: int) -> int {
    p / 16
}

/// The place of coordinate `p` inside its chunk: the remainder of `p / 16`,
/// which is never negative.
pub open spec fn offset_coordinate(p: int) -> int {
    p % 16
}

/// The coordinate that lies at `offset` inside chunk `chunk`.
pub open spec fn world_coordinate(chunk: int, offset: int) -> int {
    chunk * 16 + offset
}

impl IVec3 {
    /// The origin.
    pub fn zero() -> (v: IVec3)
        ensures
            v == (IVec3 { x: 0, y: 0, z: 0 }),
    {
        IVec3 { x: 0, y: 0, z: 0 }
    }

    /// The position with these coordinates.
    pub fn new(x: i32, y: i32, z: i32) -> (v: IVec3)
        ensures
            v == (IVec3 { x, y, z }),
    {
        IVec3 { x, y, z }
    }

    /// The three coordinates as mathematical integers.
    pub open spec fn ints(self) -> (int, int, int) {
        (self.x as int, self.y as int, self.z as int)
    }

    /// Whether all three coordinates lie inside a chunk.
    pub open spec fn spec_is_offset(self) -> bool {
        0 <= self.x < 16 && 0 <= self.y < 16 && 0 <= self.z < 16
    }

    /// Whether all three coordinates lie inside a chunk.
    pub fn is_offset(&self) -> (inside: bool)
        ensures
            inside == self.spec_is_offset(),
    {
        0 <= self.x && self.x < 16 && 0 <= self.y && self.y < 16 && 0 <= self.z && self.z < 16
    }

    /// The position one step away in `direction`, as integers.
    pub open spec fn spec_step(self, direction: Direction) -> (int, int, int) {
        let d = direction.spec_offset();
        (self.x + d.0, self.y + d.1, self.z + d.2)
    }

    /// The position one step away in `direction`; `None` where that position
    /// has a coordinate that no `i32` holds.
    pub fn step(&self, direction: Direction) -> (next: Option<IVec3>)
        ensures
            match next {
                Some(n) => n.ints() == self.spec_step(direction),
                None => {
                    let s = self.spec_step(direction);
                    !(i32::MIN <= s.0 <= i32::MAX && i32::MIN <= s.1 <= i32::MAX && i32::MIN
                        <= s.2 <= i32::MAX)
                },
            },
    {
        let d = direction.offset();
        match (self.x.checked_add(d.0), self.y.checked_add(d.1), self.z.checked_add(d.2)) {
            (Some(x), Some(y), Some(z)) => Some(IVec3 { x, y, z }),
            _ => None,
        }
    }

    /// The chunk that holds this world position.
    pub open spec fn spec_chunk_pos(self) -> IVec3 {
        IVec3 {
            x: chunk_coordinate(self.x as int) as i32,
            y: chunk_coordinate(self.y as int) as i32,
            z: chunk_coordinate(self.z as int) as i32,
        }
    }

    /// The place of this world position inside its chunk.
    pub open spec fn spec_chunk_offset(self) -> IVec3 {
        IVec3 {
            x: offset_coordinate(self.x as int) as i32,
            y: offset_coordinate(self.y as int) as i32,
            z: offset_coordinate(self.z as int) as i32,
        }
    }

    /// The world position at `offset` inside the chunk at `self`, as integers.
    pub open spec fn spec_world_pos(self, offset: IVec3) -> (int, int, int) {
        (
            world_coordinate(self.x as int, offset.x as int),
            world_coordinate(self.y as int, offset.y as int),
            world_coordinate(self.z as int, offset.z as int),
        )
    }
}

/// Splits one coordinate into the chunk that holds it and the place inside.
pub(crate) fn split_coordinate(p: i32) -> (r: (i32, i32))
    ensures
        r.0 == chunk_coordinate(p as int),
        r.1 == offset_coordinate(p as int),
        0 <= r.1 < 16,
        world_coordinate(r.0 as int, r.1 as int) == p,
{
    proof {
        vstd::arithmetic::div_mod::lemma_fundamental_div_mod(p as int, 16);
    }
    let chunk = match p.checked_div_euclid(16) {
        Some(c) => c,
        None => 0,
    };
    let offset = match p.checked_rem_euclid(16) {
        Some(o) => o,
        None => 0,
    };
    (chunk, offset)
}

/// Joins a chunk coordinate and an offset to a world coordinate.
pub(crate) fn join_coordinate(chunk: i32, offset: i32) -> (p: Option<i32>)
    ensures
        match p {
            Some(v) => v == world_coordinate(chunk as int, offset as int),
            None => !(i32::MIN <= world_coordinate(chunk as int, offset as int) <= i32::MAX),
        },
{
    let wide: i64 = (chunk as i64) * 16 + (offset as i64);
    if wide < (i32::MIN as i64) || wide > (i32::MAX as i64) {
        None
    } else {
        Some(wide as i32)
    }
}

/// Splitting a world position and joining the two parts again gives the
/// position back, for negative coordinates as for others; and a chunk
/// position with an offset inside the chunk is split into just these two.
pub proof fn lemma_world_chunk_round_trip(p: int, chunk: int, offset: int)
    ensures
        world_coordinate(chunk_coordinate(p), offset_coordinate(p)) == p,
        0 <= offset_coordinate(p) < 16,
        0 <= offset < 16 ==> chunk_coordinate(world_coordinate(chunk, offset)) == chunk
            && offset_coordinate(world_coordinate(chunk, offset)) == offset,
{
    vstd::arithmetic::div_mod::lemma_fundamental_div_mod(p, 16);
    if 0 <= offset < 16 {
        vstd::arithmetic::div_mod::lemma_fundamental_div_mod_converse(
            world_coordinate(chunk, offset),
            16,
            chunk,
            offset,
        );
    }
}

/// The same for positions: the chunk position and the offset of `pos` are
/// joined again to `pos`.
pub proof fn lemma_position_round_trip(pos: IVec3)
    ensures
        pos.spec_chunk_pos().spec_world_pos(pos.spec_chunk_offset()) == pos.ints(),
        pos.spec_chunk_offset().spec_is_offset(),
{
    lemma_world_chunk_round_trip(pos.x as int, 0, 0);
    lemma_world_chunk_round_trip(pos.y as int, 0, 0);
    lemma_world_chunk_round_trip(pos.z as int, 0, 0);
}

} // verus!
