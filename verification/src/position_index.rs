//! The index from chunk positions to the ids of the chunks loaded there,
//! kept in the hash map of `bevy::utils`.

use vstd::prelude::*;
use crate::chunk::ChunkId;
use crate::position::IVec3;

verus! {

/// For each position at which a chunk is loaded the id of that chunk.
///
/// The entries are held in a `bevy::utils::HashMap`, which is not verified.
#[verifier::external_body]
pub struct PositionIndex {
    map: bevy::utils::HashMap<bevy::math::IVec3, ChunkId>,
}

/// What the index holds: the positions that have an entry, each with the id
/// that was last stored for it.
pub uninterp spec fn index_contents(index: PositionIndex) -> Map<IVec3, ChunkId>;

impl PositionIndex {
    /// Makes an empty map with `HashMap::default`.
    ///
    /// Not proved, but taken from the source of `hashbrown`: the new map
    /// holds no entry.
    #[verifier::external_body]
    pub(crate) fn new() -> (made: PositionIndex)
        ensures
            forall|pos: IVec3| !index_contents(made).dom().contains(pos),
    {
        PositionIndex { map: bevy::utils::HashMap::default() }
    }

    /// Calls `HashMap::insert` with the position as key and the id as value.
    ///
    /// Not proved, but taken from the documentation of `hashbrown`: the
    /// position has the new id afterwards and every other position keeps
    /// what it had; the id that the position had before is returned, or
    /// `None` where it had none.
    #[verifier::external_body]
    pub(crate) fn insert(&mut self, pos: IVec3, id: ChunkId) -> (before: Option<ChunkId>)
        ensures
            index_contents(*final(self)) == index_contents(*old(self)).insert(pos, id),
            before == if index_contents(*old(self)).dom().contains(pos) {
                Some(index_contents(*old(self))[pos])
            } else {
                None
            },
    {
        self.map.insert(bevy::math::IVec3::new(pos.x, pos.y, pos.z), id)
    }

    /// Calls `HashMap::get` with the position as key.
    ///
    /// Not proved, but taken from the documentation of `hashbrown`: the id
    /// that the position has is returned, or `None` where it has none.
    #[verifier::external_body]
    pub(crate) fn get(&self, pos: IVec3) -> (id: Option<ChunkId>)
        ensures
            id == if index_contents(*self).dom().contains(pos) {
                Some(index_contents(*self)[pos])
            } else {
                None
            },
    {
        self.map.get(&bevy::math::IVec3::new(pos.x, pos.y, pos.z)).copied()
    }
}

} // verus!
