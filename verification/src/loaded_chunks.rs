//! The table of loaded chunks. It owns every loaded chunk, finds a chunk by
//! its position, and keeps the links between chunks that lie side by side.

use vstd::prelude::*;
use crate::block::Block;
use crate::chunk::{Chunk, ChunkId, ChunkView, cube_index, inbounds};
use crate::direction::Direction;
use crate::position::IVec3;
use crate::position_index::{PositionIndex, index_contents};
use crate::world::{ChunkCompView, adjacent, answered, apply_writes, cleared_towards, connected};
use crate::world::{dirtied_if, fresh, is_beside, lemma_adjacent_unique, lemma_answered_same};
use crate::world::{lemma_apply_writes_same_links, lemma_connect, lemma_dirty_step, lemma_push};
use crate::world::{joined, lemma_queue_wf, lemma_replace, lemma_same_links_wf};
use crate::world::{lemma_spawn_joins, lemma_wire};
use crate::world::{lemma_writes_of_inside, linked, neighbor_cube, same_contents, spawned};
use crate::world::{spec_apply_buffered_writes, spec_block_beside, spec_connect};
use crate::world::{spec_dirty_neighbor, spec_get_block, spec_replace, spec_wire};
use crate::world::{spec_write_block, touched, with_chunk, with_queued, world_wf, writes_of};

verus! {

/// A write that waits to be applied: `to_write` goes to the voxel at `offset`.
#[derive(Clone, Copy, Debug, PartialEq, Eq, Structural)]
pub struct BufferedWrite {
    pub offset: IVec3,
    pub to_write: Block,
}

/// A loaded chunk together with the writes that wait for it.
pub struct ChunkComp {
    chunk: Chunk,
    buffered_writes: Vec<BufferedWrite>,
}

impl View for ChunkComp {
    type V = ChunkCompView;

    closed spec fn view(&self) -> ChunkCompView {
        ChunkCompView { chunk: self.chunk@, buffered_writes: self.buffered_writes@ }
    }
}

impl ChunkComp {
    /// Wraps `chunk`; no write waits yet.
    pub fn new(chunk: Chunk) -> (comp: ChunkComp)
        ensures
            comp@ == (ChunkCompView { chunk: chunk@, buffered_writes: Seq::empty() }),
            comp@.wf(),
    {
        proof {
            chunk.lemma_wf();
        }
        ChunkComp { chunk, buffered_writes: Vec::new() }
    }

    /// Queues the write of `block` to the voxel at `index`. The chunk itself
    /// stays as it is until the queue is applied.
    pub fn buffered_write(&mut self, index: IVec3, block: Block)
        requires
            index.spec_is_offset(),
            old(self)@.wf(),
        ensures
            final(self)@ == (ChunkCompView {
                buffered_writes: old(self)@.buffered_writes.push(
                    BufferedWrite { offset: index, to_write: block },
                ),
                ..old(self)@
            }),
            final(self)@.wf(),
    {
        self.buffered_writes.push(BufferedWrite { offset: index, to_write: block });
    }

    /// A copy of the voxel at `(x, y, z)`.
    pub fn read_block_xyz(&self, x: usize, y: usize, z: usize) -> (block: Block)
        requires
            x < 16,
            y < 16,
            z < 16,
        ensures
            block == self@.chunk.cube(x as int, y as int, z as int),
    {
        self.chunk.cube(x, y, z)
    }

    /// A copy of the voxel at `index`.
    pub fn read_block(&self, index: IVec3) -> (block: Block)
        requires
            index.spec_is_offset(),
        ensures
            block == self@.chunk.cube(index.x as int, index.y as int, index.z as int),
    {
        self.chunk.cube(index.x as usize, index.y as usize, index.z as usize)
    }

    /// Whether the chunk needs a new mesh.
    pub fn read_dirty(&self) -> (dirty: bool)
        ensures
            dirty == self@.chunk.dirty,
    {
        self.chunk.dirty()
    }

    /// The chunk, to read from.
    pub fn read_chunk(&self) -> (chunk: &Chunk)
        ensures
            chunk@ == self@.chunk,
    {
        &self.chunk
    }
}

/// The table of loaded chunks. A chunk is named by its `ChunkId`, which it
/// keeps for as long as its position stays loaded.
pub struct LoadedChunks {
    chunks: Vec<ChunkComp>,
    /// Where each chunk is found by its position.
    index: PositionIndex,
}

/// Whether `contents` holds, for each chunk of the table, the id of the
/// chunk under its position, and nothing else.
pub open spec fn indexes(contents: Map<IVec3, ChunkId>, world: Seq<ChunkCompView>) -> bool {
    &&& forall|i: int|
        0 <= i < world.len() ==> contents.dom().contains((#[trigger] world[i]).chunk.pos)
            && contents[world[i].chunk.pos] == i
    &&& forall|pos: IVec3| #[trigger]
        contents.dom().contains(pos) ==> contents[pos] < world.len() && world[contents[pos] as int].chunk.pos
            == pos
}

/// An index stays right when no chunk changes its position and none comes
/// or goes.
pub proof fn lemma_indexes_kept(
    contents: Map<IVec3, ChunkId>,
    before: Seq<ChunkCompView>,
    after: Seq<ChunkCompView>,
)
    requires
        indexes(contents, before),
        before.len() == after.len(),
        forall|i: int| 0 <= i < before.len() ==> (#[trigger] before[i]).chunk.pos == after[i].chunk.pos,
    ensures
        indexes(contents, after),
{
    assert forall|i: int| 0 <= i < after.len() implies contents.dom().contains(
        (#[trigger] after[i]).chunk.pos,
    ) && contents[after[i].chunk.pos] == i by {
        assert(before[i].chunk.pos == after[i].chunk.pos);
    }
    assert forall|pos: IVec3| #[trigger] contents.dom().contains(pos) implies contents[pos]
        < after.len() && after[contents[pos] as int].chunk.pos == pos by {
        assert(before[contents[pos] as int].chunk.pos == pos);
    }
}

impl View for LoadedChunks {
    type V = Seq<ChunkCompView>;

    closed spec fn view(&self) -> Seq<ChunkCompView> {
        Seq::new(self.chunks@.len(), |i: int| self.chunks@[i]@)
    }
}

impl Default for LoadedChunks {
    /// A table without chunks.
    fn default() -> (world: LoadedChunks)
        ensures
            world@.len() == 0,
            world.wf(),
    {
        LoadedChunks::new()
    }
}

impl LoadedChunks {
    /// Whether the index finds every chunk by its position.
    pub closed spec fn indexed(&self) -> bool {
        indexes(index_contents(self.index), self@)
    }

    /// What holds of every table: see `world_wf`; and the index is right.
    pub open spec fn wf(&self) -> bool {
        world_wf(self@) && self.indexed()
    }

    /// A table without chunks.
    pub fn new() -> (world: LoadedChunks)
        ensures
            world@.len() == 0,
            world.wf(),
    {
        let world = LoadedChunks { chunks: Vec::new(), index: PositionIndex::new() };
        assert(world.indexed());
        world
    }

    /// Number of loaded chunks. The ids in use are those below it.
    pub fn len(&self) -> (n: usize)
        ensures
            n == self@.len(),
    {
        self.chunks.len()
    }

    /// The chunk with this id.
    pub fn get(&self, id: ChunkId) -> (comp: &ChunkComp)
        requires
            id < self@.len(),
        ensures
            comp@ == self@[id as int],
    {
        &self.chunks[id]
    }

    /// The id of the chunk loaded at `pos`, if one is.
    pub fn lookup(&self, pos: IVec3) -> (found: Option<ChunkId>)
        requires
            self.indexed(),
        ensures
            match found {
                Some(id) => id < self@.len() && self@[id as int].chunk.pos == pos,
                None => forall|i: int| 0 <= i < self@.len() ==> (#[trigger] self@[i]).chunk.pos != pos,
            },
    {
        self.index.get(pos)
    }

    /// Registers `chunk` at its position and returns its id. Where a chunk is
    /// loaded at that position already, the new chunk takes its place and its
    /// id, the old one is handed back, and the chunks beside it lose their
    /// link to it. The new chunk has no links and no waiting writes: connect
    /// it with `wire_neighbors`.
    pub fn insert(&mut self, chunk: Chunk) -> (r: (ChunkId, Option<ChunkComp>))
        requires
            old(self).wf(),
        ensures
            final(self).wf(),
            r.0 < final(self)@.len(),
            r.0 < old(self)@.len() ==> {
                &&& old(self)@[r.0 as int].chunk.pos == chunk@.pos
                &&& final(self)@ == spec_replace(old(self)@, r.0 as int, chunk@)
                &&& r.1 matches Some(replaced)
                &&& replaced@ == old(self)@[r.0 as int]
            },
            r.0 >= old(self)@.len() ==> {
                &&& r.0 == old(self)@.len()
                &&& forall|k: int|
                    0 <= k < old(self)@.len() ==> (#[trigger] old(self)@[k]).chunk.pos != chunk@.pos
                &&& final(self)@ == old(self)@.push(fresh(chunk@))
                &&& r.1 is None
            },
    {
        let mut chunk = chunk;
        let ghost entering = chunk@;
        proof {
            chunk.lemma_wf();
        }
        chunk.detach();
        proof {
            chunk.lemma_wf();
        }
        match self.lookup(chunk.pos()) {
            None => {
                let id = self.chunks.len();
                let pos = chunk.pos();
                self.chunks.push(ChunkComp::new(chunk));
                self.index.insert(pos, id);
                let count = self.chunks.len();
                proof {
                    assert(count == old(self)@.len() + 1);
                    assert(self@ =~= old(self)@.push(fresh(entering)));
                    lemma_push(old(self)@, entering);
                    let before = index_contents(old(self).index);
                    let after = index_contents(self.index);
                    assert forall|i: int| 0 <= i < self@.len() implies after.dom().contains(
                        (#[trigger] self@[i]).chunk.pos,
                    ) && after[self@[i].chunk.pos] == i by {
                        if i < old(self)@.len() {
                            assert(old(self)@[i].chunk.pos != pos);
                        }
                    }
                    assert forall|at: IVec3| #[trigger] after.dom().contains(at) implies after[at]
                        < self@.len() && self@[after[at] as int].chunk.pos == at by {
                        if at != pos {
                            assert(before.dom().contains(at));
                        }
                    }
                }
                (id, None)
            },
            Some(id) => {
                self.unlink(id);
                let ghost unlinked = self@;
                self.chunks.push(ChunkComp::new(chunk));
                let replaced = self.chunks.swap_remove(id);
                proof {
                    let want = spec_replace(old(self)@, id as int, entering);
                    assert forall|m: int| 0 <= m < want.len() implies self@[m] == want[m] by {
                        if m != id {
                            assert(self@[m] == unlinked[m]);
                        }
                    }
                    assert(self@ =~= want);
                    lemma_replace(old(self)@, id as int, entering);
                    lemma_indexes_kept(index_contents(self.index), old(self)@, self@);
                }
                (id, Some(replaced))
            },
        }
    }

    /// Takes from the chunks beside chunk `id` their link to it.
    fn unlink(&mut self, id: ChunkId)
        requires
            old(self).wf(),
            id < old(self)@.len(),
        ensures
            final(self)@.len() == old(self)@.len(),
            final(self)@[id as int] == old(self)@[id as int],
            forall|m: int|
                0 <= m < old(self)@.len() && m != id ==> #[trigger] final(self)@[m] == with_chunk(
                    old(self)@[m],
                    old(self)@[m].chunk.without_links_to(id),
                ),
            index_contents(final(self).index) == index_contents(old(self).index),
    {
        proof {
            assert forall|m: int| 0 <= m < self@.len() implies #[trigger] self@[m] == with_chunk(
                self@[m],
                cleared_towards(self@[m].chunk, id, 0),
            ) by {
                assert(self@[m].wf());
                assert(cleared_towards(self@[m].chunk, id, 0).neighbors =~= self@[m].chunk.neighbors);
            }
        }
        let mut k: usize = 0;
        while k < 6
            invariant
                k <= 6,
                old(self).wf(),
                id < old(self)@.len(),
                self@.len() == old(self)@.len(),
                self@[id as int] == old(self)@[id as int],
                index_contents(self.index) == index_contents(old(self).index),
                forall|m: int|
                    0 <= m < old(self)@.len() && m != id ==> #[trigger] self@[m] == with_chunk(
                        old(self)@[m],
                        cleared_towards(old(self)@[m].chunk, id, k as int),
                    ),
            decreases 6 - k,
        {
            let direction = Direction::from_index(k);
            let ghost before = self@;
            proof {
                Direction::lemma_opposite_involution(direction);
                Direction::lemma_index_round_trip(direction, k as int);
            }
            match self.chunks[id].chunk.neighbor(direction) {
                Some(j) => {
                    assert(linked(old(self)@, id as int, direction, j as int));
                    proof {
                        lemma_adjacent_unique(old(self)@, id as int, direction, j as int, j as int);
                    }
                    self.chunks[j].chunk.set_neighbor(direction.opposite(), None);
                    proof {
                        assert forall|m: int| 0 <= m < old(self)@.len() && m != id implies
                            #[trigger] self@[m] == with_chunk(
                            old(self)@[m],
                            cleared_towards(old(self)@[m].chunk, id, k + 1),
                        ) by {
                            let was = old(self)@[m].chunk;
                            assert(old(self)@[m].wf());
                            assert(before[m] == with_chunk(
                                old(self)@[m],
                                cleared_towards(was, id, k as int),
                            ));
                            assert forall|e: int| 0 <= e < 6 implies cleared_towards(
                                was,
                                id,
                                k + 1,
                            ).neighbors[e] == self@[m].chunk.neighbors[e] by {
                                let toward = Direction::spec_from_index(e);
                                Direction::lemma_opposite_involution(toward);
                                Direction::lemma_index_round_trip(toward, e);
                                if was.neighbors[e] == Some(id) {
                                    assert(was.neighbor(toward) == Some(id));
                                    assert(linked(old(self)@, m, toward, id as int));
                                }
                            }
                            assert(cleared_towards(was, id, k + 1).neighbors =~= self@[m].chunk.neighbors);
                        }
                    }
                },
                None => {
                    proof {
                        assert forall|m: int| 0 <= m < old(self)@.len() && m != id implies
                            #[trigger] self@[m] == with_chunk(
                            old(self)@[m],
                            cleared_towards(old(self)@[m].chunk, id, k + 1),
                        ) by {
                            let was = old(self)@[m].chunk;
                            assert(old(self)@[m].wf());
                            assert forall|e: int| 0 <= e < 6 implies cleared_towards(
                                was,
                                id,
                                k + 1,
                            ).neighbors[e] == cleared_towards(was, id, k as int).neighbors[e] by {
                                let toward = Direction::spec_from_index(e);
                                Direction::lemma_opposite_involution(toward);
                                Direction::lemma_index_round_trip(toward, e);
                                if was.neighbors[e] == Some(id) {
                                    assert(was.neighbor(toward) == Some(id));
                                    assert(linked(old(self)@, m, toward, id as int));
                                }
                            }
                            assert(cleared_towards(was, id, k + 1).neighbors =~= cleared_towards(
                                was,
                                id,
                                k as int,
                            ).neighbors);
                        }
                    }
                },
            }
            k += 1;
        }
        proof {
            assert forall|m: int| 0 <= m < old(self)@.len() && m != id implies #[trigger] self@[m]
                == with_chunk(old(self)@[m], old(self)@[m].chunk.without_links_to(id)) by {
                let was = old(self)@[m].chunk;
                assert forall|e: int| 0 <= e < 6 implies cleared_towards(was, id, 6).neighbors[e]
                    == was.without_links_to(id).neighbors[e] by {
                    Direction::lemma_index_round_trip(
                        Direction::spec_from_index(e).spec_opposite(),
                        e,
                    );
                }
                assert(cleared_towards(was, id, 6).neighbors =~= was.without_links_to(id).neighbors);
            }
        }
    }

    /// Connects chunk `id` with the chunk that lies beside it in
    /// `direction`, if one is loaded there: each gets the link to the other,
    /// and the other one is marked dirty, since what it shows at that face
    /// may have changed.
    pub fn connect_neighbor(&mut self, id: ChunkId, direction: Direction)
        requires
            old(self).wf(),
            id < old(self)@.len(),
        ensures
            final(self).wf(),
            final(self)@ == spec_connect(old(self)@, id as int, direction),
    {
        proof {
            lemma_connect(self@, id as int, direction);
        }
        let pos = self.chunks[id].chunk.pos();
        let beside = match pos.step(direction) {
            Some(next) => self.lookup(next),
            None => None,
        };
        match beside {
            Some(j) => {
                proof {
                    assert(adjacent(old(self)@, id as int, direction, j as int));
                    let chosen = choose|j: int| adjacent(old(self)@, id as int, direction, j);
                    lemma_adjacent_unique(old(self)@, id as int, direction, j as int, chosen);
                }
                self.chunks[id].chunk.set_neighbor(direction, Some(j));
                self.chunks[j].chunk.set_neighbor(direction.opposite(), Some(id));
                self.chunks[j].chunk.set_dirty(true);
                assert(self@ =~= spec_connect(old(self)@, id as int, direction));
                proof {
                    lemma_indexes_kept(index_contents(self.index), old(self)@, self@);
                }
            },
            None => {
                assert forall|j: int| !adjacent(old(self)@, id as int, direction, j) by {
                    if adjacent(old(self)@, id as int, direction, j) {
                        assert(old(self)@[j].chunk.pos.ints() == pos.spec_step(direction));
                    }
                }
            },
        }
    }

    /// Connects chunk `id` with the chunks that lie beside it, in all six
    /// directions. Where a chunk is loaded beside it, each of the two names
    /// the other as its neighbor afterwards, and the other one is dirty.
    pub fn wire_neighbors(&mut self, id: ChunkId)
        requires
            old(self).wf(),
            id < old(self)@.len(),
        ensures
            final(self).wf(),
            final(self)@ == spec_wire(old(self)@, id as int),
            same_contents(old(self)@, final(self)@),
            forall|direction: Direction| connected(final(self)@, id as int, direction),
    {
        proof {
            lemma_wire(self@, id as int);
        }
        self.connect_neighbor(id, Direction::Top);
        self.connect_neighbor(id, Direction::Bottom);
        self.connect_neighbor(id, Direction::Front);
        self.connect_neighbor(id, Direction::Back);
        self.connect_neighbor(id, Direction::Left);
        self.connect_neighbor(id, Direction::Right);
    }

    /// Registers `chunk` and connects it with the chunks beside it: what is
    /// done for every chunk that was loaded or received. Returns the id of
    /// the chunk and, where it took the place of another, that one.
    /// Afterwards the chunk and each chunk that is loaded beside it name
    /// each other as neighbors, and every chunk that was linked so with all
    /// the chunks beside it still is.
    pub fn spawn(&mut self, chunk: Chunk) -> (r: (ChunkId, Option<ChunkComp>))
        requires
            old(self).wf(),
        ensures
            final(self).wf(),
            spawned(old(self)@, final(self)@, chunk@, r.0),
            final(self)@[r.0 as int].chunk.pos == chunk@.pos,
            final(self)@[r.0 as int].chunk.cubes == chunk@.cubes,
            final(self)@[r.0 as int].chunk.dirty == chunk@.dirty,
            forall|direction: Direction| connected(final(self)@, r.0 as int, direction),
            old(self)@.len() <= final(self)@.len(),
            joined(final(self)@, r.0 as int),
            forall|a: int|
                0 <= a < old(self)@.len() && joined(old(self)@, a) ==> #[trigger] joined(
                    final(self)@,
                    a,
                ),
            match r.1 {
                Some(replaced) => r.0 < old(self)@.len() && replaced@ == old(self)@[r.0 as int],
                None => r.0 == old(self)@.len(),
            },
    {
        proof {
            chunk.lemma_wf();
        }
        let (id, replaced) = self.insert(chunk);
        let ghost inserted = self@;
        self.wire_neighbors(id);
        proof {
            assert(inserted[id as int].chunk.pos == self@[id as int].chunk.pos);
            lemma_spawn_joins(old(self)@, self@, chunk@, id);
        }
        (id, replaced)
    }

    /// Marks the neighbor of chunk `id` in `direction` dirty, if the chunk
    /// has a neighbor there.
    pub fn dirty_neighbor(&mut self, id: ChunkId, direction: Direction)
        requires
            id < old(self)@.len(),
        ensures
            final(self)@ == spec_dirty_neighbor(old(self)@, id as int, direction),
            old(self).indexed() ==> final(self).indexed(),
    {
        match self.chunks[id].chunk.neighbor(direction) {
            Some(j) => {
                if j < self.chunks.len() {
                    if !self.chunks[j].chunk.dirty() {
                        self.chunks[j].chunk.set_dirty(true);
                    }
                    assert(self@ =~= spec_dirty_neighbor(old(self)@, id as int, direction));
                }
            },
            None => {},
        }
        proof {
            if old(self).indexed() {
                lemma_indexes_kept(index_contents(self.index), old(self)@, self@);
            }
        }
    }

    /// Marks the neighbor of chunk `id` in `direction` dirty where `wanted`
    /// holds. `base` is the table before any neighbor was marked, and
    /// `marked` says which chunks have been marked since.
    fn dirty_neighbor_if(
        &mut self,
        id: ChunkId,
        direction: Direction,
        wanted: bool,
        Ghost(base): Ghost<Seq<ChunkCompView>>,
        Ghost(marked): Ghost<spec_fn(int) -> bool>,
    )
        requires
            old(self)@.len() == base.len(),
            id < base.len(),
            base[id as int].chunk.dirty,
            forall|k: int|
                0 <= k < base.len() ==> #[trigger] old(self)@[k] == dirtied_if(base[k], marked(k)),
        ensures
            final(self)@.len() == base.len(),
            forall|k: int|
                0 <= k < base.len() ==> #[trigger] final(self)@[k] == dirtied_if(
                    base[k],
                    marked(k) || (wanted && base[id as int].chunk.neighbor(direction) == Some(
                        k as ChunkId,
                    )),
                ),
            old(self).indexed() ==> final(self).indexed(),
    {
        let count = self.chunks.len();
        proof {
            assert(base.len() == count);
            lemma_dirty_step(base, base[id as int].chunk, marked, self@, id as int, direction, wanted);
        }
        if wanted {
            self.dirty_neighbor(id, direction);
        }
    }

    /// Writes `block` to the voxel `(x, y, z)` of chunk `id`, marks the chunk
    /// dirty, and marks dirty each neighbor at a face that the voxel lies
    /// on: what that neighbor shows at the face may have changed.
    pub fn write_block_xyz(&mut self, id: ChunkId, x: usize, y: usize, z: usize, block: Block)
        requires
            id < old(self)@.len(),
            x < 16,
            y < 16,
            z < 16,
        ensures
            final(self)@ == spec_write_block(
                old(self)@,
                id as int,
                x as int,
                y as int,
                z as int,
                block,
            ),
            old(self).indexed() ==> final(self).indexed(),
            old(self).wf() ==> final(self).wf(),
    {
        self.chunks[id].chunk.set_cube(x, y, z, block);
        if !self.chunks[id].chunk.dirty() {
            self.chunks[id].chunk.set_dirty(true);
        }
        let ghost written = self@;
        let ghost me = self@[id as int].chunk;
        let ghost (xi, yi, zi) = (x as int, y as int, z as int);
        proof {
            assert(written =~= old(self)@.update(
                id as int,
                with_chunk(
                    old(self)@[id as int],
                    old(self)@[id as int].chunk.with_cube(xi, yi, zi, block).with_dirty(true),
                ),
            ));
            assert forall|k: int| 0 <= k < written.len() implies #[trigger] written[k]
                == dirtied_if(written[k], false) by {}
            if old(self).indexed() {
                lemma_indexes_kept(index_contents(self.index), old(self)@, written);
            }
        }
        let ghost c0 = |k: int| false;
        let ghost c1 = |k: int| c0(k) || (xi == 15 && me.neighbor(Direction::Front) == Some(k as ChunkId));
        let ghost c2 = |k: int| c1(k) || (xi == 0 && me.neighbor(Direction::Back) == Some(k as ChunkId));
        let ghost c3 = |k: int| c2(k) || (yi == 15 && me.neighbor(Direction::Top) == Some(k as ChunkId));
        let ghost c4 = |k: int| c3(k) || (yi == 0 && me.neighbor(Direction::Bottom) == Some(k as ChunkId));
        let ghost c5 = |k: int| c4(k) || (zi == 15 && me.neighbor(Direction::Left) == Some(k as ChunkId));
        let ghost c6 = |k: int| c5(k) || (zi == 0 && me.neighbor(Direction::Right) == Some(k as ChunkId));
        self.dirty_neighbor_if(id, Direction::Front, x == 15, Ghost(written), Ghost(c0));
        self.dirty_neighbor_if(id, Direction::Back, x == 0, Ghost(written), Ghost(c1));
        self.dirty_neighbor_if(id, Direction::Top, y == 15, Ghost(written), Ghost(c2));
        self.dirty_neighbor_if(id, Direction::Bottom, y == 0, Ghost(written), Ghost(c3));
        self.dirty_neighbor_if(id, Direction::Left, z == 15, Ghost(written), Ghost(c4));
        self.dirty_neighbor_if(id, Direction::Right, z == 0, Ghost(written), Ghost(c5));
        proof {
            let want = spec_write_block(old(self)@, id as int, xi, yi, zi, block);
            assert(me.neighbors == old(self)@[id as int].chunk.neighbors);
            assert forall|k: int| 0 <= k < want.len() implies self@[k] == want[k] by {
                assert(self@[k] == dirtied_if(written[k], c6(k)));
                assert(c6(k) == touched(old(self)@[id as int].chunk, xi, yi, zi, k as ChunkId));
            }
            assert(self@ =~= want);
            if old(self).wf() {
                assert(old(self)@[id as int].wf());
                lemma_same_links_wf(old(self)@, self@);
            }
        }
    }

    /// Writes `block` to the voxel at `index` of chunk `id`; see
    /// `write_block_xyz`.
    pub fn write_block(&mut self, id: ChunkId, index: IVec3, block: Block)
        requires
            id < old(self)@.len(),
            index.spec_is_offset(),
        ensures
            final(self)@ == spec_write_block(
                old(self)@,
                id as int,
                index.x as int,
                index.y as int,
                index.z as int,
                block,
            ),
            old(self).indexed() ==> final(self).indexed(),
            old(self).wf() ==> final(self).wf(),
    {
        self.write_block_xyz(id, index.x as usize, index.y as usize, index.z as usize, block);
    }

    /// Queues the write of `block` to the voxel at `index` of chunk `id`;
    /// the chunk stays as it is until `apply_buffered_writes`.
    pub fn buffered_write(&mut self, id: ChunkId, index: IVec3, block: Block)
        requires
            old(self).wf(),
            id < old(self)@.len(),
            index.spec_is_offset(),
        ensures
            final(self).wf(),
            final(self)@ == old(self)@.update(
                id as int,
                ChunkCompView {
                    buffered_writes: old(self)@[id as int].buffered_writes.push(
                        BufferedWrite { offset: index, to_write: block },
                    ),
                    ..old(self)@[id as int]
                },
            ),
    {
        assert(self@[id as int].wf());
        self.chunks[id].buffered_write(index, block);
        proof {
            let want = old(self)@.update(
                id as int,
                ChunkCompView {
                    buffered_writes: old(self)@[id as int].buffered_writes.push(
                        BufferedWrite { offset: index, to_write: block },
                    ),
                    ..old(self)@[id as int]
                },
            );
            assert(self@ =~= want);
            lemma_queue_wf(old(self)@, self@, id as int);
            lemma_indexes_kept(index_contents(self.index), old(self)@, self@);
        }
    }

    /// Applies the waiting writes of chunk `id`, oldest first, each as
    /// `write_block` does, and empties the queue. Of two writes to the same
    /// voxel the later one stays.
    pub fn apply_buffered_writes(&mut self, id: ChunkId)
        requires
            old(self).wf(),
            id < old(self)@.len(),
        ensures
            final(self).wf(),
            final(self)@ == spec_apply_buffered_writes(old(self)@, id as int),
    {
        let ghost writes = self@[id as int].buffered_writes;
        assert(self@[id as int].wf());
        let count = self.chunks[id].buffered_writes.len();
        let mut i: usize = 0;
        while i < count
            invariant
                i <= count,
                count == writes.len(),
                id < old(self)@.len(),
                old(self)@[id as int].wf(),
                self.indexed(),
                writes == old(self)@[id as int].buffered_writes,
                self@ == apply_writes(old(self)@, id as int, writes.take(i as int)),
                self@.len() == old(self)@.len(),
                self@[id as int].buffered_writes == writes,
            decreases count - i,
        {
            let write = self.chunks[id].buffered_writes[i];
            proof {
                assert(writes[i as int].offset.spec_is_offset());
                assert(writes.take(i + 1).drop_last() =~= writes.take(i as int));
                lemma_apply_writes_same_links(old(self)@, id as int, writes.take(i + 1));
            }
            self.write_block(id, write.offset, write.to_write);
            i += 1;
        }
        let ghost applied_world = self@;
        self.chunks[id].buffered_writes.clear();
        proof {
            lemma_indexes_kept(index_contents(self.index), applied_world, self@);
            assert(writes.take(count as int) =~= writes);
            let applied = apply_writes(old(self)@, id as int, writes);
            let want = spec_apply_buffered_writes(old(self)@, id as int);
            assert(self@ =~= want);
            lemma_apply_writes_same_links(old(self)@, id as int, writes);
            lemma_same_links_wf(old(self)@, applied);
            lemma_queue_wf(applied, self@, id as int);
        }
    }

    /// Asks `function` about the voxel at place `i` of chunk `id`.
    fn ask<F>(&self, id: ChunkId, i: usize, function: &F) -> (answer: Option<Block>) where
        F: Fn(&Block, [Option<Block>; 6]) -> Option<Block>,

        requires
            id < self@.len(),
            i < 4096,
            forall|block: Block, beside: [Option<Block>; 6]| call_requires(*function, (&block, beside)),
        ensures
            answered(*function, self@[id as int].chunk, self@, i as int, answer),
    {
        let x = i / 256;
        let y = i / 16 % 16;
        let z = i % 16;
        let block = self.chunks[id].chunk.cube(x, y, z);
        let beside = self.chunks[id].chunk.get_block_neighbors(x, y, z, self);
        let answer = function(&block, beside);
        proof {
            assert(cube_index(x as int, y as int, z as int) == i);
            assert(is_beside(beside@, self@[id as int].chunk, self@, i as int));
        }
        answer
    }

    /// Asks `function` about every voxel of chunk `id`, in the order of the
    /// voxels: it gets the voxel and the six voxels beside it, those of
    /// neighbor chunks included, and where it answers with a block, the write
    /// of that block to the voxel is queued. No voxel changes before
    /// `apply_buffered_writes`, so every answer is about the chunk as it was.
    /// The function is one whose answers depend on what it is asked alone:
    /// it keeps no state from one voxel to the next.
    pub fn apply_function_to_blocks<F>(&mut self, id: ChunkId, function: F) where
        F: Fn(&Block, [Option<Block>; 6]) -> Option<Block>,

        requires
            old(self).wf(),
            id < old(self)@.len(),
            forall|block: Block, beside: [Option<Block>; 6]| call_requires(function, (&block, beside)),
        ensures
            final(self).wf(),
            exists|results: Seq<Option<Block>>|
                {
                    &&& results.len() == 4096
                    &&& forall|i: int|
                        0 <= i < 4096 ==> answered(
                            function,
                            old(self)@[id as int].chunk,
                            old(self)@,
                            i,
                            #[trigger] results[i],
                        )
                    &&& final(self)@ == with_queued(old(self)@, id as int, writes_of(results))
                },
    {
        let ghost mut results: Seq<Option<Block>> = Seq::empty();
        let ghost start = self@[id as int];
        proof {
            assert(start.wf());
            assert(start.buffered_writes + writes_of(results) =~= start.buffered_writes);
            assert(self@ =~= with_queued(old(self)@, id as int, writes_of(results)));
        }
        let mut i: usize = 0;
        while i < 4096
            invariant
                i <= 4096,
                old(self).wf(),
                self.wf(),
                id < old(self)@.len(),
                start == old(self)@[id as int],
                forall|block: Block, beside: [Option<Block>; 6]|
                    call_requires(function, (&block, beside)),
                results.len() == i,
                forall|k: int|
                    0 <= k < i ==> answered(function, start.chunk, old(self)@, k, #[trigger] results[k]),
                self@ == with_queued(old(self)@, id as int, writes_of(results)),
            decreases 4096 - i,
        {
            let answer = self.ask(id, i, &function);
            let ghost before = results;
            proof {
                results = results.push(answer);
                assert(results.drop_last() =~= before);
                lemma_writes_of_inside(results);
                lemma_answered_same(function, start.chunk, self@, old(self)@, i as int, answer);
            }
            match answer {
                Some(new_block) => {
                    self.buffered_write(
                        id,
                        IVec3 { x: (i / 256) as i32, y: (i / 16 % 16) as i32, z: (i % 16) as i32 },
                        new_block,
                    );
                    assert(self@ =~= with_queued(old(self)@, id as int, writes_of(results)));
                },
                None => {},
            }
            i += 1;
        }
    }

    /// Sets or clears the dirty flag of chunk `id`.
    pub fn write_dirty(&mut self, id: ChunkId, value: bool)
        requires
            id < old(self)@.len(),
        ensures
            final(self)@ == old(self)@.update(
                id as int,
                ChunkCompView {
                    chunk: ChunkView { dirty: value, ..old(self)@[id as int].chunk },
                    ..old(self)@[id as int]
                },
            ),
            old(self).wf() ==> final(self).wf(),
    {
        self.chunks[id].chunk.set_dirty(value);
        assert(self@ =~= old(self)@.update(
            id as int,
            ChunkCompView {
                chunk: ChunkView { dirty: value, ..old(self)@[id as int].chunk },
                ..old(self)@[id as int]
            },
        ));
        proof {
            if old(self).wf() {
                lemma_indexes_kept(index_contents(self.index), old(self)@, self@);
                lemma_same_links_wf(old(self)@, self@);
            }
        }
    }
}

impl Chunk {
    /// Whether `index` is a coordinate inside a chunk.
    pub fn index_inbounds(index: isize) -> (inside: bool)
        ensures
            inside == inbounds(index as int),
    {
        index >= 0 && index < 16
    }

    /// The voxel at `(x, y, z)` of the neighbor in `direction`, if a chunk is
    /// loaded there.
    fn neighbor_block(
        &self,
        world: &LoadedChunks,
        direction: Direction,
        x: usize,
        y: usize,
        z: usize,
    ) -> (block: Option<Block>)
        requires
            x < 16,
            y < 16,
            z < 16,
        ensures
            block == neighbor_cube(self@, world@, direction, x as int, y as int, z as int),
    {
        match self.neighbor(direction) {
            Some(j) => {
                if j < world.chunks.len() {
                    Some(world.chunks[j].chunk.cube(x, y, z))
                } else {
                    None
                }
            },
            None => None,
        }
    }

    /// The voxel at `(x, y, z)` as seen from this chunk, whose neighbors are
    /// looked up in `world`. Inside the chunk it is the chunk's own voxel. A
    /// coordinate below 0 or above 15 leads into the neighbor on that side,
    /// to the voxel of its layer that touches this chunk, and to `None`
    /// where no neighbor is loaded there. At most one of the three
    /// coordinates may lie outside the chunk.
    pub fn get_block(&self, x: isize, y: isize, z: isize, world: &LoadedChunks) -> (block: Option<
        Block,
    >)
        requires
            (inbounds(x as int) && inbounds(y as int)) || (inbounds(x as int) && inbounds(z as int))
                || (inbounds(y as int) && inbounds(z as int)),
        ensures
            block == spec_get_block(self@, world@, x as int, y as int, z as int),
    {
        if Self::index_inbounds(x) && Self::index_inbounds(y) && Self::index_inbounds(z) {
            Some(self.cube(x as usize, y as usize, z as usize))
        } else if x < 0 {
            self.neighbor_block(world, Direction::Back, 15, y as usize, z as usize)
        } else if x >= 16 {
            self.neighbor_block(world, Direction::Front, 0, y as usize, z as usize)
        } else if z < 0 {
            self.neighbor_block(world, Direction::Right, x as usize, y as usize, 15)
        } else if z >= 16 {
            self.neighbor_block(world, Direction::Left, x as usize, y as usize, 0)
        } else if y < 0 {
            self.neighbor_block(world, Direction::Bottom, x as usize, 15, z as usize)
        } else {
            self.neighbor_block(world, Direction::Top, x as usize, 0, z as usize)
        }
    }

    /// The six voxels beside `(x, y, z)`, by `Direction::index`: front,
    /// back, left, right, top, bottom; each as `get_block` sees it.
    pub fn get_block_neighbors(&self, x: usize, y: usize, z: usize, world: &LoadedChunks) -> (beside:
        [Option<Block>; 6])
        requires
            x < 16,
            y < 16,
            z < 16,
        ensures
            forall|direction: Direction| #[trigger]
                beside@[direction.spec_index()] == spec_block_beside(
                    self@,
                    world@,
                    x as int,
                    y as int,
                    z as int,
                    direction,
                ),
    {
        let (x, y, z) = (x as isize, y as isize, z as isize);
        let front = self.get_block(x + 1, y, z, world);
        let back = self.get_block(x - 1, y, z, world);
        let left = self.get_block(x, y, z + 1, world);
        let right = self.get_block(x, y, z - 1, world);
        let top = self.get_block(x, y + 1, z, world);
        let bottom = self.get_block(x, y - 1, z, world);
        [front, back, left, right, top, bottom]
    }
}

} // verus!
