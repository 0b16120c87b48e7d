//! What happens to the voxels of loaded chunks over time.

use vstd::prelude::*;
use crate::block::Block;
use crate::chunk::{ChunkId, ChunkView};
use crate::chunk_mesh_generation::lemma_mesh_depends_on_voxels;
use crate::chunk_mesh_generation::{MeshDescription, create_chunk_mesh, spec_mesh};
use crate::direction::Direction;
use crate::loaded_chunks::LoadedChunks;
use crate::world::{ChunkCompView, answered, is_beside, lemma_same_cubes_same_view};
use crate::world::{lemma_same_links_wf, same_links, spec_apply_buffered_writes};
use crate::world::{spec_block_beside, spec_write_block, with_chunk, with_queued, writes_of};

verus! {

/// What becomes of `block` when `top` lies on it: grass under anything but
/// air turns to dirt, and nothing else changes.
pub open spec fn spec_update_dirt(block: Block, top: Option<Block>) -> Option<Block> {
    match top {
        Some(above) => if block == Block::Grass && above != Block::Air {
            Some(Block::Dirt)
        } else {
            None
        },
        None => None,
    }
}

/// Decides what becomes of `block`, whose six neighbors are `neighbors`, by
/// `Direction::index`. Grass with a block on top of it, air excepted, turns
/// to dirt; `None` says that the block stays as it is.
pub fn update_dirt(block: &Block, neighbors: [Option<Block>; 6]) -> (change: Option<Block>)
    ensures
        change == spec_update_dirt(*block, neighbors@[Direction::Top.spec_index()]),
{
    if matches!(block, Block::Grass) {
        if let Some(top) = neighbors[Direction::Top.index()] {
            if !matches!(top, Block::Air) {
                return Some(Block::Dirt);
            }
        }
    }
    None
}

/// The most chunks that one pass gives a new mesh: one more than
/// `MAX_CHUNK_UPDATES_PER_FRAME`.
pub const MAX_REMESHED_PER_PASS: usize = crate::MAX_CHUNK_UPDATES_PER_FRAME + 1;

/// The ids below `n` of the chunks that are dirty, in rising order.
pub open spec fn dirty_ids(world: Seq<ChunkCompView>, n: int) -> Seq<ChunkId>
    decreases n,
{
    if n <= 0 {
        Seq::empty()
    } else {
        let rest = dirty_ids(world, n - 1);
        if world[n - 1].chunk.dirty {
            rest.push((n - 1) as ChunkId)
        } else {
            rest
        }
    }
}

/// Whether a pass gives chunk `k` a new mesh: it is dirty, and fewer than
/// `MAX_REMESHED_PER_PASS` dirty chunks come before it.
pub open spec fn remeshed(world: Seq<ChunkCompView>, k: int) -> bool {
    world[k].chunk.dirty && dirty_ids(world, k).len() < 31
}

/// The table after a pass: the chunks that got a new mesh are clean, and
/// nothing else has changed.
pub open spec fn spec_update_dirty_chunks(world: Seq<ChunkCompView>) -> Seq<ChunkCompView> {
    Seq::new(
        world.len(),
        |k: int|
            if remeshed(world, k) {
                with_chunk(world[k], world[k].chunk.with_dirty(false))
            } else {
                world[k]
            },
    )
}

/// There are no more dirty ids below `n` than ids, each is below `n`, and
/// each names a dirty chunk.
pub proof fn lemma_dirty_ids(world: Seq<ChunkCompView>, n: int)
    requires
        0 <= n <= world.len() <= usize::MAX,
    ensures
        dirty_ids(world, n).len() <= n,
        forall|i: int|
            0 <= i < dirty_ids(world, n).len() ==> (#[trigger] dirty_ids(world, n)[i]) < n
                && world[dirty_ids(world, n)[i] as int].chunk.dirty,
    decreases n,
{
    if n > 0 {
        lemma_dirty_ids(world, n - 1);
    }
}

/// The dirty ids below `n` start with the dirty ids below `m`, for `m <= n`.
pub proof fn lemma_dirty_ids_prefix(world: Seq<ChunkCompView>, m: int, n: int)
    requires
        0 <= m <= n,
    ensures
        dirty_ids(world, m).len() <= dirty_ids(world, n).len(),
        dirty_ids(world, n).take(dirty_ids(world, m).len() as int) == dirty_ids(world, m),
    decreases n - m,
{
    if m < n {
        lemma_dirty_ids_prefix(world, m, n - 1);
        let shorter = dirty_ids(world, n - 1);
        let longer = dirty_ids(world, n);
        let count = dirty_ids(world, m).len() as int;
        assert(longer.take(count) =~= shorter.take(count));
    } else {
        assert(dirty_ids(world, n).take(dirty_ids(world, n).len() as int) =~= dirty_ids(world, n));
    }
}

/// Gives every dirty chunk a new mesh and marks it clean, in the order of
/// the ids, until `MAX_REMESHED_PER_PASS` chunks are done: the chunks that
/// are left stay dirty for the next pass. Returns the new meshes with the
/// ids of their chunks, in that order.
///
/// After a pass over a table with no more than `MAX_REMESHED_PER_PASS` dirty
/// chunks no chunk is dirty.
pub fn update_dirty_chunks(world: &mut LoadedChunks) -> (meshes: Vec<(ChunkId, MeshDescription)>)
    requires
        old(world).wf(),
    ensures
        final(world).wf(),
        final(world)@ == spec_update_dirty_chunks(old(world)@),
        meshes@.len() == if dirty_ids(old(world)@, old(world)@.len() as int).len() < 31 {
            dirty_ids(old(world)@, old(world)@.len() as int).len()
        } else {
            31
        },
        forall|i: int|
            0 <= i < meshes@.len() ==> {
                &&& (#[trigger] meshes@[i]).0 == dirty_ids(old(world)@, old(world)@.len() as int)[i]
                &&& meshes@[i].1@ == spec_mesh(old(world)@[meshes@[i].0 as int].chunk, old(world)@)
            },
        dirty_ids(old(world)@, old(world)@.len() as int).len() <= 31 ==> forall|k: int|
            0 <= k < final(world)@.len() ==> !(#[trigger] final(world)@[k]).chunk.dirty,
{
    let mut meshes: Vec<(ChunkId, MeshDescription)> = Vec::new();
    let count = world.len();
    let mut id: usize = 0;
    while id < count && meshes.len() < MAX_REMESHED_PER_PASS
        invariant
            id <= count,
            count == old(world)@.len(),
            old(world).wf(),
            world.wf(),
            world@.len() == count,
            meshes@.len() <= 31,
            meshes@.len() == dirty_ids(old(world)@, id as int).len(),
            forall|k: int|
                0 <= k < count ==> #[trigger] world@[k] == if k < id && remeshed(old(world)@, k) {
                    with_chunk(old(world)@[k], old(world)@[k].chunk.with_dirty(false))
                } else {
                    old(world)@[k]
                },
            forall|i: int|
                0 <= i < meshes@.len() ==> {
                    &&& (#[trigger] meshes@[i]).0 == dirty_ids(old(world)@, id as int)[i]
                    &&& meshes@[i].1@ == spec_mesh(
                        old(world)@[meshes@[i].0 as int].chunk,
                        old(world)@,
                    )
                },
        decreases count - id,
    {
        let ghost before = world@;
        let ghost found = dirty_ids(old(world)@, id as int);
        proof {
            lemma_dirty_ids(old(world)@, id as int);
            lemma_dirty_ids(old(world)@, id + 1);
        }
        if world.get(id).read_dirty() {
            let mesh = create_chunk_mesh(world.get(id).read_chunk(), &*world);
            proof {
                lemma_mesh_depends_on_voxels(
                    before[id as int].chunk,
                    old(world)@[id as int].chunk,
                    before,
                    old(world)@,
                );
            }
            world.write_dirty(id, false);
            meshes.push((id, mesh));
            proof {
                assert(dirty_ids(old(world)@, id + 1) == found.push(id));
            }
        }
        id += 1;
    }
    proof {
        let all = dirty_ids(old(world)@, count as int);
        let want = spec_update_dirty_chunks(old(world)@);
        lemma_dirty_ids_prefix(old(world)@, id as int, count as int);
        lemma_dirty_ids(old(world)@, count as int);
        assert forall|k: int| 0 <= k < count implies world@[k] == want[k] by {
            if k >= id {
                lemma_dirty_ids_prefix(old(world)@, id as int, k);
            }
        }
        assert(world@ =~= want);
        assert forall|i: int| 0 <= i < meshes@.len() implies (#[trigger] meshes@[i]).0 == all[i] by {
            assert(all.take(meshes@.len() as int)[i] == all[i]);
        }
        if id < count {
            assert(meshes@.len() == 31);
        }
        assert(same_links(old(world)@, world@)) by {
            assert forall|k: int| 0 <= k < count implies {
                &&& (#[trigger] old(world)@[k]).chunk.pos == world@[k].chunk.pos
                &&& old(world)@[k].chunk.neighbors == world@[k].chunk.neighbors
                &&& old(world)@[k].chunk.cubes.len() == world@[k].chunk.cubes.len()
                &&& old(world)@[k].buffered_writes == world@[k].buffered_writes
            } by {
                assert(world@[k] == want[k]);
            }
        }
        lemma_same_links_wf(old(world)@, world@);
        if all.len() <= 31 {
            assert forall|k: int| 0 <= k < count implies !(#[trigger] world@[k]).chunk.dirty by {
                lemma_dirty_ids_prefix(old(world)@, k + 1, count as int);
                assert(world@[k] == want[k]);
            }
        }
    }
    meshes
}

/// A write to a voxel leaves its chunk dirty, and a pass over a table with
/// no more than `MAX_REMESHED_PER_PASS` dirty chunks leaves it clean again.
pub proof fn lemma_write_then_remesh(
    world: Seq<ChunkCompView>,
    id: int,
    x: int,
    y: int,
    z: int,
    block: Block,
)
    requires
        0 <= id < world.len(),
        dirty_ids(
            spec_write_block(world, id, x, y, z, block),
            world.len() as int,
        ).len() <= 31,
    ensures
        spec_write_block(world, id, x, y, z, block)[id].chunk.dirty,
        !spec_update_dirty_chunks(spec_write_block(world, id, x, y, z, block))[id].chunk.dirty,
{
    let written = spec_write_block(world, id, x, y, z, block);
    lemma_dirty_ids_prefix(written, id + 1, world.len() as int);
}

/// A write to a voxel at a face of chunk `a` marks the neighbor `b` of `a`
/// at that face dirty, and changes nothing else of `b`: no voxel, no link,
/// no waiting write.
pub proof fn lemma_boundary_write(
    world: Seq<ChunkCompView>,
    a: int,
    b: int,
    direction: Direction,
    x: int,
    y: int,
    z: int,
    block: Block,
)
    requires
        0 <= a < world.len(),
        0 <= b < world.len() <= usize::MAX,
        a != b,
        world[a].chunk.neighbor(direction) == Some(b as ChunkId),
        match direction {
            Direction::Front => x == 15,
            Direction::Back => x == 0,
            Direction::Top => y == 15,
            Direction::Bottom => y == 0,
            Direction::Left => z == 15,
            Direction::Right => z == 0,
        },
    ensures
        spec_write_block(world, a, x, y, z, block)[b] == with_chunk(
            world[b],
            world[b].chunk.with_dirty(true),
        ),
        spec_write_block(world, a, x, y, z, block)[b].chunk.dirty,
        spec_write_block(world, a, x, y, z, block)[b].chunk.cubes == world[b].chunk.cubes,
{
}

/// The table after the waiting writes of the first `n` chunks were applied,
/// chunk by chunk.
pub open spec fn spec_apply_buffered_chunk_writes(world: Seq<ChunkCompView>, n: int) -> Seq<
    ChunkCompView,
>
    decreases n,
{
    if n <= 0 {
        world
    } else {
        spec_apply_buffered_writes(spec_apply_buffered_chunk_writes(world, n - 1), n - 1)
    }
}

/// Applies the waiting writes of every chunk, in the order of the ids.
pub fn apply_buffered_chunk_writes(world: &mut LoadedChunks)
    requires
        old(world).wf(),
    ensures
        final(world).wf(),
        final(world)@ == spec_apply_buffered_chunk_writes(old(world)@, old(world)@.len() as int),
{
    let count = world.len();
    let mut id: usize = 0;
    while id < count
        invariant
            id <= count,
            world.wf(),
            world@.len() == count,
            world@ == spec_apply_buffered_chunk_writes(old(world)@, id as int),
        decreases count - id,
    {
        world.apply_buffered_writes(id);
        proof {
            crate::world::lemma_apply_buffered_writes_len(
                spec_apply_buffered_chunk_writes(old(world)@, id as int),
                id as int,
            );
        }
        id += 1;
    }
    assert(count == old(world)@.len()) by {
        assert(spec_apply_buffered_chunk_writes(old(world)@, 0) == old(world)@);
    }
}

/// What `update_dirt` decides for each voxel of `chunk`, in the order of the
/// voxels.
pub open spec fn dirt_results(chunk: ChunkView, world: Seq<ChunkCompView>) -> Seq<Option<Block>> {
    Seq::new(
        4096,
        |i: int|
            spec_update_dirt(
                chunk.cubes[i],
                spec_block_beside(chunk, world, i / 256, i / 16 % 16, i % 16, Direction::Top),
            ),
    )
}

/// The table after `update_dirt` was asked about every voxel of every
/// chunk: each chunk has the writes that came of it at the end of its queue.
pub open spec fn spec_update_dirt_sys(world: Seq<ChunkCompView>) -> Seq<ChunkCompView> {
    Seq::new(
        world.len(),
        |k: int|
            ChunkCompView {
                buffered_writes: world[k].buffered_writes + writes_of(
                    dirt_results(world[k].chunk, world),
                ),
                ..world[k]
            },
    )
}

/// Queues, for every chunk, the writes that turn grass under a block to
/// dirt; see `update_dirt`. No voxel changes before the queues are applied.
pub fn update_dirt_sys(world: &mut LoadedChunks)
    requires
        old(world).wf(),
    ensures
        final(world).wf(),
        final(world)@ == spec_update_dirt_sys(old(world)@),
{
    let count = world.len();
    let mut id: usize = 0;
    while id < count
        invariant
            id <= count,
            count == old(world)@.len(),
            world.wf(),
            world@.len() == count,
            forall|k: int|
                0 <= k < count ==> #[trigger] world@[k] == if k < id {
                    spec_update_dirt_sys(old(world)@)[k]
                } else {
                    old(world)@[k]
                },
        decreases count - id,
    {
        let ghost before = world@;
        world.apply_function_to_blocks(id, update_dirt);
        proof {
            let results = choose|results: Seq<Option<Block>>|
                {
                    &&& results.len() == 4096
                    &&& forall|i: int|
                        0 <= i < 4096 ==> answered(
                            update_dirt,
                            before[id as int].chunk,
                            before,
                            i,
                            #[trigger] results[i],
                        )
                    &&& world@ == with_queued(before, id as int, writes_of(results))
                };
            let chunk = old(world)@[id as int].chunk;
            let want = dirt_results(chunk, old(world)@);
            assert forall|i: int| 0 <= i < 4096 implies results[i] == want[i] by {
                assert(answered(update_dirt, before[id as int].chunk, before, i, results[i]));
                let beside = choose|beside: [Option<Block>; 6]|
                    is_beside(beside@, chunk, before, i) && #[trigger] call_ensures(
                        update_dirt,
                        (&chunk.cubes[i], beside),
                        results[i],
                    );
                assert(beside@[Direction::Top.spec_index()] == spec_block_beside(
                    chunk,
                    before,
                    i / 256,
                    i / 16 % 16,
                    i % 16,
                    Direction::Top,
                ));
                assert forall|k: int| 0 <= k < count implies (#[trigger] before[k]).chunk.cubes
                    == old(world)@[k].chunk.cubes by {}
                lemma_same_cubes_same_view(
                    before,
                    old(world)@,
                    chunk,
                    Direction::Top,
                    i / 256,
                    i / 16 % 16,
                    i % 16,
                );
            }
            assert(results =~= want);
        }
        id += 1;
    }
    assert(world@ =~= spec_update_dirt_sys(old(world)@));
}

} // verus!
