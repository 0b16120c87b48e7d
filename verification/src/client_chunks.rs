//! The client's side of chunk synchronization: what is done with a chunk
//! that the server sent, and which chunks a client asks for when it joins.

use vstd::prelude::*;
use crate::chunk::{Chunk, ChunkId, ChunkView, DecodeError, decode_compressed};
use crate::chunk_mesh_generation::{MeshDescription, create_chunk_mesh, spec_mesh};
use crate::loaded_chunks::LoadedChunks;
use crate::message::ServerBlockMessage;
use crate::position::IVec3;
use crate::world::{ChunkCompView, fresh, joined, spawned, spec_replace, spec_wire};

verus! {

broadcast use vstd::seq_lib::group_to_multiset_ensures;

/// The most chunks that are registered in one pass: one more than
/// `MAX_CHUNK_UPDATES_PER_FRAME`.
pub const MAX_SPAWNED_PER_PASS: usize = crate::MAX_CHUNK_UPDATES_PER_FRAME + 1;

/// A chunk that was received, with its first mesh.
pub struct ReceivedChunk {
    pub chunk: Chunk,
    /// The mesh of the chunk on its own: every face at its border shows.
    pub mesh: MeshDescription,
}

/// Reads the chunk that the server sent in `message` and builds its first
/// mesh, which takes no neighbor into account: the chunk is connected, and
/// its neighbors marked dirty, when it is registered.
pub fn load_chunks_from_server(message: &ServerBlockMessage) -> (r: Result<ReceivedChunk, DecodeError>)
    ensures
        match r {
            Ok(received) => {
                &&& decode_compressed(message.payload()) == Ok::<ChunkView, DecodeError>(
                    received.chunk@,
                )
                &&& received.mesh@ == spec_mesh(received.chunk@, Seq::<ChunkCompView>::empty())
            },
            Err(e) => decode_compressed(message.payload()) == Err::<ChunkView, DecodeError>(e),
        },
{
    match message {
        ServerBlockMessage::Chunk(packed) => {
            match Chunk::from_compressed(packed) {
                Ok(chunk) => {
                    let alone = LoadedChunks::new();
                    let mesh = create_chunk_mesh(&chunk, &alone);
                    assert(alone@ =~= Seq::<ChunkCompView>::empty());
                    Ok(ReceivedChunk { chunk, mesh })
                },
                Err(e) => Err(e),
            }
        },
    }
}

/// A chunk that was registered.
#[derive(Clone, Copy, Debug, PartialEq, Eq, Structural)]
pub struct SpawnedChunk {
    pub id: ChunkId,
    /// Whether a chunk was loaded at the position already and has been
    /// replaced: what showed it is to be taken down.
    pub replaced: bool,
}

/// The table `before` after `chunk` was registered and connected under the
/// id `id`: in the place of the chunk with that id, or at the end of the
/// table where `id` is the next free id.
pub open spec fn spec_spawn(before: Seq<ChunkCompView>, chunk: ChunkView, id: ChunkId) -> Seq<
    ChunkCompView,
> {
    if id < before.len() {
        spec_wire(spec_replace(before, id as int, chunk), id as int)
    } else {
        spec_wire(before.push(fresh(chunk)), id as int)
    }
}

/// The table `before` after the chunks `chunks` were registered and
/// connected one after the other, under the ids `ids`.
pub open spec fn spec_spawn_all(
    before: Seq<ChunkCompView>,
    chunks: Seq<ChunkView>,
    ids: Seq<SpawnedChunk>,
) -> Seq<ChunkCompView>
    decreases chunks.len(),
{
    if chunks.len() == 0 {
        before
    } else {
        spec_spawn(
            spec_spawn_all(before, chunks.drop_last(), ids.drop_last()),
            chunks.last(),
            ids.last().id,
        )
    }
}

/// Whether `ids` are the ids under which the chunks `chunks` are registered
/// one after the other, starting from the table `before`: each chunk gets
/// the id of the chunk that is loaded at its position then, which it
/// replaces, or the next free id where none is.
pub open spec fn spawned_all(
    before: Seq<ChunkCompView>,
    chunks: Seq<ChunkView>,
    ids: Seq<SpawnedChunk>,
) -> bool
    decreases chunks.len(),
{
    if chunks.len() == 0 {
        ids.len() == 0
    } else {
        let middle = spec_spawn_all(before, chunks.drop_last(), ids.drop_last());
        &&& ids.len() == chunks.len()
        &&& spawned_all(before, chunks.drop_last(), ids.drop_last())
        &&& spawned(
            middle,
            spec_spawn(middle, chunks.last(), ids.last().id),
            chunks.last(),
            ids.last().id,
        )
        &&& ids.last().replaced == (ids.last().id < middle.len())
    }
}

/// The views of the chunks in `chunks`.
pub open spec fn views(chunks: Seq<Chunk>) -> Seq<ChunkView> {
    Seq::new(chunks.len(), |i: int| chunks[i]@)
}

/// Registers the chunks that are ready, oldest first, and connects each with
/// the chunks beside it, until `MAX_SPAWNED_PER_PASS` are done: the rest
/// stays in `ready` for the next pass. A chunk that is loaded already at the
/// position of a new one is replaced.
///
/// After the pass every chunk that it registered names each chunk that is
/// loaded beside it as its neighbor, in all six directions, and is named by
/// it in turn, also where the two were registered in the same pass. A chunk
/// that was linked so with all the chunks beside it before the pass still
/// is.
pub fn spawn_chunk_meshes(world: &mut LoadedChunks, ready: &mut Vec<Chunk>) -> (done: Vec<
    SpawnedChunk,
>)
    requires
        old(world).wf(),
    ensures
        final(world).wf(),
        done@.len() == if old(ready)@.len() < 31 {
            old(ready)@.len()
        } else {
            31
        },
        final(ready)@ == old(ready)@.skip(done@.len() as int),
        spawned_all(old(world)@, views(old(ready)@.take(done@.len() as int)), done@),
        final(world)@ == spec_spawn_all(
            old(world)@,
            views(old(ready)@.take(done@.len() as int)),
            done@,
        ),
        forall|k: int|
            0 <= k < done@.len() ==> (#[trigger] done@[k]).id < final(world)@.len() && joined(
                final(world)@,
                done@[k].id as int,
            ),
        forall|a: int|
            0 <= a < old(world)@.len() && joined(old(world)@, a) ==> #[trigger] joined(
                final(world)@,
                a,
            ),
{
    let mut done: Vec<SpawnedChunk> = Vec::new();
    proof {
        assert(ready@.skip(0) =~= ready@);
    }
    while ready.len() > 0 && done.len() < MAX_SPAWNED_PER_PASS
        invariant
            world.wf(),
            done@.len() <= 31,
            done@.len() <= old(ready)@.len(),
            ready@ == old(ready)@.skip(done@.len() as int),
            spawned_all(old(world)@, views(old(ready)@.take(done@.len() as int)), done@),
            world@ == spec_spawn_all(
                old(world)@,
                views(old(ready)@.take(done@.len() as int)),
                done@,
            ),
            old(world)@.len() <= world@.len(),
            forall|k: int|
                0 <= k < done@.len() ==> (#[trigger] done@[k]).id < world@.len() && joined(
                    world@,
                    done@[k].id as int,
                ),
            forall|a: int|
                0 <= a < old(world)@.len() && joined(old(world)@, a) ==> #[trigger] joined(world@, a),
        decreases ready.len(),
    {
        let ghost before = world@;
        let ghost count = done@.len() as int;
        let ghost done_before = done@;
        let chunk = ready.remove(0);
        let ghost entering = chunk@;
        let (id, replaced) = world.spawn(chunk);
        done.push(SpawnedChunk { id, replaced: replaced.is_some() });
        proof {
            let taken = views(old(ready)@.take(count + 1));
            assert(old(ready)@.skip(count)[0] == old(ready)@[count]);
            assert(taken.last() == entering);
            assert(taken.drop_last() =~= views(old(ready)@.take(count)));
            assert(done@.drop_last() =~= done_before);
            assert(spawned_all(old(world)@, taken.drop_last(), done@.drop_last()));
            assert(before == spec_spawn_all(old(world)@, taken.drop_last(), done@.drop_last()));
            assert(spawned(before, world@, taken.last(), done@.last().id));
            assert(world@ == spec_spawn(before, taken.last(), done@.last().id));
            assert(done@.last().replaced == (done@.last().id < before.len()));
            assert(taken.len() == done@.len());
            assert forall|k: int| 0 <= k < done@.len() implies (#[trigger] done@[k]).id < world@.len()
                && joined(world@, done@[k].id as int) by {
                if k < count {
                    assert(done@[k] == done_before[k]);
                    assert(joined(before, done_before[k].id as int));
                }
            }
            assert forall|a: int| 0 <= a < old(world)@.len() && joined(old(world)@, a) implies
                #[trigger] joined(world@, a) by {
                assert(joined(before, a));
            }
            assert(ready@ =~= old(ready)@.skip(count + 1));
        }
    }
    done
}

/// The square of the distance from the origin to `pos`.
pub open spec fn distance_squared(pos: IVec3) -> int {
    pos.x * pos.x + pos.y * pos.y + pos.z * pos.z
}

/// The positions `sorted` with `pos` put in behind every position that is
/// no farther from the origin than `pos`.
pub open spec fn insert_by_distance(sorted: Seq<IVec3>, pos: IVec3) -> Seq<IVec3>
    decreases sorted.len(),
{
    if sorted.len() == 0 {
        seq![pos]
    } else if distance_squared(sorted.last()) <= distance_squared(pos) {
        sorted.push(pos)
    } else {
        insert_by_distance(sorted.drop_last(), pos).push(sorted.last())
    }
}

/// The positions `positions` in the order of their distance from the
/// origin, nearest first; positions at the same distance keep their order.
pub open spec fn sorted_by_distance(positions: Seq<IVec3>) -> Seq<IVec3>
    decreases positions.len(),
{
    if positions.len() == 0 {
        Seq::empty()
    } else {
        insert_by_distance(sorted_by_distance(positions.drop_last()), positions.last())
    }
}

/// Whether no position in `positions` is nearer to the origin than one
/// before it.
pub open spec fn is_sorted_by_distance(positions: Seq<IVec3>) -> bool {
    forall|i: int, j: int|
        0 <= i < j < positions.len() ==> distance_squared(#[trigger] positions[i])
            <= distance_squared(#[trigger] positions[j])
}

/// The chunk positions around the origin that a client asks for when it
/// joins: all positions with coordinates from -2 to 1, `x` first. That is
/// `WORLD_SIZE / 2 + 1` chunks to either side of the origin.
pub open spec fn spec_spawn_grid() -> Seq<IVec3> {
    Seq::new(
        64,
        |i: int| IVec3 { x: (i / 16 - 2) as i32, y: (i / 4 % 4 - 2) as i32, z: (i % 4 - 2) as i32 },
    )
}

/// Putting a position in where it belongs is putting it in at the place
/// behind which every position is farther from the origin, and before which
/// the nearest position is not.
proof fn lemma_insert_at(sorted: Seq<IVec3>, pos: IVec3, at: int)
    requires
        0 <= at <= sorted.len(),
        forall|k: int|
            at <= k < sorted.len() ==> distance_squared(#[trigger] sorted[k]) > distance_squared(
                pos,
            ),
        at > 0 ==> distance_squared(sorted[at - 1]) <= distance_squared(pos),
    ensures
        insert_by_distance(sorted, pos) == sorted.insert(at, pos),
    decreases sorted.len(),
{
    if sorted.len() == 0 {
        assert(sorted.insert(at, pos) =~= seq![pos]);
    } else if at == sorted.len() {
        assert(sorted.insert(at, pos) =~= sorted.push(pos));
    } else {
        assert(distance_squared(sorted.last()) > distance_squared(pos));
        lemma_insert_at(sorted.drop_last(), pos, at);
        assert(sorted.insert(at, pos) =~= sorted.drop_last().insert(at, pos).push(sorted.last()));
    }
}

/// Putting a position in where it belongs keeps the order, and adds that
/// position and no other.
pub proof fn lemma_insert_by_distance(sorted: Seq<IVec3>, pos: IVec3)
    requires
        is_sorted_by_distance(sorted),
    ensures
        is_sorted_by_distance(insert_by_distance(sorted, pos)),
        insert_by_distance(sorted, pos).to_multiset() == sorted.to_multiset().insert(pos),
        insert_by_distance(sorted, pos).len() == sorted.len() + 1,
    decreases sorted.len(),
{
    let after = insert_by_distance(sorted, pos);
    if sorted.len() == 0 {
        assert(after =~= Seq::<IVec3>::empty().push(pos));
    } else if distance_squared(sorted.last()) <= distance_squared(pos) {
        assert forall|i: int, j: int| 0 <= i < j < after.len() implies distance_squared(
            #[trigger] after[i],
        ) <= distance_squared(#[trigger] after[j]) by {
            if j == sorted.len() && i < sorted.len() - 1 {
                assert(distance_squared(sorted[i]) <= distance_squared(sorted[sorted.len() - 1]));
            }
        }
    } else {
        let shorter = sorted.drop_last();
        assert(is_sorted_by_distance(shorter)) by {
            assert forall|i: int, j: int| 0 <= i < j < shorter.len() implies distance_squared(
                #[trigger] shorter[i],
            ) <= distance_squared(#[trigger] shorter[j]) by {
                assert(shorter[i] == sorted[i] && shorter[j] == sorted[j]);
            }
        }
        lemma_insert_by_distance(shorter, pos);
        assert(sorted =~= shorter.push(sorted.last()));
        assert forall|i: int, j: int| 0 <= i < j < after.len() implies distance_squared(
            #[trigger] after[i],
        ) <= distance_squared(#[trigger] after[j]) by {
            if j == after.len() - 1 {
                lemma_member_bound(shorter, pos, sorted.last(), i);
            }
        }
    }
}

/// Every position of a sorted sequence with one more put in is no farther
/// from the origin than `far`, if that holds of the sequence and of the
/// position.
proof fn lemma_member_bound(sorted: Seq<IVec3>, pos: IVec3, far: IVec3, i: int)
    requires
        forall|k: int|
            0 <= k < sorted.len() ==> distance_squared(#[trigger] sorted[k]) <= distance_squared(
                far,
            ),
        distance_squared(pos) <= distance_squared(far),
        0 <= i < insert_by_distance(sorted, pos).len(),
    ensures
        distance_squared(insert_by_distance(sorted, pos)[i]) <= distance_squared(far),
    decreases sorted.len(),
{
    if sorted.len() > 0 && distance_squared(sorted.last()) > distance_squared(pos) {
        let inner = insert_by_distance(sorted.drop_last(), pos);
        if i < inner.len() {
            assert forall|k: int| 0 <= k < sorted.drop_last().len() implies distance_squared(
                #[trigger] sorted.drop_last()[k],
            ) <= distance_squared(far) by {
                assert(sorted.drop_last()[k] == sorted[k]);
            }
            lemma_member_bound(sorted.drop_last(), pos, far, i);
        }
    }
}

/// Sorting by distance gives the same positions, nearest first.
pub proof fn lemma_sorted_by_distance(positions: Seq<IVec3>)
    ensures
        is_sorted_by_distance(sorted_by_distance(positions)),
        sorted_by_distance(positions).to_multiset() == positions.to_multiset(),
        sorted_by_distance(positions).len() == positions.len(),
    decreases positions.len(),
{
    if positions.len() == 0 {
    } else {
        lemma_sorted_by_distance(positions.drop_last());
        lemma_insert_by_distance(sorted_by_distance(positions.drop_last()), positions.last());
        assert(positions =~= positions.drop_last().push(positions.last()));
    }
}

/// The square of the distance from the origin to `pos`.
pub fn distance_key(pos: IVec3) -> (key: u64)
    ensures
        key == distance_squared(pos),
{
    let x: u64 = if pos.x < 0 {
        (-(pos.x as i64)) as u64
    } else {
        pos.x as u64
    };
    let y: u64 = if pos.y < 0 {
        (-(pos.y as i64)) as u64
    } else {
        pos.y as u64
    };
    let z: u64 = if pos.z < 0 {
        (-(pos.z as i64)) as u64
    } else {
        pos.z as u64
    };
    proof {
        lemma_square_bound(x as int);
        lemma_square_bound(y as int);
        lemma_square_bound(z as int);
        lemma_square_of_negative(pos.x as int);
        lemma_square_of_negative(pos.y as int);
        lemma_square_of_negative(pos.z as int);
    }
    x * x + y * y + z * z
}

proof fn lemma_square_bound(a: int)
    requires
        0 <= a <= 0x8000_0000,
    ensures
        0 <= a * a <= 0x4000_0000_0000_0000,
{
    assert(0 <= a * a <= 0x4000_0000_0000_0000) by (nonlinear_arith)
        requires
            0 <= a <= 0x8000_0000,
    ;
}

proof fn lemma_square_of_negative(a: int)
    ensures
        (-a) * (-a) == a * a,
{
    assert((-a) * (-a) == a * a) by (nonlinear_arith);
}

/// Sorts `positions` by their distance from the origin, nearest first;
/// positions at the same distance keep their order.
pub fn sort_by_distance(positions: &Vec<IVec3>) -> (sorted: Vec<IVec3>)
    ensures
        sorted@ == sorted_by_distance(positions@),
        is_sorted_by_distance(sorted@),
        sorted@.to_multiset() == positions@.to_multiset(),
{
    let mut sorted: Vec<IVec3> = Vec::new();
    let mut i: usize = 0;
    assert(positions@.take(0) =~= Seq::<IVec3>::empty());
    while i < positions.len()
        invariant
            i <= positions.len(),
            sorted@ == sorted_by_distance(positions@.take(i as int)),
        decreases positions.len() - i,
    {
        let pos = positions[i];
        let key = distance_key(pos);
        let mut at: usize = sorted.len();
        while at > 0 && distance_key(sorted[at - 1]) > key
            invariant
                at <= sorted.len(),
                key == distance_squared(pos),
                forall|k: int|
                    at <= k < sorted@.len() ==> distance_squared(#[trigger] sorted@[k])
                        > distance_squared(pos),
            decreases at,
        {
            at -= 1;
        }
        proof {
            lemma_insert_at(sorted@, pos, at as int);
            assert(positions@.take(i + 1).drop_last() =~= positions@.take(i as int));
        }
        sorted.insert(at, pos);
        i += 1;
    }
    proof {
        assert(positions@.take(positions@.len() as int) =~= positions@);
        lemma_sorted_by_distance(positions@);
    }
    sorted
}

/// The chunk positions that a client asks for when it joins, in the order
/// in which it asks: those around the origin, nearest first.
pub fn initial_chunk_requests() -> (requests: Vec<IVec3>)
    ensures
        requests@ == sorted_by_distance(spec_spawn_grid()),
        is_sorted_by_distance(requests@),
        requests@.to_multiset() == spec_spawn_grid().to_multiset(),
        requests@.len() == 64,
{
    let mut grid: Vec<IVec3> = Vec::new();
    let mut i: usize = 0;
    while i < 64
        invariant
            i <= 64,
            grid@.len() == i,
            forall|k: int| 0 <= k < i ==> #[trigger] grid@[k] == spec_spawn_grid()[k],
        decreases 64 - i,
    {
        grid.push(
            IVec3 { x: (i / 16) as i32 - 2, y: (i / 4 % 4) as i32 - 2, z: (i % 4) as i32 - 2 },
        );
        i += 1;
    }
    proof {
        assert(grid@ =~= spec_spawn_grid());
        lemma_sorted_by_distance(grid@);
    }
    sort_by_distance(&grid)
}

} // verus!
