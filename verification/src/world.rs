//! The table of loaded chunks as a mathematical value: what it means for a
//! table to be well formed, what each operation makes of a table, and what
//! holds of these operations.

use vstd::prelude::*;
use crate::block::Block;
use crate::chunk::{ChunkId, ChunkView, cube_index, inbounds};
use crate::direction::Direction;
use crate::loaded_chunks::BufferedWrite;
use crate::position::IVec3;

verus! {

/// What a loaded chunk is, as mathematical values.
pub struct ChunkCompView {
    pub chunk: ChunkView,
    /// The writes that wait, oldest first.
    pub buffered_writes: Seq<BufferedWrite>,
}

impl ChunkCompView {
    /// The chunk is well formed and every waiting write goes to a voxel
    /// inside the chunk.
    pub open spec fn wf(self) -> bool {
        &&& self.chunk.wf()
        &&& forall|k: int|
            0 <= k < self.buffered_writes.len() ==> (
            #[trigger] self.buffered_writes[k]).offset.spec_is_offset()
    }
}

/// Whether, in the table `world`, the link of chunk `i` in `direction` to
/// chunk `j` is in order: `j` is loaded, lies one step from `i` in that
/// direction, and links back to `i`.
pub open spec fn linked(world: Seq<ChunkCompView>, i: int, direction: Direction, j: int) -> bool {
    &&& 0 <= j < world.len()
    &&& world[j].chunk.pos.ints() == world[i].chunk.pos.spec_step(direction)
    &&& world[j].chunk.neighbor(direction.spec_opposite()) == Some(i as ChunkId)
}

/// What holds of every table of loaded chunks: every id fits in a `ChunkId`,
/// each chunk is well formed, no two chunks have the same position, and every
/// link is in order.
pub open spec fn world_wf(world: Seq<ChunkCompView>) -> bool {
    &&& world.len() <= usize::MAX
    &&& forall|i: int| 0 <= i < world.len() ==> (#[trigger] world[i]).wf()
    &&& forall|i: int, j: int|
        0 <= i < j < world.len() ==> (#[trigger] world[i]).chunk.pos != (
        #[trigger] world[j]).chunk.pos
    &&& forall|i: int, direction: Direction|
        0 <= i < world.len() ==> ((#[trigger] world[i].chunk.neighbor(direction)) matches Some(j)
            ==> linked(world, i, direction, j as int))
}

/// Whether chunk `j` of the table lies one step from chunk `i` in `direction`.
pub open spec fn adjacent(world: Seq<ChunkCompView>, i: int, direction: Direction, j: int) -> bool {
    0 <= j < world.len() && world[j].chunk.pos.ints() == world[i].chunk.pos.spec_step(direction)
}

/// In a well-formed table at most one chunk lies beside another in a given
/// direction, and it is another chunk.
pub proof fn lemma_adjacent_unique(
    world: Seq<ChunkCompView>,
    i: int,
    direction: Direction,
    j: int,
    k: int,
)
    requires
        world_wf(world),
        0 <= i < world.len(),
        adjacent(world, i, direction, j),
    ensures
        j != i,
        adjacent(world, i, direction, k) ==> k == j,
        adjacent(world, j, direction.spec_opposite(), i),
{
    if adjacent(world, i, direction, k) && k != j {
        if k < j {
            assert(world[k].chunk.pos != world[j].chunk.pos);
        } else {
            assert(world[j].chunk.pos != world[k].chunk.pos);
        }
    }
}

/// Links are symmetric: in a well-formed table, the chunk that chunk `a`
/// names as its neighbor in a direction is loaded, lies one step away in
/// that direction, and names `a` as its neighbor in the opposite direction.
pub proof fn lemma_links_symmetric(world: Seq<ChunkCompView>, a: int, direction: Direction)
    requires
        world_wf(world),
        0 <= a < world.len(),
        world[a].chunk.neighbor(direction) is Some,
    ensures
        ({
            let b = world[a].chunk.neighbor(direction)->0 as int;
            &&& 0 <= b < world.len()
            &&& b != a
            &&& adjacent(world, a, direction, b)
            &&& world[b].chunk.neighbor(direction.spec_opposite()) == Some(a as ChunkId)
        }),
{
    let b = world[a].chunk.neighbor(direction)->0 as int;
    assert(linked(world, a, direction, b));
    lemma_adjacent_unique(world, a, direction, b, b);
}

/// Whether two tables differ in voxels and dirty flags at most.
pub open spec fn same_links(a: Seq<ChunkCompView>, b: Seq<ChunkCompView>) -> bool {
    &&& a.len() == b.len()
    &&& forall|k: int|
        0 <= k < a.len() ==> {
            &&& (#[trigger] a[k]).chunk.pos == b[k].chunk.pos
            &&& a[k].chunk.neighbors == b[k].chunk.neighbors
            &&& a[k].chunk.cubes.len() == b[k].chunk.cubes.len()
            &&& a[k].buffered_writes == b[k].buffered_writes
        }
}

/// A table stays well formed when only voxels and dirty flags change.
pub proof fn lemma_same_links_wf(a: Seq<ChunkCompView>, b: Seq<ChunkCompView>)
    requires
        world_wf(a),
        same_links(a, b),
    ensures
        world_wf(b),
{
    assert forall|k: int| 0 <= k < b.len() implies (#[trigger] b[k]).wf() by {
        assert(a[k].wf());
    }
    assert forall|i: int, j: int| 0 <= i < j < b.len() implies (#[trigger] b[i]).chunk.pos != (
    #[trigger] b[j]).chunk.pos by {
        assert(a[i].chunk.pos != a[j].chunk.pos);
    }
    assert forall|i: int, d: Direction| 0 <= i < b.len() implies (
    (#[trigger] b[i].chunk.neighbor(d)) matches Some(j) ==> linked(b, i, d, j as int)) by {
        if b[i].chunk.neighbor(d) is Some {
            let j = b[i].chunk.neighbor(d)->0 as int;
            assert(a[i].chunk.neighbor(d) == Some(j as ChunkId));
            assert(linked(a, i, d, j));
            assert(a[j].chunk.pos == b[j].chunk.pos);
        }
    }
}

/// A table stays well formed when only the queue of one chunk changes, and
/// every write in the new queue goes to a voxel inside the chunk.
pub proof fn lemma_queue_wf(a: Seq<ChunkCompView>, b: Seq<ChunkCompView>, id: int)
    requires
        world_wf(a),
        0 <= id < a.len(),
        b.len() == a.len(),
        forall|k: int| 0 <= k < a.len() && k != id ==> #[trigger] b[k] == a[k],
        b[id].chunk == a[id].chunk,
        b[id].wf(),
    ensures
        world_wf(b),
{
    assert forall|k: int| 0 <= k < b.len() implies (#[trigger] b[k]).wf() by {
        assert(a[k].wf());
    }
    assert forall|i: int, j: int| 0 <= i < j < b.len() implies (#[trigger] b[i]).chunk.pos != (
    #[trigger] b[j]).chunk.pos by {
        assert(a[i].chunk.pos != a[j].chunk.pos);
    }
    assert forall|i: int, d: Direction| 0 <= i < b.len() implies (
    (#[trigger] b[i].chunk.neighbor(d)) matches Some(j) ==> linked(b, i, d, j as int)) by {
        if b[i].chunk.neighbor(d) is Some {
            let j = b[i].chunk.neighbor(d)->0 as int;
            assert(a[i].chunk.neighbor(d) == Some(j as ChunkId));
            assert(linked(a, i, d, j));
            assert(b[j].chunk == a[j].chunk);
        }
    }
}

/// The chunk `comp` with `chunk` in the place of its chunk.
pub open spec fn with_chunk(comp: ChunkCompView, chunk: ChunkView) -> ChunkCompView {
    ChunkCompView { chunk, ..comp }
}

/// A chunk as it enters the table: without links, and no write waits.
pub open spec fn fresh(chunk: ChunkView) -> ChunkCompView {
    ChunkCompView { chunk: chunk.detached(), buffered_writes: Seq::empty() }
}

/// The table after `chunk` took the place of chunk `i`: the chunks that were
/// linked to chunk `i` have lost that link.
pub open spec fn spec_replace(world: Seq<ChunkCompView>, i: int, chunk: ChunkView) -> Seq<
    ChunkCompView,
> {
    Seq::new(
        world.len(),
        |k: int|
            if k == i {
                fresh(chunk)
            } else {
                with_chunk(world[k], world[k].chunk.without_links_to(i as ChunkId))
            },
    )
}

/// Putting a chunk in the place of one with the same position keeps the
/// table well formed.
pub proof fn lemma_replace(world: Seq<ChunkCompView>, i: int, chunk: ChunkView)
    requires
        world_wf(world),
        0 <= i < world.len(),
        chunk.wf(),
        chunk.pos == world[i].chunk.pos,
    ensures
        world_wf(spec_replace(world, i, chunk)),
{
    let after = spec_replace(world, i, chunk);
    assert forall|k: int| 0 <= k < after.len() implies (#[trigger] after[k]).wf() by {
        assert(world[k].wf());
    }
    assert forall|a: int, b: int| 0 <= a < b < after.len() implies (#[trigger] after[a]).chunk.pos
        != (#[trigger] after[b]).chunk.pos by {
        assert(world[a].chunk.pos != world[b].chunk.pos);
    }
    assert forall|a: int, d: Direction| 0 <= a < after.len() implies (
    (#[trigger] after[a].chunk.neighbor(d)) matches Some(b) ==> linked(after, a, d, b as int)) by {
        if after[a].chunk.neighbor(d) is Some {
            let b = after[a].chunk.neighbor(d)->0 as int;
            assert(world[a].wf());
            assert(a != i);
            assert(world[a].chunk.neighbor(d) == Some(b as ChunkId));
            assert(linked(world, a, d, b));
            assert(b != i);
            assert(world[b].wf());
            Direction::lemma_index_round_trip(d.spec_opposite(), 0);
        }
    }
}

/// Adding a chunk at a position where none is loaded keeps the table well
/// formed.
pub proof fn lemma_push(world: Seq<ChunkCompView>, chunk: ChunkView)
    requires
        world_wf(world),
        world.len() < usize::MAX,
        chunk.wf(),
        forall|k: int| 0 <= k < world.len() ==> (#[trigger] world[k]).chunk.pos != chunk.pos,
    ensures
        world_wf(world.push(fresh(chunk))),
{
    let after = world.push(fresh(chunk));
    assert forall|k: int| 0 <= k < after.len() implies (#[trigger] after[k]).wf() by {
        if k < world.len() {
            assert(world[k].wf());
        }
    }
    assert forall|a: int, b: int| 0 <= a < b < after.len() implies (#[trigger] after[a]).chunk.pos
        != (#[trigger] after[b]).chunk.pos by {
        if b < world.len() {
            assert(world[a].chunk.pos != world[b].chunk.pos);
        } else {
            assert(world[a].chunk.pos != chunk.pos);
        }
    }
    assert forall|a: int, d: Direction| 0 <= a < after.len() implies (
    (#[trigger] after[a].chunk.neighbor(d)) matches Some(b) ==> linked(after, a, d, b as int)) by {
        if after[a].chunk.neighbor(d) is Some {
            let b = after[a].chunk.neighbor(d)->0 as int;
            Direction::lemma_index_round_trip(d, 0);
            assert(a < world.len());
            assert(world[a].chunk.neighbor(d) == Some(b as ChunkId));
            assert(linked(world, a, d, b));
        }
    }
}

/// The chunk `chunk` without those links to chunk `i` that answer a link of
/// chunk `i` in one of its first `done` directions.
pub open spec fn cleared_towards(chunk: ChunkView, i: ChunkId, done: int) -> ChunkView {
    ChunkView {
        neighbors: Seq::new(
            6,
            |e: int|
                if chunk.neighbors[e] == Some(i) && Direction::spec_from_index(
                    e,
                ).spec_opposite().spec_index() < done {
                    None
                } else {
                    chunk.neighbors[e]
                },
        ),
        ..chunk
    }
}

/// Whether chunk `i` is linked, both ways, with the chunk that lies beside it
/// in `direction`, if one is loaded there, and that chunk is dirty.
pub open spec fn connected(world: Seq<ChunkCompView>, i: int, direction: Direction) -> bool {
    forall|j: int| #[trigger]
        adjacent(world, i, direction, j) ==> {
            &&& world[i].chunk.neighbor(direction) == Some(j as ChunkId)
            &&& world[j].chunk.neighbor(direction.spec_opposite()) == Some(i as ChunkId)
            &&& world[j].chunk.dirty
        }
}

/// The table after chunk `i` was connected in `direction`: where a chunk is
/// loaded one step away, the two are linked to each other and that chunk is
/// dirty; where none is, nothing has changed.
pub open spec fn spec_connect(world: Seq<ChunkCompView>, i: int, direction: Direction) -> Seq<
    ChunkCompView,
> {
    if exists|j: int| adjacent(world, i, direction, j) {
        let j = choose|j: int| adjacent(world, i, direction, j);
        let linked_i = world.update(
            i,
            with_chunk(world[i], world[i].chunk.with_neighbor(direction, Some(j as ChunkId))),
        );
        linked_i.update(
            j,
            with_chunk(
                linked_i[j],
                linked_i[j].chunk.with_neighbor(
                    direction.spec_opposite(),
                    Some(i as ChunkId),
                ).with_dirty(true),
            ),
        )
    } else {
        world
    }
}

/// The table after chunk `i` was connected in all six directions.
pub open spec fn spec_wire(world: Seq<ChunkCompView>, i: int) -> Seq<ChunkCompView> {
    let top = spec_connect(world, i, Direction::Top);
    let bottom = spec_connect(top, i, Direction::Bottom);
    let front = spec_connect(bottom, i, Direction::Front);
    let back = spec_connect(front, i, Direction::Back);
    let left = spec_connect(back, i, Direction::Left);
    spec_connect(left, i, Direction::Right)
}

/// Whether two tables hold the same chunks at the same positions with the
/// same voxels and the same waiting writes; links and dirty flags may differ.
pub open spec fn same_contents(a: Seq<ChunkCompView>, b: Seq<ChunkCompView>) -> bool {
    &&& a.len() == b.len()
    &&& forall|k: int|
        0 <= k < a.len() ==> {
            &&& (#[trigger] a[k]).chunk.pos == b[k].chunk.pos
            &&& a[k].chunk.cubes == b[k].chunk.cubes
            &&& a[k].buffered_writes == b[k].buffered_writes
        }
}

/// Connecting a chunk in a direction keeps the table well formed, changes
/// neither positions nor voxels nor waiting writes, connects the chunk in that
/// direction and leaves it connected where it was.
pub proof fn lemma_connect(world: Seq<ChunkCompView>, i: int, direction: Direction)
    requires
        world_wf(world),
        0 <= i < world.len(),
    ensures
        world_wf(spec_connect(world, i, direction)),
        same_contents(world, spec_connect(world, i, direction)),
        connected(spec_connect(world, i, direction), i, direction),
        forall|other: Direction|
            connected(world, i, other) ==> connected(spec_connect(world, i, direction), i, other),
        forall|k: int|
            0 <= k < world.len() && (#[trigger] world[k]).chunk.dirty ==> spec_connect(
                world,
                i,
                direction,
            )[k].chunk.dirty,
{
    let after = spec_connect(world, i, direction);
    if exists|j: int| adjacent(world, i, direction, j) {
        let j = choose|j: int| adjacent(world, i, direction, j);
        let opposite = direction.spec_opposite();
        lemma_adjacent_unique(world, i, direction, j, j);
        Direction::lemma_opposite_involution(direction);
        assert(after.len() == world.len());
        assert(world[i].wf() && world[j].wf());
        assert forall|k: int| 0 <= k < after.len() implies (#[trigger] after[k]).wf() by {
            assert(world[k].wf());
        }
        assert forall|a: int, b: int| 0 <= a < b < after.len() implies (#[trigger] after[a]).chunk.pos
            != (#[trigger] after[b]).chunk.pos by {
            assert(world[a].chunk.pos != world[b].chunk.pos);
        }
        assert forall|a: int, d: Direction| 0 <= a < after.len() implies (
        (#[trigger] after[a].chunk.neighbor(d)) matches Some(b) ==> linked(after, a, d, b as int)) by {
            if after[a].chunk.neighbor(d) is Some {
                let b = after[a].chunk.neighbor(d)->0 as int;
                Direction::lemma_opposite_involution(d);
                if a == i && d == direction {
                    assert(b == j);
                } else if a == j && d == opposite {
                    assert(b == i);
                } else {
                    assert(world[a].chunk.neighbor(d) == Some(b as ChunkId));
                    assert(linked(world, a, d, b));
                    if b == i && d.spec_opposite() == direction {
                        lemma_adjacent_unique(world, i, direction, j, a);
                    }
                    if b == j && d.spec_opposite() == opposite {
                        lemma_adjacent_unique(world, j, opposite, i, a);
                    }
                }
            }
        }
        assert(world_wf(after));
        assert forall|k: int| #[trigger] adjacent(after, i, direction, k) implies {
            &&& after[i].chunk.neighbor(direction) == Some(k as ChunkId)
            &&& after[k].chunk.neighbor(opposite) == Some(i as ChunkId)
            &&& after[k].chunk.dirty
        } by {
            assert(adjacent(world, i, direction, k));
            lemma_adjacent_unique(world, i, direction, j, k);
        }
        assert forall|other: Direction| connected(world, i, other) implies connected(
            after,
            i,
            other,
        ) by {
            assert forall|k: int| #[trigger] adjacent(after, i, other, k) implies {
                &&& after[i].chunk.neighbor(other) == Some(k as ChunkId)
                &&& after[k].chunk.neighbor(other.spec_opposite()) == Some(i as ChunkId)
                &&& after[k].chunk.dirty
            } by {
                assert(adjacent(world, i, other, k));
                lemma_adjacent_unique(world, i, direction, j, k);
                lemma_adjacent_unique(world, i, other, k, k);
                Direction::lemma_opposite_involution(other);
            }
        }
    } else {
        assert forall|k: int| #[trigger] adjacent(after, i, direction, k) implies false by {}
    }
}

/// Connecting a chunk in all six directions keeps the table well formed,
/// changes neither positions nor voxels nor waiting writes, and leaves the
/// chunk connected in every direction.
pub proof fn lemma_wire(world: Seq<ChunkCompView>, i: int)
    requires
        world_wf(world),
        0 <= i < world.len(),
    ensures
        world_wf(spec_wire(world, i)),
        same_contents(world, spec_wire(world, i)),
        forall|direction: Direction| connected(spec_wire(world, i), i, direction),
{
    let top = spec_connect(world, i, Direction::Top);
    let bottom = spec_connect(top, i, Direction::Bottom);
    let front = spec_connect(bottom, i, Direction::Front);
    let back = spec_connect(front, i, Direction::Back);
    let left = spec_connect(back, i, Direction::Left);
    let right = spec_connect(left, i, Direction::Right);
    lemma_connect(world, i, Direction::Top);
    lemma_connect(top, i, Direction::Bottom);
    lemma_connect(bottom, i, Direction::Front);
    lemma_connect(front, i, Direction::Back);
    lemma_connect(back, i, Direction::Left);
    lemma_connect(left, i, Direction::Right);
    assert(connected(right, i, Direction::Top));
    assert(connected(right, i, Direction::Bottom));
    assert(connected(right, i, Direction::Front));
    assert(connected(right, i, Direction::Back));
    assert(connected(right, i, Direction::Left));
    assert(connected(right, i, Direction::Right));
    assert forall|direction: Direction| connected(right, i, direction) by {
        match direction {
            Direction::Top => {},
            Direction::Bottom => {},
            Direction::Front => {},
            Direction::Back => {},
            Direction::Left => {},
            Direction::Right => {},
        }
    }
}

/// Whether `after` is the table `before` after `chunk` was registered and
/// connected, under the id `id`. Where a chunk was loaded at the position of
/// `chunk`, the new chunk has taken its place and its id; where none was, it
/// has been added at the end.
pub open spec fn spawned(
    before: Seq<ChunkCompView>,
    after: Seq<ChunkCompView>,
    chunk: ChunkView,
    id: ChunkId,
) -> bool {
    &&& id < after.len()
    &&& id < before.len() ==> {
        &&& before[id as int].chunk.pos == chunk.pos
        &&& after == spec_wire(spec_replace(before, id as int, chunk), id as int)
    }
    &&& id >= before.len() ==> {
        &&& id == before.len()
        &&& forall|k: int| 0 <= k < before.len() ==> (#[trigger] before[k]).chunk.pos != chunk.pos
        &&& after == spec_wire(before.push(fresh(chunk)), id as int)
    }
}

/// Whether chunk `i` and chunk `j` name each other as neighbors, if `j` lies
/// one step from `i` in `direction`.
pub open spec fn joined_with(world: Seq<ChunkCompView>, i: int, direction: Direction, j: int) -> bool {
    adjacent(world, i, direction, j) ==> {
        &&& world[i].chunk.neighbor(direction) == Some(j as ChunkId)
        &&& world[j].chunk.neighbor(direction.spec_opposite()) == Some(i as ChunkId)
    }
}

/// Whether chunk `i` is linked, both ways, with every chunk that is loaded
/// beside it, in all six directions.
pub open spec fn joined(world: Seq<ChunkCompView>, i: int) -> bool {
    forall|direction: Direction, j: int| #[trigger] joined_with(world, i, direction, j)
}

/// Connecting a chunk changes no position, and so not which chunks lie
/// beside which.
pub proof fn lemma_connect_adjacent(
    world: Seq<ChunkCompView>,
    i: int,
    direction: Direction,
    a: int,
    toward: Direction,
    j: int,
)
    requires
        0 <= i < world.len(),
        0 <= a < world.len(),
    ensures
        spec_connect(world, i, direction).len() == world.len(),
        adjacent(spec_connect(world, i, direction), a, toward, j) == adjacent(world, a, toward, j),
{
    if exists|k: int| adjacent(world, i, direction, k) {
        let k = choose|k: int| adjacent(world, i, direction, k);
        assert(0 <= k < world.len());
    }
}

/// Connecting a chunk takes no link from two chunks that name each other.
pub proof fn lemma_connect_keeps_joined(
    world: Seq<ChunkCompView>,
    i: int,
    direction: Direction,
    a: int,
    toward: Direction,
    j: int,
)
    requires
        world_wf(world),
        0 <= i < world.len(),
        0 <= a < world.len(),
        joined_with(world, a, toward, j),
    ensures
        joined_with(spec_connect(world, i, direction), a, toward, j),
{
    let after = spec_connect(world, i, direction);
    lemma_connect_adjacent(world, i, direction, a, toward, j);
    if adjacent(world, a, toward, j) && exists|k: int| adjacent(world, i, direction, k) {
        let k = choose|k: int| adjacent(world, i, direction, k);
        let opposite = direction.spec_opposite();
        let back = toward.spec_opposite();
        lemma_adjacent_unique(world, i, direction, k, k);
        lemma_adjacent_unique(world, a, toward, j, j);
        Direction::lemma_opposite_involution(direction);
        Direction::lemma_opposite_involution(toward);
        Direction::lemma_index_round_trip(direction, 0);
        Direction::lemma_index_round_trip(toward, 0);
        Direction::lemma_index_round_trip(opposite, 0);
        Direction::lemma_index_round_trip(back, 0);
        assert(world[i].wf() && world[k].wf() && world[a].wf() && world[j].wf());
        assert(after[a].chunk.neighbor(toward) == Some(j as ChunkId)) by {
            if a == i && toward == direction {
                lemma_adjacent_unique(world, i, direction, k, j);
            } else if a == k && toward == opposite {
                lemma_adjacent_unique(world, k, opposite, i, j);
            }
        }
        assert(after[j].chunk.neighbor(back) == Some(a as ChunkId)) by {
            if j == i && back == direction {
                lemma_adjacent_unique(world, i, direction, k, a);
            } else if j == k && back == opposite {
                lemma_adjacent_unique(world, k, opposite, i, a);
            }
        }
    }
}

/// Connecting a chunk in all six directions takes no link from two chunks
/// that name each other.
pub proof fn lemma_wire_keeps_joined(
    world: Seq<ChunkCompView>,
    i: int,
    a: int,
    toward: Direction,
    j: int,
)
    requires
        world_wf(world),
        0 <= i < world.len(),
        0 <= a < world.len(),
        joined_with(world, a, toward, j),
    ensures
        joined_with(spec_wire(world, i), a, toward, j),
{
    let top = spec_connect(world, i, Direction::Top);
    let bottom = spec_connect(top, i, Direction::Bottom);
    let front = spec_connect(bottom, i, Direction::Front);
    let back = spec_connect(front, i, Direction::Back);
    let left = spec_connect(back, i, Direction::Left);
    lemma_connect(world, i, Direction::Top);
    lemma_connect_keeps_joined(world, i, Direction::Top, a, toward, j);
    lemma_connect(top, i, Direction::Bottom);
    lemma_connect_keeps_joined(top, i, Direction::Bottom, a, toward, j);
    lemma_connect(bottom, i, Direction::Front);
    lemma_connect_keeps_joined(bottom, i, Direction::Front, a, toward, j);
    lemma_connect(front, i, Direction::Back);
    lemma_connect_keeps_joined(front, i, Direction::Back, a, toward, j);
    lemma_connect(back, i, Direction::Left);
    lemma_connect_keeps_joined(back, i, Direction::Left, a, toward, j);
    lemma_connect_keeps_joined(left, i, Direction::Right, a, toward, j);
}

/// Registering a chunk and connecting it links it, both ways, with every
/// chunk that is loaded beside it, and takes no such link from a chunk that
/// had it: a chunk that was linked with all the chunks beside it still is,
/// the new chunk among them. No chunk leaves the table.
pub proof fn lemma_spawn_joins(
    before: Seq<ChunkCompView>,
    after: Seq<ChunkCompView>,
    chunk: ChunkView,
    id: ChunkId,
)
    requires
        world_wf(before),
        world_wf(after),
        chunk.wf(),
        spawned(before, after, chunk, id),
    ensures
        before.len() <= after.len(),
        joined(after, id as int),
        forall|a: int| 0 <= a < before.len() && joined(before, a) ==> #[trigger] joined(after, a),
{
    let replaces = id < before.len();
    let middle = if replaces {
        spec_replace(before, id as int, chunk)
    } else {
        before.push(fresh(chunk))
    };
    assert(after == spec_wire(middle, id as int));
    lemma_wire_len(middle, id as int);
    if replaces {
        lemma_replace(before, id as int, chunk);
    } else {
        lemma_push(before, chunk);
    }
    lemma_wire(middle, id as int);
    assert forall|direction: Direction, j: int| #[trigger]
        joined_with(after, id as int, direction, j) by {
        assert(connected(after, id as int, direction));
    }
    assert forall|a: int| 0 <= a < before.len() && joined(before, a) implies #[trigger] joined(
        after,
        a,
    ) by {
        if a != id {
            assert forall|toward: Direction, j: int| #[trigger]
                joined_with(after, a, toward, j) by {
                if adjacent(after, a, toward, j) {
                    let back = toward.spec_opposite();
                    Direction::lemma_opposite_involution(toward);
                    lemma_adjacent_unique(after, a, toward, j, j);
                    if j == id {
                        assert(connected(after, id as int, back));
                        assert(adjacent(after, id as int, back, a));
                    } else {
                        assert(middle[a].chunk.pos == after[a].chunk.pos);
                        assert(middle[j].chunk.pos == after[j].chunk.pos);
                        assert(before[a].chunk.pos == middle[a].chunk.pos);
                        assert(before[j].chunk.pos == middle[j].chunk.pos);
                        assert(adjacent(before, a, toward, j));
                        assert(joined_with(before, a, toward, j));
                        assert(before[a].wf() && before[j].wf());
                        Direction::lemma_index_round_trip(toward, 0);
                        Direction::lemma_index_round_trip(back, 0);
                        assert(joined_with(middle, a, toward, j));
                        lemma_wire_keeps_joined(middle, id as int, a, toward, j);
                    }
                }
            }
        }
    }
}

/// Connecting a chunk in all six directions keeps the number of chunks.
pub proof fn lemma_wire_len(world: Seq<ChunkCompView>, i: int)
    requires
        0 <= i < world.len(),
    ensures
        spec_wire(world, i).len() == world.len(),
{
    let top = spec_connect(world, i, Direction::Top);
    let bottom = spec_connect(top, i, Direction::Bottom);
    let front = spec_connect(bottom, i, Direction::Front);
    let back = spec_connect(front, i, Direction::Back);
    let left = spec_connect(back, i, Direction::Left);
    lemma_connect_adjacent(world, i, Direction::Top, i, Direction::Top, 0);
    lemma_connect_adjacent(top, i, Direction::Bottom, i, Direction::Top, 0);
    lemma_connect_adjacent(bottom, i, Direction::Front, i, Direction::Top, 0);
    lemma_connect_adjacent(front, i, Direction::Back, i, Direction::Top, 0);
    lemma_connect_adjacent(back, i, Direction::Left, i, Direction::Top, 0);
    lemma_connect_adjacent(left, i, Direction::Right, i, Direction::Top, 0);
}

/// The chunk that `link` names in the table, if it names one. A link to a
/// chunk that is not loaded names none.
pub open spec fn resolve(world: Seq<ChunkCompView>, link: Option<ChunkId>) -> Option<ChunkView> {
    match link {
        Some(j) => if j < world.len() {
            Some(world[j as int].chunk)
        } else {
            None
        },
        None => None,
    }
}

/// The voxel at `(x, y, z)` of the neighbor of `chunk` in `direction`, if it
/// has one.
pub open spec fn neighbor_cube(
    chunk: ChunkView,
    world: Seq<ChunkCompView>,
    direction: Direction,
    x: int,
    y: int,
    z: int,
) -> Option<Block> {
    match resolve(world, chunk.neighbor(direction)) {
        Some(beside) => Some(beside.cube(x, y, z)),
        None => None,
    }
}

/// The voxel at `(x, y, z)` as seen from `chunk`. A coordinate below 0 or
/// above 15 leads into the neighbor on that side, to its layer that touches
/// this chunk, and to `None` where no neighbor is loaded there.
pub open spec fn spec_get_block(
    chunk: ChunkView,
    world: Seq<ChunkCompView>,
    x: int,
    y: int,
    z: int,
) -> Option<Block> {
    if inbounds(x) && inbounds(y) && inbounds(z) {
        Some(chunk.cube(x, y, z))
    } else if x < 0 {
        neighbor_cube(chunk, world, Direction::Back, 15, y, z)
    } else if x >= 16 {
        neighbor_cube(chunk, world, Direction::Front, 0, y, z)
    } else if z < 0 {
        neighbor_cube(chunk, world, Direction::Right, x, y, 15)
    } else if z >= 16 {
        neighbor_cube(chunk, world, Direction::Left, x, y, 0)
    } else if y < 0 {
        neighbor_cube(chunk, world, Direction::Bottom, x, 15, z)
    } else {
        neighbor_cube(chunk, world, Direction::Top, x, 0, z)
    }
}

/// The voxel one step from `(x, y, z)` in `direction`, as seen from `chunk`.
pub open spec fn spec_block_beside(
    chunk: ChunkView,
    world: Seq<ChunkCompView>,
    x: int,
    y: int,
    z: int,
    direction: Direction,
) -> Option<Block> {
    let step = direction.spec_offset();
    spec_get_block(chunk, world, x + step.0, y + step.1, z + step.2)
}

/// What a chunk sees beside one of its voxels depends on the voxels of the
/// table only: it is the same in two tables that hold the same voxels.
pub proof fn lemma_same_cubes_same_view(
    a: Seq<ChunkCompView>,
    b: Seq<ChunkCompView>,
    chunk: ChunkView,
    direction: Direction,
    x: int,
    y: int,
    z: int,
)
    requires
        a.len() == b.len(),
        forall|k: int| 0 <= k < a.len() ==> (#[trigger] a[k]).chunk.cubes == b[k].chunk.cubes,
    ensures
        spec_block_beside(chunk, a, x, y, z, direction) == spec_block_beside(
            chunk,
            b,
            x,
            y,
            z,
            direction,
        ),
        spec_get_block(chunk, a, x, y, z) == spec_get_block(chunk, b, x, y, z),
{
    assert forall|d: Direction, u: int, v: int, w: int|
        neighbor_cube(chunk, a, d, u, v, w) == neighbor_cube(chunk, b, d, u, v, w) by {
        match chunk.neighbor(d) {
            Some(j) => {
                if j < a.len() {
                    assert(a[j as int].chunk.cubes == b[j as int].chunk.cubes);
                }
            },
            None => {},
        }
    }
}

/// Whether chunk `k` is a neighbor of `chunk` at a face that the voxel
/// `(x, y, z)` of `chunk` lies on.
pub open spec fn touched(chunk: ChunkView, x: int, y: int, z: int, k: ChunkId) -> bool {
    ||| x == 15 && chunk.neighbor(Direction::Front) == Some(k)
    ||| x == 0 && chunk.neighbor(Direction::Back) == Some(k)
    ||| y == 15 && chunk.neighbor(Direction::Top) == Some(k)
    ||| y == 0 && chunk.neighbor(Direction::Bottom) == Some(k)
    ||| z == 15 && chunk.neighbor(Direction::Left) == Some(k)
    ||| z == 0 && chunk.neighbor(Direction::Right) == Some(k)
}

/// The table after `block` was written to the voxel `(x, y, z)` of chunk
/// `id`: that voxel holds `block`, the chunk is dirty, and so is every
/// neighbor at a face that the voxel lies on. Nothing else has changed: no
/// voxel of a neighbor, no link, no waiting write.
pub open spec fn spec_write_block(
    world: Seq<ChunkCompView>,
    id: int,
    x: int,
    y: int,
    z: int,
    block: Block,
) -> Seq<ChunkCompView> {
    Seq::new(
        world.len(),
        |k: int|
            if k == id {
                with_chunk(world[k], world[k].chunk.with_cube(x, y, z, block).with_dirty(true))
            } else if touched(world[id].chunk, x, y, z, k as ChunkId) {
                with_chunk(world[k], world[k].chunk.with_dirty(true))
            } else {
                world[k]
            },
    )
}

/// The table after the neighbor of chunk `id` in `direction` was marked
/// dirty; the table as it was where the chunk has no neighbor there.
pub open spec fn spec_dirty_neighbor(world: Seq<ChunkCompView>, id: int, direction: Direction) -> Seq<
    ChunkCompView,
> {
    match world[id].chunk.neighbor(direction) {
        Some(j) => if j < world.len() {
            world.update(j as int, with_chunk(world[j as int], world[j as int].chunk.with_dirty(true)))
        } else {
            world
        },
        None => world,
    }
}

/// The chunk `comp`, marked dirty if `mark` holds.
pub open spec fn dirtied_if(comp: ChunkCompView, mark: bool) -> ChunkCompView {
    if mark {
        with_chunk(comp, comp.chunk.with_dirty(true))
    } else {
        comp
    }
}

/// One step of marking neighbors dirty. If the table `now` is `base` with
/// the chunks marked that `marked` names, and chunk `id` is dirty in `base`,
/// then after the neighbor of chunk `id` in `direction` was marked too, where
/// `wanted` holds, the table is `base` with that chunk marked as well.
pub(crate) proof fn lemma_dirty_step(
    base: Seq<ChunkCompView>,
    me: ChunkView,
    marked: spec_fn(int) -> bool,
    now: Seq<ChunkCompView>,
    id: int,
    direction: Direction,
    wanted: bool,
)
    requires
        base.len() <= usize::MAX,
        now.len() == base.len(),
        0 <= id < base.len(),
        base[id].chunk == me,
        me.dirty,
        forall|k: int| 0 <= k < base.len() ==> #[trigger] now[k] == dirtied_if(base[k], marked(k)),
    ensures
        ({
            let next = if wanted {
                spec_dirty_neighbor(now, id, direction)
            } else {
                now
            };
            &&& next.len() == base.len()
            &&& forall|k: int|
                0 <= k < base.len() ==> #[trigger] next[k] == dirtied_if(
                    base[k],
                    marked(k) || (wanted && me.neighbor(direction) == Some(k as ChunkId)),
                )
        }),
{
    assert(now[id] == dirtied_if(base[id], marked(id)));
    assert(now[id].chunk == me);
}

/// The table after `writes` were applied to chunk `id`, oldest first.
pub open spec fn apply_writes(world: Seq<ChunkCompView>, id: int, writes: Seq<BufferedWrite>) -> Seq<
    ChunkCompView,
>
    decreases writes.len(),
{
    if writes.len() == 0 {
        world
    } else {
        let write = writes.last();
        spec_write_block(
            apply_writes(world, id, writes.drop_last()),
            id,
            write.offset.x as int,
            write.offset.y as int,
            write.offset.z as int,
            write.to_write,
        )
    }
}

/// The table after the waiting writes of chunk `id` were applied, oldest
/// first, and taken from the queue.
pub open spec fn spec_apply_buffered_writes(world: Seq<ChunkCompView>, id: int) -> Seq<
    ChunkCompView,
> {
    let applied = apply_writes(world, id, world[id].buffered_writes);
    applied.update(id, ChunkCompView { buffered_writes: Seq::empty(), ..applied[id] })
}

/// Applying writes changes voxels and dirty flags only.
pub proof fn lemma_apply_writes_same_links(
    world: Seq<ChunkCompView>,
    id: int,
    writes: Seq<BufferedWrite>,
)
    requires
        0 <= id < world.len(),
        world[id].chunk.wf(),
        forall|k: int| 0 <= k < writes.len() ==> (#[trigger] writes[k]).offset.spec_is_offset(),
    ensures
        same_links(world, apply_writes(world, id, writes)),
    decreases writes.len(),
{
    if writes.len() > 0 {
        lemma_apply_writes_same_links(world, id, writes.drop_last());
        assert(writes.last().offset.spec_is_offset());
        let before = apply_writes(world, id, writes.drop_last());
        let after = apply_writes(world, id, writes);
        assert forall|k: int| 0 <= k < world.len() implies {
            &&& (#[trigger] world[k]).chunk.pos == after[k].chunk.pos
            &&& world[k].chunk.neighbors == after[k].chunk.neighbors
            &&& world[k].chunk.cubes.len() == after[k].chunk.cubes.len()
            &&& world[k].buffered_writes == after[k].buffered_writes
        } by {
            assert(before[k].chunk.pos == world[k].chunk.pos);
        }
    }
}

/// Applying writes keeps the number of chunks.
pub proof fn lemma_apply_writes_len(world: Seq<ChunkCompView>, id: int, writes: Seq<BufferedWrite>)
    requires
        0 <= id < world.len(),
    ensures
        apply_writes(world, id, writes).len() == world.len(),
    decreases writes.len(),
{
    if writes.len() > 0 {
        lemma_apply_writes_len(world, id, writes.drop_last());
    }
}

/// Applying the waiting writes of a chunk keeps the number of chunks.
pub proof fn lemma_apply_buffered_writes_len(world: Seq<ChunkCompView>, id: int)
    requires
        0 <= id < world.len(),
    ensures
        spec_apply_buffered_writes(world, id).len() == world.len(),
{
    lemma_apply_writes_len(world, id, world[id].buffered_writes);
}

/// The block of the last write in `writes` that goes to the voxel at
/// `offset`, if any write goes there.
pub open spec fn last_write(writes: Seq<BufferedWrite>, offset: IVec3) -> Option<Block>
    decreases writes.len(),
{
    if writes.len() == 0 {
        None
    } else if writes.last().offset == offset {
        Some(writes.last().to_write)
    } else {
        last_write(writes.drop_last(), offset)
    }
}

/// The last write wins. After writes were applied to a chunk, each of its
/// voxels holds the block of the last write that went to it, and a voxel to
/// which none went holds what it held.
pub proof fn lemma_last_write_wins(
    world: Seq<ChunkCompView>,
    id: int,
    writes: Seq<BufferedWrite>,
    offset: IVec3,
)
    requires
        0 <= id < world.len(),
        world[id].chunk.wf(),
        offset.spec_is_offset(),
        forall|k: int| 0 <= k < writes.len() ==> (#[trigger] writes[k]).offset.spec_is_offset(),
    ensures
        apply_writes(world, id, writes)[id].chunk.cube(
            offset.x as int,
            offset.y as int,
            offset.z as int,
        ) == match last_write(writes, offset) {
            Some(block) => block,
            None => world[id].chunk.cube(offset.x as int, offset.y as int, offset.z as int),
        },
    decreases writes.len(),
{
    if writes.len() > 0 {
        let write = writes.last();
        assert(write.offset.spec_is_offset());
        lemma_last_write_wins(world, id, writes.drop_last(), offset);
        lemma_apply_writes_same_links(world, id, writes.drop_last());
        let before = apply_writes(world, id, writes.drop_last());
        assert(before.len() == world.len());
        assert(before[id].chunk.cubes.len() == 4096) by {
            assert(world[id].chunk.cubes.len() == before[id].chunk.cubes.len());
        }
        if write.offset != offset {
            assert(cube_index(write.offset.x as int, write.offset.y as int, write.offset.z as int)
                != cube_index(offset.x as int, offset.y as int, offset.z as int));
        }
    }
}

/// The offset of the voxel that stands at place `i` among a chunk's voxels.
pub open spec fn offset_of_index(i: int) -> IVec3 {
    IVec3 { x: (i / 256) as i32, y: (i / 16 % 16) as i32, z: (i % 16) as i32 }
}

/// The writes that come of `results`, where `results[i]` is what was decided
/// for the voxel at place `i`: a write of the block where it is `Some`, in
/// the order of the voxels.
pub open spec fn writes_of(results: Seq<Option<Block>>) -> Seq<BufferedWrite>
    decreases results.len(),
{
    if results.len() == 0 {
        Seq::empty()
    } else {
        let rest = writes_of(results.drop_last());
        match results.last() {
            Some(block) => rest.push(
                BufferedWrite { offset: offset_of_index(results.len() - 1), to_write: block },
            ),
            None => rest,
        }
    }
}

/// Every write of `writes_of` goes to a voxel inside the chunk.
pub proof fn lemma_writes_of_inside(results: Seq<Option<Block>>)
    requires
        results.len() <= 4096,
    ensures
        forall|k: int|
            0 <= k < writes_of(results).len() ==> (#[trigger] writes_of(
                results,
            )[k]).offset.spec_is_offset(),
    decreases results.len(),
{
    if results.len() > 0 {
        lemma_writes_of_inside(results.drop_last());
    }
}

/// Whether `beside` holds the six voxels beside the voxel at place `i` of
/// `chunk`, as `chunk` sees them.
pub open spec fn is_beside(
    beside: Seq<Option<Block>>,
    chunk: ChunkView,
    world: Seq<ChunkCompView>,
    i: int,
) -> bool {
    &&& beside.len() == 6
    &&& forall|direction: Direction| #[trigger]
        beside[direction.spec_index()] == spec_block_beside(
            chunk,
            world,
            i / 256,
            i / 16 % 16,
            i % 16,
            direction,
        )
}

/// Whether `answer` is what `function` gave for the voxel at place `i` of
/// `chunk` and the six voxels beside it.
pub open spec fn answered<F: Fn(&Block, [Option<Block>; 6]) -> Option<Block>>(
    function: F,
    chunk: ChunkView,
    world: Seq<ChunkCompView>,
    i: int,
    answer: Option<Block>,
) -> bool {
    exists|beside: [Option<Block>; 6]|
        is_beside(beside@, chunk, world, i) && #[trigger] call_ensures(
            function,
            (&chunk.cubes[i], beside),
            answer,
        )
}

/// The table with `writes` added to the queue of chunk `id`.
pub open spec fn with_queued(world: Seq<ChunkCompView>, id: int, writes: Seq<BufferedWrite>) -> Seq<
    ChunkCompView,
> {
    world.update(
        id,
        ChunkCompView { buffered_writes: world[id].buffered_writes + writes, ..world[id] },
    )
}

/// An answer about a voxel is an answer in every table with the same voxels.
pub proof fn lemma_answered_same<F: Fn(&Block, [Option<Block>; 6]) -> Option<Block>>(
    function: F,
    chunk: ChunkView,
    a: Seq<ChunkCompView>,
    b: Seq<ChunkCompView>,
    i: int,
    answer: Option<Block>,
)
    requires
        a.len() == b.len(),
        forall|k: int| 0 <= k < a.len() ==> (#[trigger] a[k]).chunk.cubes == b[k].chunk.cubes,
        answered(function, chunk, a, i, answer),
    ensures
        answered(function, chunk, b, i, answer),
{
    let beside = choose|beside: [Option<Block>; 6]|
        is_beside(beside@, chunk, a, i) && #[trigger] call_ensures(
            function,
            (&chunk.cubes[i], beside),
            answer,
        );
    assert forall|direction: Direction| #[trigger]
        beside@[direction.spec_index()] == spec_block_beside(
            chunk,
            b,
            i / 256,
            i / 16 % 16,
            i % 16,
            direction,
        ) by {
        lemma_same_cubes_same_view(a, b, chunk, direction, i / 256, i / 16 % 16, i % 16);
    }
    assert(is_beside(beside@, chunk, b, i));
}

} // verus!
