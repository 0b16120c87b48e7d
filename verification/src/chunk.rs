//! A chunk: a cube of `CHUNK_SIZE` voxels on each edge, with the flag that
//! says whether its mesh is out of date and the links to the six chunks
//! beside it.

use vstd::prelude::*;
use crate::block::Block;
use crate::direction::Direction;
use crate::codec::{i32_from_le, i32_le, push_i32, push_u32, read_i32, read_u32, u32_from_le, u32_le};
use crate::codec::{lemma_i32_round_trip, lemma_u32_round_trip};
use crate::lz4_block::{compress_block, decompress_block, lz4_block_compressed, lz4_block_decompressed};
use crate::position::{IVec3, split_coordinate, join_coordinate};

verus! {

/// Names a chunk in the table of loaded chunks.
pub type ChunkId = usize;

/// Place of voxel `(x, y, z)` in the sequence of a chunk's voxels.
pub open spec fn cube_index(x: int, y: int, z: int) -> int {
    (x * 16 + y) * 16 + z
}

/// Whether `v` is a coordinate inside a chunk.
pub open spec fn inbounds(v: int) -> bool {
    0 <= v < 16
}

/// What a chunk is, as mathematical values.
pub struct ChunkView {
    /// Position in the grid of chunks.
    pub pos: IVec3,
    /// The voxels, `cube_index` giving each one's place.
    pub cubes: Seq<Block>,
    /// Whether the voxels changed since the mesh was last built.
    pub dirty: bool,
    /// The link to the chunk beside, by `Direction::spec_index`.
    pub neighbors: Seq<Option<ChunkId>>,
}

impl ChunkView {
    /// The voxel at `(x, y, z)`.
    pub open spec fn cube(self, x: int, y: int, z: int) -> Block {
        self.cubes[cube_index(x, y, z)]
    }

    /// The link in `direction`.
    pub open spec fn neighbor(self, direction: Direction) -> Option<ChunkId> {
        self.neighbors[direction.spec_index()]
    }

    /// Every chunk has `CHUNK_VOLUME` voxels and six links.
    pub open spec fn wf(self) -> bool {
        self.cubes.len() == 4096 && self.neighbors.len() == 6
    }

    /// The same chunk without links to neighbors.
    pub open spec fn detached(self) -> ChunkView {
        ChunkView { neighbors: Seq::new(6, |i: int| None::<ChunkId>), ..self }
    }

    /// The same chunk without its links to chunk `id`.
    pub open spec fn without_links_to(self, id: ChunkId) -> ChunkView {
        ChunkView {
            neighbors: Seq::new(
                6,
                |k: int|
                    if self.neighbors[k] == Some(id) {
                        None
                    } else {
                        self.neighbors[k]
                    },
            ),
            ..self
        }
    }

    /// The same chunk with `link` in `direction`.
    pub open spec fn with_neighbor(self, direction: Direction, link: Option<ChunkId>) -> ChunkView {
        ChunkView { neighbors: self.neighbors.update(direction.spec_index(), link), ..self }
    }

    /// The same chunk with the dirty flag at `dirty`.
    pub open spec fn with_dirty(self, dirty: bool) -> ChunkView {
        ChunkView { dirty, ..self }
    }

    /// The same chunk with `block` at `(x, y, z)`.
    pub open spec fn with_cube(self, x: int, y: int, z: int, block: Block) -> ChunkView {
        ChunkView { cubes: self.cubes.update(cube_index(x, y, z), block), ..self }
    }
}

/// A chunk's voxels in compressed form, as it is sent and stored.
pub type CompressedChunk = Vec<u8>;

/// Number of bytes that a chunk takes before it is compressed.
pub const CHUNK_ENCODED_LEN: usize = 16397;

/// Level at which chunks are compressed: the highest.
pub const COMPRESSION_LEVEL: i32 = 12;

/// Why bytes could not be read as a chunk.
#[derive(Clone, Copy, Debug, PartialEq, Eq, Structural)]
pub enum DecodeError {
    /// The bytes are no compressed block.
    Compression,
    /// There are fewer bytes than a chunk takes.
    Truncated,
    /// A voxel holds a number that stands for no block.
    InvalidBlock,
    /// The dirty flag is neither 0 nor 1.
    InvalidFlag,
}

/// The bytes of a position: `x`, `y`, `z`, four bytes each.
pub open spec fn encode_position(pos: IVec3) -> Seq<u8> {
    i32_le(pos.x) + i32_le(pos.y) + i32_le(pos.z)
}

/// The position whose twelve bytes `bytes` starts with.
pub open spec fn decode_position(bytes: Seq<u8>) -> IVec3
    recommends
        bytes.len() >= 12,
{
    IVec3 {
        x: i32_from_le(bytes),
        y: i32_from_le(bytes.skip(4)),
        z: i32_from_le(bytes.skip(8)),
    }
}

/// The bytes of the voxels: for each voxel in turn the four bytes of its tag.
#[verifier::opaque]
pub open spec fn encode_cubes(cubes: Seq<Block>) -> Seq<u8> {
    Seq::new(4 * cubes.len(), |k: int| u32_le(cubes[k / 4].spec_tag())[k % 4])
}

/// The byte of a flag.
pub open spec fn encode_flag(flag: bool) -> Seq<u8> {
    seq![if flag { 1u8 } else { 0u8 }]
}

/// The bytes of a chunk: position, voxels, dirty flag. The links to the
/// neighbors are not part of it.
#[verifier::opaque]
pub open spec fn encode_chunk(chunk: ChunkView) -> Seq<u8> {
    encode_position(chunk.pos) + encode_cubes(chunk.cubes) + encode_flag(chunk.dirty)
}

/// The tag of voxel number `i` in the bytes of a chunk.
pub open spec fn cube_tag_at(bytes: Seq<u8>, i: int) -> u32 {
    u32_from_le(bytes.skip(12 + 4 * i))
}

/// The chunk that `bytes` starts with, or why they hold none. Bytes that
/// follow the chunk are ignored. The chunk has no links to neighbors.
#[verifier::opaque]
pub open spec fn decode_chunk(bytes: Seq<u8>) -> Result<ChunkView, DecodeError> {
    if bytes.len() < 16397 {
        Err(DecodeError::Truncated)
    } else if exists|i: int| 0 <= i < 4096 && Block::spec_from_tag(cube_tag_at(bytes, i)) is None {
        Err(DecodeError::InvalidBlock)
    } else if bytes[16396] > 1 {
        Err(DecodeError::InvalidFlag)
    } else {
        Ok(
            ChunkView {
                pos: decode_position(bytes),
                cubes: Seq::new(4096, |i: int| Block::spec_from_tag(cube_tag_at(bytes, i))->0),
                dirty: bytes[16396] == 1,
                neighbors: Seq::new(6, |i: int| None::<ChunkId>),
            },
        )
    }
}

/// The chunk that the compressed bytes `packed` hold, or why they hold none.
pub open spec fn decode_compressed(packed: Seq<u8>) -> Result<ChunkView, DecodeError> {
    match lz4_block_decompressed(packed) {
        None => Err(DecodeError::Compression),
        Some(raw) => decode_chunk(raw),
    }
}

/// Reading the bytes of a chunk gives the chunk back, but for its links,
/// whatever follows these bytes.
pub proof fn lemma_decode_encode(chunk: ChunkView, tail: Seq<u8>)
    requires
        chunk.wf(),
    ensures
        encode_chunk(chunk).len() == 16397,
        decode_chunk(encode_chunk(chunk) + tail) == Ok::<ChunkView, DecodeError>(chunk.detached()),
{
    reveal(encode_cubes);
    reveal(encode_chunk);
    reveal(decode_chunk);
    let bytes = encode_chunk(chunk) + tail;
    lemma_i32_round_trip(chunk.pos.x, seq![]);
    lemma_i32_round_trip(chunk.pos.y, seq![]);
    lemma_i32_round_trip(chunk.pos.z, seq![]);
    assert(bytes.len() >= 16397);
    assert forall|i: int| 0 <= i < 4096 implies cube_tag_at(bytes, i) == chunk.cubes[i].spec_tag() by {
        lemma_tag_in_encoding(chunk, tail, i);
    }
    assert forall|i: int| 0 <= i < 4096 implies Block::spec_from_tag(cube_tag_at(bytes, i))
        == Some(chunk.cubes[i]) by {
        Block::lemma_tag_round_trip(chunk.cubes[i], 0);
    }
    let decoded = decode_chunk(bytes);
    assert(decoded is Ok);
    assert(decoded->Ok_0.cubes =~= chunk.cubes);
    let x = i32_le(chunk.pos.x);
    let y = i32_le(chunk.pos.y);
    let z = i32_le(chunk.pos.z);
    assert(i32_from_le(bytes) == chunk.pos.x) by {
        assert(bytes[0] == x[0] && bytes[1] == x[1] && bytes[2] == x[2] && bytes[3] == x[3]);
    }
    assert(i32_from_le(bytes.skip(4)) == chunk.pos.y) by {
        let s = bytes.skip(4);
        assert(s[0] == y[0] && s[1] == y[1] && s[2] == y[2] && s[3] == y[3]);
    }
    assert(i32_from_le(bytes.skip(8)) == chunk.pos.z) by {
        let s = bytes.skip(8);
        assert(s[0] == z[0] && s[1] == z[1] && s[2] == z[2] && s[3] == z[3]);
    }
    assert(decoded->Ok_0.neighbors =~= chunk.detached().neighbors);
}

/// Voxel `i` stands at its place in the bytes of a chunk.
proof fn lemma_tag_in_encoding(chunk: ChunkView, tail: Seq<u8>, i: int)
    requires
        chunk.wf(),
        0 <= i < 4096,
    ensures
        cube_tag_at(encode_chunk(chunk) + tail, i) == chunk.cubes[i].spec_tag(),
{
    reveal(encode_cubes);
    reveal(encode_chunk);
    let bytes = encode_chunk(chunk) + tail;
    let s = bytes.skip(12 + 4 * i);
    let t = u32_le(chunk.cubes[i].spec_tag());
    lemma_u32_round_trip(chunk.cubes[i].spec_tag(), seq![]);
    lemma_i32_round_trip(chunk.pos.x, seq![]);
    lemma_i32_round_trip(chunk.pos.y, seq![]);
    lemma_i32_round_trip(chunk.pos.z, seq![]);
    let cubes = encode_cubes(chunk.cubes);
    assert forall|j: int| 0 <= j < 4 implies s[j] == t[j] by {
        assert(s[j] == bytes[12 + 4 * i + j]);
        assert(bytes[12 + 4 * i + j] == cubes[4 * i + j]);
        assert((4 * i + j) / 4 == i);
        assert((4 * i + j) % 4 == j);
    }
    assert(s[0] == t[0] && s[1] == t[1] && s[2] == t[2] && s[3] == t[3]);
}

/// A cube of voxels with its place in the grid of chunks.
#[derive(Clone, Debug)]
pub struct Chunk {
    pos: IVec3,
    cubes: [Block; 4096],
    dirty: bool,
    neighbors: [Option<ChunkId>; 6],
}

impl View for Chunk {
    type V = ChunkView;

    closed spec fn view(&self) -> ChunkView {
        ChunkView {
            pos: self.pos,
            cubes: self.cubes@,
            dirty: self.dirty,
            neighbors: self.neighbors@,
        }
    }
}

impl Default for Chunk {
    /// A chunk of air at the origin, clean and without neighbors.
    fn default() -> (chunk: Chunk)
        ensures
            chunk@.wf(),
            chunk@.pos == (IVec3 { x: 0, y: 0, z: 0 }),
            chunk@.cubes == Seq::new(4096, |i: int| Block::Air),
            !chunk@.dirty,
            chunk@.neighbors == Seq::new(6, |i: int| None::<ChunkId>),
    {
        Chunk::new()
    }
}

impl Chunk {
    /// A chunk of air at the origin, clean and without neighbors.
    pub fn new() -> (chunk: Chunk)
        ensures
            chunk@.wf(),
            chunk@.pos == (IVec3 { x: 0, y: 0, z: 0 }),
            chunk@.cubes == Seq::new(4096, |i: int| Block::Air),
            !chunk@.dirty,
            chunk@.neighbors == Seq::new(6, |i: int| None::<ChunkId>),
    {
        let cubes: [Block; 4096] = vstd::array::array_fill_for_copy_types(Block::Air);
        let chunk = Chunk {
            pos: IVec3::zero(),
            cubes,
            dirty: false,
            neighbors: [None, None, None, None, None, None],
        };
        assert(chunk@.cubes =~= Seq::new(4096, |i: int| Block::Air));
        assert(chunk@.neighbors =~= Seq::new(6, |i: int| None::<ChunkId>));
        chunk
    }

    /// Position in the grid of chunks.
    pub fn pos(&self) -> (pos: IVec3)
        ensures
            pos == self@.pos,
    {
        self.pos
    }

    /// Whether the voxels changed since the mesh was last built.
    pub fn dirty(&self) -> (dirty: bool)
        ensures
            dirty == self@.dirty,
    {
        self.dirty
    }

    /// Moves the chunk to `pos` in the grid of chunks.
    pub fn set_pos(&mut self, pos: IVec3)
        ensures
            final(self)@ == (ChunkView { pos, ..old(self)@ }),
    {
        self.pos = pos;
    }

    /// Sets or clears the dirty flag.
    pub fn set_dirty(&mut self, dirty: bool)
        ensures
            final(self)@ == old(self)@.with_dirty(dirty),
    {
        self.dirty = dirty;
    }

    /// The voxel at `(x, y, z)` of this chunk.
    pub fn cube(&self, x: usize, y: usize, z: usize) -> (block: Block)
        requires
            x < 16,
            y < 16,
            z < 16,
        ensures
            block == self@.cube(x as int, y as int, z as int),
    {
        self.cubes[(x * 16 + y) * 16 + z]
    }

    /// Stores `block` at `(x, y, z)` and changes nothing else, not even the
    /// dirty flag.
    pub fn set_cube(&mut self, x: usize, y: usize, z: usize, block: Block)
        requires
            x < 16,
            y < 16,
            z < 16,
        ensures
            final(self)@ == old(self)@.with_cube(x as int, y as int, z as int, block),
    {
        self.cubes[(x * 16 + y) * 16 + z] = block;
    }

    /// Drops the links to all neighbors.
    pub fn detach(&mut self)
        ensures
            final(self)@ == old(self)@.detached(),
    {
        self.neighbors = [None, None, None, None, None, None];
        assert(self@.neighbors =~= old(self)@.detached().neighbors);
    }

    /// Sets the link in `direction`. The chunk on the other side keeps its
    /// own link: the table of loaded chunks sets both.
    pub(crate) fn set_neighbor(&mut self, direction: Direction, link: Option<ChunkId>)
        ensures
            final(self)@ == old(self)@.with_neighbor(direction, link),
    {
        self.neighbors[direction.index()] = link;
    }

    /// The link in `direction`.
    pub fn neighbor(&self, direction: Direction) -> (link: Option<ChunkId>)
        ensures
            link == self@.neighbor(direction),
    {
        self.neighbors[direction.index()]
    }

    /// Every chunk has `CHUNK_VOLUME` voxels and six links.
    pub proof fn lemma_wf(&self)
        ensures
            self@.wf(),
    {
    }

    /// The bytes of this chunk before compression.
    pub fn encode(&self) -> (bytes: Vec<u8>)
        ensures
            bytes@ == encode_chunk(self@),
            bytes@.len() == CHUNK_ENCODED_LEN,
    {
        proof {
            reveal(encode_cubes);
        }
        let mut out: Vec<u8> = Vec::with_capacity(CHUNK_ENCODED_LEN);
        push_i32(&mut out, self.pos.x);
        push_i32(&mut out, self.pos.y);
        push_i32(&mut out, self.pos.z);
        proof {
            lemma_i32_round_trip(self.pos.x, seq![]);
            lemma_i32_round_trip(self.pos.y, seq![]);
            lemma_i32_round_trip(self.pos.z, seq![]);
        }
        let mut i: usize = 0;
        while i < 4096
            invariant
                i <= 4096,
                out@ == encode_position(self.pos) + encode_cubes(self.cubes@.take(i as int)),
                out@.len() == 12 + 4 * i,
            decreases 4096 - i,
        {
            let tag = self.cubes[i].tag();
            push_u32(&mut out, tag);
            proof {
                reveal(encode_cubes);
                lemma_u32_round_trip(tag, seq![]);
                let head = self.cubes@.take(i as int);
                let next = self.cubes@.take(i + 1);
                assert(encode_cubes(next) =~= encode_cubes(head) + u32_le(tag)) by {
                    assert forall|k: int| 0 <= k < 4 * (i + 1) implies encode_cubes(next)[k] == (
                    encode_cubes(head) + u32_le(tag))[k] by {
                        if k < 4 * i {
                            assert(k / 4 < i);
                        } else {
                            assert(k / 4 == i);
                            assert(k % 4 == k - 4 * i);
                        }
                    }
                }
                assert(out@ =~= encode_position(self.pos) + encode_cubes(next));
            }
            i += 1;
        }
        out.push(if self.dirty { 1u8 } else { 0u8 });
        proof {
            reveal(encode_chunk);
            assert(self.cubes@.take(4096) =~= self.cubes@);
            assert(out@ =~= encode_chunk(self@));
        }
        out
    }

    /// The chunk that `bytes` starts with; bytes that follow it are ignored.
    /// The chunk has no links.
    pub fn decode(bytes: &Vec<u8>) -> (r: Result<Chunk, DecodeError>)
        ensures
            match r {
                Ok(chunk) => decode_chunk(bytes@) == Ok::<ChunkView, DecodeError>(chunk@) && chunk@
                    == chunk@.detached(),
                Err(e) => decode_chunk(bytes@) == Err::<ChunkView, DecodeError>(e),
            },
    {
        proof {
            reveal(decode_chunk);
        }
        if bytes.len() < CHUNK_ENCODED_LEN {
            return Err(DecodeError::Truncated);
        }
        let x = read_i32(bytes, 0);
        let y = read_i32(bytes, 4);
        let z = read_i32(bytes, 8);
        assert(bytes@.skip(0) =~= bytes@);
        let mut cubes: [Block; 4096] = vstd::array::array_fill_for_copy_types(Block::Air);
        let mut i: usize = 0;
        while i < 4096
            invariant
                i <= 4096,
                bytes.len() >= 16397,
                forall|k: int|
                    0 <= k < i ==> Block::spec_from_tag(#[trigger] cube_tag_at(bytes@, k)) == Some(
                        cubes@[k],
                    ),
            decreases 4096 - i,
        {
            proof {
                reveal(decode_chunk);
            }
            let tag = read_u32(bytes, 12 + 4 * i);
            match Block::from_tag(tag) {
                Some(block) => {
                    cubes[i] = block;
                },
                None => {
                    assert(Block::spec_from_tag(cube_tag_at(bytes@, i as int)) is None);
                    return Err(DecodeError::InvalidBlock);
                },
            }
            i += 1;
        }
        let flag = bytes[16396];
        if flag > 1 {
            return Err(DecodeError::InvalidFlag);
        }
        let chunk = Chunk {
            pos: IVec3 { x, y, z },
            cubes,
            dirty: flag == 1,
            neighbors: [None, None, None, None, None, None],
        };
        proof {
            let decoded = decode_chunk(bytes@);
            assert(decoded is Ok);
            assert(decoded->Ok_0.cubes =~= chunk@.cubes);
            assert(decoded->Ok_0.neighbors =~= chunk@.neighbors);
            assert(chunk@.detached().neighbors =~= chunk@.neighbors);
        }
        Ok(chunk)
    }

    /// The compressed form of this chunk: its bytes, block-compressed. It is
    /// read back as this chunk, but for the links to the neighbors.
    pub fn compress(&self) -> (packed: CompressedChunk)
        ensures
            packed@ == lz4_block_compressed(encode_chunk(self@), COMPRESSION_LEVEL as int),
            decode_compressed(packed@) == Ok::<ChunkView, DecodeError>(self@.detached()),
    {
        let raw = self.encode();
        proof {
            lemma_decode_encode(self@, seq![]);
            assert(raw@ + Seq::<u8>::empty() =~= raw@);
        }
        compress_block(&raw, COMPRESSION_LEVEL).unwrap()
    }

    /// Reads a chunk from its compressed form. The chunk has no links.
    pub fn from_compressed(bytes: &CompressedChunk) -> (r: Result<Chunk, DecodeError>)
        ensures
            match r {
                Ok(chunk) => decode_compressed(bytes@) == Ok::<ChunkView, DecodeError>(chunk@)
                    && chunk@ == chunk@.detached(),
                Err(e) => decode_compressed(bytes@) == Err::<ChunkView, DecodeError>(e),
            },
    {
        match decompress_block(bytes) {
            None => Err(DecodeError::Compression),
            Some(raw) => Chunk::decode(&raw),
        }
    }

    /// Splits a world position into the position of the chunk that holds it
    /// and the offset inside that chunk. Chunk coordinates are rounded down,
    /// so the offset is never negative, also where the world position is.
    pub fn i_world_to_chunk(pos: IVec3) -> (r: (IVec3, IVec3))
        ensures
            r.0 == pos.spec_chunk_pos(),
            r.1 == pos.spec_chunk_offset(),
            r.1.spec_is_offset(),
            r.0.spec_world_pos(r.1) == pos.ints(),
    {
        let (cx, ox) = split_coordinate(pos.x);
        let (cy, oy) = split_coordinate(pos.y);
        let (cz, oz) = split_coordinate(pos.z);
        (IVec3 { x: cx, y: cy, z: cz }, IVec3 { x: ox, y: oy, z: oz })
    }

    /// The world position at `offset` inside the chunk at `chunk_pos`; `None`
    /// where that position has a coordinate that no `i32` holds.
    pub fn chunk_to_world(chunk_pos: IVec3, offset: IVec3) -> (pos: Option<IVec3>)
        ensures
            match pos {
                Some(p) => p.ints() == chunk_pos.spec_world_pos(offset),
                None => {
                    let w = chunk_pos.spec_world_pos(offset);
                    !(i32::MIN <= w.0 <= i32::MAX && i32::MIN <= w.1 <= i32::MAX && i32::MIN
                        <= w.2 <= i32::MAX)
                },
            },
    {
        let x = join_coordinate(chunk_pos.x, offset.x);
        let y = join_coordinate(chunk_pos.y, offset.y);
        let z = join_coordinate(chunk_pos.z, offset.z);
        match (x, y, z) {
            (Some(x), Some(y), Some(z)) => Some(IVec3 { x, y, z }),
            _ => None,
        }
    }
}

} // verus!
