//! Greedy meshing: the faces of a chunk that can be seen are merged into
//! rectangles, and each rectangle becomes one quad of the mesh.

use vstd::prelude::*;
use crate::block::Block;
use crate::chunk::{Chunk, ChunkView, cube_index};
use crate::direction::Direction;
use crate::loaded_chunks::LoadedChunks;
use crate::position::IVec3;
use crate::world::{ChunkCompView, lemma_same_cubes_same_view, neighbor_cube, resolve};
use crate::world::spec_block_beside;

verus! {

/// A mesh, as the lists that the renderer takes. Every quad adds four
/// entries to each list of vertices and six to the list of indices.
#[derive(Clone, Debug)]
pub struct MeshDescription {
    /// Corner positions, in voxels from the chunk's origin.
    pub verts: Vec<IVec3>,
    /// For each corner the direction in which its face looks.
    pub true_normals: Vec<IVec3>,
    /// For each corner the code of its side, as the shader takes it.
    pub normals: Vec<[u8; 2]>,
    /// For each corner its place in the texture, in voxels, so that the
    /// texture repeats once per voxel.
    pub uvs: Vec<[u8; 2]>,
    /// For each corner the layer of the texture atlas.
    pub texture_indices: Vec<u32>,
    /// Triangles, three indices into the corners each.
    pub vert_indicies: Vec<usize>,
}

/// A mesh as mathematical values.
pub struct MeshView {
    pub verts: Seq<IVec3>,
    pub true_normals: Seq<IVec3>,
    pub normals: Seq<[u8; 2]>,
    pub uvs: Seq<[u8; 2]>,
    pub texture_indices: Seq<u32>,
    pub vert_indicies: Seq<usize>,
}

impl View for MeshDescription {
    type V = MeshView;

    open spec fn view(&self) -> MeshView {
        MeshView {
            verts: self.verts@,
            true_normals: self.true_normals@,
            normals: self.normals@,
            uvs: self.uvs@,
            texture_indices: self.texture_indices@,
            vert_indicies: self.vert_indicies@,
        }
    }
}

/// One slice of a chunk, seen from one side: for each place `(x, y)` of the
/// slice the block whose face can be seen there, and air where none can.
#[derive(Clone, Copy)]
pub struct Sheet {
    pub blocks: [Block; 256],
}

impl View for Sheet {
    type V = Seq<Block>;

    open spec fn view(&self) -> Seq<Block> {
        self.blocks@
    }
}

/// A rectangle of a sheet that becomes one quad.
pub struct Rect {
    pub x: int,
    pub y: int,
    pub width: int,
    pub height: int,
    pub block: Block,
}

impl Rect {
    /// Whether the place `(u, v)` lies in this rectangle.
    pub open spec fn contains(self, u: int, v: int) -> bool {
        self.x <= u < self.x + self.width && self.y <= v < self.y + self.height
    }
}

/// Place of `(x, y)` in the sequence of a sheet.
pub open spec fn cell(x: int, y: int) -> int {
    x * 16 + y
}

/// The mesh without a quad.
pub open spec fn empty_mesh() -> MeshView {
    MeshView {
        verts: Seq::empty(),
        true_normals: Seq::empty(),
        normals: Seq::empty(),
        uvs: Seq::empty(),
        texture_indices: Seq::empty(),
        vert_indicies: Seq::empty(),
    }
}

/// The direction in which a face on the side `direction` looks.
pub open spec fn face_normal(direction: Direction) -> IVec3 {
    let step = direction.spec_offset();
    IVec3 { x: step.0 as i32, y: step.1 as i32, z: step.2 as i32 }
}

/// The code of a side with normal `normal`, as the shader takes it: 1 and 2
/// for the sides that look up and down the x axis, 3 and 4 for those of the
/// y axis, 5 and 6 for those of the z axis; 0 for a normal that looks
/// nowhere.
pub open spec fn coarse_normal(normal: IVec3) -> [u8; 2] {
    if normal.x > 0 {
        [0u8, 1u8]
    } else if normal.x < 0 {
        [0u8, 2u8]
    } else if normal.y > 0 {
        [0u8, 3u8]
    } else if normal.y < 0 {
        [0u8, 4u8]
    } else if normal.z > 0 {
        [0u8, 5u8]
    } else if normal.z < 0 {
        [0u8, 6u8]
    } else {
        [0u8, 0u8]
    }
}

/// The code of the side `direction`: front 1, back 2, top 3, bottom 4, left
/// 5, right 6.
pub open spec fn side_code(direction: Direction) -> u8 {
    match direction {
        Direction::Front => 1,
        Direction::Back => 2,
        Direction::Top => 3,
        Direction::Bottom => 4,
        Direction::Left => 5,
        Direction::Right => 6,
    }
}

/// Every side has a code of its own: the code of a side is `[0, c]` with
/// `c` its `side_code`, and two different sides have different codes.
pub proof fn lemma_coarse_normal_per_side(direction: Direction, other: Direction)
    ensures
        coarse_normal(face_normal(direction))@ == seq![0u8, side_code(direction)],
        direction != other ==> coarse_normal(face_normal(direction)) != coarse_normal(
            face_normal(other),
        ),
{
    let a = coarse_normal(face_normal(direction));
    let b = coarse_normal(face_normal(other));
    assert(a@ =~= seq![0u8, side_code(direction)]);
    assert(b@ =~= seq![0u8, side_code(other)]);
    if direction != other {
        assert(side_code(direction) != side_code(other));
        assert(a@[1] != b@[1]);
    }
}

/// The four corners of the quad for the rectangle at `(x, y)` of size
/// `width` by `height` in slice `z` of the side `direction`. The corners go
/// round the quad so that it is seen from outside.
pub open spec fn quad_verts(direction: Direction, x: int, y: int, z: int, width: int, height: int) -> Seq<
    IVec3,
> {
    let corner = |a: int, b: int, c: int| IVec3 { x: a as i32, y: b as i32, z: c as i32 };
    match direction {
        Direction::Front => seq![
            corner(z + 1, y, width + x),
            corner(z + 1, y, x),
            corner(z + 1, height + y, x),
            corner(z + 1, height + y, width + x),
        ],
        Direction::Back => seq![
            corner(z, y, x),
            corner(z, y, width + x),
            corner(z, height + y, width + x),
            corner(z, height + y, x),
        ],
        Direction::Left => seq![
            corner(x, y, z + 1),
            corner(width + x, y, z + 1),
            corner(width + x, height + y, z + 1),
            corner(x, height + y, z + 1),
        ],
        Direction::Right => seq![
            corner(width + x, y, z),
            corner(x, y, z),
            corner(x, height + y, z),
            corner(width + x, height + y, z),
        ],
        Direction::Top => seq![
            corner(x, z + 1, height + y),
            corner(width + x, z + 1, height + y),
            corner(width + x, z + 1, y),
            corner(x, z + 1, y),
        ],
        Direction::Bottom => seq![
            corner(x, z, y),
            corner(width + x, z, y),
            corner(width + x, z, height + y),
            corner(x, z, height + y),
        ],
    }
}

/// The mesh `mesh` with the quad for `rect` in slice `z` of the side
/// `direction`: four corners, each with the normal of the side, its code,
/// the texture layer of the block on that side and its place in the
/// texture, which grows with the rectangle; and the two triangles 0-1-2 and
/// 0-2-3 over the new corners.
pub open spec fn append_quad(mesh: MeshView, rect: Rect, direction: Direction, z: int) -> MeshView {
    let first = mesh.verts.len();
    let normal = face_normal(direction);
    let code = coarse_normal(normal);
    let layer = rect.block.spec_face_index(direction);
    let (w, h) = (rect.width as u8, rect.height as u8);
    MeshView {
        verts: mesh.verts + quad_verts(direction, rect.x, rect.y, z, rect.width, rect.height),
        true_normals: mesh.true_normals + seq![normal, normal, normal, normal],
        normals: mesh.normals + seq![code, code, code, code],
        uvs: mesh.uvs + seq![[0u8, h], [w, h], [w, 0u8], [0u8, 0u8]],
        texture_indices: mesh.texture_indices + seq![layer, layer, layer, layer],
        vert_indicies: mesh.vert_indicies + seq![
            first as usize,
            (first + 1) as usize,
            (first + 2) as usize,
            first as usize,
            (first + 2) as usize,
            (first + 3) as usize,
        ],
    }
}

/// The mesh `mesh` with the quads for `rects`, in their order.
pub open spec fn append_rects(mesh: MeshView, rects: Seq<Rect>, direction: Direction, z: int) -> MeshView
    decreases rects.len(),
{
    if rects.len() == 0 {
        mesh
    } else {
        append_quad(append_rects(mesh, rects.drop_last(), direction, z), rects.last(), direction, z)
    }
}

/// Whether the place `(u, v)` of the sheet can join a rectangle of block
/// `start`: it holds that block and no rectangle covers it yet.
pub open spec fn joins(sheet: Seq<Block>, finished: Seq<bool>, start: Block, u: int, v: int) -> bool {
    sheet[cell(u, v)] == start && !finished[cell(u, v)]
}

/// The width to which a rectangle at `(x, y)` grows that is `width` wide so
/// far: it takes place after place along `x` for as long as the next one
/// joins.
pub open spec fn grow_width(sheet: Seq<Block>, finished: Seq<bool>, x: int, y: int, width: int) -> int
    decreases 16 - (x + width),
{
    if x + width < 16 && joins(sheet, finished, sheet[cell(x, y)], x + width, y) {
        grow_width(sheet, finished, x, y, width + 1)
    } else {
        width
    }
}

/// Whether row `v` joins a rectangle of block `start` over all of its width.
pub open spec fn row_joins(
    sheet: Seq<Block>,
    finished: Seq<bool>,
    start: Block,
    x: int,
    width: int,
    v: int,
) -> bool {
    forall|u: int| x <= u < x + width ==> joins(sheet, finished, start, u, v)
}

/// The height to which a rectangle at `(x, y)` of width `width` grows that
/// is `height` high so far: it takes row after row along `y` for as long as
/// the next one joins over all of the width.
pub open spec fn grow_height(
    sheet: Seq<Block>,
    finished: Seq<bool>,
    x: int,
    y: int,
    width: int,
    height: int,
) -> int
    decreases 16 - (y + height),
{
    if y + height < 16 && row_joins(sheet, finished, sheet[cell(x, y)], x, width, y + height) {
        grow_height(sheet, finished, x, y, width, height + 1)
    } else {
        height
    }
}

/// The rectangle that starts at `(x, y)`: grown in width first, then in
/// height.
pub open spec fn rect_at(sheet: Seq<Block>, finished: Seq<bool>, x: int, y: int) -> Rect {
    let width = grow_width(sheet, finished, x, y, 1);
    Rect {
        x,
        y,
        width,
        height: grow_height(sheet, finished, x, y, width, 1),
        block: sheet[cell(x, y)],
    }
}

/// The places that are covered once `rect` is.
pub open spec fn mark(finished: Seq<bool>, rect: Rect) -> Seq<bool> {
    Seq::new(256, |k: int| finished[k] || rect.contains(k / 16, k % 16))
}

/// The rectangles that the scan makes from place `k` on, in the order of
/// the places: at each place that no rectangle covers yet it starts a new
/// one.
pub open spec fn scan(sheet: Seq<Block>, finished: Seq<bool>, k: int) -> Seq<Rect>
    decreases 256 - k,
{
    if k >= 256 || k < 0 {
        Seq::empty()
    } else if finished[k] {
        scan(sheet, finished, k + 1)
    } else {
        let rect = rect_at(sheet, finished, k / 16, k % 16);
        seq![rect] + scan(sheet, mark(finished, rect), k + 1)
    }
}

/// The places of a sheet that need no rectangle: those that hold air.
pub open spec fn initial_finished(sheet: Seq<Block>) -> Seq<bool> {
    Seq::new(256, |k: int| !sheet[k].spec_is_filled())
}

/// The rectangles into which the greedy scan merges the blocks of a sheet.
pub open spec fn greedy_rects(sheet: Seq<Block>) -> Seq<Rect> {
    scan(sheet, initial_finished(sheet), 0)
}

impl Default for MeshDescription {
    /// The mesh without a quad.
    fn default() -> (mesh: MeshDescription)
        ensures
            mesh@ == empty_mesh(),
    {
        MeshDescription::new()
    }
}

impl Default for Sheet {
    /// A sheet of air.
    fn default() -> (sheet: Sheet)
        ensures
            sheet@ == Seq::new(256, |k: int| Block::Air),
    {
        let sheet = Sheet { blocks: [Block::Air; 256] };
        assert(sheet@ =~= Seq::new(256, |k: int| Block::Air));
        sheet
    }
}

impl MeshDescription {
    /// The mesh without a quad.
    pub fn new() -> (mesh: MeshDescription)
        ensures
            mesh@ == empty_mesh(),
    {
        MeshDescription {
            verts: Vec::new(),
            true_normals: Vec::new(),
            normals: Vec::new(),
            uvs: Vec::new(),
            texture_indices: Vec::new(),
            vert_indicies: Vec::new(),
        }
    }

    /// Number of quads in a mesh that was built quad by quad.
    pub fn quad_count(&self) -> (n: usize)
        ensures
            n == self@.verts.len() / 4,
    {
        self.verts.len() / 4
    }
}

/// The direction in which a face on the side `direction` looks.
pub fn true_normal(direction: Direction) -> (normal: IVec3)
    ensures
        normal == face_normal(direction),
{
    let step = direction.offset();
    IVec3 { x: step.0, y: step.1, z: step.2 }
}

/// The code of a side with normal `normal`, as the shader takes it.
pub fn coarse_normal_code(normal: IVec3) -> (code: [u8; 2])
    ensures
        code == coarse_normal(normal),
{
    if normal.x > 0 {
        [0, 1]
    } else if normal.x < 0 {
        [0, 2]
    } else if normal.y > 0 {
        [0, 3]
    } else if normal.y < 0 {
        [0, 4]
    } else if normal.z > 0 {
        [0, 5]
    } else if normal.z < 0 {
        [0, 6]
    } else {
        [0, 0]
    }
}

/// Adds to `mesh_description` the quad for the rectangle at `(x, y)` of size
/// `width` by `height` in slice `z` of the side `dir`, for a face of `block`.
pub fn create_greedy_face(
    block: Block,
    dir: Direction,
    x: usize,
    y: usize,
    z: usize,
    width: usize,
    height: usize,
    mesh_description: &mut MeshDescription,
)
    requires
        z < 16,
        x + width <= 16,
        y + height <= 16,
    ensures
        final(mesh_description)@ == append_quad(
            old(mesh_description)@,
            Rect { x: x as int, y: y as int, width: width as int, height: height as int, block },
            dir,
            z as int,
        ),
{
    let (xi, yi, zi) = (x as i32, y as i32, z as i32);
    let (w, h) = (width as i32, height as i32);
    let new_verts: [IVec3; 4] = match dir {
        Direction::Front => [
            IVec3 { x: zi + 1, y: yi, z: w + xi },
            IVec3 { x: zi + 1, y: yi, z: xi },
            IVec3 { x: zi + 1, y: h + yi, z: xi },
            IVec3 { x: zi + 1, y: h + yi, z: w + xi },
        ],
        Direction::Back => [
            IVec3 { x: zi, y: yi, z: xi },
            IVec3 { x: zi, y: yi, z: w + xi },
            IVec3 { x: zi, y: h + yi, z: w + xi },
            IVec3 { x: zi, y: h + yi, z: xi },
        ],
        Direction::Left => [
            IVec3 { x: xi, y: yi, z: zi + 1 },
            IVec3 { x: w + xi, y: yi, z: zi + 1 },
            IVec3 { x: w + xi, y: h + yi, z: zi + 1 },
            IVec3 { x: xi, y: h + yi, z: zi + 1 },
        ],
        Direction::Right => [
            IVec3 { x: w + xi, y: yi, z: zi },
            IVec3 { x: xi, y: yi, z: zi },
            IVec3 { x: xi, y: h + yi, z: zi },
            IVec3 { x: w + xi, y: h + yi, z: zi },
        ],
        Direction::Top => [
            IVec3 { x: xi, y: zi + 1, z: h + yi },
            IVec3 { x: w + xi, y: zi + 1, z: h + yi },
            IVec3 { x: w + xi, y: zi + 1, z: yi },
            IVec3 { x: xi, y: zi + 1, z: yi },
        ],
        Direction::Bottom => [
            IVec3 { x: xi, y: zi, z: yi },
            IVec3 { x: w + xi, y: zi, z: yi },
            IVec3 { x: w + xi, y: zi, z: h + yi },
            IVec3 { x: xi, y: zi, z: h + yi },
        ],
    };
    let normal = true_normal(dir);
    let code = coarse_normal_code(normal);
    let layer = block.get_face_index(dir);
    let (wu, hu) = (width as u8, height as u8);
    let new_uvs: [[u8; 2]; 4] = [[0, hu], [wu, hu], [wu, 0], [0, 0]];
    let vert_start = mesh_description.verts.len();
    let mut i: usize = 0;
    while i < 4
        invariant
            i <= 4,
            vert_start == old(mesh_description)@.verts.len(),
            mesh_description@.verts == old(mesh_description)@.verts + new_verts@.take(i as int),
            mesh_description@.true_normals == old(mesh_description)@.true_normals + Seq::new(
                i as nat,
                |k: int| normal,
            ),
            mesh_description@.normals == old(mesh_description)@.normals + Seq::new(
                i as nat,
                |k: int| code,
            ),
            mesh_description@.uvs == old(mesh_description)@.uvs + new_uvs@.take(i as int),
            mesh_description@.texture_indices == old(mesh_description)@.texture_indices + Seq::new(
                i as nat,
                |k: int| layer,
            ),
            mesh_description@.vert_indicies == old(mesh_description)@.vert_indicies,
        decreases 4 - i,
    {
        mesh_description.verts.push(new_verts[i]);
        mesh_description.true_normals.push(normal);
        mesh_description.normals.push(code);
        mesh_description.uvs.push(new_uvs[i]);
        mesh_description.texture_indices.push(layer);
        i += 1;
    }
    let count = mesh_description.verts.len();
    assert(count == vert_start + 4);
    mesh_description.vert_indicies.push(vert_start);
    mesh_description.vert_indicies.push(vert_start + 1);
    mesh_description.vert_indicies.push(vert_start + 2);
    mesh_description.vert_indicies.push(vert_start);
    mesh_description.vert_indicies.push(vert_start + 2);
    mesh_description.vert_indicies.push(vert_start + 3);
    proof {
        let rect = Rect { x: x as int, y: y as int, width: width as int, height: height as int, block };
        let want = append_quad(old(mesh_description)@, rect, dir, z as int);
        assert(new_verts@.take(4) =~= quad_verts(
            dir,
            x as int,
            y as int,
            z as int,
            width as int,
            height as int,
        ));
        assert(new_uvs@.take(4) =~= seq![[0u8, hu], [wu, hu], [wu, 0u8], [0u8, 0u8]]);
        assert(mesh_description@.verts =~= want.verts);
        assert(mesh_description@.true_normals =~= want.true_normals);
        assert(mesh_description@.normals =~= want.normals);
        assert(mesh_description@.uvs =~= want.uvs);
        assert(mesh_description@.texture_indices =~= want.texture_indices);
        assert(mesh_description@.vert_indicies =~= want.vert_indicies);
    }
}

/// The width of the rectangle that starts at `(x, y)`.
fn rect_width(sheet: &Sheet, finished: &[bool; 256], x: usize, y: usize) -> (width: usize)
    requires
        x < 16,
        y < 16,
    ensures
        width == grow_width(sheet@, finished@, x as int, y as int, 1),
        1 <= width,
        x + width <= 16,
{
    let start = sheet.blocks[x * 16 + y];
    let mut width: usize = 1;
    while x + width < 16 && start == sheet.blocks[(x + width) * 16 + y] && !finished[(x + width) * 16
        + y]
        invariant
            x < 16,
            y < 16,
            1 <= width,
            x + width <= 16,
            start == sheet@[cell(x as int, y as int)],
            grow_width(sheet@, finished@, x as int, y as int, width as int) == grow_width(
                sheet@,
                finished@,
                x as int,
                y as int,
                1,
            ),
        decreases 16 - width,
    {
        width += 1;
    }
    width
}

/// Whether row `v` joins a rectangle of block `start` that lies at `x` and
/// is `width` wide.
fn check_row(sheet: &Sheet, finished: &[bool; 256], start: Block, x: usize, width: usize, v: usize) -> (ok:
    bool)
    requires
        x + width <= 16,
        v < 16,
    ensures
        ok == row_joins(sheet@, finished@, start, x as int, width as int, v as int),
{
    let mut u: usize = x;
    while u < x + width
        invariant
            x <= u <= x + width,
            x + width <= 16,
            v < 16,
            forall|t: int| x <= t < u ==> joins(sheet@, finished@, start, t, v as int),
        decreases x + width - u,
    {
        if start != sheet.blocks[u * 16 + v] || finished[u * 16 + v] {
            assert(!joins(sheet@, finished@, start, u as int, v as int));
            return false;
        }
        u += 1;
    }
    true
}

/// The height of the rectangle that starts at `(x, y)` and is `width` wide.
fn rect_height(sheet: &Sheet, finished: &[bool; 256], x: usize, y: usize, width: usize) -> (height:
    usize)
    requires
        x < 16,
        y < 16,
        1 <= width,
        x + width <= 16,
    ensures
        height == grow_height(sheet@, finished@, x as int, y as int, width as int, 1),
        1 <= height,
        y + height <= 16,
{
    let start = sheet.blocks[x * 16 + y];
    let mut height: usize = 1;
    while y + height < 16
        invariant
            x < 16,
            y < 16,
            1 <= width,
            x + width <= 16,
            1 <= height,
            y + height <= 16,
            start == sheet@[cell(x as int, y as int)],
            grow_height(sheet@, finished@, x as int, y as int, width as int, height as int)
                == grow_height(sheet@, finished@, x as int, y as int, width as int, 1),
        decreases 16 - height,
    {
        if !check_row(sheet, finished, start, x, width, y + height) {
            return height;
        }
        height += 1;
    }
    height
}

/// Marks the places of the rectangle at `(x, y)` of size `width` by `height`
/// as covered.
fn mark_finished(finished: [bool; 256], x: usize, y: usize, width: usize, height: usize) -> (marked:
    [bool; 256])
    requires
        x + width <= 16,
        y + height <= 16,
    ensures
        marked@ == mark(
            finished@,
            Rect {
                x: x as int,
                y: y as int,
                width: width as int,
                height: height as int,
                block: Block::Air,
            },
        ),
{
    let mut marked = finished;
    let mut u: usize = x;
    while u < x + width
        invariant
            x <= u <= x + width,
            x + width <= 16,
            y + height <= 16,
            forall|k: int|
                0 <= k < 256 ==> #[trigger] marked@[k] == (finished@[k] || (x <= k / 16 < u && y <= k
                    % 16 < y + height)),
        decreases x + width - u,
    {
        let mut v: usize = y;
        while v < y + height
            invariant
                x <= u < x + width,
                x + width <= 16,
                y <= v <= y + height,
                y + height <= 16,
                forall|k: int|
                    0 <= k < 256 ==> #[trigger] marked@[k] == (finished@[k] || (x <= k / 16 < u && y
                        <= k % 16 < y + height) || (k / 16 == u && y <= k % 16 < v)),
            decreases y + height - v,
        {
            marked[u * 16 + v] = true;
            v += 1;
        }
        u += 1;
    }
    assert(marked@ =~= mark(
        finished@,
        Rect { x: x as int, y: y as int, width: width as int, height: height as int, block: Block::Air },
    ));
    marked
}

/// Where `mark` is concerned only the place and size of a rectangle count.
proof fn lemma_mark_ignores_block(finished: Seq<bool>, rect: Rect, block: Block)
    ensures
        mark(finished, rect) == mark(finished, Rect { block, ..rect }),
{
    assert(mark(finished, rect) =~= mark(finished, Rect { block, ..rect }));
}

/// Merges the blocks of `sheet`, a slice of the side `dir` at depth `z`, into
/// rectangles and adds the quad of each to `desc`. The sheet is scanned
/// place by place, `x` first. At the first place that holds a block and that
/// no rectangle covers yet a rectangle starts: it grows along `x` for as
/// long as the next place holds the same block and is not covered, and then
/// along `y` for as long as that holds of the whole next row.
pub fn greedy(sheet: &Sheet, dir: Direction, desc: &mut MeshDescription, z: usize)
    requires
        z < 16,
    ensures
        final(desc)@ == append_rects(old(desc)@, greedy_rects(sheet@), dir, z as int),
{
    let mut finished: [bool; 256] = [false; 256];
    let mut k: usize = 0;
    while k < 256
        invariant
            k <= 256,
            forall|i: int| 0 <= i < k ==> #[trigger] finished@[i] == !sheet@[i].spec_is_filled(),
        decreases 256 - k,
    {
        finished[k] = !sheet.blocks[k].is_filled();
        k += 1;
    }
    assert(finished@ =~= initial_finished(sheet@));
    let ghost mut emitted: Seq<Rect> = Seq::empty();
    assert(emitted + scan(sheet@, finished@, 0) =~= greedy_rects(sheet@));
    k = 0;
    while k < 256
        invariant
            k <= 256,
            z < 16,
            emitted + scan(sheet@, finished@, k as int) == greedy_rects(sheet@),
            desc@ == append_rects(old(desc)@, emitted, dir, z as int),
        decreases 256 - k,
    {
        if !finished[k] {
            let x = k / 16;
            let y = k % 16;
            let start = sheet.blocks[k];
            let width = rect_width(sheet, &finished, x, y);
            let height = rect_height(sheet, &finished, x, y, width);
            create_greedy_face(start, dir, x, y, z, width, height, desc);
            let ghost rect = rect_at(sheet@, finished@, x as int, y as int);
            let ghost before = finished@;
            finished = mark_finished(finished, x, y, width, height);
            proof {
                assert(cell(x as int, y as int) == k);
                lemma_mark_ignores_block(before, rect, Block::Air);
                assert(finished@ == mark(before, rect));
                let rest = scan(sheet@, finished@, k + 1);
                assert(scan(sheet@, before, k as int) == seq![rect] + rest);
                assert(emitted.push(rect) + rest =~= emitted + (seq![rect] + rest));
                assert(emitted.push(rect).drop_last() =~= emitted);
                emitted = emitted.push(rect);
            }
        }
        k += 1;
    }
    proof {
        assert(scan(sheet@, finished@, 256) =~= Seq::<Rect>::empty());
        assert(emitted + Seq::<Rect>::empty() =~= emitted);
    }
}

/// The voxel that shows at the place `(u, v)` of slice `s` of the side
/// `direction`. The slices of front and back are cut along `x` and hold `z`
/// and `y`; those of left and right are cut along `z` and hold `x` and `y`;
/// those of top and bottom are cut along `y` and hold `x` and `z`.
pub open spec fn voxel_of(direction: Direction, s: int, u: int, v: int) -> (int, int, int) {
    match direction {
        Direction::Front | Direction::Back => (s, v, u),
        Direction::Left | Direction::Right => (u, v, s),
        Direction::Top | Direction::Bottom => (u, s, v),
    }
}

/// Whether the face of the voxel `(x, y, z)` on the side `direction` can be
/// seen: the voxel is filled, and the voxel beside it on that side is not,
/// or lies in a chunk that is not loaded.
pub open spec fn exposed(
    chunk: ChunkView,
    world: Seq<ChunkCompView>,
    direction: Direction,
    x: int,
    y: int,
    z: int,
) -> bool {
    chunk.cube(x, y, z).spec_is_filled() && match spec_block_beside(chunk, world, x, y, z, direction) {
        Some(beside) => !beside.spec_is_filled(),
        None => true,
    }
}

/// Slice `s` of the side `direction`: at each place the block whose face can
/// be seen there, and air where none can.
pub open spec fn sheet_of(chunk: ChunkView, world: Seq<ChunkCompView>, direction: Direction, s: int) -> Seq<
    Block,
> {
    Seq::new(
        256,
        |k: int|
            {
                let (x, y, z) = voxel_of(direction, s, k / 16, k % 16);
                if exposed(chunk, world, direction, x, y, z) {
                    chunk.cube(x, y, z)
                } else {
                    Block::Air
                }
            },
    )
}

/// The mesh `mesh` with the quads of slice `s` of the side `direction`.
pub open spec fn mesh_side(
    mesh: MeshView,
    chunk: ChunkView,
    world: Seq<ChunkCompView>,
    direction: Direction,
    s: int,
) -> MeshView {
    append_rects(mesh, greedy_rects(sheet_of(chunk, world, direction, s)), direction, s)
}

/// The mesh `mesh` with the quads of slice `s` of all six sides: back,
/// front, left, right, top, bottom.
pub open spec fn mesh_slice(mesh: MeshView, chunk: ChunkView, world: Seq<ChunkCompView>, s: int) -> MeshView {
    let back = mesh_side(mesh, chunk, world, Direction::Back, s);
    let front = mesh_side(back, chunk, world, Direction::Front, s);
    let left = mesh_side(front, chunk, world, Direction::Left, s);
    let right = mesh_side(left, chunk, world, Direction::Right, s);
    let top = mesh_side(right, chunk, world, Direction::Top, s);
    mesh_side(top, chunk, world, Direction::Bottom, s)
}

/// The mesh `mesh` with the quads of the first `n` slices.
pub open spec fn mesh_slices(mesh: MeshView, chunk: ChunkView, world: Seq<ChunkCompView>, n: int) -> MeshView
    decreases n,
{
    if n <= 0 {
        mesh
    } else {
        mesh_slice(mesh_slices(mesh, chunk, world, n - 1), chunk, world, n - 1)
    }
}

/// The mesh of a chunk whose neighbors are looked up in `world`.
pub open spec fn spec_mesh(chunk: ChunkView, world: Seq<ChunkCompView>) -> MeshView {
    mesh_slices(empty_mesh(), chunk, world, 16)
}

/// Gathers slice `s` of the side `direction` of `chunk`.
pub fn build_sheet(chunk: &Chunk, world: &LoadedChunks, direction: Direction, s: usize) -> (sheet:
    Sheet)
    requires
        s < 16,
    ensures
        sheet@ == sheet_of(chunk@, world@, direction, s as int),
{
    let mut blocks: [Block; 256] = [Block::Air; 256];
    let step = direction.offset();
    let mut k: usize = 0;
    while k < 256
        invariant
            k <= 256,
            s < 16,
            (step.0 as int, step.1 as int, step.2 as int) == direction.spec_offset(),
            forall|i: int|
                0 <= i < k ==> #[trigger] blocks@[i] == sheet_of(
                    chunk@,
                    world@,
                    direction,
                    s as int,
                )[i],
        decreases 256 - k,
    {
        let u = k / 16;
        let v = k % 16;
        let (x, y, z) = match direction {
            Direction::Front | Direction::Back => (s, v, u),
            Direction::Left | Direction::Right => (u, v, s),
            Direction::Top | Direction::Bottom => (u, s, v),
        };
        let block = chunk.cube(x, y, z);
        let beside = chunk.get_block(
            x as isize + step.0 as isize,
            y as isize + step.1 as isize,
            z as isize + step.2 as isize,
            world,
        );
        let open_side = match beside {
            Some(other) => !other.is_filled(),
            None => true,
        };
        if block.is_filled() && open_side {
            blocks[k] = block;
        } else {
            blocks[k] = Block::Air;
        }
        k += 1;
    }
    let sheet = Sheet { blocks };
    assert(sheet@ =~= sheet_of(chunk@, world@, direction, s as int));
    sheet
}

/// Adds the quads of slice `s` of the side `direction` of `chunk` to `desc`.
fn mesh_one_side(
    chunk: &Chunk,
    world: &LoadedChunks,
    direction: Direction,
    s: usize,
    desc: &mut MeshDescription,
)
    requires
        s < 16,
    ensures
        final(desc)@ == mesh_side(old(desc)@, chunk@, world@, direction, s as int),
{
    let sheet = build_sheet(chunk, world, direction, s);
    greedy(&sheet, direction, desc, s);
}

/// Adds the quads of all faces of `chunk` that can be seen to
/// `mesh_description`: slice by slice, and in each slice the sides back,
/// front, left, right, top, bottom.
pub fn create_mesh_faces(chunk: &Chunk, world: &LoadedChunks, mesh_description: &mut MeshDescription)
    ensures
        final(mesh_description)@ == mesh_slices(old(mesh_description)@, chunk@, world@, 16),
{
    let mut index: usize = 0;
    while index < 16
        invariant
            index <= 16,
            mesh_description@ == mesh_slices(old(mesh_description)@, chunk@, world@, index as int),
        decreases 16 - index,
    {
        mesh_one_side(chunk, world, Direction::Back, index, mesh_description);
        mesh_one_side(chunk, world, Direction::Front, index, mesh_description);
        mesh_one_side(chunk, world, Direction::Left, index, mesh_description);
        mesh_one_side(chunk, world, Direction::Right, index, mesh_description);
        mesh_one_side(chunk, world, Direction::Top, index, mesh_description);
        mesh_one_side(chunk, world, Direction::Bottom, index, mesh_description);
        index += 1;
    }
}

/// Builds the mesh of `chunk`: one quad for each rectangle into which the
/// faces that can be seen are merged. A face is seen where the voxel behind
/// it is filled and the voxel in front of it is not. At the border of the
/// chunk the voxel in front belongs to the neighbor that `chunk` names
/// there, looked up in `world`; where no neighbor is loaded the face is
/// seen.
pub fn create_chunk_mesh(chunk: &Chunk, world: &LoadedChunks) -> (mesh: MeshDescription)
    ensures
        mesh@ == spec_mesh(chunk@, world@),
{
    let mut description = MeshDescription::new();
    create_mesh_faces(chunk, world, &mut description);
    description
}

/// Whether every voxel of `chunk` holds `block`, and `block` is not air.
pub open spec fn is_solid(chunk: ChunkView, block: Block) -> bool {
    &&& chunk.wf()
    &&& block.spec_is_filled()
    &&& forall|i: int| 0 <= i < 4096 ==> #[trigger] chunk.cubes[i] == block
}

/// Whether no neighbor of `chunk` is loaded in `world`.
pub open spec fn no_neighbors(chunk: ChunkView, world: Seq<ChunkCompView>) -> bool {
    forall|direction: Direction| resolve(world, #[trigger] chunk.neighbor(direction)) is None
}

/// The rectangle that covers a whole sheet of `block`.
pub open spec fn full_rect(block: Block) -> Rect {
    Rect { x: 0, y: 0, width: 16, height: 16, block }
}

/// The mesh of a chunk that is filled with `block` and has no neighbors:
/// six quads, one over each side of the chunk.
pub open spec fn solid_mesh(block: Block) -> MeshView {
    let back = append_quad(empty_mesh(), full_rect(block), Direction::Back, 0);
    let right = append_quad(back, full_rect(block), Direction::Right, 0);
    let bottom = append_quad(right, full_rect(block), Direction::Bottom, 0);
    let front = append_quad(bottom, full_rect(block), Direction::Front, 15);
    let left = append_quad(front, full_rect(block), Direction::Left, 15);
    append_quad(left, full_rect(block), Direction::Top, 15)
}

/// The slice of a side in which the faces of a solid chunk show: the last
/// one for the sides that look along an axis, the first one for the others.
pub open spec fn outer_slice(direction: Direction) -> int {
    match direction {
        Direction::Front | Direction::Left | Direction::Top => 15,
        Direction::Back | Direction::Right | Direction::Bottom => 0,
    }
}

/// Where every place from `k` on is covered, the scan makes no rectangle.
pub proof fn lemma_scan_finished(sheet: Seq<Block>, finished: Seq<bool>, k: int)
    requires
        0 <= k <= 256,
        forall|i: int| k <= i < 256 ==> #[trigger] finished[i],
    ensures
        scan(sheet, finished, k) == Seq::<Rect>::empty(),
    decreases 256 - k,
{
    if k < 256 {
        lemma_scan_finished(sheet, finished, k + 1);
    }
}

/// A sheet of air gives no rectangle.
pub proof fn lemma_air_rects(sheet: Seq<Block>)
    requires
        sheet.len() == 256,
        forall|i: int| 0 <= i < 256 ==> #[trigger] sheet[i] == Block::Air,
    ensures
        greedy_rects(sheet) == Seq::<Rect>::empty(),
{
    lemma_scan_finished(sheet, initial_finished(sheet), 0);
}

/// A sheet that holds one block everywhere gives one rectangle, which
/// covers it.
pub proof fn lemma_uniform_rects(sheet: Seq<Block>, block: Block)
    requires
        sheet.len() == 256,
        block.spec_is_filled(),
        forall|i: int| 0 <= i < 256 ==> #[trigger] sheet[i] == block,
    ensures
        greedy_rects(sheet) == seq![full_rect(block)],
{
    let finished = initial_finished(sheet);
    lemma_uniform_width(sheet, finished, block, 1);
    lemma_uniform_height(sheet, finished, block, 1);
    let rect = rect_at(sheet, finished, 0, 0);
    assert(rect == full_rect(block));
    let marked = mark(finished, rect);
    lemma_scan_finished(sheet, marked, 1);
    assert(!finished[0]);
    assert(scan(sheet, finished, 0) == seq![rect] + scan(sheet, marked, 1));
    assert(seq![rect] + Seq::<Rect>::empty() =~= seq![rect]);
}

proof fn lemma_uniform_width(sheet: Seq<Block>, finished: Seq<bool>, block: Block, width: int)
    requires
        sheet.len() == 256,
        finished == initial_finished(sheet),
        block.spec_is_filled(),
        forall|i: int| 0 <= i < 256 ==> #[trigger] sheet[i] == block,
        1 <= width <= 16,
    ensures
        grow_width(sheet, finished, 0, 0, width) == 16,
    decreases 16 - width,
{
    if width < 16 {
        assert(joins(sheet, finished, sheet[cell(0, 0)], width, 0));
        lemma_uniform_width(sheet, finished, block, width + 1);
    }
}

proof fn lemma_uniform_height(sheet: Seq<Block>, finished: Seq<bool>, block: Block, height: int)
    requires
        sheet.len() == 256,
        finished == initial_finished(sheet),
        block.spec_is_filled(),
        forall|i: int| 0 <= i < 256 ==> #[trigger] sheet[i] == block,
        1 <= height <= 16,
    ensures
        grow_height(sheet, finished, 0, 0, 16, height) == 16,
    decreases 16 - height,
{
    if height < 16 {
        assert forall|u: int| 0 <= u < 16 implies joins(
            sheet,
            finished,
            sheet[cell(0, 0)],
            u,
            height,
        ) by {
            assert(sheet[cell(u, height)] == block);
        }
        lemma_uniform_height(sheet, finished, block, height + 1);
    }
}

/// Of a solid chunk without neighbors a side shows in its outer slice only,
/// and there all over.
pub proof fn lemma_solid_sheet(
    chunk: ChunkView,
    world: Seq<ChunkCompView>,
    block: Block,
    direction: Direction,
    s: int,
)
    requires
        is_solid(chunk, block),
        no_neighbors(chunk, world),
        0 <= s < 16,
    ensures
        sheet_of(chunk, world, direction, s).len() == 256,
        forall|i: int|
            0 <= i < 256 ==> #[trigger] sheet_of(chunk, world, direction, s)[i] == if s
                == outer_slice(direction) {
                block
            } else {
                Block::Air
            },
{
    let sheet = sheet_of(chunk, world, direction, s);
    assert forall|i: int| 0 <= i < 256 implies #[trigger] sheet[i] == if s == outer_slice(direction) {
        block
    } else {
        Block::Air
    } by {
        let (x, y, z) = voxel_of(direction, s, i / 16, i % 16);
        let step = direction.spec_offset();
        let (bx, by, bz) = (x + step.0, y + step.1, z + step.2);
        assert(0 <= cube_index(x, y, z) < 4096);
        assert(chunk.cube(x, y, z) == block);
        assert(resolve(world, chunk.neighbor(direction)) is None);
        if s == outer_slice(direction) {
            assert(spec_block_beside(chunk, world, x, y, z, direction) is None);
        } else {
            assert(0 <= cube_index(bx, by, bz) < 4096);
            assert(spec_block_beside(chunk, world, x, y, z, direction) == Some(block));
        }
    }
}

/// What a side of a solid chunk without neighbors adds to a mesh: the quad
/// over the whole side in its outer slice, and nothing in any other slice.
pub proof fn lemma_solid_side(
    mesh: MeshView,
    chunk: ChunkView,
    world: Seq<ChunkCompView>,
    block: Block,
    direction: Direction,
    s: int,
)
    requires
        is_solid(chunk, block),
        no_neighbors(chunk, world),
        0 <= s < 16,
    ensures
        mesh_side(mesh, chunk, world, direction, s) == if s == outer_slice(direction) {
            append_quad(mesh, full_rect(block), direction, s)
        } else {
            mesh
        },
{
    let sheet = sheet_of(chunk, world, direction, s);
    lemma_solid_sheet(chunk, world, block, direction, s);
    if s == outer_slice(direction) {
        lemma_uniform_rects(sheet, block);
        let rects = seq![full_rect(block)];
        assert(rects.drop_last() =~= Seq::<Rect>::empty());
        assert(append_rects(mesh, rects.drop_last(), direction, s) == mesh);
    } else {
        lemma_air_rects(sheet);
    }
}

/// What a slice of a solid chunk without neighbors adds to a mesh.
pub proof fn lemma_solid_slice(
    mesh: MeshView,
    chunk: ChunkView,
    world: Seq<ChunkCompView>,
    block: Block,
    s: int,
)
    requires
        is_solid(chunk, block),
        no_neighbors(chunk, world),
        0 <= s < 16,
    ensures
        s == 0 ==> mesh_slice(mesh, chunk, world, s) == append_quad(
            append_quad(
                append_quad(mesh, full_rect(block), Direction::Back, 0),
                full_rect(block),
                Direction::Right,
                0,
            ),
            full_rect(block),
            Direction::Bottom,
            0,
        ),
        0 < s < 15 ==> mesh_slice(mesh, chunk, world, s) == mesh,
        s == 15 ==> mesh_slice(mesh, chunk, world, s) == append_quad(
            append_quad(
                append_quad(mesh, full_rect(block), Direction::Front, 15),
                full_rect(block),
                Direction::Left,
                15,
            ),
            full_rect(block),
            Direction::Top,
            15,
        ),
{
    let back = mesh_side(mesh, chunk, world, Direction::Back, s);
    let front = mesh_side(back, chunk, world, Direction::Front, s);
    let left = mesh_side(front, chunk, world, Direction::Left, s);
    let right = mesh_side(left, chunk, world, Direction::Right, s);
    let top = mesh_side(right, chunk, world, Direction::Top, s);
    lemma_solid_side(mesh, chunk, world, block, Direction::Back, s);
    lemma_solid_side(back, chunk, world, block, Direction::Front, s);
    lemma_solid_side(front, chunk, world, block, Direction::Left, s);
    lemma_solid_side(left, chunk, world, block, Direction::Right, s);
    lemma_solid_side(right, chunk, world, block, Direction::Top, s);
    lemma_solid_side(top, chunk, world, block, Direction::Bottom, s);
}

proof fn lemma_solid_middle(chunk: ChunkView, world: Seq<ChunkCompView>, block: Block, n: int)
    requires
        is_solid(chunk, block),
        no_neighbors(chunk, world),
        1 <= n <= 15,
    ensures
        mesh_slices(empty_mesh(), chunk, world, n) == mesh_slices(empty_mesh(), chunk, world, 1),
    decreases n,
{
    if n > 1 {
        lemma_solid_middle(chunk, world, block, n - 1);
        lemma_solid_slice(mesh_slices(empty_mesh(), chunk, world, n - 1), chunk, world, block, n - 1);
    }
}

/// A quad adds four corners and six indices to a mesh.
pub proof fn lemma_append_quad_counts(mesh: MeshView, rect: Rect, direction: Direction, z: int)
    ensures
        append_quad(mesh, rect, direction, z).verts.len() == mesh.verts.len() + 4,
        append_quad(mesh, rect, direction, z).vert_indicies.len() == mesh.vert_indicies.len() + 6,
{
}

/// The mesh of a solid chunk has 24 corners and 36 indices.
pub proof fn lemma_solid_mesh_counts(block: Block)
    ensures
        solid_mesh(block).verts.len() == 24,
        solid_mesh(block).vert_indicies.len() == 36,
{
    let full = full_rect(block);
    let back = append_quad(empty_mesh(), full, Direction::Back, 0);
    let right = append_quad(back, full, Direction::Right, 0);
    let bottom = append_quad(right, full, Direction::Bottom, 0);
    let front = append_quad(bottom, full, Direction::Front, 15);
    let left = append_quad(front, full, Direction::Left, 15);
    lemma_append_quad_counts(empty_mesh(), full, Direction::Back, 0);
    lemma_append_quad_counts(back, full, Direction::Right, 0);
    lemma_append_quad_counts(right, full, Direction::Bottom, 0);
    lemma_append_quad_counts(bottom, full, Direction::Front, 15);
    lemma_append_quad_counts(front, full, Direction::Left, 15);
    lemma_append_quad_counts(left, full, Direction::Top, 15);
}

/// A chunk that is filled with one block and has no neighbors gets a mesh of
/// exactly six quads, one over each of its sides, and not one quad for each
/// face of a voxel.
pub proof fn lemma_solid_chunk_mesh(chunk: ChunkView, world: Seq<ChunkCompView>, block: Block)
    requires
        is_solid(chunk, block),
        no_neighbors(chunk, world),
    ensures
        spec_mesh(chunk, world) == solid_mesh(block),
        spec_mesh(chunk, world).verts.len() == 24,
        spec_mesh(chunk, world).vert_indicies.len() == 36,
{
    let start = mesh_slices(empty_mesh(), chunk, world, 0);
    let first = mesh_slices(empty_mesh(), chunk, world, 1);
    let middle = mesh_slices(empty_mesh(), chunk, world, 15);
    assert(start == empty_mesh());
    assert(first == mesh_slice(start, chunk, world, 0));
    lemma_solid_slice(empty_mesh(), chunk, world, block, 0);
    lemma_solid_middle(chunk, world, block, 15);
    assert(middle == first);
    assert(spec_mesh(chunk, world) == mesh_slice(middle, chunk, world, 15));
    lemma_solid_slice(middle, chunk, world, block, 15);
    lemma_solid_mesh_counts(block);
}

/// The mesh of a chunk depends on its voxels and links and on the voxels of
/// the chunks in the table, and on nothing else: not on a dirty flag, not
/// on a position, not on a waiting write.
pub proof fn lemma_mesh_depends_on_voxels(
    chunk: ChunkView,
    other: ChunkView,
    world: Seq<ChunkCompView>,
    other_world: Seq<ChunkCompView>,
)
    requires
        chunk.cubes == other.cubes,
        chunk.neighbors == other.neighbors,
        world.len() == other_world.len(),
        forall|k: int|
            0 <= k < world.len() ==> (#[trigger] world[k]).chunk.cubes == other_world[k].chunk.cubes,
    ensures
        spec_mesh(chunk, world) == spec_mesh(other, other_world),
{
    lemma_mesh_slices_depend_on_voxels(empty_mesh(), chunk, other, world, other_world, 16);
}

proof fn lemma_mesh_slices_depend_on_voxels(
    mesh: MeshView,
    chunk: ChunkView,
    other: ChunkView,
    world: Seq<ChunkCompView>,
    other_world: Seq<ChunkCompView>,
    n: int,
)
    requires
        chunk.cubes == other.cubes,
        chunk.neighbors == other.neighbors,
        world.len() == other_world.len(),
        forall|k: int|
            0 <= k < world.len() ==> (#[trigger] world[k]).chunk.cubes == other_world[k].chunk.cubes,
    ensures
        mesh_slices(mesh, chunk, world, n) == mesh_slices(mesh, other, other_world, n),
    decreases n,
{
    if n > 0 {
        lemma_mesh_slices_depend_on_voxels(mesh, chunk, other, world, other_world, n - 1);
        lemma_sheet_depends_on_voxels(chunk, other, world, other_world, Direction::Back, n - 1);
        lemma_sheet_depends_on_voxels(chunk, other, world, other_world, Direction::Front, n - 1);
        lemma_sheet_depends_on_voxels(chunk, other, world, other_world, Direction::Left, n - 1);
        lemma_sheet_depends_on_voxels(chunk, other, world, other_world, Direction::Right, n - 1);
        lemma_sheet_depends_on_voxels(chunk, other, world, other_world, Direction::Top, n - 1);
        lemma_sheet_depends_on_voxels(chunk, other, world, other_world, Direction::Bottom, n - 1);
    }
}

proof fn lemma_sheet_depends_on_voxels(
    chunk: ChunkView,
    other: ChunkView,
    world: Seq<ChunkCompView>,
    other_world: Seq<ChunkCompView>,
    direction: Direction,
    s: int,
)
    requires
        chunk.cubes == other.cubes,
        chunk.neighbors == other.neighbors,
        world.len() == other_world.len(),
        forall|k: int|
            0 <= k < world.len() ==> (#[trigger] world[k]).chunk.cubes == other_world[k].chunk.cubes,
    ensures
        sheet_of(chunk, world, direction, s) == sheet_of(other, other_world, direction, s),
{
    let a = sheet_of(chunk, world, direction, s);
    let b = sheet_of(other, other_world, direction, s);
    assert forall|i: int| 0 <= i < 256 implies a[i] == b[i] by {
        let (x, y, z) = voxel_of(direction, s, i / 16, i % 16);
        lemma_same_cubes_same_view(world, other_world, chunk, direction, x, y, z);
        lemma_same_chunk_same_view(chunk, other, other_world, direction, x, y, z);
    }
    assert(a =~= b);
}

/// Two chunks with the same voxels and links see the same voxels.
proof fn lemma_same_chunk_same_view(
    chunk: ChunkView,
    other: ChunkView,
    world: Seq<ChunkCompView>,
    direction: Direction,
    x: int,
    y: int,
    z: int,
)
    requires
        chunk.cubes == other.cubes,
        chunk.neighbors == other.neighbors,
    ensures
        spec_block_beside(chunk, world, x, y, z, direction) == spec_block_beside(
            other,
            world,
            x,
            y,
            z,
            direction,
        ),
        chunk.cube(x, y, z) == other.cube(x, y, z),
{
    assert forall|d: Direction, u: int, v: int, w: int|
        neighbor_cube(chunk, world, d, u, v, w) == neighbor_cube(other, world, d, u, v, w) by {}
}

/// Whether `rect` lies in the sheet, is not empty, and covers places of one
/// block only, which is its own and is not air.
pub open spec fn rect_fits(sheet: Seq<Block>, rect: Rect) -> bool {
    &&& 0 <= rect.x && 1 <= rect.width && rect.x + rect.width <= 16
    &&& 0 <= rect.y && 1 <= rect.height && rect.y + rect.height <= 16
    &&& rect.block.spec_is_filled()
    &&& forall|u: int, v: int| #[trigger] rect.contains(u, v) ==> sheet[cell(u, v)] == rect.block
}

/// Whether one of `rects` covers the place `(u, v)`.
pub open spec fn covered(rects: Seq<Rect>, u: int, v: int) -> bool {
    exists|i: int| 0 <= i < rects.len() && #[trigger] rects[i].contains(u, v)
}

/// Whether no place lies in two of `rects`.
pub open spec fn disjoint(rects: Seq<Rect>) -> bool {
    forall|i: int, j: int, u: int, v: int|
        0 <= i < j < rects.len() ==> !(#[trigger] rects[i].contains(u, v) && #[trigger] rects[j].contains(u, v))
}

/// Whether `rects` cover the faces of `sheet` exactly: every rectangle fits,
/// no place lies in two rectangles, and every place that holds a block lies
/// in one.
pub open spec fn is_exact_cover(sheet: Seq<Block>, rects: Seq<Rect>) -> bool {
    &&& forall|i: int| 0 <= i < rects.len() ==> rect_fits(sheet, #[trigger] rects[i])
    &&& disjoint(rects)
    &&& forall|u: int, v: int|
        0 <= u < 16 && 0 <= v < 16 && sheet[cell(u, v)].spec_is_filled() ==> #[trigger] covered(
            rects,
            u,
            v,
        )
}

/// A rectangle that has grown in width covers, in its first row, only
/// places that join it, and ends inside the sheet.
proof fn lemma_grow_width(sheet: Seq<Block>, finished: Seq<bool>, x: int, y: int, width: int)
    requires
        0 <= x,
        1 <= width,
        x + width <= 16,
        forall|u: int| x <= u < x + width ==> joins(sheet, finished, sheet[cell(x, y)], u, y),
    ensures
        width <= grow_width(sheet, finished, x, y, width),
        x + grow_width(sheet, finished, x, y, width) <= 16,
        forall|u: int|
            x <= u < x + grow_width(sheet, finished, x, y, width) ==> joins(
                sheet,
                finished,
                sheet[cell(x, y)],
                u,
                y,
            ),
    decreases 16 - (x + width),
{
    if x + width < 16 && joins(sheet, finished, sheet[cell(x, y)], x + width, y) {
        lemma_grow_width(sheet, finished, x, y, width + 1);
    }
}

/// A rectangle that has grown in height covers only rows that join it, and
/// ends inside the sheet.
proof fn lemma_grow_height(
    sheet: Seq<Block>,
    finished: Seq<bool>,
    x: int,
    y: int,
    width: int,
    height: int,
)
    requires
        0 <= y,
        1 <= height,
        y + height <= 16,
        forall|v: int|
            y <= v < y + height ==> row_joins(sheet, finished, sheet[cell(x, y)], x, width, v),
    ensures
        height <= grow_height(sheet, finished, x, y, width, height),
        y + grow_height(sheet, finished, x, y, width, height) <= 16,
        forall|v: int|
            y <= v < y + grow_height(sheet, finished, x, y, width, height) ==> row_joins(
                sheet,
                finished,
                sheet[cell(x, y)],
                x,
                width,
                v,
            ),
    decreases 16 - (y + height),
{
    if y + height < 16 && row_joins(sheet, finished, sheet[cell(x, y)], x, width, y + height) {
        lemma_grow_height(sheet, finished, x, y, width, height + 1);
    }
}

/// The rectangle that starts at a place which holds a block and is not
/// covered yet fits, holds its starting place, and covers only places that
/// were not covered.
proof fn lemma_rect_at(sheet: Seq<Block>, finished: Seq<bool>, x: int, y: int)
    requires
        0 <= x < 16,
        0 <= y < 16,
        !finished[cell(x, y)],
        sheet[cell(x, y)].spec_is_filled(),
    ensures
        rect_fits(sheet, rect_at(sheet, finished, x, y)),
        rect_at(sheet, finished, x, y).contains(x, y),
        forall|u: int, v: int| #[trigger]
            rect_at(sheet, finished, x, y).contains(u, v) ==> !finished[cell(u, v)],
{
    let start = sheet[cell(x, y)];
    assert forall|u: int| x <= u < x + 1 implies joins(sheet, finished, start, u, y) by {}
    lemma_grow_width(sheet, finished, x, y, 1);
    let width = grow_width(sheet, finished, x, y, 1);
    assert forall|v: int| y <= v < y + 1 implies row_joins(sheet, finished, start, x, width, v) by {}
    lemma_grow_height(sheet, finished, x, y, width, 1);
    let rect = rect_at(sheet, finished, x, y);
    assert forall|u: int, v: int| #[trigger] rect.contains(u, v) implies sheet[cell(u, v)]
        == rect.block && !finished[cell(u, v)] by {
        assert(row_joins(sheet, finished, start, x, width, v));
        assert(joins(sheet, finished, start, u, v));
    }
}

/// What holds of the rectangles that the scan makes from place `k` on, when
/// every place that holds air counts as covered and so does every place
/// before `k`: they fit, they cover only places that were not covered, no
/// place lies in two of them, and every place that was not covered lies in
/// one.
proof fn lemma_scan_cover(sheet: Seq<Block>, finished: Seq<bool>, k: int)
    requires
        sheet.len() == 256,
        finished.len() == 256,
        0 <= k <= 256,
        forall|c: int| 0 <= c < 256 && !sheet[c].spec_is_filled() ==> #[trigger] finished[c],
        forall|c: int| 0 <= c < k ==> #[trigger] finished[c],
    ensures
        forall|i: int|
            0 <= i < scan(sheet, finished, k).len() ==> rect_fits(
                sheet,
                #[trigger] scan(sheet, finished, k)[i],
            ),
        forall|i: int, u: int, v: int|
            0 <= i < scan(sheet, finished, k).len() && #[trigger] scan(
                sheet,
                finished,
                k,
            )[i].contains(u, v) ==> !finished[cell(u, v)],
        disjoint(scan(sheet, finished, k)),
        forall|u: int, v: int|
            0 <= u < 16 && 0 <= v < 16 && !finished[cell(u, v)] ==> #[trigger] covered(
                scan(sheet, finished, k),
                u,
                v,
            ),
    decreases 256 - k,
{
    let rects = scan(sheet, finished, k);
    if k >= 256 {
        assert forall|u: int, v: int| 0 <= u < 16 && 0 <= v < 16 implies finished[cell(u, v)] by {}
    } else if finished[k] {
        lemma_scan_cover(sheet, finished, k + 1);
    } else {
        let (x, y) = (k / 16, k % 16);
        assert(cell(x, y) == k);
        let rect = rect_at(sheet, finished, x, y);
        lemma_rect_at(sheet, finished, x, y);
        let marked = mark(finished, rect);
        let rest = scan(sheet, marked, k + 1);
        assert forall|c: int| 0 <= c < k + 1 implies #[trigger] marked[c] by {
            if c == k {
                assert(rect.contains(k / 16, k % 16));
            }
        }
        lemma_scan_cover(sheet, marked, k + 1);
        assert(rects == seq![rect] + rest);
        assert(rects[0] == rect);
        assert forall|i: int| 1 <= i < rects.len() implies #[trigger] rects[i] == rest[i - 1] by {}
        assert forall|i: int| 0 <= i < rects.len() implies rect_fits(sheet, #[trigger] rects[i]) by {
            if i > 0 {
                assert(rect_fits(sheet, rest[i - 1]));
            }
        }
        assert forall|i: int, u: int, v: int|
            0 <= i < rects.len() && #[trigger] rects[i].contains(u, v) implies !finished[cell(u, v)] by {
            if i > 0 {
                assert(rest[i - 1].contains(u, v));
                lemma_in_sheet(sheet, rest[i - 1], u, v);
                assert(!marked[cell(u, v)]);
            }
        }
        assert forall|i: int, j: int, u: int, v: int| 0 <= i < j < rects.len() implies !(#[trigger] rects[i].contains(u, v) && #[trigger] rects[j].contains(u, v)) by {
            if rects[i].contains(u, v) && rects[j].contains(u, v) {
                assert(rest[j - 1].contains(u, v));
                lemma_in_sheet(sheet, rest[j - 1], u, v);
                if i == 0 {
                    assert(marked[cell(u, v)]);
                    assert(!marked[cell(u, v)]);
                } else {
                    assert(rest[i - 1].contains(u, v));
                }
            }
        }
        assert forall|u: int, v: int|
            0 <= u < 16 && 0 <= v < 16 && !finished[cell(u, v)] implies #[trigger] covered(
            rects,
            u,
            v,
        ) by {
            if rect.contains(u, v) {
                assert(rects[0].contains(u, v));
            } else {
                assert(!marked[cell(u, v)]);
                assert(covered(rest, u, v));
                let i = choose|i: int| 0 <= i < rest.len() && #[trigger] rest[i].contains(u, v);
                assert(rects[i + 1].contains(u, v));
            }
        }
    }
}

/// A place in a rectangle that fits lies in the sheet.
proof fn lemma_in_sheet(sheet: Seq<Block>, rect: Rect, u: int, v: int)
    requires
        rect_fits(sheet, rect),
        rect.contains(u, v),
    ensures
        0 <= u < 16,
        0 <= v < 16,
        0 <= cell(u, v) < 256,
        cell(u, v) / 16 == u,
        cell(u, v) % 16 == v,
{
}

/// The rectangles of the greedy scan cover the faces of a sheet exactly:
/// every face that shows lies in one rectangle and in one only, and no
/// rectangle covers anything else.
pub proof fn lemma_greedy_cover(sheet: Seq<Block>)
    requires
        sheet.len() == 256,
    ensures
        is_exact_cover(sheet, greedy_rects(sheet)),
{
    let finished = initial_finished(sheet);
    lemma_scan_cover(sheet, finished, 0);
    let rects = greedy_rects(sheet);
    assert forall|u: int, v: int|
        0 <= u < 16 && 0 <= v < 16 && sheet[cell(u, v)].spec_is_filled() implies #[trigger] covered(
        rects,
        u,
        v,
    ) by {
        assert(!finished[cell(u, v)]);
    }
}

/// The area of `rects`: the number of places that they take, counted with
/// each rectangle that takes them.
pub open spec fn area(rects: Seq<Rect>) -> int
    decreases rects.len(),
{
    if rects.len() == 0 {
        0
    } else {
        area(rects.drop_last()) + rects.last().width * rects.last().height
    }
}

/// The number of places before place `n` that no rectangle covers yet.
pub open spec fn open_count(finished: Seq<bool>, n: int) -> int
    decreases n,
{
    if n <= 0 {
        0
    } else if finished[n - 1] {
        open_count(finished, n - 1)
    } else {
        open_count(finished, n - 1) + 1
    }
}

/// The number of faces that show in a sheet: the places that hold a block.
pub open spec fn face_count(sheet: Seq<Block>) -> int {
    open_count(initial_finished(sheet), 256)
}

/// The number of places before place `n` that lie in `rect`.
spec fn rect_count(rect: Rect, n: int) -> int
    decreases n,
{
    if n <= 0 {
        0
    } else if rect.contains((n - 1) / 16, (n - 1) % 16) {
        rect_count(rect, n - 1) + 1
    } else {
        rect_count(rect, n - 1)
    }
}

/// `v`, but no less than 0 and no more than `most`.
spec fn clamp(v: int, most: int) -> int {
    if v < 0 {
        0
    } else if v > most {
        most
    } else {
        v
    }
}

/// A rectangle in the sheet holds as many places as its width times its
/// height.
proof fn lemma_rect_count(rect: Rect, n: int)
    requires
        0 <= rect.x && 1 <= rect.width && rect.x + rect.width <= 16,
        0 <= rect.y && 1 <= rect.height && rect.y + rect.height <= 16,
        0 <= n <= 256,
    ensures
        rect_count(rect, n) == clamp(n / 16 - rect.x, rect.width) * rect.height + if rect.x <= n
            / 16 < rect.x + rect.width {
            clamp(n % 16 - rect.y, rect.height)
        } else {
            0
        },
    decreases n,
{
    if n > 0 {
        lemma_rect_count(rect, n - 1);
        let (a, b) = ((n - 1) / 16, (n - 1) % 16);
        let w = clamp(a - rect.x, rect.width);
        if b == 15 {
            assert(n / 16 == a + 1 && n % 16 == 0);
            let next = clamp(a + 1 - rect.x, rect.width);
            assert(next * rect.height == w * rect.height + (next - w) * rect.height)
                by (nonlinear_arith);
            if rect.x <= a < rect.x + rect.width {
                assert(next == w + 1);
                assert((next - w) * rect.height == rect.height) by (nonlinear_arith)
                    requires
                        next - w == 1,
                ;
            } else {
                assert(next == w);
                assert((next - w) * rect.height == 0) by (nonlinear_arith)
                    requires
                        next - w == 0,
                ;
            }
        } else {
            assert(n / 16 == a && n % 16 == b + 1);
        }
    }
}

/// Marking a rectangle whose places were all open closes as many places as
/// the rectangle holds.
proof fn lemma_mark_count(finished: Seq<bool>, rect: Rect, n: int)
    requires
        finished.len() == 256,
        0 <= n <= 256,
        forall|u: int, v: int| #[trigger] rect.contains(u, v) ==> !finished[cell(u, v)],
        0 <= rect.x && rect.x + rect.width <= 16,
        0 <= rect.y && rect.y + rect.height <= 16,
    ensures
        open_count(finished, n) == open_count(mark(finished, rect), n) + rect_count(rect, n),
    decreases n,
{
    if n > 0 {
        lemma_mark_count(finished, rect, n - 1);
        let (u, v) = ((n - 1) / 16, (n - 1) % 16);
        assert(cell(u, v) == n - 1);
        if rect.contains(u, v) {
            assert(!finished[cell(u, v)]);
        }
    }
}

/// Where every place is covered, none is open.
proof fn lemma_none_open(finished: Seq<bool>, n: int)
    requires
        0 <= n <= finished.len(),
        forall|c: int| 0 <= c < n ==> #[trigger] finished[c],
    ensures
        open_count(finished, n) == 0,
    decreases n,
{
    if n > 0 {
        lemma_none_open(finished, n - 1);
    }
}

/// The area of rectangles put one after the other is the sum of the areas.
proof fn lemma_area_first(rect: Rect, rest: Seq<Rect>)
    ensures
        area(seq![rect] + rest) == rect.width * rect.height + area(rest),
    decreases rest.len(),
{
    let all = seq![rect] + rest;
    if rest.len() == 0 {
        assert(all.drop_last() =~= Seq::<Rect>::empty());
        assert(area(all.drop_last()) == 0);
    } else {
        assert(all.drop_last() =~= seq![rect] + rest.drop_last());
        assert(all.last() == rest.last());
        lemma_area_first(rect, rest.drop_last());
    }
}

/// The rectangles that the scan makes from place `k` on take as many places
/// as were open.
proof fn lemma_scan_area(sheet: Seq<Block>, finished: Seq<bool>, k: int)
    requires
        sheet.len() == 256,
        finished.len() == 256,
        0 <= k <= 256,
        forall|c: int| 0 <= c < 256 && !sheet[c].spec_is_filled() ==> #[trigger] finished[c],
        forall|c: int| 0 <= c < k ==> #[trigger] finished[c],
    ensures
        area(scan(sheet, finished, k)) == open_count(finished, 256),
    decreases 256 - k,
{
    if k >= 256 {
        lemma_none_open(finished, 256);
    } else if finished[k] {
        lemma_scan_area(sheet, finished, k + 1);
    } else {
        let (x, y) = (k / 16, k % 16);
        assert(cell(x, y) == k);
        let rect = rect_at(sheet, finished, x, y);
        lemma_rect_at(sheet, finished, x, y);
        let marked = mark(finished, rect);
        assert forall|c: int| 0 <= c < k + 1 implies #[trigger] marked[c] by {
            if c == k {
                assert(rect.contains(k / 16, k % 16));
            }
        }
        lemma_scan_area(sheet, marked, k + 1);
        lemma_area_first(rect, scan(sheet, marked, k + 1));
        lemma_mark_count(finished, rect, 256);
        lemma_rect_count(rect, 256);
        assert(clamp(16 - rect.x, rect.width) == rect.width);
    }
}

/// Merging keeps the area: the rectangles of the greedy scan take as many
/// places as there are faces that show in the sheet.
pub proof fn lemma_greedy_area(sheet: Seq<Block>)
    requires
        sheet.len() == 256,
    ensures
        area(greedy_rects(sheet)) == face_count(sheet),
{
    lemma_scan_area(sheet, initial_finished(sheet), 0);
}

/// The triangles of a mesh: each three indices of `indices` in a row. What
/// is left over at the end, fewer than three indices, is no triangle.
pub open spec fn triangles_of(indices: Seq<usize>) -> Seq<(usize, usize, usize)> {
    Seq::new(indices.len() / 3, |t: int| (indices[3 * t], indices[3 * t + 1], indices[3 * t + 2]))
}

/// The triangles of the mesh `desc`, for a body that things collide with;
/// `None` for a mesh without a triangle, which gets no such body.
pub fn create_collider(desc: &MeshDescription) -> (triangles: Option<Vec<(usize, usize, usize)>>)
    ensures
        match triangles {
            Some(list) => list@ == triangles_of(desc@.vert_indicies) && list@.len() > 0,
            None => desc@.vert_indicies.len() < 3,
        },
{
    let count = desc.vert_indicies.len();
    let tri_count = count / 3;
    if tri_count == 0 {
        return None;
    }
    let mut indices: Vec<(usize, usize, usize)> = Vec::with_capacity(tri_count);
    let mut index: usize = 0;
    while index < tri_count
        invariant
            index <= tri_count,
            count == desc@.vert_indicies.len(),
            tri_count == count / 3,
            indices@.len() == index,
            forall|t: int|
                0 <= t < index ==> #[trigger] indices@[t] == triangles_of(desc@.vert_indicies)[t],
        decreases tri_count - index,
    {
        assert(index * 3 + 2 < count);
        indices.push(
            (
                desc.vert_indicies[index * 3],
                desc.vert_indicies[index * 3 + 1],
                desc.vert_indicies[index * 3 + 2],
            ),
        );
        index += 1;
    }
    assert(indices@ =~= triangles_of(desc@.vert_indicies));
    Some(indices)
}

} // verus!
