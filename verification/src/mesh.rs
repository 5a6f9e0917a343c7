use vstd::prelude::*;

use crate::blocks::block::{all_faces, corner_offset, face_indices, normal_of, Block, FaceDirections};
use crate::blocks::block_type::BlockType;
use crate::chunk::{
    block_at_relative, cell_position, exists_at, height_at, outside_chunk, terrain_ready, trunc_rem,
    Chunk,
};
use crate::effects::{from_vertex_position, vertex_ao};
use crate::utils::{chunk_coord, floor_div_chunk, keys_view, BlockPos};
use crate::world::{coordinate_room, World};

verus! {

/// One vertex of a face, in grid terms: the face's corner `corner` of the unit
/// cube (0..8) around the block at `position` inside its chunk, the corner
/// `tex_corner` (0..4) of the face's atlas tile, and the ambient occlusion
/// level `ao` (0 shaded to 3 lit).
#[derive(Clone, Copy, Debug, PartialEq, Eq, Structural)]
pub struct MeshVertex {
    pub corner: u32,
    pub position: BlockPos,
    pub face: FaceDirections,
    pub tex_corner: u32,
    pub ao: u8,
    pub block_type: BlockType,
}

/// The triangles of the visible faces of a chunk: opaque blocks and water
/// apart, each with its vertices and the indices of its triangles.
pub struct MeshData {
    pub vertices: Vec<MeshVertex>,
    pub indices: Vec<u32>,
    pub water_vertices: Vec<MeshVertex>,
    pub water_indices: Vec<u32>,
}

/// The distinct corners of a sequence of corner indices, in the order of
/// their first use.
pub open spec fn first_occurrences(s: Seq<u32>) -> Seq<u32>
    decreases s.len(),
{
    if s.len() == 0 {
        s
    } else {
        let r = first_occurrences(s.drop_last());
        if r.contains(s.last()) {
            r
        } else {
            r.push(s.last())
        }
    }
}

/// The four corners of a face, in the order in which its two triangles first
/// use them.
pub open spec fn face_corners(f: FaceDirections) -> Seq<u32> {
    let s = face_indices(f);
    seq![s[0], s[1], s[2], s[5]]
}

/// The two triangles of a face as indices into its four vertices.
pub open spec fn face_index_map() -> Seq<u32> {
    seq![0, 1, 2, 0, 2, 3]
}

/// The grid point half a block above corner `corner` of the cube around the
/// block at absolute position `a`, along every axis.
pub open spec fn corner_point(a: BlockPos, corner: u32) -> BlockPos {
    BlockPos {
        x: (a.x + corner_offset(corner as int).0) as i32,
        y: (a.y + corner_offset(corner as int).1) as i32,
        z: (a.z + corner_offset(corner as int).2) as i32,
    }
}

/// Vertex `k` of face `f` of block `b`.
pub open spec fn face_vertex(
    m: Map<(int, int), crate::chunk::Chunk>,
    adjacent: Seq<(int, int)>,
    b: Block,
    f: FaceDirections,
    k: int,
) -> MeshVertex {
    let corner = face_corners(f)[k];
    MeshVertex {
        corner,
        position: b.position,
        face: f,
        tex_corner: k as u32,
        ao: vertex_ao(m, adjacent, corner_point(b.absolute_position, corner)),
        block_type: b.block_type,
    }
}

/// The four vertices of face `f` of block `b`.
pub open spec fn face_vertices(
    m: Map<(int, int), crate::chunk::Chunk>,
    adjacent: Seq<(int, int)>,
    b: Block,
    f: FaceDirections,
) -> Seq<MeshVertex> {
    Seq::new(4, |k: int| face_vertex(m, adjacent, b, f, k))
}

/// The cell beside block `b` across face `f`, in its chunk's frame; it lies
/// outside the chunk's square for a face on the chunk border.
pub open spec fn face_neighbour(b: Block, f: FaceDirections) -> BlockPos {
    BlockPos {
        x: (b.position.x + normal_of(f).0) as i32,
        y: (b.position.y + normal_of(f).1) as i32,
        z: (b.position.z + normal_of(f).2) as i32,
    }
}

pub open spec fn water_cell(cols: Seq<Seq<Option<Block>>>, p: BlockPos) -> bool {
    match block_at_relative(cols, p) {
        Some(w) => w.block_type == BlockType::Water,
        None => false,
    }
}

/// A face can be seen: nothing but water (for a block that is not water
/// itself) covers it. A face below the ground is never seen; beside a chunk
/// that is not loaded, the face is seen where it lies above that chunk's
/// terrain height.
pub open spec fn face_visible(
    m: Map<(int, int), Chunk>,
    heights: Seq<u32>,
    ch: Chunk,
    b: Block,
    f: FaceDirections,
) -> bool {
    let fp = face_neighbour(b, f);
    if fp.y < 0 {
        false
    } else if outside_chunk(fp) {
        let tk = (ch.x + chunk_coord(fp.x as int), ch.y + chunk_coord(fp.z as int));
        let tb = BlockPos { x: trunc_rem(fp.x + 16, 16) as i32, y: fp.y, z: trunc_rem(fp.z + 16, 16) as i32 };
        if m.contains_key(tk) {
            if exists_at(m[tk].columns(), tb) {
                water_cell(m[tk].columns(), tb) && b.block_type != BlockType::Water
            } else {
                true
            }
        } else {
            fp.y > height_at(heights, tk.0, tk.1, tb.x as u32, tb.z as u32)
        }
    } else if exists_at(ch.columns(), fp) {
        water_cell(ch.columns(), fp) && b.block_type != BlockType::Water
    } else {
        true
    }
}

/// A face is drawn when it can be seen; of a water block only the top is drawn.
pub open spec fn face_drawn(m: Map<(int, int), Chunk>, heights: Seq<u32>, ch: Chunk, b: Block, f: FaceDirections) -> bool {
    (b.block_type != BlockType::Water || f == FaceDirections::Top) && face_visible(m, heights, ch, b, f)
}

/// The drawn faces of a block among the first `k` faces of `all_faces`.
pub open spec fn block_faces(m: Map<(int, int), Chunk>, heights: Seq<u32>, ch: Chunk, b: Block, k: int) -> Seq<(Block, FaceDirections)>
    decreases k,
{
    if k <= 0 {
        seq![]
    } else {
        let r = block_faces(m, heights, ch, b, k - 1);
        if face_drawn(m, heights, ch, b, all_faces()[k - 1]) {
            r.push((b, all_faces()[k - 1]))
        } else {
            r
        }
    }
}

pub open spec fn cell_faces(m: Map<(int, int), Chunk>, heights: Seq<u32>, ch: Chunk, cell: Option<Block>) -> Seq<(Block, FaceDirections)> {
    match cell {
        Some(b) => block_faces(m, heights, ch, b, 6),
        None => seq![],
    }
}

/// The drawn faces of the first `n` cells of a column, bottom up.
pub open spec fn column_faces(m: Map<(int, int), Chunk>, heights: Seq<u32>, ch: Chunk, col: Seq<Option<Block>>, n: int) -> Seq<(Block, FaceDirections)>
    decreases n,
{
    if n <= 0 {
        seq![]
    } else {
        column_faces(m, heights, ch, col, n - 1) + cell_faces(m, heights, ch, col[n - 1])
    }
}

/// The drawn faces of the first `n` columns of a chunk, column after column.
pub open spec fn chunk_faces(m: Map<(int, int), Chunk>, heights: Seq<u32>, ch: Chunk, n: int) -> Seq<(Block, FaceDirections)>
    decreases n,
{
    if n <= 0 {
        seq![]
    } else {
        chunk_faces(m, heights, ch, n - 1) + column_faces(m, heights, ch, ch.columns()[n - 1], ch.columns()[n - 1].len() as int)
    }
}

/// Every drawn face of a chunk, in the order in which the chunk is meshed.
pub open spec fn drawn_faces(m: Map<(int, int), Chunk>, heights: Seq<u32>, ch: Chunk) -> Seq<(Block, FaceDirections)> {
    chunk_faces(m, heights, ch, ch.columns().len() as int)
}

pub open spec fn is_water_face(bf: (Block, FaceDirections)) -> bool {
    bf.0.block_type == BlockType::Water
}

/// The vertices of a sequence of faces, four per face.
pub open spec fn mesh_vertices(m: Map<(int, int), Chunk>, adjacent: Seq<(int, int)>, faces: Seq<(Block, FaceDirections)>) -> Seq<MeshVertex>
    decreases faces.len(),
{
    if faces.len() == 0 {
        seq![]
    } else {
        mesh_vertices(m, adjacent, faces.drop_last()) + face_vertices(m, adjacent, faces.last().0, faces.last().1)
    }
}

/// The triangle indices of a sequence of faces: face `k` uses vertices
/// `4k .. 4k + 4`.
pub open spec fn mesh_indices(faces: Seq<(Block, FaceDirections)>) -> Seq<u32>
    decreases faces.len(),
{
    if faces.len() == 0 {
        seq![]
    } else {
        mesh_indices(faces.drop_last()) + face_index_map().map_values(|i: u32| (i + 4 * (faces.len() - 1)) as u32)
    }
}

/// The loaded chunks among the chunk and its eight neighbours, x outermost.
pub open spec fn adjacent_keys(m: Map<(int, int), Chunk>, ch: Chunk) -> Seq<(int, int)> {
    Seq::new(9, |k: int| (ch.x - 1 + k / 3, ch.y - 1 + k % 3)).filter(|k: (int, int)| m.contains_key(k))
}

/// Number of cells in the first `n` columns.
pub open spec fn cells_before(cols: Seq<Seq<Option<Block>>>, n: int) -> int
    decreases n,
{
    if n <= 0 {
        0
    } else {
        cells_before(cols, n - 1) + cols[n - 1].len()
    }
}

/// What meshing a chunk needs: its blocks at their own places, room around
/// it in world coordinates, terrain heights for the side chunks that are not
/// loaded, and few enough cells for the triangle indices to fit in `u32`.
pub open spec fn meshable(world: World, ch: Chunk) -> bool {
    &&& world.wf()
    &&& ch.consistent()
    &&& i32::MIN + 32 <= ch.x * 16 && ch.x * 16 + 32 <= i32::MAX
    &&& i32::MIN + 32 <= ch.y * 16 && ch.y * 16 + 32 <= i32::MAX
    &&& terrain_ready(ch.x + 1, ch.y as int, world.heights@.len() as int)
    &&& terrain_ready(ch.x - 1, ch.y as int, world.heights@.len() as int)
    &&& terrain_ready(ch.x as int, ch.y + 1, world.heights@.len() as int)
    &&& terrain_ready(ch.x as int, ch.y - 1, world.heights@.len() as int)
    &&& 24 * cells_before(ch.columns(), 256) + 24 <= u32::MAX
}

proof fn lemma_mesh_push(m: Map<(int, int), Chunk>, adjacent: Seq<(int, int)>, faces: Seq<(Block, FaceDirections)>, bf: (Block, FaceDirections))
    ensures
        mesh_vertices(m, adjacent, faces.push(bf)) == mesh_vertices(m, adjacent, faces) + face_vertices(m, adjacent, bf.0, bf.1),
        mesh_indices(faces.push(bf)) == mesh_indices(faces) + face_index_map().map_values(|i: u32| (i + 4 * faces.len()) as u32),
{
    assert(faces.push(bf).drop_last() =~= faces);
}

proof fn lemma_mesh_len(m: Map<(int, int), Chunk>, adjacent: Seq<(int, int)>, faces: Seq<(Block, FaceDirections)>)
    ensures
        mesh_vertices(m, adjacent, faces).len() == 4 * faces.len(),
        mesh_indices(faces).len() == 6 * faces.len(),
    decreases faces.len(),
{
    if faces.len() > 0 {
        lemma_mesh_len(m, adjacent, faces.drop_last());
    }
}

proof fn lemma_block_faces_len(m: Map<(int, int), Chunk>, heights: Seq<u32>, ch: Chunk, b: Block, k: int)
    ensures
        block_faces(m, heights, ch, b, k).len() <= if k < 0 { 0 } else { k },
    decreases k,
{
    if k > 0 {
        lemma_block_faces_len(m, heights, ch, b, k - 1);
    }
}

proof fn lemma_cells_monotone(cols: Seq<Seq<Option<Block>>>, a: int, b: int)
    requires
        0 <= a <= b <= cols.len(),
    ensures
        cells_before(cols, a) <= cells_before(cols, b),
        cells_before(cols, a) >= 0,
    decreases b - a,
{
    if a < b {
        lemma_cells_monotone(cols, a, b - 1);
    } else {
        lemma_cells_nonneg(cols, a);
    }
}

proof fn lemma_cells_nonneg(cols: Seq<Seq<Option<Block>>>, n: int)
    ensures
        cells_before(cols, n) >= 0,
    decreases n,
{
    if n > 0 {
        lemma_cells_nonneg(cols, n - 1);
    }
}

/// Rust's `%` by 16 of a non-negative number below 2^31.
fn trunc_rem16(v: i32) -> (r: i32)
    requires
        v >= 0,
    ensures
        r == trunc_rem(v as int, 16),
{
    v % 16
}

impl Chunk {
    /// Whether face `face` of block `block` of this chunk can be seen, given
    /// the loaded chunks of the world and the terrain height of the others.
    fn face_is_visible(&self, world: &World, block: &Block, face: FaceDirections) -> (r: bool)
        requires
            meshable(*world, *self),
            0 <= block.position.x < 16,
            0 <= block.position.z < 16,
            0 <= block.position.y < i32::MAX,
        ensures
            r == face_visible(world.map(), world.heights@, *self, *block, face),
    {
        let n = face.get_normal_vector();
        let face_position = BlockPos {
            x: block.position.x + n.x,
            y: block.position.y + n.y,
            z: block.position.z + n.z,
        };
        assert(face_position == face_neighbour(*block, face));
        if Chunk::is_outside_bounds(&face_position) {
            false
        } else if Chunk::is_outside_chunk(&face_position) {
            let target_chunk_x = self.x + floor_div_chunk(face_position.x);
            let target_chunk_y = self.y + floor_div_chunk(face_position.z);
            let target_block = BlockPos {
                x: trunc_rem16(face_position.x + 16),
                y: face_position.y,
                z: trunc_rem16(face_position.z + 16),
            };
            match world.find_chunk((target_chunk_x, target_chunk_y)) {
                Some(i) => {
                    proof { crate::world::lemma_map_at_index(world.chunks@, i as int); }
                    let chunk = &world.chunks[i];
                    if chunk.exists_block_at(&target_block) {
                        match chunk.block_type_at(&target_block) {
                            Some(t) => t == BlockType::Water && block.block_type != BlockType::Water,
                            None => false,
                        }
                    } else {
                        true
                    }
                },
                None => {
                    proof {
                        crate::world::lemma_has_key_in_map(world.chunks@, (target_chunk_x as int, target_chunk_y as int));
                        let tk = (target_chunk_x as int, target_chunk_y as int);
                        assert(tk == (self.x + 1, self.y as int) || tk == (self.x - 1, self.y as int)
                            || tk == (self.x as int, self.y + 1) || tk == (self.x as int, self.y - 1));
                        assert(height_lookup_ok_at(tk, target_block, world.heights@.len() as int));
                    }
                    let h = Chunk::get_height_value(
                        target_chunk_x,
                        target_chunk_y,
                        target_block.x as u32,
                        target_block.z as u32,
                        &world.heights,
                    );
                    !((face_position.y as u32) <= h)
                },
            }
        } else if self.exists_block_at(&face_position) {
            match self.block_type_at(&face_position) {
                Some(t) => t == BlockType::Water && block.block_type != BlockType::Water,
                None => false,
            }
        } else {
            true
        }
    }
}

/// Appends the four vertices and six indices of one more face to a mesh that
/// already holds `k` faces.
fn append_face(
    vertices: &mut Vec<MeshVertex>,
    indices: &mut Vec<u32>,
    face_data: (Vec<MeshVertex>, Vec<u32>),
    k: Ghost<int>,
)
    requires
        old(vertices)@.len() == 4 * k@,
        face_data.1@ == face_index_map(),
        4 * k@ + 4 <= u32::MAX,
        k@ >= 0,
    ensures
        final(vertices)@ == old(vertices)@ + face_data.0@,
        final(indices)@ == old(indices)@ + face_index_map().map_values(|i: u32| (i + 4 * k@) as u32),
{
    let (mut vertex_data, index_data) = face_data;
    let start = vertices.len();
    vertices.append(&mut vertex_data);
    let offset: u32 = start as u32;
    let ghost old_indices = indices@;
    let mut i: usize = 0;
    while i < 6
        invariant
            i <= 6,
            index_data@ == face_index_map(),
            offset == 4 * k@,
            4 * k@ + 4 <= u32::MAX,
            indices@ =~= old_indices + face_index_map().map_values(|i: u32| (i + 4 * k@) as u32).take(i as int),
        decreases 6 - i,
    {
        indices.push(index_data[i] + offset);
        i += 1;
    }
}

impl Chunk {
    /// Keys of the loaded chunks among this chunk and its eight neighbours.
    fn adjacent_chunk_keys(&self, world: &World) -> (r: Vec<(i32, i32)>)
        requires
            world.wf(),
            i32::MIN + 1 <= self.x <= i32::MAX - 1,
            i32::MIN + 1 <= self.y <= i32::MAX - 1,
        ensures
            keys_view(r@) == adjacent_keys(world.map(), *self),
    {
        let ghost all = Seq::new(9, |k: int| (self.x - 1 + k / 3, self.y - 1 + k % 3));
        let ghost pred = |k: (int, int)| world.map().contains_key(k);
        let mut adjacent: Vec<(i32, i32)> = Vec::new();
        let mut n: i32 = 0;
        while n < 9
            invariant
                0 <= n <= 9,
                world.wf(),
                i32::MIN + 1 <= self.x <= i32::MAX - 1,
                i32::MIN + 1 <= self.y <= i32::MAX - 1,
                all == Seq::new(9, |k: int| (self.x - 1 + k / 3, self.y - 1 + k % 3)),
                pred == (|k: (int, int)| world.map().contains_key(k)),
                keys_view(adjacent@) == all.take(n as int).filter(pred),
            decreases 9 - n,
        {
            let key = (self.x - 1 + n / 3, self.y - 1 + n % 3);
            let ghost kv = (key.0 as int, key.1 as int);
            assert(kv == all[n as int]);
            assert(all.take(n + 1) =~= all.take(n as int).push(kv));
            proof { all.take(n as int).lemma_filter_push(kv, pred); }
            let found = world.find_chunk(key);
            proof { crate::world::lemma_has_key_in_map(world.chunks@, kv); }
            if found.is_some() {
                adjacent.push(key);
                assert(keys_view(adjacent@) =~= keys_view(adjacent@.drop_last()).push(kv));
            }
            n += 1;
        }
        assert(all.take(9) =~= all);
        adjacent
    }

    /// The triangles of this chunk's visible faces, opaque blocks and water
    /// apart. Faces on the chunk border look into the world's loaded chunks.
    pub fn build_mesh(&self, world: &World) -> (r: MeshData)
        requires
            meshable(*world, *self),
        ensures
            ({
                let m = world.map();
                let faces = drawn_faces(m, world.heights@, *self);
                let adjacent = adjacent_keys(m, *self);
                let solid = |bf: (Block, FaceDirections)| !is_water_face(bf);
                let water = |bf: (Block, FaceDirections)| is_water_face(bf);
                &&& r.vertices@ == mesh_vertices(m, adjacent, faces.filter(solid))
                &&& r.indices@ == mesh_indices(faces.filter(solid))
                &&& r.water_vertices@ == mesh_vertices(m, adjacent, faces.filter(water))
                &&& r.water_indices@ == mesh_indices(faces.filter(water))
            }),
    {
        let ghost m = world.map();
        let ghost hs = world.heights@;
        let ghost cols = self.columns();
        let ghost solid = |bf: (Block, FaceDirections)| !is_water_face(bf);
        let ghost water = |bf: (Block, FaceDirections)| is_water_face(bf);
        let adjacent = self.adjacent_chunk_keys(world);
        let ghost adj = keys_view(adjacent@);
        let faces = FaceDirections::all();
        let mut vertex: Vec<MeshVertex> = Vec::new();
        let mut indices: Vec<u32> = Vec::new();
        let mut water_vertex: Vec<MeshVertex> = Vec::new();
        let mut water_indices: Vec<u32> = Vec::new();
        let ghost mut done: Seq<(Block, FaceDirections)> = seq![];
        proof { lemma_cells_monotone(cols, 0, 256); }
        let mut c: usize = 0;
        while c < self.blocks.len()
            invariant
                c <= self.blocks@.len(),
                meshable(*world, *self),
                m == world.map(),
                hs == world.heights@,
                cols == self.columns(),
                cols.len() == 256,
                adj == adjacent_keys(m, *self),
                adj == keys_view(adjacent@),
                faces@ == crate::blocks::block::all_faces(),
                solid == (|bf: (Block, FaceDirections)| !is_water_face(bf)),
                water == (|bf: (Block, FaceDirections)| is_water_face(bf)),
                done == chunk_faces(m, hs, *self, c as int),
                done.len() <= 6 * cells_before(cols, c as int),
                cells_before(cols, c as int) <= cells_before(cols, 256),
                vertex@ == mesh_vertices(m, adj, done.filter(solid)),
                indices@ == mesh_indices(done.filter(solid)),
                water_vertex@ == mesh_vertices(m, adj, done.filter(water)),
                water_indices@ == mesh_indices(done.filter(water)),
            decreases self.blocks@.len() - c,
        {
            let col = &self.blocks[c];
            proof { lemma_cells_monotone(cols, c + 1, 256); }
            assert(cells_before(cols, c + 1) == cells_before(cols, c as int) + col@.len());
            let mut y: usize = 0;
            while y < col.len()
                invariant
                    c < 256,
                    y <= col@.len(),
                    col@ == cols[c as int],
                    meshable(*world, *self),
                    m == world.map(),
                    hs == world.heights@,
                    cols == self.columns(),
                    adj == adjacent_keys(m, *self),
                    adj == keys_view(adjacent@),
                    faces@ == crate::blocks::block::all_faces(),
                    solid == (|bf: (Block, FaceDirections)| !is_water_face(bf)),
                    water == (|bf: (Block, FaceDirections)| is_water_face(bf)),
                    done == chunk_faces(m, hs, *self, c as int) + column_faces(m, hs, *self, col@, y as int),
                    done.len() <= 6 * (cells_before(cols, c as int) + y),
                    cells_before(cols, c as int) + col@.len() <= cells_before(cols, 256),
                    vertex@ == mesh_vertices(m, adj, done.filter(solid)),
                    indices@ == mesh_indices(done.filter(solid)),
                    water_vertex@ == mesh_vertices(m, adj, done.filter(water)),
                    water_indices@ == mesh_indices(done.filter(water)),
                decreases col@.len() - y,
            {
                let ghost before_cell = done;
                match col[y] {
                    None => {},
                    Some(block) => {
                        proof {
                            assert(cols[c as int][y as int] is Some);
                            assert(block.position == cell_position(c as int, y as int));
                            assert(0 <= (c as int) / 16 < 16) by (nonlinear_arith)
                                requires
                                    0 <= c < 256,
                            ;
                            lemma_cells_nonneg(cols, c as int);
                            assert(0 <= block.position.y < 178956970);
                            assert(corner_room(block));
                        }
                        let mut fi: usize = 0;
                        while fi < 6
                            invariant
                                c < 256,
                                y < col@.len(),
                                col@ == cols[c as int],
                                col@[y as int] == Some(block),
                                block.position == cell_position(c as int, y as int),
                                0 <= block.position.x < 16,
                                0 <= block.position.z < 16,
                                block == crate::blocks::block::block_at_spec(block.position, (self.x, self.y), block.block_type),
                                0 <= block.position.y < 178956970,
                                corner_room(block),
                                meshable(*world, *self),
                                m == world.map(),
                                hs == world.heights@,
                                cols == self.columns(),
                                adj == adjacent_keys(m, *self),
                                adj == keys_view(adjacent@),
                                faces@ == crate::blocks::block::all_faces(),
                                solid == (|bf: (Block, FaceDirections)| !is_water_face(bf)),
                                water == (|bf: (Block, FaceDirections)| is_water_face(bf)),
                                fi <= 6,
                                done == before_cell + block_faces(m, hs, *self, block, fi as int),
                                before_cell.len() <= 6 * (cells_before(cols, c as int) + y),
                                done.len() <= 6 * (cells_before(cols, c as int) + y) + fi,
                                cells_before(cols, c as int) + y + 1 <= cells_before(cols, 256),
                                vertex@ == mesh_vertices(m, adj, done.filter(solid)),
                                indices@ == mesh_indices(done.filter(solid)),
                                water_vertex@ == mesh_vertices(m, adj, done.filter(water)),
                                water_indices@ == mesh_indices(done.filter(water)),
                            decreases 6 - fi,
                        {
                            let face = faces[fi];
                            let is_water = block.block_type == BlockType::Water;
                            let drawn = if is_water && face != FaceDirections::Top {
                                false
                            } else {
                                self.face_is_visible(world, &block, face)
                            };
                            if drawn {
                                let bf = (block, face);
                                proof {
                                    lemma_mesh_len(m, adj, done.filter(solid));
                                    lemma_mesh_len(m, adj, done.filter(water));
                                    done.lemma_filter_push(bf, solid);
                                    done.lemma_filter_push(bf, water);
                                    done.filter(solid).lemma_filter_len(solid);
                                    done.lemma_filter_len(solid);
                                    done.lemma_filter_len(water);
                                    lemma_mesh_push(m, adj, done.filter(solid), bf);
                                    lemma_mesh_push(m, adj, done.filter(water), bf);
                                }
                                let face_data = face.create_face_data(&block, world, &adjacent);
                                if is_water {
                                    append_face(&mut water_vertex, &mut water_indices, face_data, Ghost(done.filter(water).len() as int));
                                } else {
                                    append_face(&mut vertex, &mut indices, face_data, Ghost(done.filter(solid).len() as int));
                                }
                                proof { done = done.push(bf); }
                            }
                            fi += 1;
                        }
                    },
                }
                assert(column_faces(m, hs, *self, col@, y + 1) == column_faces(m, hs, *self, col@, y as int) + cell_faces(m, hs, *self, col@[y as int]));
                assert(done =~= chunk_faces(m, hs, *self, c as int) + column_faces(m, hs, *self, col@, y + 1));
                y += 1;
            }
            assert(chunk_faces(m, hs, *self, c + 1) == chunk_faces(m, hs, *self, c as int) + column_faces(m, hs, *self, cols[c as int], cols[c as int].len() as int));
            c += 1;
        }
        MeshData { vertices: vertex, indices, water_vertices: water_vertex, water_indices }
    }
}

/// Height lookups for every column of a chunk are in range.
pub open spec fn height_lookup_ok_at(tk: (int, int), tb: BlockPos, len: int) -> bool {
    crate::chunk::height_lookup_ok(tk.0, tk.1, tb.x as u32, tb.z as u32, len)
}

/// A face is drawn when the cell across it is above the ground and holds no
/// block, whether that cell lies in the block's own chunk or, across the
/// chunk border, in a loaded neighbouring chunk.
pub proof fn lemma_face_into_empty_cell_is_visible(
    m: Map<(int, int), Chunk>,
    heights: Seq<u32>,
    ch: Chunk,
    b: Block,
    f: FaceDirections,
)
    requires
        0 <= b.position.x < 16,
        0 <= b.position.z < 16,
        0 <= b.position.y < i32::MAX,
        b == crate::blocks::block::block_at_spec(b.position, (ch.x, ch.y), b.block_type),
        i32::MIN + 32 <= ch.x * 16 && ch.x * 16 + 32 <= i32::MAX,
        i32::MIN + 32 <= ch.y * 16 && ch.y * 16 + 32 <= i32::MAX,
        ({
            let n = normal_of(f);
            let q = BlockPos {
                x: (b.absolute_position.x + n.0) as i32,
                y: (b.absolute_position.y + n.1) as i32,
                z: (b.absolute_position.z + n.2) as i32,
            };
            &&& q.y >= 0
            &&& if crate::utils::chunk_of(q) == (ch.x as int, ch.y as int) {
                block_at_relative(ch.columns(), crate::world::relative_pos(q)) is None
            } else {
                m.contains_key(crate::utils::chunk_of(q)) && crate::world::block_at_absolute(m, q) is None
            }
        }),
    ensures
        face_visible(m, heights, ch, b, f),
{
    let n = normal_of(f);
    let q = BlockPos {
        x: (b.absolute_position.x + n.0) as i32,
        y: (b.absolute_position.y + n.1) as i32,
        z: (b.absolute_position.z + n.2) as i32,
    };
    let fp = face_neighbour(b, f);
    assert(q.x == ch.x * 16 + fp.x);
    assert(q.z == ch.y * 16 + fp.z);
    assert(q.y == fp.y);
    crate::utils::lemma_chunk_decomposition(q);
    let c = crate::utils::chunk_of(q);
    let r = crate::world::relative_pos(q);
    assert(r.y == fp.y);
    if outside_chunk(fp) {
        let tk = (ch.x + chunk_coord(fp.x as int), ch.y + chunk_coord(fp.z as int));
        let tb = BlockPos { x: trunc_rem(fp.x + 16, 16) as i32, y: fp.y, z: trunc_rem(fp.z + 16, 16) as i32 };
        assert(tk == c);
        assert(tb == r);
        assert(c != (ch.x as int, ch.y as int));
        crate::chunk::lemma_exists_iff_block(m[tk].columns(), tb);
    } else {
        assert(c == (ch.x as int, ch.y as int));
        assert(r == fp);
        crate::chunk::lemma_exists_iff_block(ch.columns(), fp);
    }
}

/// Whether a face is drawn, from what lies across it: below the ground never;
/// in the block's own chunk or a loaded neighbouring chunk, when the cell there
/// is empty, or holds water and the block is not water; beside a chunk that is
/// not loaded, when the cell lies above that chunk's terrain height there.
pub proof fn lemma_face_visibility(
    m: Map<(int, int), Chunk>,
    heights: Seq<u32>,
    ch: Chunk,
    b: Block,
    f: FaceDirections,
)
    requires
        0 <= b.position.x < 16,
        0 <= b.position.z < 16,
        0 <= b.position.y < i32::MAX,
        b == crate::blocks::block::block_at_spec(b.position, (ch.x, ch.y), b.block_type),
        i32::MIN + 32 <= ch.x * 16 && ch.x * 16 + 32 <= i32::MAX,
        i32::MIN + 32 <= ch.y * 16 && ch.y * 16 + 32 <= i32::MAX,
    ensures
        ({
            let n = normal_of(f);
            let q = BlockPos {
                x: (b.absolute_position.x + n.0) as i32,
                y: (b.absolute_position.y + n.1) as i32,
                z: (b.absolute_position.z + n.2) as i32,
            };
            let c = crate::utils::chunk_of(q);
            let rq = crate::world::relative_pos(q);
            let across = if c == (ch.x as int, ch.y as int) {
                block_at_relative(ch.columns(), rq)
            } else {
                crate::world::block_at_absolute(m, q)
            };
            &&& q.y < 0 ==> !face_visible(m, heights, ch, b, f)
            &&& q.y >= 0 && (c == (ch.x as int, ch.y as int) || m.contains_key(c)) ==> face_visible(m, heights, ch, b, f) == match across {
                None => true,
                Some(w) => w.block_type == BlockType::Water && b.block_type != BlockType::Water,
            }
            &&& q.y >= 0 && c != (ch.x as int, ch.y as int) && !m.contains_key(c) ==> face_visible(m, heights, ch, b, f)
                == (q.y > height_at(heights, c.0, c.1, rq.x as u32, rq.z as u32))
        }),
{
    let n = normal_of(f);
    let q = BlockPos {
        x: (b.absolute_position.x + n.0) as i32,
        y: (b.absolute_position.y + n.1) as i32,
        z: (b.absolute_position.z + n.2) as i32,
    };
    let fp = face_neighbour(b, f);
    assert(q.x == ch.x * 16 + fp.x);
    assert(q.z == ch.y * 16 + fp.z);
    assert(q.y == fp.y);
    crate::utils::lemma_chunk_decomposition(q);
    let c = crate::utils::chunk_of(q);
    let r = crate::world::relative_pos(q);
    if q.y >= 0 {
        assert(r.y == fp.y);
        if outside_chunk(fp) {
            let tk = (ch.x + chunk_coord(fp.x as int), ch.y + chunk_coord(fp.z as int));
            let tb = BlockPos { x: trunc_rem(fp.x + 16, 16) as i32, y: fp.y, z: trunc_rem(fp.z + 16, 16) as i32 };
            assert(tk == c);
            assert(tb == r);
            assert(c != (ch.x as int, ch.y as int));
            crate::chunk::lemma_exists_iff_block(m[tk].columns(), tb);
        } else {
            assert(c == (ch.x as int, ch.y as int));
            assert(r == fp);
            crate::chunk::lemma_exists_iff_block(ch.columns(), fp);
        }
    }
}

/// Each face draws two triangles over four distinct corners, in first-use order.
pub proof fn lemma_face_corners(f: FaceDirections)
    ensures
        first_occurrences(face_indices(f)) == face_corners(f),
        forall|i: int, j: int| 0 <= i < j < 4 ==> face_corners(f)[i] != face_corners(f)[j],
        forall|k: int| 0 <= k < 6 ==> #[trigger] face_corners(f)[face_index_map()[k] as int] == face_indices(f)[k],
        forall|k: int| 0 <= k < 4 ==> #[trigger] face_corners(f)[k] < 8,
{
    let s = face_indices(f);
    let a = s[0];
    let b = s[1];
    let c = s[2];
    let d = s[5];
    assert(s =~= seq![a, b, c, a, c, d]);
    reveal_with_fuel(first_occurrences, 7);
    assert(s.drop_last() =~= seq![a, b, c, a, c]);
    assert(s.drop_last().drop_last() =~= seq![a, b, c, a]);
    assert(s.drop_last().drop_last().drop_last() =~= seq![a, b, c]);
    assert(seq![a, b, c].drop_last() =~= seq![a, b]);
    assert(seq![a, b].drop_last() =~= seq![a]);
    assert(seq![a].drop_last() =~= Seq::<u32>::empty());
    assert(first_occurrences(seq![a]) =~= seq![a]);
    assert(first_occurrences(seq![a, b]) =~= seq![a, b]);
    assert(first_occurrences(seq![a, b, c]) =~= seq![a, b, c]);
    assert(seq![a, b, c].contains(a));
    assert(first_occurrences(seq![a, b, c, a]) =~= seq![a, b, c]);
    assert(seq![a, b, c].contains(c));
    assert(first_occurrences(seq![a, b, c, a, c]) =~= seq![a, b, c]);
    assert(!seq![a, b, c].contains(d));
    assert(first_occurrences(s) =~= seq![a, b, c, d]);
}

/// The grid offset of a cube corner.
fn cube_corner_offset(corner: u32) -> (r: BlockPos)
    requires
        corner < 8,
    ensures
        (r.x as int, r.y as int, r.z as int) == corner_offset(corner as int),
{
    match corner {
        0 => BlockPos { x: 0, y: 0, z: 0 },
        1 => BlockPos { x: 0, y: 1, z: 0 },
        2 => BlockPos { x: 1, y: 1, z: 0 },
        3 => BlockPos { x: 1, y: 0, z: 0 },
        4 => BlockPos { x: 0, y: 0, z: 1 },
        5 => BlockPos { x: 0, y: 1, z: 1 },
        6 => BlockPos { x: 1, y: 1, z: 1 },
        _ => BlockPos { x: 1, y: 0, z: 1 },
    }
}

fn contains_u32(v: &Vec<u32>, x: u32) -> (r: bool)
    ensures
        r == v@.contains(x),
{
    let mut i: usize = 0;
    while i < v.len()
        invariant
            i <= v@.len(),
            forall|j: int| 0 <= j < i ==> v@[j] != x,
        decreases v@.len() - i,
    {
        if v[i] == x {
            assert(v@[i as int] == x);
            return true;
        }
        i += 1;
    }
    false
}

/// A block whose absolute position leaves room for the cube corners and their
/// neighbours.
pub open spec fn corner_room(b: Block) -> bool {
    &&& coordinate_room(b.absolute_position.x as int, 2)
    &&& coordinate_room(b.absolute_position.y as int, 2)
    &&& coordinate_room(b.absolute_position.z as int, 2)
}

impl FaceDirections {
    /// The four vertices of this face of `block` and the indices of its two
    /// triangles. Ambient occlusion looks only at the listed chunks of the world.
    pub fn create_face_data(&self, block: &Block, world: &World, adjacent: &Vec<(i32, i32)>) -> (r: (Vec<MeshVertex>, Vec<u32>))
        requires
            world.wf(),
            corner_room(*block),
        ensures
            r.0@ == face_vertices(world.map(), keys_view(adjacent@), *block, *self),
            r.1@ == face_index_map(),
    {
        proof { lemma_face_corners(*self); }
        let indices = self.get_indices();
        let mut unique_indices: Vec<u32> = Vec::new();
        let mut k: usize = 0;
        while k < 6
            invariant
                k <= 6,
                indices@ == face_indices(*self),
                unique_indices@ == first_occurrences(indices@.take(k as int)),
            decreases 6 - k,
        {
            let ind = indices[k];
            assert(indices@.take(k + 1).drop_last() =~= indices@.take(k as int));
            assert(indices@.take(k + 1).last() == ind);
            if !contains_u32(&unique_indices, ind) {
                unique_indices.push(ind);
            }
            k += 1;
        }
        assert(indices@.take(6) =~= indices@);
        let mut indices_map: Vec<u32> = Vec::new();
        let mut i: usize = 0;
        while i < 6
            invariant
                i <= 6,
                indices@ == face_indices(*self),
                unique_indices@ == face_corners(*self),
                forall|a: int, b: int| 0 <= a < b < 4 ==> face_corners(*self)[a] != face_corners(*self)[b],
                forall|k: int| 0 <= k < 6 ==> #[trigger] face_corners(*self)[face_index_map()[k] as int] == face_indices(*self)[k],
                indices_map@ == face_index_map().take(i as int),
            decreases 6 - i,
        {
            let mut j: usize = 0;
            while unique_indices[j] != indices[i]
                invariant
                    j < 4,
                    i < 6,
                    indices@ == face_indices(*self),
                    unique_indices@ == face_corners(*self),
                    forall|a: int, b: int| 0 <= a < b < 4 ==> face_corners(*self)[a] != face_corners(*self)[b],
                    forall|k: int| 0 <= k < 6 ==> #[trigger] face_corners(*self)[face_index_map()[k] as int] == face_indices(*self)[k],
                    j <= face_index_map()[i as int],
                decreases 4 - j,
            {
                assert(face_corners(*self)[face_index_map()[i as int] as int] == face_indices(*self)[i as int]);
                j += 1;
            }
            assert(face_corners(*self)[face_index_map()[i as int] as int] == face_indices(*self)[i as int]);
            assert(j == face_index_map()[i as int]);
            indices_map.push(j as u32);
            assert(indices_map@ =~= face_index_map().take(i + 1));
            i += 1;
        }
        assert(indices_map@ =~= face_index_map());
        let mut vertex_data: Vec<MeshVertex> = Vec::new();
        let mut n: usize = 0;
        while n < 4
            invariant
                n <= 4,
                world.wf(),
                corner_room(*block),
                unique_indices@ == face_corners(*self),
                forall|k: int| 0 <= k < 4 ==> #[trigger] face_corners(*self)[k] < 8,
                vertex_data@ =~= face_vertices(world.map(), keys_view(adjacent@), *block, *self).take(n as int),
            decreases 4 - n,
        {
            let corner = unique_indices[n];
            assert(face_corners(*self)[n as int] < 8);
            let offset = cube_corner_offset(corner);
            let a = block.absolute_position;
            let g = BlockPos { x: a.x + offset.x, y: a.y + offset.y, z: a.z + offset.z };
            assert(g == corner_point(block.absolute_position, corner));
            let ao = from_vertex_position(world, adjacent, &g);
            vertex_data.push(MeshVertex {
                corner,
                position: block.position,
                face: *self,
                tex_corner: n as u32,
                ao,
                block_type: block.block_type,
            });
            n += 1;
        }
        (vertex_data, indices_map)
    }
}

} // verus!
