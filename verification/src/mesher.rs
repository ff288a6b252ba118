use vstd::prelude::*;
use crate::chunk::{
    CHUNK_SIZE, CHUNK_VOLUME, Chunk, coord_x, coord_y, coord_z, face_exposed, flat_index,
    lemma_coord_bounds, side,
};
use crate::voxel::Voxel;

verus! {

/// A mesh vertex: a corner of a voxel cube, in chunk-local lattice units.
/// Shading and world placement are the renderer's business; the mesher's is
/// which corners appear, and in what order.
#[derive(Clone, Copy, PartialEq, Eq, Structural, Debug)]
pub struct Vertex {
    pub x: u32,
    pub y: u32,
    pub z: u32,
}

impl Vertex {
    pub fn new(x: u32, y: u32, z: u32) -> (v: Vertex)
        ensures
            v.x == x && v.y == y && v.z == z,
    {
        Vertex { x, y, z }
    }
}

/// The vertex at integer lattice coordinates, for specifications; meaningful
/// when the coordinates lie in `[0, side]`.
pub open spec fn vert(x: int, y: int, z: int) -> Vertex {
    Vertex { x: x as u32, y: y as u32, z: z as u32 }
}

/// The unit step out of a voxel through face `f`: left, right, bottom, top,
/// back, front.
pub open spec fn face_dir(f: int) -> (int, int, int) {
    if f == 0 {
        (-1, 0, 0)
    } else if f == 1 {
        (1, 0, 0)
    } else if f == 2 {
        (0, -1, 0)
    } else if f == 3 {
        (0, 1, 0)
    } else if f == 4 {
        (0, 0, -1)
    } else {
        (0, 0, 1)
    }
}

/// The four corners of face `f` of the unit cube at `(x, y, z)`, in the
/// outward-winding order the renderer expects.
pub open spec fn face_corners(x: int, y: int, z: int, f: int) -> Seq<Vertex> {
    if f == 0 {
        seq![vert(x, y, z), vert(x, y, z + 1), vert(x, y + 1, z + 1), vert(x, y + 1, z)]
    } else if f == 1 {
        seq![
            vert(x + 1, y, z),
            vert(x + 1, y + 1, z),
            vert(x + 1, y + 1, z + 1),
            vert(x + 1, y, z + 1),
        ]
    } else if f == 2 {
        seq![vert(x, y, z), vert(x + 1, y, z), vert(x + 1, y, z + 1), vert(x, y, z + 1)]
    } else if f == 3 {
        seq![
            vert(x, y + 1, z),
            vert(x, y + 1, z + 1),
            vert(x + 1, y + 1, z + 1),
            vert(x + 1, y + 1, z),
        ]
    } else if f == 4 {
        seq![vert(x, y, z), vert(x, y + 1, z), vert(x + 1, y + 1, z), vert(x + 1, y, z)]
    } else {
        seq![
            vert(x, y, z + 1),
            vert(x + 1, y, z + 1),
            vert(x + 1, y + 1, z + 1),
            vert(x, y + 1, z + 1),
        ]
    }
}

/// Two triangles over the quad whose corners sit at positions `base + a`,
/// `base + b`, `base + c`, `base + d` of the vertex list.
pub open spec fn quad_pattern(base: int, a: int, b: int, c: int, d: int) -> Seq<u32> {
    seq![
        (base + a) as u32,
        (base + b) as u32,
        (base + c) as u32,
        (base + c) as u32,
        (base + d) as u32,
        (base + a) as u32,
    ]
}

/// Whether the culled mesher emits face `f` of cell `i`: the cell is solid
/// and that face is exposed.
pub open spec fn emits_face(cells: Seq<Voxel>, i: int, f: int) -> bool {
    let (dx, dy, dz) = face_dir(f);
    cells[i].is_solid() && face_exposed(cells, i, dx, dy, dz)
}

/// How many of the faces `[0, f)` of cell `i` the culled mesher emits.
pub open spec fn face_count_upto(cells: Seq<Voxel>, i: int, f: int) -> int
    decreases f,
{
    if f <= 0 {
        0
    } else {
        face_count_upto(cells, i, f - 1) + if emits_face(cells, i, f - 1) {
            1int
        } else {
            0int
        }
    }
}

/// How many faces of cell `i` the culled mesher emits in all.
pub open spec fn voxel_face_count(cells: Seq<Voxel>, i: int) -> int {
    face_count_upto(cells, i, 6)
}

/// The vertices the culled mesher emits for faces `[0, f)` of cell `i`.
pub open spec fn voxel_verts_upto(cells: Seq<Voxel>, i: int, f: int) -> Seq<Vertex>
    decreases f,
{
    if f <= 0 {
        Seq::empty()
    } else {
        voxel_verts_upto(cells, i, f - 1) + if emits_face(cells, i, f - 1) {
            face_corners(coord_x(i), coord_y(i), coord_z(i), f - 1)
        } else {
            Seq::empty()
        }
    }
}

/// The triangle indices the culled mesher emits for faces `[0, f)` of cell
/// `i`, when the cell's first vertex would land at position `base`.
pub open spec fn voxel_inds_upto(cells: Seq<Voxel>, i: int, f: int, base: int) -> Seq<u32>
    decreases f,
{
    if f <= 0 {
        Seq::empty()
    } else {
        voxel_inds_upto(cells, i, f - 1, base) + if emits_face(cells, i, f - 1) {
            quad_pattern(base + voxel_verts_upto(cells, i, f - 1).len(), 0, 1, 2, 3)
        } else {
            Seq::empty()
        }
    }
}

/// Total emitted face count over the cells `[0, n)`.
pub open spec fn exposed_faces_upto(cells: Seq<Voxel>, n: int) -> int
    decreases n,
{
    if n <= 0 {
        0
    } else {
        exposed_faces_upto(cells, n - 1) + voxel_face_count(cells, n - 1)
    }
}

/// Total emitted face count of the whole chunk.
pub open spec fn exposed_face_count(cells: Seq<Voxel>) -> int {
    exposed_faces_upto(cells, CHUNK_VOLUME as int)
}

/// The culled mesher's vertex list over the cells `[0, n)`.
pub open spec fn culled_verts_upto(cells: Seq<Voxel>, n: int) -> Seq<Vertex>
    decreases n,
{
    if n <= 0 {
        Seq::empty()
    } else {
        culled_verts_upto(cells, n - 1) + voxel_verts_upto(cells, n - 1, 6)
    }
}

/// The culled mesher's index list over the cells `[0, n)`.
pub open spec fn culled_inds_upto(cells: Seq<Voxel>, n: int) -> Seq<u32>
    decreases n,
{
    if n <= 0 {
        Seq::empty()
    } else {
        culled_inds_upto(cells, n - 1) + voxel_inds_upto(
            cells,
            n - 1,
            6,
            culled_verts_upto(cells, n - 1).len() as int,
        )
    }
}

/// The whole culled vertex list of a chunk's cells.
pub open spec fn culled_verts(cells: Seq<Voxel>) -> Seq<Vertex> {
    culled_verts_upto(cells, CHUNK_VOLUME as int)
}

/// The whole culled index list of a chunk's cells.
pub open spec fn culled_inds(cells: Seq<Voxel>) -> Seq<u32> {
    culled_inds_upto(cells, CHUNK_VOLUME as int)
}

/// The eight cube corners of the voxel at `(x, y, z)`, in the order the
/// unconditional mesher lays them out.
pub open spec fn cube_verts(x: int, y: int, z: int) -> Seq<Vertex> {
    seq![
        vert(x, y, z),
        vert(x + 1, y, z),
        vert(x + 1, y + 1, z),
        vert(x, y + 1, z),
        vert(x, y, z + 1),
        vert(x + 1, y, z + 1),
        vert(x + 1, y + 1, z + 1),
        vert(x, y + 1, z + 1),
    ]
}

/// The 36 indices (12 triangles) of a full cube whose corners start at
/// `base`: six quads over the eight corners.
pub open spec fn cube_inds(base: int) -> Seq<u32> {
    quad_pattern(base, 0, 1, 2, 3) + quad_pattern(base, 1, 5, 6, 2) + quad_pattern(
        base,
        5,
        4,
        7,
        6,
    ) + quad_pattern(base, 4, 0, 3, 7) + quad_pattern(base, 3, 2, 6, 7) + quad_pattern(
        base,
        4,
        5,
        1,
        0,
    )
}

/// How many of the cells `[0, n)` are solid.
pub open spec fn solid_count_upto(cells: Seq<Voxel>, n: int) -> int
    decreases n,
{
    if n <= 0 {
        0
    } else {
        solid_count_upto(cells, n - 1) + if cells[n - 1].is_solid() {
            1int
        } else {
            0int
        }
    }
}

/// How many cells of the whole chunk are solid.
pub open spec fn solid_count(cells: Seq<Voxel>) -> int {
    solid_count_upto(cells, CHUNK_VOLUME as int)
}

/// The unconditional mesher's vertex list over the cells `[0, n)`: every
/// solid voxel contributes its whole cube.
pub open spec fn full_verts_upto(cells: Seq<Voxel>, n: int) -> Seq<Vertex>
    decreases n,
{
    if n <= 0 {
        Seq::empty()
    } else {
        full_verts_upto(cells, n - 1) + if cells[n - 1].is_solid() {
            cube_verts(coord_x(n - 1), coord_y(n - 1), coord_z(n - 1))
        } else {
            Seq::empty()
        }
    }
}

/// The unconditional mesher's index list over the cells `[0, n)`.
pub open spec fn full_inds_upto(cells: Seq<Voxel>, n: int) -> Seq<u32>
    decreases n,
{
    if n <= 0 {
        Seq::empty()
    } else {
        full_inds_upto(cells, n - 1) + if cells[n - 1].is_solid() {
            cube_inds(full_verts_upto(cells, n - 1).len() as int)
        } else {
            Seq::empty()
        }
    }
}

/// The whole unconditional vertex list of a chunk's cells.
pub open spec fn full_verts(cells: Seq<Voxel>) -> Seq<Vertex> {
    full_verts_upto(cells, CHUNK_VOLUME as int)
}

/// The whole unconditional index list of a chunk's cells.
pub open spec fn full_inds(cells: Seq<Voxel>) -> Seq<u32> {
    full_inds_upto(cells, CHUNK_VOLUME as int)
}

/// The unit step out of a voxel through face `f`, as machine integers.
fn face_dir_exec(f: usize) -> (d: (i32, i32, i32))
    requires
        f < 6,
    ensures
        (d.0 as int, d.1 as int, d.2 as int) == face_dir(f as int),
{
    if f == 0 {
        (-1, 0, 0)
    } else if f == 1 {
        (1, 0, 0)
    } else if f == 2 {
        (0, -1, 0)
    } else if f == 3 {
        (0, 1, 0)
    } else if f == 4 {
        (0, 0, -1)
    } else {
        (0, 0, 1)
    }
}

/// Appends the two triangles of one quad to the index list.
fn push_quad(inds: &mut Vec<u32>, base: u32, a: u32, b: u32, c: u32, d: u32)
    requires
        base <= 0x100_0000,
        a <= 8,
        b <= 8,
        c <= 8,
        d <= 8,
    ensures
        final(inds)@ == old(inds)@ + quad_pattern(
            base as int,
            a as int,
            b as int,
            c as int,
            d as int,
        ),
{
    inds.push(base + a);
    inds.push(base + b);
    inds.push(base + c);
    inds.push(base + c);
    inds.push(base + d);
    inds.push(base + a);
    assert(inds@ =~= old(inds)@ + quad_pattern(
        base as int,
        a as int,
        b as int,
        c as int,
        d as int,
    ));
}

/// Appends the four corners of face `f` of the voxel at `(x, y, z)`, in the
/// winding order of `face_corners`.
fn push_face_corners(verts: &mut Vec<Vertex>, x: u32, y: u32, z: u32, f: usize)
    requires
        f < 6,
        x < 24,
        y < 24,
        z < 24,
    ensures
        final(verts)@ == old(verts)@ + face_corners(x as int, y as int, z as int, f as int),
{
    if f == 0 {
        verts.push(Vertex::new(x, y, z));
        verts.push(Vertex::new(x, y, z + 1));
        verts.push(Vertex::new(x, y + 1, z + 1));
        verts.push(Vertex::new(x, y + 1, z));
    } else if f == 1 {
        verts.push(Vertex::new(x + 1, y, z));
        verts.push(Vertex::new(x + 1, y + 1, z));
        verts.push(Vertex::new(x + 1, y + 1, z + 1));
        verts.push(Vertex::new(x + 1, y, z + 1));
    } else if f == 2 {
        verts.push(Vertex::new(x, y, z));
        verts.push(Vertex::new(x + 1, y, z));
        verts.push(Vertex::new(x + 1, y, z + 1));
        verts.push(Vertex::new(x, y, z + 1));
    } else if f == 3 {
        verts.push(Vertex::new(x, y + 1, z));
        verts.push(Vertex::new(x, y + 1, z + 1));
        verts.push(Vertex::new(x + 1, y + 1, z + 1));
        verts.push(Vertex::new(x + 1, y + 1, z));
    } else if f == 4 {
        verts.push(Vertex::new(x, y, z));
        verts.push(Vertex::new(x, y + 1, z));
        verts.push(Vertex::new(x + 1, y + 1, z));
        verts.push(Vertex::new(x + 1, y, z));
    } else {
        verts.push(Vertex::new(x, y, z + 1));
        verts.push(Vertex::new(x + 1, y, z + 1));
        verts.push(Vertex::new(x + 1, y + 1, z + 1));
        verts.push(Vertex::new(x, y + 1, z + 1));
    }
    assert(verts@ =~= old(verts)@ + face_corners(x as int, y as int, z as int, f as int));
}

/// Appends the eight cube corners of the voxel at `(x, y, z)`, in the order
/// of `cube_verts`.
fn push_cube_corners(verts: &mut Vec<Vertex>, x: u32, y: u32, z: u32)
    requires
        x < 24,
        y < 24,
        z < 24,
    ensures
        final(verts)@ == old(verts)@ + cube_verts(x as int, y as int, z as int),
{
    verts.push(Vertex::new(x, y, z));
    verts.push(Vertex::new(x + 1, y, z));
    verts.push(Vertex::new(x + 1, y + 1, z));
    verts.push(Vertex::new(x, y + 1, z));
    verts.push(Vertex::new(x, y, z + 1));
    verts.push(Vertex::new(x + 1, y, z + 1));
    verts.push(Vertex::new(x + 1, y + 1, z + 1));
    verts.push(Vertex::new(x, y + 1, z + 1));
    assert(verts@ =~= old(verts)@ + cube_verts(x as int, y as int, z as int));
}

impl Chunk {
    /// Face-culled meshing: every solid cell contributes one quad for each of
    /// its six faces that is exposed (neighbor out of bounds or air), and air
    /// cells contribute nothing — the minimal visible surface of the chunk in
    /// isolation.
    pub fn gen_mesh_data_culled(&self) -> (out: (Vec<Vertex>, Vec<u32>))
        requires
            self.wf(),
        ensures
            out.0@ == culled_verts(self.cells_spec()),
            out.1@ == culled_inds(self.cells_spec()),
            out.0@.len() == 4 * exposed_face_count(self.cells_spec()),
            out.1@.len() == 6 * exposed_face_count(self.cells_spec()),
    {
        let ghost cells = self.cells_spec();
        let mut verts: Vec<Vertex> = Vec::new();
        let mut inds: Vec<u32> = Vec::new();
        for i in 0..CHUNK_VOLUME
            invariant
                self.wf(),
                cells == self.cells_spec(),
                verts@ == culled_verts_upto(cells, i as int),
                inds@ == culled_inds_upto(cells, i as int),
        {
            proof {
                lemma_culled_mesh_len(cells, i as int);
                lemma_coord_bounds(i as int);
            }
            let x = i / (CHUNK_SIZE * CHUNK_SIZE);
            let y = (i % (CHUNK_SIZE * CHUNK_SIZE)) / CHUNK_SIZE;
            let z = i % CHUNK_SIZE;
            let solid = self.voxel_at(i).id() != 0;
            let ghost vbase = culled_verts_upto(cells, i as int).len() as int;
            for f in 0..6usize
                invariant
                    self.wf(),
                    cells == self.cells_spec(),
                    i < CHUNK_VOLUME,
                    x == coord_x(i as int) && y == coord_y(i as int) && z == coord_z(i as int),
                    x < 24 && y < 24 && z < 24,
                    solid == cells[i as int].is_solid(),
                    vbase == culled_verts_upto(cells, i as int).len(),
                    vbase <= 0x80_0000,
                    verts@ == culled_verts_upto(cells, i as int) + voxel_verts_upto(
                        cells,
                        i as int,
                        f as int,
                    ),
                    inds@ == culled_inds_upto(cells, i as int) + voxel_inds_upto(
                        cells,
                        i as int,
                        f as int,
                        vbase,
                    ),
            {
                proof {
                    lemma_voxel_mesh_len(cells, i as int, f as int, vbase);
                    lemma_face_count_bound(cells, i as int, f as int);
                }
                let dir = face_dir_exec(f);
                if solid && self.is_visible(i, dir) {
                    assert(emits_face(cells, i as int, f as int));
                    let base = verts.len() as u32;
                    push_face_corners(&mut verts, x as u32, y as u32, z as u32, f);
                    push_quad(&mut inds, base, 0, 1, 2, 3);
                    proof {
                        assert(verts@ =~= culled_verts_upto(cells, i as int) + voxel_verts_upto(
                            cells,
                            i as int,
                            f as int + 1,
                        ));
                        assert(inds@ =~= culled_inds_upto(cells, i as int) + voxel_inds_upto(
                            cells,
                            i as int,
                            f as int + 1,
                            vbase,
                        ));
                    }
                } else {
                    proof {
                        assert(!emits_face(cells, i as int, f as int));
                        assert(verts@ =~= culled_verts_upto(cells, i as int) + voxel_verts_upto(
                            cells,
                            i as int,
                            f as int + 1,
                        ));
                        assert(inds@ =~= culled_inds_upto(cells, i as int) + voxel_inds_upto(
                            cells,
                            i as int,
                            f as int + 1,
                            vbase,
                        ));
                    }
                }
            }
            proof {
                assert(verts@ =~= culled_verts_upto(cells, i as int + 1));
                assert(inds@ =~= culled_inds_upto(cells, i as int + 1));
            }
        }
        proof {
            lemma_culled_mesh_len(cells, CHUNK_VOLUME as int);
        }
        (verts, inds)
    }

    /// Unconditional meshing, the simpler fallback kept for comparison: every
    /// solid cell contributes all eight cube corners and all twelve
    /// triangles, whether or not a face is hidden.
    pub fn gen_mesh_data_no_culling(&self) -> (out: (Vec<Vertex>, Vec<u32>))
        requires
            self.wf(),
        ensures
            out.0@ == full_verts(self.cells_spec()),
            out.1@ == full_inds(self.cells_spec()),
            out.0@.len() == 8 * solid_count(self.cells_spec()),
            out.1@.len() == 36 * solid_count(self.cells_spec()),
    {
        let ghost cells = self.cells_spec();
        let mut verts: Vec<Vertex> = Vec::new();
        let mut inds: Vec<u32> = Vec::new();
        for i in 0..CHUNK_VOLUME
            invariant
                self.wf(),
                cells == self.cells_spec(),
                verts@ == full_verts_upto(cells, i as int),
                inds@ == full_inds_upto(cells, i as int),
        {
            proof {
                lemma_full_mesh_len(cells, i as int);
                lemma_coord_bounds(i as int);
            }
            let x = i / (CHUNK_SIZE * CHUNK_SIZE);
            let y = (i % (CHUNK_SIZE * CHUNK_SIZE)) / CHUNK_SIZE;
            let z = i % CHUNK_SIZE;
            if self.voxel_at(i).id() != 0 {
                let base = verts.len() as u32;
                push_cube_corners(&mut verts, x as u32, y as u32, z as u32);
                push_quad(&mut inds, base, 0, 1, 2, 3);
                push_quad(&mut inds, base, 1, 5, 6, 2);
                push_quad(&mut inds, base, 5, 4, 7, 6);
                push_quad(&mut inds, base, 4, 0, 3, 7);
                push_quad(&mut inds, base, 3, 2, 6, 7);
                push_quad(&mut inds, base, 4, 5, 1, 0);
                proof {
                    assert(verts@ =~= full_verts_upto(cells, i as int + 1));
                    assert(inds@ =~= full_inds_upto(cells, i as int + 1));
                }
            } else {
                proof {
                    assert(verts@ =~= full_verts_upto(cells, i as int + 1));
                    assert(inds@ =~= full_inds_upto(cells, i as int + 1));
                }
            }
        }
        proof {
            lemma_full_mesh_len(cells, CHUNK_VOLUME as int);
        }
        (verts, inds)
    }
}

/// A cell emits between zero and `f` of its first `f` faces.
pub proof fn lemma_face_count_bound(cells: Seq<Voxel>, i: int, f: int)
    ensures
        0 <= face_count_upto(cells, i, f) <= if f <= 0 {
            0int
        } else {
            f
        },
    decreases f,
{
    if f > 0 {
        lemma_face_count_bound(cells, i, f - 1);
    }
}

/// The per-cell vertex and index lists grow four and six entries per emitted
/// face.
pub proof fn lemma_voxel_mesh_len(cells: Seq<Voxel>, i: int, f: int, base: int)
    ensures
        voxel_verts_upto(cells, i, f).len() == 4 * face_count_upto(cells, i, f),
        voxel_inds_upto(cells, i, f, base).len() == 6 * face_count_upto(cells, i, f),
    decreases f,
{
    if f > 0 {
        lemma_voxel_mesh_len(cells, i, f - 1, base);
    }
}

/// The culled lists grow four and six entries per emitted face, over all
/// cells.
pub proof fn lemma_culled_mesh_len(cells: Seq<Voxel>, n: int)
    requires
        0 <= n,
    ensures
        culled_verts_upto(cells, n).len() == 4 * exposed_faces_upto(cells, n),
        culled_inds_upto(cells, n).len() == 6 * exposed_faces_upto(cells, n),
        0 <= exposed_faces_upto(cells, n) <= 6 * n,
    decreases n,
{
    if n > 0 {
        lemma_culled_mesh_len(cells, n - 1);
        lemma_voxel_mesh_len(cells, n - 1, 6, culled_verts_upto(cells, n - 1).len() as int);
        lemma_face_count_bound(cells, n - 1, 6);
    }
}

/// The unconditional lists grow eight and thirty-six entries per solid cell.
pub proof fn lemma_full_mesh_len(cells: Seq<Voxel>, n: int)
    requires
        0 <= n,
    ensures
        full_verts_upto(cells, n).len() == 8 * solid_count_upto(cells, n),
        full_inds_upto(cells, n).len() == 36 * solid_count_upto(cells, n),
        0 <= solid_count_upto(cells, n) <= n,
    decreases n,
{
    if n > 0 {
        lemma_full_mesh_len(cells, n - 1);
    }
}

/// An air cell emits no face at all.
proof fn lemma_air_no_faces(cells: Seq<Voxel>, i: int, f: int)
    requires
        !cells[i].is_solid(),
    ensures
        face_count_upto(cells, i, f) == 0,
    decreases f,
{
    if f > 0 {
        lemma_air_no_faces(cells, i, f - 1);
    }
}

/// Over the cells `[0, n)`, the emitted face count stays within six per
/// solid cell, and reaches that bound exactly when every solid cell among
/// them emits all six of its faces.
proof fn lemma_faces_vs_solids(cells: Seq<Voxel>, n: int)
    requires
        0 <= n,
    ensures
        exposed_faces_upto(cells, n) <= 6 * solid_count_upto(cells, n),
        (exposed_faces_upto(cells, n) == 6 * solid_count_upto(cells, n)) <==> (forall|i: int|
            0 <= i < n && cells[i].is_solid() ==> #[trigger] voxel_face_count(cells, i) == 6),
    decreases n,
{
    if n > 0 {
        lemma_faces_vs_solids(cells, n - 1);
        lemma_face_count_bound(cells, n - 1, 6);
        if !cells[n - 1].is_solid() {
            lemma_air_no_faces(cells, n - 1, 6);
        }
        let all_upto = |m: int|
            forall|i: int|
                0 <= i < m && cells[i].is_solid() ==> #[trigger] voxel_face_count(cells, i) == 6;
        if exposed_faces_upto(cells, n) == 6 * solid_count_upto(cells, n) {
            assert(exposed_faces_upto(cells, n - 1) == 6 * solid_count_upto(cells, n - 1));
            assert(cells[n - 1].is_solid() ==> voxel_face_count(cells, n - 1) == 6);
        }
        if all_upto(n) {
            assert(all_upto(n - 1));
            assert(cells[n - 1].is_solid() ==> voxel_face_count(cells, n - 1) == 6);
        }
    }
}

/// The culled mesh is a subset of the unconditional one, by size: it never
/// has more triangles, and has exactly as many only when every solid voxel
/// in the chunk has all six faces exposed (no fully interior solid voxel).
pub proof fn lemma_culled_within_full(cells: Seq<Voxel>)
    requires
        cells.len() == CHUNK_VOLUME,
    ensures
        culled_inds(cells).len() == 6 * exposed_face_count(cells),
        full_inds(cells).len() == 36 * solid_count(cells),
        exposed_face_count(cells) <= 6 * solid_count(cells),
        culled_inds(cells).len() <= full_inds(cells).len(),
        (culled_inds(cells).len() == full_inds(cells).len()) <==> (forall|i: int|
            0 <= i < cells.len() && cells[i].is_solid() ==> #[trigger] voxel_face_count(cells, i)
                == 6),
{
    lemma_culled_mesh_len(cells, CHUNK_VOLUME as int);
    lemma_full_mesh_len(cells, CHUNK_VOLUME as int);
    lemma_faces_vs_solids(cells, CHUNK_VOLUME as int);
}

/// A solid voxel strictly inside the chunk whose six axis neighbors are all
/// solid contributes nothing to the culled mesh: no face, no vertex.
pub proof fn lemma_interior_voxel_no_faces(cells: Seq<Voxel>, i: int)
    requires
        cells.len() == CHUNK_VOLUME,
        0 <= i < CHUNK_VOLUME,
        1 <= coord_x(i) < side() - 1,
        1 <= coord_y(i) < side() - 1,
        1 <= coord_z(i) < side() - 1,
        cells[flat_index(coord_x(i) - 1, coord_y(i), coord_z(i))].is_solid(),
        cells[flat_index(coord_x(i) + 1, coord_y(i), coord_z(i))].is_solid(),
        cells[flat_index(coord_x(i), coord_y(i) - 1, coord_z(i))].is_solid(),
        cells[flat_index(coord_x(i), coord_y(i) + 1, coord_z(i))].is_solid(),
        cells[flat_index(coord_x(i), coord_y(i), coord_z(i) - 1)].is_solid(),
        cells[flat_index(coord_x(i), coord_y(i), coord_z(i) + 1)].is_solid(),
    ensures
        voxel_face_count(cells, i) == 0,
        voxel_verts_upto(cells, i, 6) == Seq::<Vertex>::empty(),
{
    assert forall|f: int| 0 <= f < 6 implies !emits_face(cells, i, f) by {
        assert(!face_exposed(cells, i, -1, 0, 0));
        assert(!face_exposed(cells, i, 1, 0, 0));
        assert(!face_exposed(cells, i, 0, -1, 0));
        assert(!face_exposed(cells, i, 0, 1, 0));
        assert(!face_exposed(cells, i, 0, 0, -1));
        assert(!face_exposed(cells, i, 0, 0, 1));
    }
    assert(face_count_upto(cells, i, 0) == 0);
    assert(face_count_upto(cells, i, 1) == 0);
    assert(face_count_upto(cells, i, 2) == 0);
    assert(face_count_upto(cells, i, 3) == 0);
    assert(face_count_upto(cells, i, 4) == 0);
    assert(face_count_upto(cells, i, 5) == 0);
    assert(face_count_upto(cells, i, 6) == 0);
    assert(voxel_verts_upto(cells, i, 0) =~= Seq::<Vertex>::empty());
    assert(voxel_verts_upto(cells, i, 1) =~= Seq::<Vertex>::empty());
    assert(voxel_verts_upto(cells, i, 2) =~= Seq::<Vertex>::empty());
    assert(voxel_verts_upto(cells, i, 3) =~= Seq::<Vertex>::empty());
    assert(voxel_verts_upto(cells, i, 4) =~= Seq::<Vertex>::empty());
    assert(voxel_verts_upto(cells, i, 5) =~= Seq::<Vertex>::empty());
    assert(voxel_verts_upto(cells, i, 6) =~= Seq::<Vertex>::empty());
}

} // verus!
