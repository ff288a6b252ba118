use vstd::prelude::*;
use vstd::arithmetic::div_mod::{
    lemma_div_is_ordered, lemma_div_pos_is_pos, lemma_fundamental_div_mod,
    lemma_fundamental_div_mod_converse, lemma_mod_bound,
};
use crate::coords::GridPos;
use crate::voxel::Voxel;
use crate::field::{field_noise, lattice_noise, seed_table};

verus! {

/// Edge length of a chunk, in voxels: every chunk is a cube of this side.
pub const CHUNK_SIZE: usize = 24;

/// Number of cells in a chunk.
pub const CHUNK_VOLUME: usize = CHUNK_SIZE * CHUNK_SIZE * CHUNK_SIZE;

/// The chunk side as a mathematical integer, for specifications.
pub open spec fn side() -> int {
    CHUNK_SIZE as int
}

/// Flat cell index of local coordinates, valid when each lies in `[0, side)`.
pub open spec fn flat_index(x: int, y: int, z: int) -> int {
    x * (side() * side()) + y * side() + z
}

/// Local x coordinate encoded in a flat cell index.
pub open spec fn coord_x(i: int) -> int {
    i / (side() * side())
}

/// Local y coordinate encoded in a flat cell index.
pub open spec fn coord_y(i: int) -> int {
    (i % (side() * side())) / side()
}

/// Local z coordinate encoded in a flat cell index.
pub open spec fn coord_z(i: int) -> int {
    i % side()
}

/// True mathematical modulo into `[0, side)`: wrapping, not clamping, so any
/// integer coordinate (negatives included) maps into the chunk.
pub open spec fn wrap_coord(v: int) -> int {
    v % side()
}

/// Decoding the flat index of in-range local coordinates recovers them.
pub proof fn lemma_index_round_trip(x: int, y: int, z: int)
    requires
        0 <= x < side(),
        0 <= y < side(),
        0 <= z < side(),
    ensures
        coord_x(flat_index(x, y, z)) == x,
        coord_y(flat_index(x, y, z)) == y,
        coord_z(flat_index(x, y, z)) == z,
{
    let i = flat_index(x, y, z);
    assert(side() == 24);
    lemma_fundamental_div_mod_converse(i, side() * side(), x, y * side() + z);
    lemma_fundamental_div_mod_converse(y * side() + z, side(), y, z);
    assert(i == (x * side() + y) * side() + z) by (nonlinear_arith)
        requires
            i == x * (side() * side()) + y * side() + z,
    ;
    lemma_fundamental_div_mod_converse(i, side(), x * side() + y, z);
}

/// Wherever integer coordinates come from, their wrapped flat index lands
/// inside the cell array.
pub proof fn lemma_wrapped_index_in_range(x: int, y: int, z: int)
    ensures
        0 <= flat_index(wrap_coord(x), wrap_coord(y), wrap_coord(z)) < CHUNK_VOLUME,
{
    lemma_mod_bound(x, side());
    lemma_mod_bound(y, side());
    lemma_mod_bound(z, side());
}

/// The local coordinates decoded from an in-range flat index each lie in
/// `[0, side)`.
pub proof fn lemma_coord_bounds(i: int)
    requires
        0 <= i < CHUNK_VOLUME,
    ensures
        0 <= coord_x(i) < side(),
        0 <= coord_y(i) < side(),
        0 <= coord_z(i) < side(),
{
    assert(side() == 24);
    lemma_div_pos_is_pos(i, side() * side());
    lemma_div_is_ordered(i, (CHUNK_VOLUME - 1) as int, side() * side());
    lemma_mod_bound(i, side() * side());
    lemma_div_pos_is_pos(i % (side() * side()), side());
    lemma_div_is_ordered(i % (side() * side()), side() * side() - 1, side());
    lemma_mod_bound(i, side());
}

/// The noise level assigned to a local cell of the chunk at `p`: the field is
/// sampled at the cell's point on the generator lattice (the grid position
/// scaled by half a side, offset by the local coordinates, all scaled to
/// integers) with a fixed fourth coordinate, and brought down to `[0, 32)`.
pub open spec fn cell_level(p: GridPos, x: int, y: int, z: int) -> int {
    field_noise(12 * p.x + x, 12 * p.y + y, 12 * p.z + z, 14) as int / 8
}

/// Whether generation makes the cell solid: its level exceeds the threshold.
pub open spec fn cell_is_solid(p: GridPos, x: int, y: int, z: int) -> bool {
    10 < cell_level(p, x, y, z)
}

/// The voxel generation puts at flat index `i` of the chunk at `p`.
pub open spec fn procedural_cell(p: GridPos, i: int) -> Voxel {
    if cell_is_solid(p, coord_x(i), coord_y(i), coord_z(i)) {
        Voxel::ground_spec()
    } else {
        Voxel::air_spec()
    }
}

/// The full cell array generation yields for the chunk at `p`: a pure
/// function of the grid position, so regenerating a chunk at the same
/// coordinate always yields the same voxels.
pub open spec fn procedural_cells(p: GridPos) -> Seq<Voxel> {
    Seq::new(CHUNK_VOLUME as nat, |i: int| procedural_cell(p, i))
}

/// Whether the face of cell `i` toward `(dx, dy, dz)` is exposed: the
/// neighbor lies outside the chunk (chunk boundaries always count as
/// exposed), or the neighbor cell is air.
pub open spec fn face_exposed(cells: Seq<Voxel>, i: int, dx: int, dy: int, dz: int) -> bool {
    let nx = coord_x(i) + dx;
    let ny = coord_y(i) + dy;
    let nz = coord_z(i) + dz;
    !(0 <= nx < side() && 0 <= ny < side() && 0 <= nz < side()) || cells[flat_index(
        nx,
        ny,
        nz,
    )].is_air()
}

/// A fixed-size cube of voxels at an integer grid coordinate. Owns its
/// procedural generation and per-voxel mutation, and answers the face
/// visibility queries the mesher asks.
#[derive(Debug)]
pub struct Chunk {
    grid_pos: GridPos,
    cells: Vec<Voxel>,
    mesh_dirty: bool,
}

impl Chunk {
    /// The chunk's place in the infinite chunk lattice (not world units).
    pub closed spec fn pos_spec(self) -> GridPos {
        self.grid_pos
    }

    /// The cell array, one voxel per local coordinate.
    pub closed spec fn cells_spec(self) -> Seq<Voxel> {
        self.cells@
    }

    /// True when the cells changed since the last mesh build.
    pub closed spec fn dirty_spec(self) -> bool {
        self.mesh_dirty
    }

    /// Well-formedness: the cell array always covers the whole cube.
    pub open spec fn wf(self) -> bool {
        self.cells_spec().len() == CHUNK_VOLUME
    }

    /// Generates the chunk at `grid_pos` from the noise field. The contents
    /// are exactly `procedural_cells(grid_pos)`, and the fresh chunk is
    /// mesh-dirty: its first mesh build is still owed.
    pub fn new(grid_pos: GridPos) -> (c: Chunk)
        ensures
            c.wf(),
            c.pos_spec() == grid_pos,
            c.dirty_spec(),
            c.cells_spec() == procedural_cells(grid_pos),
    {
        let table = seed_table(0);
        let mut cells: Vec<Voxel> = Vec::new();
        for i in 0..CHUNK_VOLUME
            invariant
                crate::field::table_contents(table) == crate::field::seeded_table(0),
                cells@.len() == i,
                forall|j: int| 0 <= j < i ==> cells@[j] == procedural_cell(grid_pos, j),
        {
            let x = i / (CHUNK_SIZE * CHUNK_SIZE);
            let y = (i % (CHUNK_SIZE * CHUNK_SIZE)) / CHUNK_SIZE;
            let z = i % CHUNK_SIZE;
            let level = lattice_noise(
                &table,
                12 * (grid_pos.x as i64) + (x as i64),
                12 * (grid_pos.y as i64) + (y as i64),
                12 * (grid_pos.z as i64) + (z as i64),
                14,
            ) / 8;
            let v = if 10 < level {
                Voxel::ground()
            } else {
                Voxel::air()
            };
            assert(v == procedural_cell(grid_pos, i as int));
            cells.push(v);
        }
        let c = Chunk { grid_pos, cells, mesh_dirty: true };
        assert(c.cells_spec() =~= procedural_cells(grid_pos));
        c
    }

    /// Builds a chunk with explicitly given contents, in place of the noise
    /// field: the injection point that keeps the meshing and editing logic
    /// exercisable on chosen voxel layouts.
    pub fn from_cells(grid_pos: GridPos, cells: Vec<Voxel>) -> (c: Chunk)
        requires
            cells@.len() == CHUNK_VOLUME,
        ensures
            c.wf(),
            c.pos_spec() == grid_pos,
            c.dirty_spec(),
            c.cells_spec() == cells@,
    {
        Chunk { grid_pos, cells, mesh_dirty: true }
    }

    /// Flat cell index of a chunk-relative position: each axis is reduced
    /// into `[0, side)` by true modulo (negatives wrap), then combined.
    pub fn get_voxel(x: i32, y: i32, z: i32) -> (r: usize)
        ensures
            r == flat_index(wrap_coord(x as int), wrap_coord(y as int), wrap_coord(z as int)),
            r < CHUNK_VOLUME,
    {
        let wx = wrap_exec(x);
        let wy = wrap_exec(y);
        let wz = wrap_exec(z);
        wx * (CHUNK_SIZE * CHUNK_SIZE) + wy * CHUNK_SIZE + wz
    }

    /// The voxel at a flat cell index.
    pub fn voxel_at(&self, index: usize) -> (v: Voxel)
        requires
            self.wf(),
            index < CHUNK_VOLUME,
        ensures
            v == self.cells_spec()[index as int],
    {
        self.cells[index]
    }

    /// The chunk's grid coordinate.
    pub fn grid_pos(&self) -> (p: GridPos)
        ensures
            p == self.pos_spec(),
    {
        self.grid_pos
    }

    /// Whether the cells changed since the last mesh build.
    pub fn is_mesh_dirty(&self) -> (b: bool)
        ensures
            b == self.dirty_spec(),
    {
        self.mesh_dirty
    }

    /// Marks the chunk's mesh as freshly built.
    pub fn mark_mesh_built(&mut self)
        requires
            old(self).wf(),
        ensures
            final(self).wf(),
            final(self).pos_spec() == old(self).pos_spec(),
            final(self).cells_spec() == old(self).cells_spec(),
            !final(self).dirty_spec(),
    {
        self.mesh_dirty = false;
    }

    /// Clears the cell at a chunk-relative position to air (the only mutation
    /// entry point) and marks the mesh stale.
    pub fn destroy_voxel(&mut self, x: i32, y: i32, z: i32)
        requires
            old(self).wf(),
        ensures
            final(self).wf(),
            final(self).pos_spec() == old(self).pos_spec(),
            final(self).dirty_spec(),
            final(self).cells_spec() == old(self).cells_spec().update(
                flat_index(wrap_coord(x as int), wrap_coord(y as int), wrap_coord(z as int)),
                Voxel::air_spec(),
            ),
    {
        let idx = Self::get_voxel(x, y, z);
        self.cells[idx] = Voxel::air();
        self.mesh_dirty = true;
    }

    /// Whether the face of the cell at `pos` toward `direction` is visible:
    /// the neighbor is out of bounds or holds air.
    pub fn is_visible(&self, pos: usize, direction: (i32, i32, i32)) -> (r: bool)
        requires
            self.wf(),
            pos < CHUNK_VOLUME,
        ensures
            r == face_exposed(
                self.cells_spec(),
                pos as int,
                direction.0 as int,
                direction.1 as int,
                direction.2 as int,
            ),
    {
        let x = pos / (CHUNK_SIZE * CHUNK_SIZE);
        let y = (pos % (CHUNK_SIZE * CHUNK_SIZE)) / CHUNK_SIZE;
        let z = pos % CHUNK_SIZE;
        let nx = x as i64 + direction.0 as i64;
        let ny = y as i64 + direction.1 as i64;
        let nz = z as i64 + direction.2 as i64;
        if nx < 0 || nx >= CHUNK_SIZE as i64 || ny < 0 || ny >= CHUNK_SIZE as i64 || nz < 0 || nz
            >= CHUNK_SIZE as i64 {
            true
        } else {
            let neighbor = (nx as usize) * (CHUNK_SIZE * CHUNK_SIZE) + (ny as usize) * CHUNK_SIZE
                + (nz as usize);
            self.cells[neighbor].id() == 0
        }
    }
}

/// True modulo of an `i32` into `[0, side)`, matching `wrap_coord`.
fn wrap_exec(v: i32) -> (r: usize)
    ensures
        r == wrap_coord(v as int),
        r < CHUNK_SIZE,
{
    if v >= 0 {
        let r = (v as usize) % CHUNK_SIZE;
        r
    } else {
        let n = (-(v as i64)) as u64;
        let m = (n % (CHUNK_SIZE as u64)) as usize;
        let qq = n / (CHUNK_SIZE as u64);
        proof {
            lemma_fundamental_div_mod(n as int, CHUNK_SIZE as int);
        }
        if m == 0 {
            proof {
                assert(v as int == (-(qq as int)) * side() + 0) by (nonlinear_arith)
                    requires
                        n == side() * qq,
                        v == -(n as int),
                ;
                lemma_fundamental_div_mod_converse(v as int, side(), -(qq as int), 0);
            }
            0
        } else {
            proof {
                assert(v as int == (-(qq as int) - 1) * side() + (side() - m)) by (nonlinear_arith)
                    requires
                        n == side() * qq + m,
                        v == -(n as int),
                ;
                lemma_fundamental_div_mod_converse(v as int, side(), -(qq as int) - 1, side() - m);
            }
            CHUNK_SIZE - m
        }
    }
}

/// Chunk generation is deterministic: two chunks whose cells both came from
/// generation at the same grid position hold identical voxel arrays.
pub proof fn lemma_generation_deterministic(a: Chunk, b: Chunk)
    requires
        a.cells_spec() == procedural_cells(a.pos_spec()),
        b.cells_spec() == procedural_cells(b.pos_spec()),
        a.pos_spec() == b.pos_spec(),
    ensures
        a.cells_spec() == b.cells_spec(),
{
}

} // verus!
