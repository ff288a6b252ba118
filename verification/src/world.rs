use vstd::prelude::*;
use vstd::arithmetic::div_mod::{
    lemma_div_is_ordered, lemma_div_pos_is_pos, lemma_fundamental_div_mod, lemma_mod_bound,
};
use vstd::set_lib::{lemma_len_subset, lemma_int_range, set_int_range};
use crate::chunk::{CHUNK_SIZE, CHUNK_VOLUME, Chunk, flat_index, procedural_cells, side};
use crate::coords::{
    GridPos, WorldPos, MAX_COORD, MILLI, dist_sq, dist_sq_exec, floor_div, lemma_div_magnitude,
};
use crate::mesher::{Vertex, culled_inds, culled_verts, face_dir};
use crate::voxel::Voxel;

verus! {

/// Squared load radius: the streaming search fills every chunk coordinate
/// within this distance of the observer's chunk.
pub const LOAD_RADIUS_SQ: i128 = 4;

/// Squared evict radius: a resident chunk farther than this from the
/// observer's chunk is dropped. Strictly greater than the load radius, so
/// loading and evicting cannot thrash at the boundary.
pub const EVICT_RADIUS_SQ: i128 = 16;

/// Squared draw-distance cutoff: resident chunks beyond it stay resident and
/// meshed but are not handed to the renderer.
pub const DRAW_RADIUS_SQ: i128 = 64;

/// World extent of one chunk edge, in fixed-point milli-units.
pub const CHUNK_WORLD: i64 = 24 * 1000;

/// The chunk-grid coordinate containing a world-space coordinate: floor
/// division by the chunk's world extent.
pub open spec fn chunk_coord(v: int) -> int {
    v / (CHUNK_WORLD as int)
}

/// The chunk-grid position containing a world-space point.
pub open spec fn obs_center(o: WorldPos) -> GridPos {
    GridPos {
        x: chunk_coord(o.x as int) as i32,
        y: chunk_coord(o.y as int) as i32,
        z: chunk_coord(o.z as int) as i32,
    }
}

/// How many fixed-size steps the ray march takes before giving up: with a
/// tenth-of-a-unit step, five world units of range.
pub const RAY_MAX_STEPS: usize = 50;

/// The local cell coordinate, in `[0, side)`, that a world-space coordinate
/// falls in within its chunk.
pub open spec fn cell_coord(v: int) -> int {
    (v % (CHUNK_WORLD as int)) / (MILLI as int)
}

/// The ray's x coordinate after `k` steps: each step advances a tenth of the
/// direction vector, rounded toward negative infinity.
pub open spec fn ray_x(origin: WorldPos, dir: WorldPos, k: int) -> int {
    origin.x + k * (dir.x as int / 10)
}

/// The ray's y coordinate after `k` steps.
pub open spec fn ray_y(origin: WorldPos, dir: WorldPos, k: int) -> int {
    origin.y + k * (dir.y as int / 10)
}

/// The ray's z coordinate after `k` steps.
pub open spec fn ray_z(origin: WorldPos, dir: WorldPos, k: int) -> int {
    origin.z + k * (dir.z as int / 10)
}

/// The chunk-grid position the ray occupies after `k` steps.
pub open spec fn ray_chunk(origin: WorldPos, dir: WorldPos, k: int) -> GridPos {
    GridPos {
        x: chunk_coord(ray_x(origin, dir, k)) as i32,
        y: chunk_coord(ray_y(origin, dir, k)) as i32,
        z: chunk_coord(ray_z(origin, dir, k)) as i32,
    }
}

/// The flat cell index the ray occupies within its chunk after `k` steps.
pub open spec fn ray_cell(origin: WorldPos, dir: WorldPos, k: int) -> int {
    flat_index(
        cell_coord(ray_x(origin, dir, k)),
        cell_coord(ray_y(origin, dir, k)),
        cell_coord(ray_z(origin, dir, k)),
    )
}

/// Whether after `k` steps the ray sits in a resident chunk, on a solid
/// voxel. A step landing in a chunk not resident is treated as passing
/// through empty space.
pub open spec fn ray_hits(chunks: Seq<Chunk>, origin: WorldPos, dir: WorldPos, k: int) -> bool {
    seq_has_chunk(chunks, ray_chunk(origin, dir, k)) && seq_chunk_at(
        chunks,
        ray_chunk(origin, dir, k),
    ).cells_spec()[ray_cell(origin, dir, k)].is_solid()
}

/// The earliest step in `[k, k + fuel)` at which the ray hits a solid voxel
/// of a resident chunk, if any.
pub open spec fn first_hit_from(
    chunks: Seq<Chunk>,
    origin: WorldPos,
    dir: WorldPos,
    k: int,
    fuel: nat,
) -> Option<int>
    decreases fuel,
{
    if fuel == 0 {
        Option::None
    } else if ray_hits(chunks, origin, dir, k) {
        Option::Some(k)
    } else {
        first_hit_from(chunks, origin, dir, k + 1, (fuel - 1) as nat)
    }
}

/// The first-hit step of the whole march, if the ray hits within range.
pub open spec fn first_hit(chunks: Seq<Chunk>, origin: WorldPos, dir: WorldPos) -> Option<int> {
    first_hit_from(chunks, origin, dir, 0, RAY_MAX_STEPS as nat)
}

/// A world coordinate's offset inside its chunk decodes to a cell in range.
proof fn lemma_cell_bounds(l: int)
    requires
        0 <= l < CHUNK_WORLD,
    ensures
        0 <= l / (MILLI as int) < side(),
{
    lemma_div_pos_is_pos(l, MILLI as int);
    lemma_div_is_ordered(l, CHUNK_WORLD as int - 1, MILLI as int);
    assert((CHUNK_WORLD as int - 1) / (MILLI as int) == 23);
}

/// A chunk-grid coordinate small enough that stepping around it cannot wrap:
/// what `world_to_center` yields for any bounded observer.
pub open spec fn center_bounded(c: GridPos) -> bool {
    -0x4000_0000 <= c.x <= 0x4000_0000 && -0x4000_0000 <= c.y <= 0x4000_0000 && -0x4000_0000
        <= c.z <= 0x4000_0000
}

/// The neighbor of `p` one step through face `d` of the six axis directions.
pub open spec fn step_dir(p: GridPos, d: int) -> GridPos {
    let (dx, dy, dz) = face_dir(d);
    GridPos { x: (p.x + dx) as i32, y: (p.y + dy) as i32, z: (p.z + dz) as i32 }
}

/// The face opposite `d`: stepping through it undoes a step through `d`.
pub open spec fn opp_dir(d: int) -> int {
    if d % 2 == 0 {
        d + 1
    } else {
        d - 1
    }
}

/// `p` can be reached from `center` in at most `n` axis steps that never
/// leave the load ball around `center`.
pub open spec fn ball_reach(center: GridPos, p: GridPos, n: nat) -> bool
    decreases n,
{
    p == center || (n > 0 && exists|d: int|
        0 <= d < 6 && dist_sq(#[trigger] step_dir(p, d), center) <= LOAD_RADIUS_SQ as int
            && ball_reach(center, step_dir(p, d), (n - 1) as nat))
}

/// Being within squared distance `r * r` bounds every axis difference by `r`.
pub proof fn lemma_dist_box(p: GridPos, c: GridPos, r: int)
    requires
        0 <= r,
        dist_sq(p, c) <= r * r,
    ensures
        -r <= p.x - c.x <= r,
        -r <= p.y - c.y <= r,
        -r <= p.z - c.z <= r,
{
    assert(-r <= p.x - c.x <= r && -r <= p.y - c.y <= r && -r <= p.z - c.z <= r) by (
    nonlinear_arith)
        requires
            0 <= r,
            (p.x - c.x) * (p.x - c.x) + (p.y - c.y) * (p.y - c.y) + (p.z - c.z) * (p.z - c.z) <= r
                * r,
    ;
}

/// A sequence of distinct positions all within the load ball of a center
/// holds at most 125 entries (they fit in the surrounding 5-cube).
pub proof fn lemma_queue_bound(q: Seq<GridPos>, c: GridPos)
    requires
        q.no_duplicates(),
        forall|k: int|
            0 <= k < q.len() ==> dist_sq(#[trigger] q[k], c) <= LOAD_RADIUS_SQ as int,
    ensures
        q.len() <= 125,
{
    let key = |p: GridPos| (p.x - c.x + 2) * 25 + (p.y - c.y + 2) * 5 + (p.z - c.z + 2);
    let keys = q.map_values(key);
    assert forall|k: int| 0 <= k < q.len() implies 0 <= #[trigger] keys[k] < 125 by {
        lemma_dist_box(q[k], c, 2);
    }
    assert(keys.no_duplicates()) by {
        assert forall|k1: int, k2: int| 0 <= k1 < q.len() && 0 <= k2 < q.len() && k1 != k2 implies
            keys[k1] != keys[k2] by {
            lemma_dist_box(q[k1], c, 2);
            lemma_dist_box(q[k2], c, 2);
            assert(q[k1] != q[k2]);
        }
    }
    assert(keys.to_set().subset_of(set_int_range(0, 125))) by {
        assert forall|x: int| keys.to_set().contains(x) implies set_int_range(0, 125).contains(
            x,
        ) by {
            let k = choose|k: int| 0 <= k < keys.len() && keys[k] == x;
        }
    }
    lemma_int_range(0, 125);
    lemma_len_subset(keys.to_set(), set_int_range(0, 125));
    keys.unique_seq_to_set();
}

/// Appending a fresh element keeps a queue duplicate-free, and membership
/// changes only by that element.
pub proof fn lemma_queue_push(q: Seq<GridPos>, x: GridPos)
    requires
        q.no_duplicates(),
        !q.contains(x),
    ensures
        q.push(x).no_duplicates(),
        q.push(x).contains(x),
        forall|y: GridPos| #[trigger] q.contains(y) ==> q.push(x).contains(y),
        forall|y: GridPos| #[trigger] q.push(x).contains(y) ==> q.contains(y) || y == x,
{
    let t = q.push(x);
    assert(t[q.len() as int] == x);
    assert forall|y: GridPos| #[trigger] q.contains(y) implies t.contains(y) by {
        let k = choose|k: int| 0 <= k < q.len() && q[k] == y;
        assert(t[k] == y);
    }
    assert forall|y: GridPos| #[trigger] t.contains(y) implies q.contains(y) || y == x by {
        let k = choose|k: int| 0 <= k < t.len() && t[k] == y;
        if k < q.len() {
            assert(q[k] == y);
        }
    }
}

/// Every position in the load ball can be walked to from the center without
/// leaving the ball, in at most `n` steps for the given budget.
proof fn lemma_ball_reach_mono(center: GridPos, p: GridPos, n: nat, m: nat)
    requires
        n <= m,
        ball_reach(center, p, n),
    ensures
        ball_reach(center, p, m),
    decreases n,
{
    if p != center {
        let d = choose|d: int|
            0 <= d < 6 && dist_sq(#[trigger] step_dir(p, d), center) <= LOAD_RADIUS_SQ as int
                && ball_reach(center, step_dir(p, d), (n - 1) as nat);
        lemma_ball_reach_mono(center, step_dir(p, d), (n - 1) as nat, (m - 1) as nat);
    }
}

/// The absolute value of an integer.
pub open spec fn iabs(v: int) -> int {
    if v < 0 {
        -v
    } else {
        v
    }
}

proof fn lemma_ball_connected_rec(center: GridPos, p: GridPos)
    requires
        center_bounded(center),
        dist_sq(p, center) <= LOAD_RADIUS_SQ as int,
    ensures
        ball_reach(
            center,
            p,
            (iabs(p.x - center.x) + iabs(p.y - center.y) + iabs(p.z - center.z)) as nat,
        ),
    decreases iabs(p.x - center.x) + iabs(p.y - center.y) + iabs(p.z - center.z),
{
    lemma_dist_box(p, center, 2);
    if p == center {
    } else {
        let dx = p.x - center.x;
        let dy = p.y - center.y;
        let dz = p.z - center.z;
        let d: int = if dx >= 1 {
            0
        } else if dx <= -1 {
            1
        } else if dy >= 1 {
            2
        } else if dy <= -1 {
            3
        } else if dz >= 1 {
            4
        } else {
            5
        };
        let q = step_dir(p, d);
        assert(dist_sq(q, center) + 1 <= dist_sq(p, center)) by (nonlinear_arith)
            requires
                q.x - center.x == p.x - center.x - (if d == 0 {
                    1int
                } else if d == 1 {
                    -1int
                } else {
                    0int
                }),
                q.y - center.y == p.y - center.y - (if d == 2 {
                    1int
                } else if d == 3 {
                    -1int
                } else {
                    0int
                }),
                q.z - center.z == p.z - center.z - (if d == 4 {
                    1int
                } else if d == 5 {
                    -1int
                } else {
                    0int
                }),
                d == 0 ==> p.x - center.x >= 1,
                d == 1 ==> p.x - center.x <= -1,
                d == 2 ==> p.y - center.y >= 1,
                d == 3 ==> p.y - center.y <= -1,
                d == 4 ==> p.z - center.z >= 1,
                d == 5 ==> p.z - center.z <= -1,
                0 <= d < 6,
                dist_sq(p, center) == (p.x - center.x) * (p.x - center.x) + (p.y - center.y) * (p.y
                    - center.y) + (p.z - center.z) * (p.z - center.z),
                dist_sq(q, center) == (q.x - center.x) * (q.x - center.x) + (q.y - center.y) * (q.y
                    - center.y) + (q.z - center.z) * (q.z - center.z),
        ;
        lemma_ball_connected_rec(center, q);
        let qn = (iabs(q.x - center.x) + iabs(q.y - center.y) + iabs(q.z - center.z)) as nat;
        let pn = (iabs(p.x - center.x) + iabs(p.y - center.y) + iabs(p.z - center.z)) as nat;
        assert(qn == pn - 1);
        assert(ball_reach(center, p, pn));
    }
}

/// Every coordinate in the load ball is reachable from the center by axis
/// steps that stay in the ball — the ball is 6-connected.
pub proof fn lemma_ball_connected(center: GridPos, p: GridPos)
    requires
        center_bounded(center),
        dist_sq(p, center) <= LOAD_RADIUS_SQ as int,
    ensures
        ball_reach(center, p, 6),
{
    lemma_ball_connected_rec(center, p);
    lemma_dist_box(p, center, 2);
    lemma_ball_reach_mono(
        center,
        p,
        (iabs(p.x - center.x) + iabs(p.y - center.y) + iabs(p.z - center.z)) as nat,
        6,
    );
}

/// A set of enqueued positions that contains the center and is closed under
/// in-ball neighbor steps contains the whole reachable ball.
pub proof fn lemma_bfs_covers(q: Seq<GridPos>, center: GridPos, p: GridPos, n: nat)
    requires
        center_bounded(center),
        q.contains(center),
        forall|k: int, d: int|
            0 <= k < q.len() && 0 <= d < 6 && dist_sq(
                #[trigger] step_dir(q[k], d),
                center,
            ) <= LOAD_RADIUS_SQ as int ==> q.contains(step_dir(q[k], d)),
        ball_reach(center, p, n),
        dist_sq(p, center) <= LOAD_RADIUS_SQ as int,
    ensures
        q.contains(p),
    decreases n,
{
    if p != center {
        let d = choose|d: int|
            0 <= d < 6 && dist_sq(#[trigger] step_dir(p, d), center) <= LOAD_RADIUS_SQ as int
                && ball_reach(center, step_dir(p, d), (n - 1) as nat);
        let pred = step_dir(p, d);
        lemma_bfs_covers(q, center, pred, (n - 1) as nat);
        let k = choose|k: int| 0 <= k < q.len() && q[k] == pred;
        lemma_dist_box(p, center, 2);
        lemma_dist_box(pred, center, 2);
        assert(step_dir(pred, opp_dir(d)) == p);
        assert(dist_sq(step_dir(q[k], opp_dir(d)), center) <= LOAD_RADIUS_SQ as int);
    }
}

/// The neighbor of `p` one step through face `d`, as machine integers.
fn step_exec(p: GridPos, d: usize) -> (r: GridPos)
    requires
        d < 6,
        -0x4100_0000 <= p.x <= 0x4100_0000,
        -0x4100_0000 <= p.y <= 0x4100_0000,
        -0x4100_0000 <= p.z <= 0x4100_0000,
    ensures
        r == step_dir(p, d as int),
{
    if d == 0 {
        GridPos::new(p.x - 1, p.y, p.z)
    } else if d == 1 {
        GridPos::new(p.x + 1, p.y, p.z)
    } else if d == 2 {
        GridPos::new(p.x, p.y - 1, p.z)
    } else if d == 3 {
        GridPos::new(p.x, p.y + 1, p.z)
    } else if d == 4 {
        GridPos::new(p.x, p.y, p.z - 1)
    } else {
        GridPos::new(p.x, p.y, p.z + 1)
    }
}

/// Whether the frontier queue already holds `p`.
fn queue_contains(q: &Vec<GridPos>, p: GridPos) -> (r: bool)
    ensures
        r == q@.contains(p),
{
    let n = q.len();
    for k in 0..n
        invariant
            n == q@.len(),
            forall|j: int| 0 <= j < k ==> q@[j] != p,
    {
        if q[k] == p {
            assert(q@[k as int] == p);
            return true;
        }
    }
    assert(!q@.contains(p));
    false
}

/// Enqueues the neighbor of `cur` through face `d` if it lies in the load
/// ball and is not already enqueued.
fn consider_neighbor(queue: &mut Vec<GridPos>, cur: GridPos, d: usize, center: GridPos)
    requires
        d < 6,
        center_bounded(center),
        dist_sq(cur, center) <= LOAD_RADIUS_SQ as int,
        old(queue)@.no_duplicates(),
        forall|k: int|
            0 <= k < old(queue)@.len() ==> dist_sq(#[trigger] old(queue)@[k], center)
                <= LOAD_RADIUS_SQ as int,
    ensures
        final(queue)@.no_duplicates(),
        forall|k: int|
            0 <= k < final(queue)@.len() ==> dist_sq(#[trigger] final(queue)@[k], center)
                <= LOAD_RADIUS_SQ as int,
        old(queue)@.len() <= final(queue)@.len(),
        forall|k: int| 0 <= k < old(queue)@.len() ==> final(queue)@[k] == old(queue)@[k],
        forall|y: GridPos| #[trigger] old(queue)@.contains(y) ==> final(queue)@.contains(y),
        forall|y: GridPos| #[trigger]
            final(queue)@.contains(y) ==> old(queue)@.contains(y) || y == step_dir(cur, d as int),
        dist_sq(step_dir(cur, d as int), center) <= LOAD_RADIUS_SQ as int
            ==> final(queue)@.contains(step_dir(cur, d as int)),
{
    proof {
        lemma_dist_box(cur, center, 2);
    }
    let nb = step_exec(cur, d);
    let dq = dist_sq_exec(nb, center);
    if dq <= LOAD_RADIUS_SQ {
        if !queue_contains(queue, nb) {
            proof {
                lemma_queue_push(queue@, nb);
            }
            queue.push(nb);
        }
    }
}

/// One stored mesh: the geometry most recently built for the chunk at `pos`.
pub struct MeshEntry {
    pub pos: GridPos,
    pub verts: Vec<Vertex>,
    pub inds: Vec<u32>,
}

/// Whether some chunk in `s` sits at grid position `p`.
pub open spec fn seq_has_chunk(s: Seq<Chunk>, p: GridPos) -> bool {
    exists|k: int| 0 <= k < s.len() && (#[trigger] s[k]).pos_spec() == p
}

/// The chunk in `s` at grid position `p` (meaningful when present and
/// positions are distinct).
pub open spec fn seq_chunk_at(s: Seq<Chunk>, p: GridPos) -> Chunk {
    s[choose|k: int| 0 <= k < s.len() && (#[trigger] s[k]).pos_spec() == p]
}

/// Whether some mesh entry in `s` is keyed by grid position `p`.
pub open spec fn seq_has_mesh(s: Seq<MeshEntry>, p: GridPos) -> bool {
    exists|k: int| 0 <= k < s.len() && (#[trigger] s[k]).pos == p
}

/// The mesh entry in `s` keyed by `p` (meaningful when present and keys are
/// distinct).
pub open spec fn seq_mesh_at(s: Seq<MeshEntry>, p: GridPos) -> MeshEntry {
    s[choose|k: int| 0 <= k < s.len() && (#[trigger] s[k]).pos == p]
}

/// No two chunks in `s` share a grid position.
pub open spec fn chunks_distinct(s: Seq<Chunk>) -> bool {
    forall|k1: int, k2: int|
        0 <= k1 < k2 < s.len() ==> (#[trigger] s[k1]).pos_spec() != (#[trigger] s[k2]).pos_spec()
}

/// No two mesh entries in `s` share a grid position.
pub open spec fn meshes_distinct(s: Seq<MeshEntry>) -> bool {
    forall|k1: int, k2: int|
        0 <= k1 < k2 < s.len() ==> (#[trigger] s[k1]).pos != (#[trigger] s[k2]).pos
}

/// In a position-distinct chunk sequence, any element is the one `seq_chunk_at`
/// finds for its own position.
pub proof fn lemma_chunk_at_index(s: Seq<Chunk>, k: int)
    requires
        chunks_distinct(s),
        0 <= k < s.len(),
    ensures
        seq_has_chunk(s, s[k].pos_spec()),
        seq_chunk_at(s, s[k].pos_spec()) == s[k],
{
    let p = s[k].pos_spec();
    assert(seq_has_chunk(s, p));
    let k2 = choose|k2: int| 0 <= k2 < s.len() && (#[trigger] s[k2]).pos_spec() == p;
    if k2 != k {
        if k2 < k {
            assert(s[k2].pos_spec() != s[k].pos_spec());
        } else {
            assert(s[k].pos_spec() != s[k2].pos_spec());
        }
    }
}

/// In a key-distinct mesh sequence, any entry is the one `seq_mesh_at` finds
/// for its own key.
pub proof fn lemma_mesh_at_index(s: Seq<MeshEntry>, k: int)
    requires
        meshes_distinct(s),
        0 <= k < s.len(),
    ensures
        seq_has_mesh(s, s[k].pos),
        seq_mesh_at(s, s[k].pos) == s[k],
{
    let p = s[k].pos;
    assert(seq_has_mesh(s, p));
    let k2 = choose|k2: int| 0 <= k2 < s.len() && (#[trigger] s[k2]).pos == p;
    if k2 != k {
        if k2 < k {
            assert(s[k2].pos != s[k].pos);
        } else {
            assert(s[k].pos != s[k2].pos);
        }
    }
}

/// Owns the resident chunks and their derived meshes, keyed by chunk-grid
/// coordinate, and runs the streaming, meshing and edit dispatch around the
/// observer.
pub struct World {
    chunks: Vec<Chunk>,
    meshes: Vec<MeshEntry>,
}

impl World {
    /// The resident chunks, in residence order.
    pub closed spec fn chunks_seq(self) -> Seq<Chunk> {
        self.chunks@
    }

    /// The stored meshes, in residence order.
    pub closed spec fn meshes_seq(self) -> Seq<MeshEntry> {
        self.meshes@
    }

    /// Whether a chunk is resident at `p`.
    pub open spec fn has_chunk(self, p: GridPos) -> bool {
        seq_has_chunk(self.chunks_seq(), p)
    }

    /// The resident chunk at `p`.
    pub open spec fn chunk_at(self, p: GridPos) -> Chunk {
        seq_chunk_at(self.chunks_seq(), p)
    }

    /// Whether a mesh is stored for `p`.
    pub open spec fn has_mesh(self, p: GridPos) -> bool {
        seq_has_mesh(self.meshes_seq(), p)
    }

    /// The stored mesh for `p`.
    pub open spec fn mesh_at(self, p: GridPos) -> MeshEntry {
        seq_mesh_at(self.meshes_seq(), p)
    }

    /// Well-formedness, preserved by every operation: all chunks are
    /// well-formed cubes at pairwise-distinct positions; mesh keys are
    /// distinct and only ever keys of resident chunks (a chunk evicted takes
    /// its mesh with it, atomically); and a chunk not marked dirty has its
    /// current mesh stored — the incremental-rebuild contract.
    pub open spec fn wf(self) -> bool {
        &&& forall|k: int|
            0 <= k < self.chunks_seq().len() ==> (#[trigger] self.chunks_seq()[k]).wf()
        &&& chunks_distinct(self.chunks_seq())
        &&& meshes_distinct(self.meshes_seq())
        &&& forall|k: int|
            0 <= k < self.meshes_seq().len() ==> self.has_chunk(
                (#[trigger] self.meshes_seq()[k]).pos,
            )
        &&& forall|k: int|
            0 <= k < self.chunks_seq().len() && !(#[trigger] self.chunks_seq()[k]).dirty_spec()
                ==> {
                let c = self.chunks_seq()[k];
                &&& self.has_mesh(c.pos_spec())
                &&& self.mesh_at(c.pos_spec()).verts@ == culled_verts(c.cells_spec())
                &&& self.mesh_at(c.pos_spec()).inds@ == culled_inds(c.cells_spec())
            }
    }

    /// The index of the resident chunk at `p`, if any.
    fn find_chunk(&self, p: GridPos) -> (r: Option<usize>)
        ensures
            match r {
                Some(k) => k < self.chunks_seq().len() && self.chunks_seq()[k as int].pos_spec()
                    == p,
                None => !self.has_chunk(p),
            },
    {
        let n = self.chunks.len();
        for k in 0..n
            invariant
                n == self.chunks_seq().len(),
                forall|j: int| 0 <= j < k ==> (#[trigger] self.chunks_seq()[j]).pos_spec() != p,
        {
            if self.chunks[k].grid_pos() == p {
                return Some(k);
            }
        }
        None
    }

    /// The index of the stored mesh for `p`, if any.
    fn find_mesh(&self, p: GridPos) -> (r: Option<usize>)
        ensures
            match r {
                Some(k) => k < self.meshes_seq().len() && self.meshes_seq()[k as int].pos == p,
                None => !self.has_mesh(p),
            },
    {
        let n = self.meshes.len();
        for k in 0..n
            invariant
                n == self.meshes_seq().len(),
                forall|j: int| 0 <= j < k ==> (#[trigger] self.meshes_seq()[j]).pos != p,
        {
            if self.meshes[k].pos == p {
                return Some(k);
            }
        }
        None
    }

    /// A fresh world: one generated chunk at the origin of the chunk grid, no
    /// meshes built yet.
    pub fn new() -> (w: World)
        ensures
            w.wf(),
            w.chunks_seq().len() == 1,
            w.meshes_seq().len() == 0,
            w.chunks_seq()[0].pos_spec() == (GridPos { x: 0, y: 0, z: 0 }),
            w.chunks_seq()[0].cells_spec() == procedural_cells(GridPos { x: 0, y: 0, z: 0 }),
            w.has_chunk(GridPos { x: 0, y: 0, z: 0 }),
    {
        let c = Chunk::new(GridPos::new(0, 0, 0));
        let mut chunks: Vec<Chunk> = Vec::new();
        chunks.push(c);
        let w = World { chunks, meshes: Vec::new() };
        proof {
            lemma_chunk_at_index(w.chunks_seq(), 0);
        }
        w
    }

    /// Whether a chunk is resident at `p`.
    pub fn contains_chunk(&self, p: GridPos) -> (r: bool)
        ensures
            r == self.has_chunk(p),
    {
        self.find_chunk(p).is_some()
    }

    /// How many chunks are resident.
    pub fn chunk_count(&self) -> (n: usize)
        ensures
            n == self.chunks_seq().len(),
    {
        self.chunks.len()
    }

    /// The resident chunk at `p`, if any.
    pub fn get_chunk(&self, p: GridPos) -> (r: Option<&Chunk>)
        requires
            self.wf(),
        ensures
            match r {
                Some(c) => self.has_chunk(p) && *c == self.chunk_at(p) && c.pos_spec() == p,
                None => !self.has_chunk(p),
            },
    {
        match self.find_chunk(p) {
            Some(k) => {
                proof {
                    lemma_chunk_at_index(self.chunks_seq(), k as int);
                }
                Some(&self.chunks[k])
            },
            None => None,
        }
    }

    /// The stored mesh for `p`, if any: what the external renderer consumes.
    pub fn get_mesh(&self, p: GridPos) -> (r: Option<&MeshEntry>)
        requires
            self.wf(),
        ensures
            match r {
                Some(m) => self.has_mesh(p) && *m == self.mesh_at(p) && m.pos == p,
                None => !self.has_mesh(p),
            },
    {
        match self.find_mesh(p) {
            Some(k) => {
                proof {
                    lemma_mesh_at_index(self.meshes_seq(), k as int);
                }
                Some(&self.meshes[k])
            },
            None => None,
        }
    }

    /// The resident chunk containing the world-space point `pos`, if any.
    pub fn chunk_in_camera(&self, pos: WorldPos) -> (r: Option<&Chunk>)
        requires
            self.wf(),
            pos.bounded(),
        ensures
            match r {
                Some(c) => self.has_chunk(obs_center(pos)) && *c == self.chunk_at(obs_center(pos)),
                None => !self.has_chunk(obs_center(pos)),
            },
    {
        let center = Self::world_to_center(pos);
        self.get_chunk(center)
    }

    /// The chunk-grid position containing a bounded world-space point.
    fn world_to_center(pos: WorldPos) -> (c: GridPos)
        requires
            pos.bounded(),
        ensures
            c == obs_center(pos),
            center_bounded(c),
    {
        let cx = floor_div(pos.x, CHUNK_WORLD);
        let cy = floor_div(pos.y, CHUNK_WORLD);
        let cz = floor_div(pos.z, CHUNK_WORLD);
        proof {
            crate::coords::lemma_div_magnitude(pos.x as int, CHUNK_WORLD as int);
            crate::coords::lemma_div_magnitude(pos.y as int, CHUNK_WORLD as int);
            crate::coords::lemma_div_magnitude(pos.z as int, CHUNK_WORLD as int);
        }
        GridPos::new(cx as i32, cy as i32, cz as i32)
    }

    /// One streaming pass around the observer, run once per frame before
    /// `draw`. A frontier search from the observer's chunk creates a chunk at
    /// every coordinate of the load ball not yet resident (existing chunks
    /// are never regenerated), then every resident chunk farther than the
    /// evict radius is dropped together with its stored mesh.
    #[verifier::loop_isolation(false)]
    #[verifier::rlimit(60)]
    pub fn update(&mut self, observer: WorldPos)
        requires
            old(self).wf(),
            observer.bounded(),
        ensures
            final(self).wf(),
            // the whole load ball is resident
            forall|p: GridPos|
                dist_sq(p, obs_center(observer)) <= LOAD_RADIUS_SQ as int ==> #[trigger] final(self).has_chunk(p),
            // nothing resident is past the evict radius
            forall|p: GridPos| #[trigger]
                final(self).has_chunk(p) ==> dist_sq(p, obs_center(observer))
                    <= EVICT_RADIUS_SQ as int,
            // chunks inside the evict radius survive untouched
            forall|p: GridPos|
                old(self).has_chunk(p) && dist_sq(p, obs_center(observer))
                    <= EVICT_RADIUS_SQ as int ==> #[trigger] final(self).has_chunk(p),
            forall|p: GridPos|
                #[trigger] final(self).has_chunk(p) && old(self).has_chunk(p) ==> final(self).chunk_at(p) == old(self).chunk_at(p),
            // chunks that appear were generated from the noise field, dirty
            forall|p: GridPos|
                #[trigger] final(self).has_chunk(p) && !old(self).has_chunk(p) ==> final(self).chunk_at(p).pos_spec() == p && final(self).chunk_at(p).cells_spec()
                    == procedural_cells(p) && final(self).chunk_at(p).dirty_spec(),
            // meshes survive exactly with their chunks, unchanged
            forall|p: GridPos| #[trigger]
                final(self).has_mesh(p) <==> old(self).has_mesh(p) && final(self).has_chunk(p),
            forall|p: GridPos| #[trigger]
                final(self).has_mesh(p) ==> final(self).mesh_at(p) == old(self).mesh_at(p),
    {
        let center = Self::world_to_center(observer);
        // ---- load phase: frontier search over the ball, with an explicit
        // visited set (everything ever enqueued stays in `queue`) ----
        let mut queue: Vec<GridPos> = Vec::new();
        queue.push(center);
        let mut head: usize = 0;
        proof {
            assert forall|k: int|
                0 <= k < queue@.len() implies dist_sq(#[trigger] queue@[k], center)
                <= LOAD_RADIUS_SQ as int by {
                assert(queue@[k] == center);
                assert(dist_sq(center, center) == 0);
            }
        }
        while head < queue.len()
            invariant
                self.wf(),
                1 <= queue@.len() <= 125,
                head <= queue@.len(),
                queue@[0] == center,
                queue@.no_duplicates(),
                forall|k: int|
                    0 <= k < queue@.len() ==> dist_sq(#[trigger] queue@[k], center)
                        <= LOAD_RADIUS_SQ as int,
                forall|k: int| 0 <= k < head ==> self.has_chunk(#[trigger] queue@[k]),
                forall|k: int, d: int|
                    0 <= k < head && 0 <= d < 6 && dist_sq(
                        #[trigger] step_dir(queue@[k], d),
                        center,
                    ) <= LOAD_RADIUS_SQ as int ==> queue@.contains(step_dir(queue@[k], d)),
                forall|p: GridPos| #[trigger]
                    old(self).has_chunk(p) ==> self.has_chunk(p) && self.chunk_at(p) == old(self).chunk_at(p),
                forall|p: GridPos| #[trigger]
                    self.has_chunk(p) ==> old(self).has_chunk(p) || dist_sq(p, center)
                        <= LOAD_RADIUS_SQ as int,
                forall|p: GridPos|
                    #[trigger] self.has_chunk(p) && !old(self).has_chunk(p) ==> self.chunk_at(
                        p,
                    ).pos_spec() == p && self.chunk_at(p).cells_spec() == procedural_cells(p)
                        && self.chunk_at(p).dirty_spec(),
                self.meshes_seq() == old(self).meshes_seq(),
            decreases 200 - head,
        {
            let cur = queue[head];
            head = head + 1;
            if self.find_chunk(cur).is_none() {
                let c = Chunk::new(cur);
                proof {
                    lemma_push_preserves_lookup(self.chunks_seq(), c);
                }
                let ghost before = *self;
                self.chunks.push(c);
                proof {
                    assert forall|k: int|
                        0 <= k < self.meshes_seq().len() implies self.has_chunk(
                        (#[trigger] self.meshes_seq()[k]).pos,
                    ) by {
                        assert(before.has_chunk(before.meshes_seq()[k].pos));
                    }
                    assert forall|k: int|
                        0 <= k < self.chunks_seq().len() && !(
                        #[trigger] self.chunks_seq()[k]).dirty_spec() implies {
                        let cc = self.chunks_seq()[k];
                        &&& self.has_mesh(cc.pos_spec())
                        &&& self.mesh_at(cc.pos_spec()).verts@ == culled_verts(cc.cells_spec())
                        &&& self.mesh_at(cc.pos_spec()).inds@ == culled_inds(cc.cells_spec())
                    } by {
                        assert(k < before.chunks_seq().len());
                        assert(self.chunks_seq()[k] == before.chunks_seq()[k]);
                    }
                    assert(self.wf());
                    assert(dist_sq(cur, center) <= LOAD_RADIUS_SQ as int);
                    assert(self.chunks_seq() == before.chunks_seq().push(c));
                    assert forall|p: GridPos| #[trigger] self.has_chunk(p) implies
                        before.has_chunk(p) || dist_sq(p, center) <= LOAD_RADIUS_SQ as int by {
                        assert(seq_has_chunk(before.chunks_seq().push(c), p));
                        if p == c.pos_spec() {
                            assert(dist_sq(p, center) <= LOAD_RADIUS_SQ as int);
                        } else {
                            assert(seq_has_chunk(before.chunks_seq(), p));
                        }
                    }
                    assert forall|p: GridPos|
                        #[trigger] self.has_chunk(p) && !old(self).has_chunk(p) implies
                        self.chunk_at(p).pos_spec() == p && self.chunk_at(p).cells_spec()
                            == procedural_cells(p) && self.chunk_at(p).dirty_spec() by {
                        if p == c.pos_spec() {
                            assert(self.chunk_at(p) == c);
                        } else {
                            assert(seq_has_chunk(before.chunks_seq(), p));
                            assert(before.has_chunk(p));
                            assert(self.chunk_at(p) == before.chunk_at(p));
                        }
                    }
                }
            }
            consider_neighbor(&mut queue, cur, 0, center);
            consider_neighbor(&mut queue, cur, 1, center);
            consider_neighbor(&mut queue, cur, 2, center);
            consider_neighbor(&mut queue, cur, 3, center);
            consider_neighbor(&mut queue, cur, 4, center);
            consider_neighbor(&mut queue, cur, 5, center);
            proof {
                lemma_queue_bound(queue@, center);
            }
        }
        proof {
            assert(queue@.contains(center));
            assert forall|p: GridPos|
                dist_sq(p, center) <= LOAD_RADIUS_SQ as int implies self.has_chunk(p) by {
                lemma_ball_connected(center, p);
                lemma_bfs_covers(queue@, center, p, 6);
                let k = choose|k: int| 0 <= k < queue@.len() && queue@[k] == p;
                assert(self.has_chunk(queue@[k]));
            }
        }
        // ---- evict phase: drop every chunk past the evict radius, and its
        // mesh with it ----
        let ghost mid = *self;
        let total = self.chunks.len();
        let mut kept: Vec<Chunk> = Vec::new();
        let mut j: usize = 0;
        while j < total
            invariant
                j <= total,
                self.chunks@ == mid.chunks_seq().subrange(j as int, total as int),
                self.meshes_seq() == mid.meshes_seq(),
                chunks_distinct(kept@),
                forall|k: int| 0 <= k < kept@.len() ==> (#[trigger] kept@[k]).wf(),
                forall|k: int|
                    0 <= k < kept@.len() ==> dist_sq((#[trigger] kept@[k]).pos_spec(), center)
                        <= EVICT_RADIUS_SQ as int,
                forall|k: int|
                    0 <= k < kept@.len() ==> exists|l: int|
                        0 <= l < j && mid.chunks_seq()[l] == #[trigger] kept@[k],
                forall|l: int|
                    0 <= l < j && dist_sq(
                        (#[trigger] mid.chunks_seq()[l]).pos_spec(),
                        center,
                    ) <= EVICT_RADIUS_SQ as int ==> kept@.contains(mid.chunks_seq()[l]),
            decreases total - j,
        {
            let c = self.chunks.remove(0);
            proof {
                assert(c == mid.chunks_seq()[j as int]);
                assert(self.chunks@ =~= mid.chunks_seq().subrange(j as int + 1, total as int));
            }
            let dq = dist_sq_exec(c.grid_pos(), center);
            if dq <= EVICT_RADIUS_SQ {
                proof {
                    assert forall|k: int|
                        0 <= k < kept@.len() implies (#[trigger] kept@[k]).pos_spec()
                        != c.pos_spec() by {
                        let l = choose|l: int|
                            0 <= l < j && mid.chunks_seq()[l] == #[trigger] kept@[k];
                        assert(mid.chunks_seq()[l].pos_spec() != mid.chunks_seq()[
                        j as int].pos_spec());
                    }
                }
                let ghost kold = kept@;
                kept.push(c);
                proof {
                    assert forall|l: int|
                        0 <= l < j + 1 && dist_sq(
                            (#[trigger] mid.chunks_seq()[l]).pos_spec(),
                            center,
                        ) <= EVICT_RADIUS_SQ as int implies kept@.contains(
                        mid.chunks_seq()[l],
                    ) by {
                        if l < j {
                            assert(kold.contains(mid.chunks_seq()[l]));
                            let k = choose|k: int|
                                0 <= k < kold.len() && kold[k] == mid.chunks_seq()[l];
                            assert(kept@[k] == mid.chunks_seq()[l]);
                        } else {
                            assert(kept@[kold.len() as int] == mid.chunks_seq()[l]);
                        }
                    }
                }
            }
            j = j + 1;
        }
        let ghost keptv = kept@;
        proof {
            assert forall|k: int| 0 <= k < keptv.len() implies mid.chunks_seq().contains(
                #[trigger] keptv[k],
            ) by {
                let l = choose|l: int| 0 <= l < j && mid.chunks_seq()[l] == #[trigger] kept@[k];
                assert(mid.chunks_seq()[l] == keptv[k]);
            }
        }
        self.chunks = kept;
        let mtotal = self.meshes.len();
        let mut mkept: Vec<MeshEntry> = Vec::new();
        let mut j: usize = 0;
        while j < mtotal
            invariant
                j <= mtotal,
                self.chunks@ == keptv,
                self.meshes@ == mid.meshes_seq().subrange(j as int, mtotal as int),
                meshes_distinct(mkept@),
                forall|k: int|
                    0 <= k < mkept@.len() ==> dist_sq((#[trigger] mkept@[k]).pos, center)
                        <= EVICT_RADIUS_SQ as int,
                forall|k: int|
                    0 <= k < mkept@.len() ==> exists|l: int|
                        0 <= l < j && mid.meshes_seq()[l] == #[trigger] mkept@[k],
                forall|l: int|
                    0 <= l < j && dist_sq((#[trigger] mid.meshes_seq()[l]).pos, center)
                        <= EVICT_RADIUS_SQ as int ==> mkept@.contains(mid.meshes_seq()[l]),
            decreases mtotal - j,
        {
            let m = self.meshes.remove(0);
            proof {
                assert(m == mid.meshes_seq()[j as int]);
                assert(self.meshes@ =~= mid.meshes_seq().subrange(j as int + 1, mtotal as int));
            }
            let dq = dist_sq_exec(m.pos, center);
            if dq <= EVICT_RADIUS_SQ {
                proof {
                    assert forall|k: int|
                        0 <= k < mkept@.len() implies (#[trigger] mkept@[k]).pos != m.pos by {
                        let l = choose|l: int| 0 <= l < j && mid.meshes_seq()[l] == #[trigger] mkept@[k];
                        assert(mid.meshes_seq()[l].pos != mid.meshes_seq()[j as int].pos);
                    }
                }
                let ghost mkold = mkept@;
                mkept.push(m);
                proof {
                    assert forall|l: int|
                        0 <= l < j + 1 && dist_sq((#[trigger] mid.meshes_seq()[l]).pos, center)
                            <= EVICT_RADIUS_SQ as int implies mkept@.contains(mid.meshes_seq()[l]) by {
                        if l < j {
                            assert(mkold.contains(mid.meshes_seq()[l]));
                            let k = choose|k: int|
                                0 <= k < mkold.len() && mkold[k] == mid.meshes_seq()[l];
                            assert(mkept@[k] == mid.meshes_seq()[l]);
                        } else {
                            assert(mkept@[mkold.len() as int] == mid.meshes_seq()[l]);
                        }
                    }
                }
            }
            j = j + 1;
        }
        let ghost mkeptv = mkept@;
        proof {
            assert(mtotal == mid.meshes_seq().len());
            assert forall|k: int| 0 <= k < mkeptv.len() implies mid.meshes_seq().contains(
                #[trigger] mkeptv[k],
            ) by {
                let l = choose|l: int| 0 <= l < j && mid.meshes_seq()[l] == #[trigger] mkept@[k];
                assert(mid.meshes_seq()[l] == mkeptv[k]);
            }
        }
        self.meshes = mkept;
        proof {
            assert(total == mid.chunks_seq().len());
            self.lemma_update_post(mid, *old(self), keptv, mkeptv, center);
        }
    }

    /// From the load-phase facts about `mid` and the evict-phase filter facts
    /// about the final state, derives well-formedness and the streaming
    /// postconditions.
    proof fn lemma_update_post(self, mid: World, orig: World, kept: Seq<Chunk>, mkept: Seq<
        MeshEntry,
    >, center: GridPos)
        requires
            orig.wf(),
            mid.wf(),
            mid.meshes_seq() == orig.meshes_seq(),
            forall|p: GridPos|
                dist_sq(p, center) <= LOAD_RADIUS_SQ as int ==> #[trigger] mid.has_chunk(p),
            forall|p: GridPos| #[trigger]
                orig.has_chunk(p) ==> mid.has_chunk(p) && mid.chunk_at(p) == orig.chunk_at(p),
            forall|p: GridPos| #[trigger]
                mid.has_chunk(p) ==> orig.has_chunk(p) || dist_sq(p, center)
                    <= LOAD_RADIUS_SQ as int,
            forall|p: GridPos|
                #[trigger] mid.has_chunk(p) && !orig.has_chunk(p) ==> mid.chunk_at(p).pos_spec()
                    == p && mid.chunk_at(p).cells_spec() == procedural_cells(p) && mid.chunk_at(
                    p,
                ).dirty_spec(),
            self.chunks_seq() == kept,
            self.meshes_seq() == mkept,
            chunks_distinct(kept),
            forall|k: int| 0 <= k < kept.len() ==> (#[trigger] kept[k]).wf(),
            forall|k: int|
                0 <= k < kept.len() ==> dist_sq((#[trigger] kept[k]).pos_spec(), center)
                    <= EVICT_RADIUS_SQ as int,
            forall|k: int|
                0 <= k < kept.len() ==> mid.chunks_seq().contains(#[trigger] kept[k]),
            forall|l: int|
                0 <= l < mid.chunks_seq().len() && dist_sq(
                    (#[trigger] mid.chunks_seq()[l]).pos_spec(),
                    center,
                ) <= EVICT_RADIUS_SQ as int ==> kept.contains(mid.chunks_seq()[l]),
            meshes_distinct(mkept),
            forall|k: int|
                0 <= k < mkept.len() ==> dist_sq((#[trigger] mkept[k]).pos, center)
                    <= EVICT_RADIUS_SQ as int,
            forall|k: int|
                0 <= k < mkept.len() ==> mid.meshes_seq().contains(#[trigger] mkept[k]),
            forall|l: int|
                0 <= l < mid.meshes_seq().len() && dist_sq(
                    (#[trigger] mid.meshes_seq()[l]).pos,
                    center,
                ) <= EVICT_RADIUS_SQ as int ==> mkept.contains(mid.meshes_seq()[l]),
        ensures
            self.wf(),
            forall|p: GridPos|
                dist_sq(p, center) <= LOAD_RADIUS_SQ as int ==> #[trigger] self.has_chunk(p),
            forall|p: GridPos| #[trigger]
                self.has_chunk(p) ==> dist_sq(p, center) <= EVICT_RADIUS_SQ as int,
            forall|p: GridPos|
                orig.has_chunk(p) && dist_sq(p, center) <= EVICT_RADIUS_SQ as int ==> #[trigger]
                self.has_chunk(p),
            forall|p: GridPos|
                #[trigger] self.has_chunk(p) && orig.has_chunk(p) ==> self.chunk_at(p)
                    == orig.chunk_at(p),
            forall|p: GridPos|
                #[trigger] self.has_chunk(p) && !orig.has_chunk(p) ==> self.chunk_at(p).pos_spec()
                    == p && self.chunk_at(p).cells_spec() == procedural_cells(p) && self.chunk_at(
                    p,
                ).dirty_spec(),
            forall|p: GridPos| #[trigger]
                self.has_mesh(p) <==> orig.has_mesh(p) && self.has_chunk(p),
            forall|p: GridPos| #[trigger]
                self.has_mesh(p) ==> self.mesh_at(p) == orig.mesh_at(p),
    {
        let mc = mid.chunks_seq();
        let mm = mid.meshes_seq();
        // every kept chunk is resident in the final state, with its value
        assert forall|k: int| 0 <= k < kept.len() implies #[trigger] self.has_chunk(
            kept[k].pos_spec(),
        ) && self.chunk_at(kept[k].pos_spec()) == kept[k] by {
            lemma_chunk_at_index(kept, k);
        }
        // membership transfer mid -> final for close-enough positions
        assert forall|p: GridPos|
            mid.has_chunk(p) && dist_sq(p, center) <= EVICT_RADIUS_SQ as int implies #[trigger]
            self.has_chunk(p) && self.chunk_at(p) == mid.chunk_at(p) by {
            let l = choose|l: int| 0 <= l < mc.len() && (#[trigger] mc[l]).pos_spec() == p;
            lemma_chunk_at_index(mc, l);
            assert(kept.contains(mc[l]));
            let k = choose|k: int| 0 <= k < kept.len() && kept[k] == mc[l];
            lemma_chunk_at_index(kept, k);
        }
        // membership transfer final -> mid
        assert forall|p: GridPos| #[trigger] self.has_chunk(p) implies mid.has_chunk(p)
            && self.chunk_at(p) == mid.chunk_at(p) && dist_sq(p, center)
            <= EVICT_RADIUS_SQ as int by {
            let k = choose|k: int| 0 <= k < kept.len() && (#[trigger] kept[k]).pos_spec() == p;
            lemma_chunk_at_index(kept, k);
            let l = choose|l: int| 0 <= l < mc.len() && mc[l] == kept[k];
            lemma_chunk_at_index(mc, l);
        }
        // mesh membership transfers
        assert forall|p: GridPos| #[trigger] self.has_mesh(p) implies orig.has_mesh(p)
            && self.mesh_at(p) == orig.mesh_at(p) && dist_sq(p, center)
            <= EVICT_RADIUS_SQ as int by {
            let k = choose|k: int| 0 <= k < mkept.len() && (#[trigger] mkept[k]).pos == p;
            lemma_mesh_at_index(mkept, k);
            let l = choose|l: int| 0 <= l < mm.len() && mm[l] == mkept[k];
            lemma_mesh_at_index(mm, l);
        }
        assert forall|p: GridPos|
            orig.has_mesh(p) && dist_sq(p, center) <= EVICT_RADIUS_SQ as int implies #[trigger]
            self.has_mesh(p) by {
            let l = choose|l: int| 0 <= l < mm.len() && (#[trigger] mm[l]).pos == p;
            assert(mkept.contains(mm[l]));
            let k = choose|k: int| 0 <= k < mkept.len() && mkept[k] == mm[l];
            lemma_mesh_at_index(mkept, k);
        }
        // well-formedness: mesh keys are resident
        assert forall|k: int| 0 <= k < mkept.len() implies self.has_chunk(
            (#[trigger] mkept[k]).pos,
        ) by {
            lemma_mesh_at_index(mkept, k);
            let l = choose|l: int| 0 <= l < mm.len() && mm[l] == mkept[k];
            lemma_mesh_at_index(mm, l);
            assert(mid.has_chunk(mkept[k].pos));
        }
        // well-formedness: clean chunks have their current mesh stored
        assert forall|k: int|
            0 <= k < kept.len() && !(#[trigger] kept[k]).dirty_spec() implies {
            let cc = kept[k];
            &&& self.has_mesh(cc.pos_spec())
            &&& self.mesh_at(cc.pos_spec()).verts@ == culled_verts(cc.cells_spec())
            &&& self.mesh_at(cc.pos_spec()).inds@ == culled_inds(cc.cells_spec())
        } by {
            let cc = kept[k];
            let p = cc.pos_spec();
            lemma_chunk_at_index(kept, k);
            assert(mid.has_chunk(p) && mid.chunk_at(p) == cc);
            assert(orig.has_chunk(p)) by {
                if !orig.has_chunk(p) {
                    assert(mid.chunk_at(p).dirty_spec());
                }
            }
            assert(orig.chunk_at(p) == cc);
            let ko = choose|ko: int|
                0 <= ko < orig.chunks_seq().len() && (#[trigger] orig.chunks_seq()[ko]).pos_spec()
                    == p;
            lemma_chunk_at_index(orig.chunks_seq(), ko);
            assert(orig.chunks_seq()[ko] == cc);
            assert(orig.has_mesh(p) && orig.mesh_at(p).verts@ == culled_verts(cc.cells_spec())
                && orig.mesh_at(p).inds@ == culled_inds(cc.cells_spec()));
            assert(self.has_mesh(p));
        }
        // the load ball stays resident
        assert forall|p: GridPos| dist_sq(p, center) <= LOAD_RADIUS_SQ as int implies #[trigger]
            self.has_chunk(p) by {
            assert(mid.has_chunk(p));
        }
    }

    /// Stores freshly built geometry for `pos`, replacing any prior mesh for
    /// that coordinate (the external renderer frees the old buffers when it
    /// sees the replacement).
    fn store_mesh(&mut self, pos: GridPos, verts: Vec<Vertex>, inds: Vec<u32>)
        requires
            meshes_distinct(old(self).meshes_seq()),
        ensures
            final(self).chunks_seq() == old(self).chunks_seq(),
            meshes_distinct(final(self).meshes_seq()),
            final(self).has_mesh(pos),
            final(self).mesh_at(pos).pos == pos,
            final(self).mesh_at(pos).verts@ == verts@,
            final(self).mesh_at(pos).inds@ == inds@,
            forall|p: GridPos| #[trigger]
                final(self).has_mesh(p) <==> old(self).has_mesh(p) || p == pos,
            forall|p: GridPos|
                p != pos && old(self).has_mesh(p) ==> #[trigger] final(self).mesh_at(p) == old(
                    self,
                ).mesh_at(p),
    {
        let entry = MeshEntry { pos, verts, inds };
        match self.find_mesh(pos) {
            Some(m) => {
                proof {
                    lemma_mesh_update(self.meshes_seq(), m as int, entry);
                }
                self.meshes[m] = entry;
            },
            None => {
                proof {
                    lemma_mesh_push(self.meshes_seq(), entry);
                }
                self.meshes.push(entry);
            },
        }
    }

    /// Once per frame after `update`: rebuilds the mesh of every resident
    /// chunk whose cells changed since its last build (initial creation
    /// counts as changed), replaces the stored mesh for that coordinate, and
    /// returns the grid positions of the resident chunks within the draw
    /// distance — what the renderer draws this frame. Chunks beyond the
    /// cutoff stay resident and meshed but are skipped.
    #[verifier::loop_isolation(false)]
    #[verifier::rlimit(60)]
    pub fn draw(&mut self, observer: WorldPos) -> (drawn: Vec<GridPos>)
        requires
            old(self).wf(),
            observer.bounded(),
        ensures
            final(self).wf(),
            forall|p: GridPos| #[trigger]
                final(self).has_chunk(p) <==> old(self).has_chunk(p),
            forall|p: GridPos| #[trigger]
                final(self).has_chunk(p) ==> {
                    &&& final(self).chunk_at(p).pos_spec() == old(self).chunk_at(p).pos_spec()
                    &&& final(self).chunk_at(p).cells_spec() == old(self).chunk_at(p).cells_spec()
                    &&& !final(self).chunk_at(p).dirty_spec()
                    &&& final(self).has_mesh(p)
                    &&& final(self).mesh_at(p).verts@ == culled_verts(
                        old(self).chunk_at(p).cells_spec(),
                    )
                    &&& final(self).mesh_at(p).inds@ == culled_inds(
                        old(self).chunk_at(p).cells_spec(),
                    )
                },
            forall|p: GridPos| #[trigger]
                drawn@.contains(p) <==> final(self).has_chunk(p) && dist_sq(
                    p,
                    obs_center(observer),
                ) <= DRAW_RADIUS_SQ as int,
            drawn@.no_duplicates(),
    {
        let center = Self::world_to_center(observer);
        let n = self.chunks.len();
        let mut idx: usize = 0;
        while idx < n
            invariant
                self.wf(),
                idx <= n,
                n == self.chunks_seq().len(),
                forall|k: int|
                    0 <= k < n ==> (#[trigger] self.chunks_seq()[k]).pos_spec() == old(
                        self,
                    ).chunks_seq()[k].pos_spec() && self.chunks_seq()[k].cells_spec() == old(
                        self,
                    ).chunks_seq()[k].cells_spec(),
                forall|k: int| 0 <= k < idx ==> !(#[trigger] self.chunks_seq()[k]).dirty_spec(),
            decreases n - idx,
        {
            let ghost before = *self;
            if self.chunks[idx].is_mesh_dirty() {
                let pos = self.chunks[idx].grid_pos();
                let built = self.chunks[idx].gen_mesh_data_culled();
                self.store_mesh(pos, built.0, built.1);
                let ghost after_store = *self;
                let chunk_ref = &mut self.chunks[idx];
                chunk_ref.mark_mesh_built();
                proof {
                    assert(self.meshes_seq() == after_store.meshes_seq());
                    assert(self.has_mesh(pos) && self.mesh_at(pos) == after_store.mesh_at(pos));
                    lemma_chunk_at_index(self.chunks_seq(), idx as int);
                    assert forall|k: int|
                        0 <= k < self.meshes_seq().len() implies self.has_chunk(
                        (#[trigger] self.meshes_seq()[k]).pos,
                    ) by {
                        lemma_mesh_at_index(self.meshes_seq(), k);
                        let p = self.meshes_seq()[k].pos;
                        if p == pos {
                            assert(self.chunks_seq()[idx as int].pos_spec() == p);
                        } else {
                            assert(seq_has_mesh(after_store.meshes_seq(), p));
                            assert(after_store.has_mesh(p));
                            assert(before.has_mesh(p));
                            let l = choose|l: int|
                                0 <= l < before.chunks_seq().len() && (
                                #[trigger] before.chunks_seq()[l]).pos_spec() == p;
                            assert(self.chunks_seq()[l].pos_spec() == p);
                        }
                    }
                    assert forall|k: int|
                        0 <= k < self.chunks_seq().len() && !(
                        #[trigger] self.chunks_seq()[k]).dirty_spec() implies {
                        let cc = self.chunks_seq()[k];
                        &&& self.has_mesh(cc.pos_spec())
                        &&& self.mesh_at(cc.pos_spec()).verts@ == culled_verts(cc.cells_spec())
                        &&& self.mesh_at(cc.pos_spec()).inds@ == culled_inds(cc.cells_spec())
                    } by {
                        let cc = self.chunks_seq()[k];
                        let p = cc.pos_spec();
                        if k == idx as int {
                            assert(self.mesh_at(p).verts@ == culled_verts(cc.cells_spec()));
                        } else {
                            assert(cc == before.chunks_seq()[k]);
                            assert(p != pos) by {
                                if k < idx as int {
                                    assert(before.chunks_seq()[k].pos_spec()
                                        != before.chunks_seq()[idx as int].pos_spec());
                                } else {
                                    assert(before.chunks_seq()[idx as int].pos_spec()
                                        != before.chunks_seq()[k].pos_spec());
                                }
                            }
                            assert(before.has_mesh(p) && before.mesh_at(p).verts@ == culled_verts(
                                cc.cells_spec(),
                            ) && before.mesh_at(p).inds@ == culled_inds(cc.cells_spec()));
                            assert(after_store.has_mesh(p) && after_store.mesh_at(p)
                                == before.mesh_at(p));
                            assert(self.has_mesh(p) && self.mesh_at(p) == after_store.mesh_at(p));
                        }
                    }
                    assert(self.wf());
                }
            }
            idx = idx + 1;
        }
        let mut drawn: Vec<GridPos> = Vec::new();
        let mut k: usize = 0;
        while k < n
            invariant
                k <= n,
                forall|q: GridPos| #[trigger]
                    drawn@.contains(q) ==> exists|l: int|
                        0 <= l < k && (#[trigger] self.chunks_seq()[l]).pos_spec() == q && dist_sq(
                            q,
                            center,
                        ) <= DRAW_RADIUS_SQ as int,
                forall|l: int|
                    0 <= l < k && dist_sq((#[trigger] self.chunks_seq()[l]).pos_spec(), center)
                        <= DRAW_RADIUS_SQ as int ==> drawn@.contains(self.chunks_seq()[l].pos_spec()),
                drawn@.no_duplicates(),
            decreases n - k,
        {
            let p = self.chunks[k].grid_pos();
            let dq = dist_sq_exec(p, center);
            if dq <= DRAW_RADIUS_SQ {
                proof {
                    assert(!drawn@.contains(p)) by {
                        if drawn@.contains(p) {
                            let l = choose|l: int|
                                0 <= l < k && (#[trigger] self.chunks_seq()[l]).pos_spec() == p
                                    && dist_sq(p, center) <= DRAW_RADIUS_SQ as int;
                            assert(self.chunks_seq()[l].pos_spec() != self.chunks_seq()[
                            k as int].pos_spec());
                        }
                    }
                    lemma_queue_push(drawn@, p);
                }
                let ghost dold = drawn@;
                drawn.push(p);
                proof {
                    assert forall|q: GridPos| #[trigger] drawn@.contains(q) implies exists|l: int|
                        0 <= l < k + 1 && (#[trigger] self.chunks_seq()[l]).pos_spec() == q
                            && dist_sq(q, center) <= DRAW_RADIUS_SQ as int by {
                        if dold.contains(q) {
                            let l = choose|l: int|
                                0 <= l < k && (#[trigger] self.chunks_seq()[l]).pos_spec() == q
                                    && dist_sq(q, center) <= DRAW_RADIUS_SQ as int;
                            assert(0 <= l < k + 1 && self.chunks_seq()[l].pos_spec() == q);
                        } else {
                            assert(q == p);
                            assert(self.chunks_seq()[k as int].pos_spec() == q);
                        }
                    }
                    assert forall|l: int|
                        0 <= l < k + 1 && dist_sq(
                            (#[trigger] self.chunks_seq()[l]).pos_spec(),
                            center,
                        ) <= DRAW_RADIUS_SQ as int implies drawn@.contains(
                        self.chunks_seq()[l].pos_spec(),
                    ) by {
                        if l < k {
                            assert(dold.contains(self.chunks_seq()[l].pos_spec()));
                        } else {
                            assert(drawn@[dold.len() as int] == p);
                        }
                    }
                }
            }
            k = k + 1;
        }
        proof {
            assert forall|p: GridPos| #[trigger] drawn@.contains(p) implies self.has_chunk(p)
                && dist_sq(p, center) <= DRAW_RADIUS_SQ as int by {
                let l = choose|l: int|
                    0 <= l < n && (#[trigger] self.chunks_seq()[l]).pos_spec() == p && dist_sq(
                        p,
                        center,
                    ) <= DRAW_RADIUS_SQ as int;
            }
            assert forall|p: GridPos|
                self.has_chunk(p) && dist_sq(p, center) <= DRAW_RADIUS_SQ as int implies #[trigger]
                drawn@.contains(p) by {
                let l = choose|l: int|
                    0 <= l < self.chunks_seq().len() && (#[trigger] self.chunks_seq()[l]).pos_spec()
                        == p;
            }
            assert forall|p: GridPos| #[trigger] self.has_chunk(p) implies old(self).has_chunk(
                p,
            ) by {
                let l = choose|l: int|
                    0 <= l < self.chunks_seq().len() && (#[trigger] self.chunks_seq()[l]).pos_spec()
                        == p;
                assert(old(self).chunks_seq()[l].pos_spec() == p);
            }
            assert forall|p: GridPos| #[trigger] old(self).has_chunk(p) implies self.has_chunk(
                p,
            ) by {
                let l = choose|l: int|
                    0 <= l < old(self).chunks_seq().len() && (#[trigger] old(
                        self,
                    ).chunks_seq()[l]).pos_spec() == p;
                assert(self.chunks_seq()[l].pos_spec() == p);
            }
            assert forall|p: GridPos| #[trigger] self.has_chunk(p) implies {
                &&& self.chunk_at(p).pos_spec() == old(self).chunk_at(p).pos_spec()
                &&& self.chunk_at(p).cells_spec() == old(self).chunk_at(p).cells_spec()
                &&& !self.chunk_at(p).dirty_spec()
            } by {
                let l = choose|l: int|
                    0 <= l < self.chunks_seq().len() && (#[trigger] self.chunks_seq()[l]).pos_spec()
                        == p;
                lemma_chunk_at_index(self.chunks_seq(), l);
                assert(old(self).chunks_seq()[l].pos_spec() == p);
                lemma_chunk_at_index(old(self).chunks_seq(), l);
            }
        }
        drawn
    }

    /// Destructive voxel edit by fixed-step ray march: from `origin`, step a
    /// tenth of `dir` at a time for at most `RAY_MAX_STEPS` steps; at the
    /// first step that lands on a solid voxel of a resident chunk, clear that
    /// voxel (first-hit policy) and stop. Steps through non-resident chunks
    /// pass through; a ray that hits nothing within range is a no-op.
    #[verifier::loop_isolation(false)]
    #[verifier::rlimit(60)]
    pub fn remove_voxel_raycasting(&mut self, origin: WorldPos, dir: WorldPos)
        requires
            old(self).wf(),
            origin.bounded(),
            -MILLI <= dir.x <= MILLI,
            -MILLI <= dir.y <= MILLI,
            -MILLI <= dir.z <= MILLI,
        ensures
            final(self).wf(),
            final(self).meshes_seq() == old(self).meshes_seq(),
            match first_hit(old(self).chunks_seq(), origin, dir) {
                Option::None => final(self).chunks_seq() == old(self).chunks_seq(),
                Option::Some(k) => {
                    let hp = ray_chunk(origin, dir, k);
                    &&& forall|p: GridPos| #[trigger]
                        final(self).has_chunk(p) <==> old(self).has_chunk(p)
                    &&& forall|p: GridPos|
                        p != hp && old(self).has_chunk(p) ==> #[trigger] final(self).chunk_at(p)
                            == old(self).chunk_at(p)
                    &&& final(self).chunk_at(hp).pos_spec() == hp
                    &&& final(self).chunk_at(hp).cells_spec() == old(self).chunk_at(
                        hp,
                    ).cells_spec().update(ray_cell(origin, dir, k), Voxel::air_spec())
                    &&& final(self).chunk_at(hp).dirty_spec()
                },
            },
    {
        let sx = floor_div(dir.x, 10);
        let sy = floor_div(dir.y, 10);
        let sz = floor_div(dir.z, 10);
        proof {
            lemma_div_is_ordered(dir.x as int, MILLI as int, 10);
            lemma_div_is_ordered(-(MILLI as int), dir.x as int, 10);
            lemma_div_is_ordered(dir.y as int, MILLI as int, 10);
            lemma_div_is_ordered(-(MILLI as int), dir.y as int, 10);
            lemma_div_is_ordered(dir.z as int, MILLI as int, 10);
            lemma_div_is_ordered(-(MILLI as int), dir.z as int, 10);
            assert((-(MILLI as int)) / 10 == -100);
            assert((MILLI as int) / 10 == 100);
        }
        let mut cx = origin.x;
        let mut cy = origin.y;
        let mut cz = origin.z;
        let mut step: usize = 0;
        while step < RAY_MAX_STEPS
            invariant
                step <= RAY_MAX_STEPS,
                -100 <= sx <= 100 && sx == dir.x as int / 10,
                -100 <= sy <= 100 && sy == dir.y as int / 10,
                -100 <= sz <= 100 && sz == dir.z as int / 10,
                cx == ray_x(origin, dir, step as int),
                cy == ray_y(origin, dir, step as int),
                cz == ray_z(origin, dir, step as int),
                -MAX_COORD - 100 * (step as int) <= cx <= MAX_COORD + 100 * (step as int),
                -MAX_COORD - 100 * (step as int) <= cy <= MAX_COORD + 100 * (step as int),
                -MAX_COORD - 100 * (step as int) <= cz <= MAX_COORD + 100 * (step as int),
                *self == *old(self),
                first_hit(old(self).chunks_seq(), origin, dir) == first_hit_from(
                    old(self).chunks_seq(),
                    origin,
                    dir,
                    step as int,
                    (RAY_MAX_STEPS - step) as nat,
                ),
            decreases RAY_MAX_STEPS - step,
        {
            let ccx = floor_div(cx, CHUNK_WORLD);
            let ccy = floor_div(cy, CHUNK_WORLD);
            let ccz = floor_div(cz, CHUNK_WORLD);
            proof {
                lemma_div_magnitude(cx as int, CHUNK_WORLD as int);
                lemma_div_magnitude(cy as int, CHUNK_WORLD as int);
                lemma_div_magnitude(cz as int, CHUNK_WORLD as int);
            }
            let chunk_pos = GridPos::new(ccx as i32, ccy as i32, ccz as i32);
            proof {
                assert(chunk_pos == ray_chunk(origin, dir, step as int));
            }
            match self.find_chunk(chunk_pos) {
                Some(ci) => {
                    proof {
                        lemma_fundamental_div_mod(cx as int, CHUNK_WORLD as int);
                        lemma_fundamental_div_mod(cy as int, CHUNK_WORLD as int);
                        lemma_fundamental_div_mod(cz as int, CHUNK_WORLD as int);
                        lemma_mod_bound(cx as int, CHUNK_WORLD as int);
                        lemma_mod_bound(cy as int, CHUNK_WORLD as int);
                        lemma_mod_bound(cz as int, CHUNK_WORLD as int);
                    }
                    let lx = cx - ccx * CHUNK_WORLD;
                    let ly = cy - ccy * CHUNK_WORLD;
                    let lz = cz - ccz * CHUNK_WORLD;
                    let cellx = ((lx as u64) / (MILLI as u64)) as usize;
                    let celly = ((ly as u64) / (MILLI as u64)) as usize;
                    let cellz = ((lz as u64) / (MILLI as u64)) as usize;
                    proof {
                        lemma_cell_bounds(lx as int);
                        lemma_cell_bounds(ly as int);
                        lemma_cell_bounds(lz as int);
                        assert(cellx == cell_coord(cx as int));
                        assert(celly == cell_coord(cy as int));
                        assert(cellz == cell_coord(cz as int));
                    }
                    let vidx = cellx * (CHUNK_SIZE * CHUNK_SIZE) + celly * CHUNK_SIZE + cellz;
                    proof {
                        assert(vidx == ray_cell(origin, dir, step as int));
                        assert(vidx < CHUNK_VOLUME);
                        lemma_chunk_at_index(self.chunks_seq(), ci as int);
                    }
                    let v = self.chunks[ci].voxel_at(vidx);
                    if v.id() != 0 {
                        proof {
                            assert(ray_hits(
                                old(self).chunks_seq(),
                                origin,
                                dir,
                                step as int,
                            ));
                            assert(first_hit(old(self).chunks_seq(), origin, dir)
                                == Option::Some(step as int));
                        }
                        let chunk_ref = &mut self.chunks[ci];
                        chunk_ref.destroy_voxel(cellx as i32, celly as i32, cellz as i32);
                        proof {
                            vstd::arithmetic::div_mod::lemma_small_mod(cellx as nat, 24);
                            vstd::arithmetic::div_mod::lemma_small_mod(celly as nat, 24);
                            vstd::arithmetic::div_mod::lemma_small_mod(cellz as nat, 24);
                            lemma_chunk_update(
                                old(self).chunks_seq(),
                                ci as int,
                                self.chunks_seq()[ci as int],
                            );
                            assert forall|k2: int|
                                0 <= k2 < self.meshes_seq().len() implies self.has_chunk(
                                (#[trigger] self.meshes_seq()[k2]).pos,
                            ) by {
                                assert(old(self).has_chunk(old(self).meshes_seq()[k2].pos));
                            }
                            assert forall|k2: int|
                                0 <= k2 < self.chunks_seq().len() && !(
                                #[trigger] self.chunks_seq()[k2]).dirty_spec() implies {
                                let cc = self.chunks_seq()[k2];
                                &&& self.has_mesh(cc.pos_spec())
                                &&& self.mesh_at(cc.pos_spec()).verts@ == culled_verts(
                                    cc.cells_spec(),
                                )
                                &&& self.mesh_at(cc.pos_spec()).inds@ == culled_inds(
                                    cc.cells_spec(),
                                )
                            } by {
                                assert(k2 != ci as int);
                                assert(self.chunks_seq()[k2] == old(self).chunks_seq()[k2]);
                            }
                            assert(self.wf());
                        }
                        return ;
                    }
                },
                None => {
                },
            }
            proof {
                assert(!ray_hits(old(self).chunks_seq(), origin, dir, step as int));
                assert(first_hit_from(
                    old(self).chunks_seq(),
                    origin,
                    dir,
                    step as int,
                    (RAY_MAX_STEPS - step) as nat,
                ) == first_hit_from(
                    old(self).chunks_seq(),
                    origin,
                    dir,
                    step as int + 1,
                    (RAY_MAX_STEPS - step - 1) as nat,
                ));
                assert((step as int + 1) * sx == (step as int) * sx + sx) by (nonlinear_arith);
                assert((step as int + 1) * sy == (step as int) * sy + sy) by (nonlinear_arith);
                assert((step as int + 1) * sz == (step as int) * sz + sz) by (nonlinear_arith);
            }
            cx = cx + sx;
            cy = cy + sy;
            cz = cz + sz;
            step = step + 1;
        }
        proof {
            assert(first_hit(old(self).chunks_seq(), origin, dir) is None);
        }
    }

    /// Inserts a chunk at a position where none is resident: the injection
    /// point for worlds with chosen contents. The chunk must still be owed
    /// its first mesh build.
    pub fn insert_chunk(&mut self, c: Chunk)
        requires
            old(self).wf(),
            c.wf(),
            c.dirty_spec(),
            !old(self).has_chunk(c.pos_spec()),
        ensures
            final(self).wf(),
            final(self).chunks_seq() == old(self).chunks_seq().push(c),
            final(self).meshes_seq() == old(self).meshes_seq(),
            forall|p: GridPos| #[trigger]
                final(self).has_chunk(p) <==> old(self).has_chunk(p) || p == c.pos_spec(),
            forall|p: GridPos|
                old(self).has_chunk(p) ==> #[trigger] final(self).chunk_at(p) == old(self).chunk_at(p),
            final(self).chunk_at(c.pos_spec()) == c,
    {
        proof {
            lemma_push_preserves_lookup(self.chunks_seq(), c);
        }
        self.chunks.push(c);
    }
}

/// Replacing a chunk by one at the same position keeps every lookup but that
/// position's.
proof fn lemma_chunk_update(s: Seq<Chunk>, i: int, c: Chunk)
    requires
        chunks_distinct(s),
        0 <= i < s.len(),
        c.pos_spec() == s[i].pos_spec(),
    ensures
        chunks_distinct(s.update(i, c)),
        forall|p: GridPos| #[trigger] seq_has_chunk(s.update(i, c), p) <==> seq_has_chunk(s, p),
        seq_chunk_at(s.update(i, c), c.pos_spec()) == c,
        forall|p: GridPos|
            p != c.pos_spec() && seq_has_chunk(s, p) ==> #[trigger] seq_chunk_at(s.update(i, c), p)
                == seq_chunk_at(s, p),
{
    let t = s.update(i, c);
    assert forall|p: GridPos| #[trigger] seq_has_chunk(t, p) implies seq_has_chunk(s, p) by {
        let k = choose|k: int| 0 <= k < t.len() && (#[trigger] t[k]).pos_spec() == p;
        assert(s[k].pos_spec() == p);
    }
    assert forall|p: GridPos| #[trigger] seq_has_chunk(s, p) implies seq_has_chunk(t, p) by {
        let k = choose|k: int| 0 <= k < s.len() && (#[trigger] s[k]).pos_spec() == p;
        assert(t[k].pos_spec() == p);
    }
    lemma_chunk_at_index(t, i);
    assert forall|p: GridPos|
        p != c.pos_spec() && seq_has_chunk(s, p) implies #[trigger] seq_chunk_at(t, p)
        == seq_chunk_at(s, p) by {
        let k = choose|k: int| 0 <= k < s.len() && (#[trigger] s[k]).pos_spec() == p;
        assert(k != i);
        assert(t[k] == s[k]);
        lemma_chunk_at_index(t, k);
        lemma_chunk_at_index(s, k);
    }
}

/// Replacing the entry that holds a key keeps every lookup but that key's.
proof fn lemma_mesh_update(s: Seq<MeshEntry>, m: int, e: MeshEntry)
    requires
        meshes_distinct(s),
        0 <= m < s.len(),
        e.pos == s[m].pos,
    ensures
        meshes_distinct(s.update(m, e)),
        forall|p: GridPos| #[trigger] seq_has_mesh(s.update(m, e), p) <==> seq_has_mesh(s, p),
        seq_mesh_at(s.update(m, e), e.pos) == e,
        forall|p: GridPos|
            p != e.pos && seq_has_mesh(s, p) ==> #[trigger] seq_mesh_at(s.update(m, e), p)
                == seq_mesh_at(s, p),
{
    let t = s.update(m, e);
    assert forall|p: GridPos| #[trigger] seq_has_mesh(t, p) implies seq_has_mesh(s, p) by {
        let k = choose|k: int| 0 <= k < t.len() && (#[trigger] t[k]).pos == p;
        assert(s[k].pos == p);
    }
    assert forall|p: GridPos| #[trigger] seq_has_mesh(s, p) implies seq_has_mesh(t, p) by {
        let k = choose|k: int| 0 <= k < s.len() && (#[trigger] s[k]).pos == p;
        assert(t[k].pos == p);
    }
    lemma_mesh_at_index(t, m);
    assert forall|p: GridPos|
        p != e.pos && seq_has_mesh(s, p) implies #[trigger] seq_mesh_at(t, p) == seq_mesh_at(
        s,
        p,
    ) by {
        let k = choose|k: int| 0 <= k < s.len() && (#[trigger] s[k]).pos == p;
        assert(k != m);
        assert(t[k] == s[k]);
        lemma_mesh_at_index(t, k);
        lemma_mesh_at_index(s, k);
    }
}

/// Appending an entry under a fresh key keeps every existing lookup and adds
/// the new one.
proof fn lemma_mesh_push(s: Seq<MeshEntry>, e: MeshEntry)
    requires
        meshes_distinct(s),
        !seq_has_mesh(s, e.pos),
    ensures
        meshes_distinct(s.push(e)),
        forall|p: GridPos| #[trigger]
            seq_has_mesh(s.push(e), p) <==> seq_has_mesh(s, p) || p == e.pos,
        seq_mesh_at(s.push(e), e.pos) == e,
        forall|p: GridPos|
            seq_has_mesh(s, p) ==> #[trigger] seq_mesh_at(s.push(e), p) == seq_mesh_at(s, p),
{
    let t = s.push(e);
    assert forall|k1: int, k2: int| 0 <= k1 < k2 < t.len() implies (#[trigger] t[k1]).pos != (
    #[trigger] t[k2]).pos by {
        if k2 == s.len() {
            assert(t[k1] == s[k1]);
            lemma_mesh_at_index(s, k1);
        }
    }
    assert forall|p: GridPos| #[trigger] seq_has_mesh(t, p) implies seq_has_mesh(s, p) || p
        == e.pos by {
        let k = choose|k: int| 0 <= k < t.len() && (#[trigger] t[k]).pos == p;
        if k < s.len() {
            assert(s[k].pos == p);
        }
    }
    assert forall|p: GridPos| seq_has_mesh(s, p) || p == e.pos implies #[trigger] seq_has_mesh(
        t,
        p,
    ) by {
        if seq_has_mesh(s, p) {
            let k = choose|k: int| 0 <= k < s.len() && (#[trigger] s[k]).pos == p;
            assert(t[k].pos == p);
        } else {
            assert(t[s.len() as int].pos == p);
        }
    }
    lemma_mesh_at_index(t, s.len() as int);
    assert forall|p: GridPos| seq_has_mesh(s, p) implies #[trigger] seq_mesh_at(t, p)
        == seq_mesh_at(s, p) by {
        let k = choose|k: int| 0 <= k < s.len() && (#[trigger] s[k]).pos == p;
        assert(t[k].pos == p);
        lemma_mesh_at_index(t, k);
        lemma_mesh_at_index(s, k);
    }
}

/// Pushing a chunk at a fresh position keeps every existing lookup and adds
/// the new one.
pub proof fn lemma_push_preserves_lookup(s: Seq<Chunk>, c: Chunk)
    requires
        chunks_distinct(s),
        !seq_has_chunk(s, c.pos_spec()),
    ensures
        chunks_distinct(s.push(c)),
        forall|p: GridPos| #[trigger]
            seq_has_chunk(s.push(c), p) <==> seq_has_chunk(s, p) || p == c.pos_spec(),
        forall|p: GridPos|
            seq_has_chunk(s, p) ==> #[trigger] seq_chunk_at(s.push(c), p) == seq_chunk_at(s, p),
        seq_chunk_at(s.push(c), c.pos_spec()) == c,
{
    let t = s.push(c);
    assert forall|k1: int, k2: int| 0 <= k1 < k2 < t.len() implies (#[trigger] t[k1]).pos_spec()
        != (#[trigger] t[k2]).pos_spec() by {
        if k2 == s.len() {
            assert(t[k2] == c);
            assert(t[k1] == s[k1]);
            assert(seq_has_chunk(s, s[k1].pos_spec()));
        }
    }
    assert forall|p: GridPos| #[trigger] seq_has_chunk(t, p) implies seq_has_chunk(s, p) || p
        == c.pos_spec() by {
        let k = choose|k: int| 0 <= k < t.len() && (#[trigger] t[k]).pos_spec() == p;
        if k < s.len() {
            assert(seq_has_chunk(s, p));
        }
    }
    assert forall|p: GridPos| seq_has_chunk(s, p) || p == c.pos_spec() implies #[trigger]
        seq_has_chunk(t, p) by {
        if seq_has_chunk(s, p) {
            let k = choose|k: int| 0 <= k < s.len() && (#[trigger] s[k]).pos_spec() == p;
            assert(t[k].pos_spec() == p);
        } else {
            assert(t[s.len() as int].pos_spec() == p);
        }
    }
    assert forall|p: GridPos| seq_has_chunk(s, p) implies #[trigger] seq_chunk_at(t, p)
        == seq_chunk_at(s, p) by {
        let k = choose|k: int| 0 <= k < s.len() && (#[trigger] s[k]).pos_spec() == p;
        assert(t[k].pos_spec() == p);
        lemma_chunk_at_index(t, k);
        lemma_chunk_at_index(s, k);
    }
    assert(t[s.len() as int] == c);
    lemma_chunk_at_index(t, s.len() as int);
}

} // verus!
