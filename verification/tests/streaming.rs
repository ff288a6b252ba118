use voxelgrid::{Chunk, GridPos, Voxel, World, WorldPos, CHUNK_SIZE, CHUNK_VOLUME, MILLI};

fn cell_index(x: usize, y: usize, z: usize) -> usize {
    x * CHUNK_SIZE * CHUNK_SIZE + y * CHUNK_SIZE + z
}

/// Every offset within Euclidean distance 2 of the origin, reachable by unit
/// steps inside that ball: the full load ball, 33 coordinates.
fn load_ball() -> Vec<(i32, i32, i32)> {
    let mut out = Vec::new();
    for x in -2i32..=2 {
        for y in -2i32..=2 {
            for z in -2i32..=2 {
                if x * x + y * y + z * z <= 4 {
                    out.push((x, y, z));
                }
            }
        }
    }
    out
}

#[test]
fn update_loads_the_whole_ball_and_no_more() {
    let mut w = World::new();
    w.update(WorldPos::new(0, 0, 0));
    let ball = load_ball();
    assert_eq!(ball.len(), 33);
    for &(x, y, z) in &ball {
        assert!(w.contains_chunk(GridPos::new(x, y, z)));
    }
    assert_eq!(w.chunk_count(), 33);
    // just past the load radius: not resident
    assert!(!w.contains_chunk(GridPos::new(3, 0, 0)));
    assert!(!w.contains_chunk(GridPos::new(2, 1, 0)));
}

#[test]
fn update_evicts_far_chunks() {
    let mut w = World::new();
    w.update(WorldPos::new(0, 0, 0));
    assert!(w.contains_chunk(GridPos::new(0, 0, 0)));
    // move the observer sixteen chunks away: everything near the origin is
    // past the evict radius and dropped
    w.update(WorldPos::new(16 * 24 * MILLI, 0, 0));
    assert!(!w.contains_chunk(GridPos::new(0, 0, 0)));
    assert!(w.contains_chunk(GridPos::new(16, 0, 0)));
    assert_eq!(w.chunk_count(), 33);
}

#[test]
fn existing_chunks_survive_update_unchanged() {
    let mut w = World::new();
    w.update(WorldPos::new(0, 0, 0));
    let before: Vec<u8> = (0..CHUNK_VOLUME)
        .map(|i| w.get_chunk(GridPos::new(0, 0, 0)).unwrap().voxel_at(i).id())
        .collect();
    // a small move keeps the origin chunk resident; generation is not re-run
    w.update(WorldPos::new(24 * MILLI, 0, 0));
    let chunk = w.get_chunk(GridPos::new(0, 0, 0)).unwrap();
    for i in 0..CHUNK_VOLUME {
        assert_eq!(chunk.voxel_at(i).id(), before[i]);
    }
}

#[test]
fn draw_builds_meshes_and_lists_near_chunks() {
    let mut w = World::new();
    w.update(WorldPos::new(0, 0, 0));
    let drawn = w.draw(WorldPos::new(0, 0, 0));
    // the whole load ball is within the draw distance of eight chunks
    assert_eq!(drawn.len(), 33);
    for p in &drawn {
        let mesh = w.get_mesh(*p).expect("a drawn chunk has a mesh");
        let chunk = w.get_chunk(*p).unwrap();
        let (verts, inds) = chunk.gen_mesh_data_culled();
        assert_eq!(mesh.verts.len(), verts.len());
        assert_eq!(mesh.inds.len(), inds.len());
    }
}

#[test]
fn chunk_in_camera_finds_the_containing_chunk() {
    let mut w = World::new();
    w.update(WorldPos::new(0, 0, 0));
    // a point inside chunk (1, 0, 0): world units [24, 48) on x
    let inside = WorldPos::new(30 * MILLI, 5 * MILLI, 5 * MILLI);
    let c = w.chunk_in_camera(inside).expect("chunk (1,0,0) is resident");
    assert_eq!(c.grid_pos(), GridPos::new(1, 0, 0));
    // negative coordinates floor toward the lower chunk
    let below = WorldPos::new(-1, 0, 0);
    let c2 = w.chunk_in_camera(below).expect("chunk (-1,0,0) is resident");
    assert_eq!(c2.grid_pos(), GridPos::new(-1, 0, 0));
    // far outside the resident set
    assert!(w.chunk_in_camera(WorldPos::new(2_400 * MILLI, 0, 0)).is_none());
}

#[test]
fn edit_then_reload_loses_the_edit() {
    let mut w = World::new();
    w.update(WorldPos::new(0, 0, 0));
    // find a solid voxel of the origin chunk
    let origin = GridPos::new(0, 0, 0);
    let mut solid = None;
    for i in 0..CHUNK_VOLUME {
        if w.get_chunk(origin).unwrap().voxel_at(i).id() != 0 {
            solid = Some(i);
            break;
        }
    }
    let idx = solid.expect("the generated origin chunk holds some solid voxel");
    let x = idx / (CHUNK_SIZE * CHUNK_SIZE);
    let y = (idx % (CHUNK_SIZE * CHUNK_SIZE)) / CHUNK_SIZE;
    let z = idx % CHUNK_SIZE;
    // aim the ray at the voxel's center: the march hits it on its first step
    let at = WorldPos::new(
        x as i64 * MILLI + 500,
        y as i64 * MILLI + 500,
        z as i64 * MILLI + 500,
    );
    w.remove_voxel_raycasting(at, WorldPos::new(MILLI, 0, 0));
    assert_eq!(w.get_chunk(origin).unwrap().voxel_at(idx).id(), 0);
    // move far away: the edited chunk is evicted, the edit with it
    w.update(WorldPos::new(16 * 24 * MILLI, 0, 0));
    assert!(!w.contains_chunk(origin));
    // move back: the chunk regenerates to its procedural contents
    w.update(WorldPos::new(0, 0, 0));
    let reloaded = w.get_chunk(origin).unwrap();
    assert_eq!(reloaded.voxel_at(idx).id(), 1);
    let fresh = Chunk::new(origin);
    for i in 0..CHUNK_VOLUME {
        assert_eq!(reloaded.voxel_at(i).id(), fresh.voxel_at(i).id());
    }
}

#[test]
fn ray_march_clears_exactly_the_hit_voxel() {
    let mut w = World::new();
    // a chunk holding one solid voxel at local (5, 5, 5), far from the origin
    let pos = GridPos::new(10, 10, 10);
    let mut cells = vec![Voxel::air(); CHUNK_VOLUME];
    cells[cell_index(5, 5, 5)] = Voxel::ground();
    w.insert_chunk(Chunk::from_cells(pos, cells));
    // chunk (10,10,10) spans world units [240, 264) on each axis; the voxel
    // occupies [245, 246)^3. March along +x from inside the chunk's airspace.
    let start = WorldPos::new(242 * MILLI + 500, 245 * MILLI + 500, 245 * MILLI + 500);
    // a ray that never meets a solid voxel is a no-op
    w.remove_voxel_raycasting(start, WorldPos::new(0, MILLI, 0));
    assert_eq!(w.get_chunk(pos).unwrap().voxel_at(cell_index(5, 5, 5)).id(), 1);
    // the aimed ray clears the voxel and nothing else
    w.remove_voxel_raycasting(start, WorldPos::new(MILLI, 0, 0));
    let chunk = w.get_chunk(pos).unwrap();
    for i in 0..CHUNK_VOLUME {
        assert_eq!(chunk.voxel_at(i).id(), 0);
    }
    // out of range: five units of march cannot reach a voxel twenty in
    let mut cells2 = vec![Voxel::air(); CHUNK_VOLUME];
    cells2[cell_index(20, 5, 5)] = Voxel::ground();
    let pos2 = GridPos::new(-10, 10, 10);
    w.insert_chunk(Chunk::from_cells(pos2, cells2));
    w.remove_voxel_raycasting(
        WorldPos::new(-240 * MILLI + 100, 245 * MILLI + 500, 245 * MILLI + 500),
        WorldPos::new(MILLI, 0, 0),
    );
    assert_eq!(w.get_chunk(pos2).unwrap().voxel_at(cell_index(20, 5, 5)).id(), 1);
}
