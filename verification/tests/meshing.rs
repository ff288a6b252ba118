use voxelgrid::{Chunk, GridPos, Voxel, CHUNK_SIZE, CHUNK_VOLUME};

fn cell_index(x: usize, y: usize, z: usize) -> usize {
    x * CHUNK_SIZE * CHUNK_SIZE + y * CHUNK_SIZE + z
}

#[test]
fn empty_chunk_meshes_to_nothing() {
    let c = Chunk::from_cells(GridPos::new(0, 0, 0), vec![Voxel::air(); CHUNK_VOLUME]);
    let (verts, inds) = c.gen_mesh_data_culled();
    assert_eq!(verts.len(), 0);
    assert_eq!(inds.len(), 0);
    let (fverts, finds) = c.gen_mesh_data_no_culling();
    assert_eq!(fverts.len(), 0);
    assert_eq!(finds.len(), 0);
}

#[test]
fn single_voxel_culled_mesh_geometry() {
    let mut cells = vec![Voxel::air(); CHUNK_VOLUME];
    cells[cell_index(0, 0, 0)] = Voxel::ground();
    let c = Chunk::from_cells(GridPos::new(0, 0, 0), cells);
    let (verts, inds) = c.gen_mesh_data_culled();
    // all six faces exposed: one quad each
    assert_eq!(verts.len(), 24);
    assert_eq!(inds.len(), 36);
    // the left face comes first, with its winding order
    let left = [(0, 0, 0), (0, 0, 1), (0, 1, 1), (0, 1, 0)];
    for (k, &(x, y, z)) in left.iter().enumerate() {
        assert_eq!((verts[k].x, verts[k].y, verts[k].z), (x, y, z));
    }
    assert_eq!(&inds[0..6], &[0, 1, 2, 2, 3, 0]);
    // second quad starts at the next four vertices
    assert_eq!(&inds[6..12], &[4, 5, 6, 6, 7, 4]);
}

#[test]
fn single_voxel_full_mesh_geometry() {
    let mut cells = vec![Voxel::air(); CHUNK_VOLUME];
    cells[cell_index(3, 4, 5)] = Voxel::ground();
    let c = Chunk::from_cells(GridPos::new(0, 0, 0), cells);
    let (verts, inds) = c.gen_mesh_data_no_culling();
    assert_eq!(verts.len(), 8);
    assert_eq!(inds.len(), 36);
    let corners = [
        (3, 4, 5),
        (4, 4, 5),
        (4, 5, 5),
        (3, 5, 5),
        (3, 4, 6),
        (4, 4, 6),
        (4, 5, 6),
        (3, 5, 6),
    ];
    for (k, &(x, y, z)) in corners.iter().enumerate() {
        assert_eq!((verts[k].x, verts[k].y, verts[k].z), (x, y, z));
    }
    assert_eq!(&inds[0..12], &[0, 1, 2, 2, 3, 0, 1, 5, 6, 6, 2, 1]);
}

#[test]
fn single_voxel_culled_equals_full_triangle_count() {
    // a lone voxel has every face exposed, so culling removes nothing
    let mut cells = vec![Voxel::air(); CHUNK_VOLUME];
    cells[cell_index(10, 10, 10)] = Voxel::ground();
    let c = Chunk::from_cells(GridPos::new(0, 0, 0), cells);
    assert_eq!(c.gen_mesh_data_culled().1.len(), c.gen_mesh_data_no_culling().1.len());
}

#[test]
fn culled_mesh_never_exceeds_full_mesh() {
    for &pos in &[GridPos::new(0, 0, 0), GridPos::new(-4, 2, 17)] {
        let c = Chunk::new(pos);
        let (cv, ci) = c.gen_mesh_data_culled();
        let (fv, fi) = c.gen_mesh_data_no_culling();
        assert!(ci.len() <= fi.len());
        assert_eq!(cv.len() % 4, 0);
        assert_eq!(fv.len() % 8, 0);
        assert_eq!(ci.len() % 3, 0);
        assert_eq!(fi.len() % 3, 0);
    }
}

#[test]
fn solid_block_interior_voxel_adds_no_face() {
    // a 3x3x3 solid block: only its surface is meshed
    let mut cells = vec![Voxel::air(); CHUNK_VOLUME];
    for x in 10..13 {
        for y in 10..13 {
            for z in 10..13 {
                cells[cell_index(x, y, z)] = Voxel::ground();
            }
        }
    }
    let c = Chunk::from_cells(GridPos::new(0, 0, 0), cells);
    // the center voxel is fully hidden
    let center = cell_index(11, 11, 11);
    for &d in &[(-1, 0, 0), (1, 0, 0), (0, -1, 0), (0, 1, 0), (0, 0, -1), (0, 0, 1)] {
        assert!(!c.is_visible(center, d));
    }
    // a corner voxel of the block shows three faces
    let corner = cell_index(10, 10, 10);
    assert!(c.is_visible(corner, (-1, 0, 0)));
    assert!(c.is_visible(corner, (0, -1, 0)));
    assert!(c.is_visible(corner, (0, 0, -1)));
    assert!(!c.is_visible(corner, (1, 0, 0)));
    // 6 block sides x 9 exposed faces each, 2 triangles per face
    let (verts, inds) = c.gen_mesh_data_culled();
    assert_eq!(verts.len(), 54 * 4);
    assert_eq!(inds.len(), 54 * 6);
    // strictly fewer triangles than the unconditional mesh of 27 cubes
    assert!(inds.len() < c.gen_mesh_data_no_culling().1.len());
}

#[test]
fn fully_interior_voxel_in_solid_chunk() {
    // an all-solid chunk: interior voxels contribute nothing, the surface is
    // exactly the six chunk walls
    let c = Chunk::from_cells(GridPos::new(0, 0, 0), vec![Voxel::ground(); CHUNK_VOLUME]);
    let inner = cell_index(12, 12, 12);
    for &d in &[(-1, 0, 0), (1, 0, 0), (0, -1, 0), (0, 1, 0), (0, 0, -1), (0, 0, 1)] {
        assert!(!c.is_visible(inner, d));
    }
    let (_, inds) = c.gen_mesh_data_culled();
    let wall = CHUNK_SIZE * CHUNK_SIZE;
    assert_eq!(inds.len(), 6 * wall * 6);
}
