use noise::permutationtable::{NoiseHasher, PermutationTable};
use voxelgrid::{Chunk, GridPos, CHUNK_SIZE, CHUNK_VOLUME};

#[test]
fn chunk_generation_is_deterministic() {
    let a = Chunk::new(GridPos::new(3, -2, 7));
    let b = Chunk::new(GridPos::new(3, -2, 7));
    for i in 0..CHUNK_VOLUME {
        assert_eq!(a.voxel_at(i).id(), b.voxel_at(i).id());
    }
}

#[test]
fn generation_differs_between_positions() {
    let a = Chunk::new(GridPos::new(0, 0, 0));
    let b = Chunk::new(GridPos::new(9, 4, -6));
    let mut differs = false;
    for i in 0..CHUNK_VOLUME {
        if a.voxel_at(i).id() != b.voxel_at(i).id() {
            differs = true;
        }
    }
    assert!(differs);
}

#[test]
fn generation_matches_the_noise_field() {
    let table = PermutationTable::new(0);
    let c = Chunk::new(GridPos::new(2, 1, -3));
    for i in [0usize, 1, 100, 5000, 9999, 13823] {
        let x = i / (CHUNK_SIZE * CHUNK_SIZE);
        let y = (i % (CHUNK_SIZE * CHUNK_SIZE)) / CHUNK_SIZE;
        let z = i % CHUNK_SIZE;
        let h = table.hash(&[
            (12 * 2 + x as i64) as isize,
            (12 * 1 + y as i64) as isize,
            (12 * -3 + z as i64) as isize,
            14,
        ]) as u8;
        let expected = if 10 < h / 8 { 1 } else { 0 };
        assert_eq!(c.voxel_at(i).id(), expected);
    }
}

#[test]
fn voxel_index_round_trip() {
    for &(x, y, z) in &[(0, 0, 0), (5, 7, 9), (23, 23, 23), (1, 0, 23), (12, 0, 1)] {
        let i = Chunk::get_voxel(x, y, z);
        assert_eq!(i / (CHUNK_SIZE * CHUNK_SIZE), x as usize);
        assert_eq!((i % (CHUNK_SIZE * CHUNK_SIZE)) / CHUNK_SIZE, y as usize);
        assert_eq!(i % CHUNK_SIZE, z as usize);
    }
}

#[test]
fn voxel_index_wraps_negatives_into_range() {
    for &(x, y, z) in &[
        (-1, -24, -25),
        (100, -100, 3),
        (i32::MIN, i32::MAX, -7),
        (24, 48, -48),
    ] {
        let i = Chunk::get_voxel(x, y, z);
        assert!(i < CHUNK_VOLUME);
    }
    // -1 wraps to 23 on the x axis, 24 wraps to 0
    assert_eq!(Chunk::get_voxel(-1, 0, 0), 23 * CHUNK_SIZE * CHUNK_SIZE);
    assert_eq!(Chunk::get_voxel(24, 0, 0), 0);
    assert_eq!(Chunk::get_voxel(0, -1, 0), 23 * CHUNK_SIZE);
    assert_eq!(Chunk::get_voxel(0, 0, -1), 23);
}
