//! A chunk-streaming voxel engine core: fixed-size voxel chunks procedurally
//! filled from a deterministic noise field, a face-culled surface mesher,
//! distance-bounded incremental chunk loading and eviction around an observer,
//! and voxel-precise destructive edits by ray marching.

mod chunk;
mod coords;
mod field;
mod mesher;
mod voxel;
mod world;

pub use mesher::lemma_culled_within_full;
pub use mesher::lemma_interior_voxel_no_faces;
pub use world::CHUNK_WORLD;
pub use world::DRAW_RADIUS_SQ;
pub use world::EVICT_RADIUS_SQ;
pub use world::LOAD_RADIUS_SQ;
pub use world::RAY_MAX_STEPS;
pub use world::MeshEntry;
pub use world::World;
pub use world::obs_center;
pub use world::chunk_coord;
pub use world::seq_has_chunk;
pub use world::seq_chunk_at;
pub use world::seq_has_mesh;
pub use world::seq_mesh_at;
pub use world::cell_coord;
pub use world::first_hit;
pub use world::ray_chunk;
pub use world::ray_cell;

pub use mesher::Vertex;
pub use mesher::culled_inds;
pub use mesher::culled_verts;
pub use mesher::exposed_face_count;
pub use mesher::full_inds;
pub use mesher::full_verts;
pub use mesher::solid_count;
pub use mesher::voxel_face_count;

pub use chunk::CHUNK_SIZE;
pub use chunk::CHUNK_VOLUME;
pub use chunk::Chunk;
pub use chunk::cell_is_solid;
pub use chunk::face_exposed;
pub use chunk::flat_index;
pub use chunk::lemma_generation_deterministic;
pub use chunk::lemma_index_round_trip;
pub use chunk::lemma_wrapped_index_in_range;
pub use chunk::procedural_cells;
pub use chunk::wrap_coord;
pub use field::field_noise;
pub use coords::GridPos;
pub use coords::WorldPos;
pub use coords::MILLI;
pub use coords::MAX_COORD;
pub use coords::dist_sq;
pub use voxel::Voxel;
