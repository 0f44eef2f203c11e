//! Terrain rules of an isometric tile world: tile kinds, seeded per-tile
//! hashes, the permutation table behind the height noise, what stands on a
//! tile, and the bookkeeping that streams chunks in and out around the camera.

pub mod tile;
pub mod scatter;
pub mod perm;
pub mod layout;
pub mod camera;
pub mod by_distance;
pub mod streaming;
