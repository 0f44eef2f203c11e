use vstd::prelude::*;

verus! {

/// Side length of a chunk, in tiles.
pub const CHUNK_SIZE: i32 = 16;

/// How many chunks around the camera's chunk, along each axis, stay loaded.
pub const VIEW_DIST: i32 = 4;

/// Seed of the whole world: of the height noise and of the scattered props.
pub const WORLD_SEED: u64 = 42;

/// Boulders are more than this many world tiles apart along at least one axis.
pub const STONE_MIN_DIST: i32 = 2;

/// The kind of ground a world tile shows.
#[derive(Debug, Clone, Copy, PartialEq, Eq, Hash, Structural)]
pub enum TileType {
    DeepWater,
    Water,
    Sand,
    Grass,
    Dirt,
    Stone,
    Snow,
}

/// The entity handle of the game engine, carried through the chunk bookkeeping.
#[verifier::external_type_specification]
#[verifier::external_body]
pub struct ExEntity(bevy::ecs::entity::Entity);

} // verus!
