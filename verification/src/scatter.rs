//! Seeded per-tile hashing, and the props it scatters over the land.
use vstd::prelude::*;
use crate::tile::{TileType, WORLD_SEED, STONE_MIN_DIST};

verus! {

/// Seed mix for the boulder hash.
pub const STONE_SALT: u64 = 0xDEAD_BEEF;

/// Seed mix for the weed hash.
pub const WEED_SALT: u64 = 0xBEEF_CAFE;

pub open spec fn wrap_add(x: u64, y: u64) -> u64 {
    vstd::wrapping::u64_specs::wrapping_add(x, y)
}

pub open spec fn wrap_mul(x: u64, y: u64) -> u64 {
    vstd::wrapping::u64_specs::wrapping_mul(x, y)
}

/// The value of the tile hash: the seed and the two coordinates, each taken
/// as a 64-bit two's-complement word, mixed by two multiply steps and then
/// finalised with three xor-shift/multiply rounds, all modulo 2^64.
pub open spec fn spec_tile_hash(wx: i32, wz: i32, seed: u64) -> u64 {
    let h0 = wrap_mul(wrap_add(wrap_mul(wrap_add(seed, wx as u64), 0x9e3779b97f4a7c15), wz as u64), 0x6c62272e07bb0142);
    let h1 = h0 ^ (h0 >> 30u64);
    let h2 = wrap_mul(h1, 0xbf58476d1ce4e5b9);
    let h3 = h2 ^ (h2 >> 27u64);
    let h4 = wrap_mul(h3, 0x94d049bb133111eb);
    h4 ^ (h4 >> 31u64)
}

/// Cheap, seedable hash for a world tile coordinate.
pub fn tile_hash(wx: i32, wz: i32, seed: u64) -> (h: u64)
    ensures
        h == spec_tile_hash(wx, wz, seed),
{
    let mut h = seed.wrapping_add(wx as u64).wrapping_mul(0x9e3779b97f4a7c15).wrapping_add(
        wz as u64,
    ).wrapping_mul(0x6c62272e07bb0142);
    h ^= h >> 30;
    h = h.wrapping_mul(0xbf58476d1ce4e5b9);
    h ^= h >> 27;
    h = h.wrapping_mul(0x94d049bb133111eb);
    h ^= h >> 31;
    h
}

/// Hash value at and above which a tile is a boulder candidate (the top sixteenth).
pub open spec fn stone_candidate_floor() -> u64 {
    ((u64::MAX / 16) * 15) as u64
}

/// Hash value at and above which a grass tile carries a weed (the top quarter).
pub open spec fn weed_floor() -> u64 {
    ((u64::MAX / 4) * 3) as u64
}

/// Ground on which props may stand: all but water, deep water and sand.
pub open spec fn is_land(t: TileType) -> bool {
    !(t is Water || t is DeepWater || t is Sand)
}

/// The boulder hash of tile `(wx, wz)`.
pub open spec fn stone_hash(wx: int, wz: int) -> u64 {
    spec_tile_hash(wx as i32, wz as i32, WORLD_SEED ^ STONE_SALT)
}

/// The tiles within `STONE_MIN_DIST` of `(wx, wz)`, along both axes, have
/// coordinates that fit in an `i32`.
pub open spec fn stone_neighbourhood_in_range(wx: i32, wz: i32) -> bool {
    &&& i32::MIN + STONE_MIN_DIST <= wx <= i32::MAX - STONE_MIN_DIST
    &&& i32::MIN + STONE_MIN_DIST <= wz <= i32::MAX - STONE_MIN_DIST
}

/// The boulder hash of `(wx, wz)` is strictly above that of every other tile
/// within `STONE_MIN_DIST` along both axes.
pub open spec fn is_stone_peak(wx: i32, wz: i32) -> bool {
    forall|dx: int, dz: int|
        -STONE_MIN_DIST <= dx <= STONE_MIN_DIST && -STONE_MIN_DIST <= dz <= STONE_MIN_DIST && !(dx == 0 && dz == 0)
            ==> #[trigger] stone_hash(wx + dx, wz + dz) < stone_hash(wx as int, wz as int)
}

/// Whether a boulder stands on the tile: land, a boulder hash in the top
/// sixteenth, and the strict maximum of its neighbourhood.
pub open spec fn spec_places_stone(wx: i32, wz: i32, tile_type: TileType) -> bool {
    &&& is_land(tile_type)
    &&& stone_hash(wx as int, wz as int) >= stone_candidate_floor()
    &&& is_stone_peak(wx, wz)
}

/// Whether a weed grows on the tile.
pub open spec fn spec_places_weed(wx: i32, wz: i32, tile_type: TileType) -> bool {
    &&& tile_type is Grass
    &&& spec_tile_hash(wx, wz, WORLD_SEED ^ WEED_SALT) >= weed_floor()
}

/// The boulder rule's arithmetic on tile `(wx, wz)` of type `tile_type`
/// stays within `i32`: neighbours are compared, and their coordinates
/// computed, only for land tiles whose hash is a candidate.
pub open spec fn stone_rule_in_range(wx: i32, wz: i32, tile_type: TileType) -> bool {
    is_land(tile_type) && stone_hash(wx as int, wz as int) >= stone_candidate_floor()
        ==> stone_neighbourhood_in_range(wx, wz)
}

/// Whether [`should_place_stone`] may be called on tile `(wx, wz)` of type
/// `tile_type` without its neighbour coordinates leaving `i32`.
pub fn stone_rule_fits(wx: i32, wz: i32, tile_type: TileType) -> (ok: bool)
    ensures
        ok == stone_rule_in_range(wx, wz, tile_type),
{
    match tile_type {
        TileType::Water | TileType::DeepWater | TileType::Sand => return true,
        _ => {},
    }
    if tile_hash(wx, wz, WORLD_SEED ^ STONE_SALT) < (u64::MAX / 16) * 15 {
        return true;
    }
    i32::MIN + STONE_MIN_DIST <= wx && wx <= i32::MAX - STONE_MIN_DIST && i32::MIN + STONE_MIN_DIST <= wz && wz
        <= i32::MAX - STONE_MIN_DIST
}

/// Decides whether a stone boulder stands on the tile `(wx, wz)` of the given
/// type: boulders stand on land, on the top sixteenth of tile hashes, and only
/// where no other tile within `STONE_MIN_DIST` has an equal or higher hash, so
/// that no two boulders are that close.
pub fn should_place_stone(wx: i32, wz: i32, tile_type: TileType) -> (placed: bool)
    requires
        stone_rule_in_range(wx, wz, tile_type),
    ensures
        placed == spec_places_stone(wx, wz, tile_type),
        placed ==> is_land(tile_type),
{
    // Stones only make sense on land above the water line.
    match tile_type {
        TileType::Water | TileType::DeepWater | TileType::Sand => return false,
        _ => {},
    }
    let my_hash = tile_hash(wx, wz, WORLD_SEED ^ STONE_SALT);
    // Only the top sixteenth of tiles are even candidates.
    if my_hash < (u64::MAX / 16) * 15 {
        return false;
    }
    // Must be the strict local maximum within STONE_MIN_DIST.
    let mut dz: i32 = -STONE_MIN_DIST;
    while dz <= STONE_MIN_DIST
        invariant
            -STONE_MIN_DIST <= dz <= STONE_MIN_DIST + 1,
            stone_neighbourhood_in_range(wx, wz),
            my_hash == stone_hash(wx as int, wz as int),
            forall|ex: int, ez: int|
                -STONE_MIN_DIST <= ex <= STONE_MIN_DIST && -STONE_MIN_DIST <= ez < dz && !(ex == 0 && ez == 0)
                    ==> #[trigger] stone_hash(wx + ex, wz + ez) < my_hash,
        decreases STONE_MIN_DIST + 1 - dz,
    {
        let mut dx: i32 = -STONE_MIN_DIST;
        while dx <= STONE_MIN_DIST
            invariant
                -STONE_MIN_DIST <= dz <= STONE_MIN_DIST,
                -STONE_MIN_DIST <= dx <= STONE_MIN_DIST + 1,
                stone_neighbourhood_in_range(wx, wz),
                my_hash == stone_hash(wx as int, wz as int),
                forall|ex: int, ez: int|
                    -STONE_MIN_DIST <= ex <= STONE_MIN_DIST && -STONE_MIN_DIST <= ez < dz && !(ex == 0 && ez == 0)
                        ==> #[trigger] stone_hash(wx + ex, wz + ez) < my_hash,
                forall|ex: int|
                    -STONE_MIN_DIST <= ex < dx && !(ex == 0 && dz == 0) ==> #[trigger] stone_hash(wx + ex, wz + dz)
                        < my_hash,
            decreases STONE_MIN_DIST + 1 - dx,
        {
            if dx == 0 && dz == 0 {
                dx = dx + 1;
                continue;
            }
            let neighbor_hash = tile_hash(wx + dx, wz + dz, WORLD_SEED ^ STONE_SALT);
            if neighbor_hash >= my_hash {
                assert(stone_hash(wx + dx, wz + dz) >= my_hash);
                return false;
            }
            dx = dx + 1;
        }
        dz = dz + 1;
    }
    true
}

/// No two boulders stand within `STONE_MIN_DIST` of each other along both axes.
pub proof fn lemma_boulders_keep_apart(
    wx1: i32,
    wz1: i32,
    t1: TileType,
    wx2: i32,
    wz2: i32,
    t2: TileType,
)
    requires
        (wx1, wz1) != (wx2, wz2),
        -STONE_MIN_DIST <= wx2 - wx1 <= STONE_MIN_DIST,
        -STONE_MIN_DIST <= wz2 - wz1 <= STONE_MIN_DIST,
    ensures
        !(spec_places_stone(wx1, wz1, t1) && spec_places_stone(wx2, wz2, t2)),
{
    if spec_places_stone(wx1, wz1, t1) && spec_places_stone(wx2, wz2, t2) {
        assert(stone_hash(wx1 + (wx2 - wx1), wz1 + (wz2 - wz1)) < stone_hash(wx1 as int, wz1 as int));
        assert(stone_hash(wx2 + (wx1 - wx2), wz2 + (wz1 - wz2)) < stone_hash(wx2 as int, wz2 as int));
    }
}

/// Decides whether a weed grows on the tile `(wx, wz)` of the given type.
pub fn should_place_weed(wx: i32, wz: i32, tile_type: TileType) -> (placed: bool)
    ensures
        placed == spec_places_weed(wx, wz, tile_type),
        placed ==> tile_type == TileType::Grass,
{
    if tile_type != TileType::Grass {
        return false;
    }
    let my_hash = tile_hash(wx, wz, WORLD_SEED ^ WEED_SALT);
    if my_hash < (u64::MAX / 4) * 3 {
        return false;
    }
    true
}

/// A boulder stands exactly on a land tile (not water, deep water or sand)
/// whose boulder hash is in the top sixteenth and exceeds the hash of every
/// other tile within `STONE_MIN_DIST` along both axes.
pub proof fn lemma_boulder_rule(wx: i32, wz: i32, t: TileType)
    requires
        stone_neighbourhood_in_range(wx, wz),
    ensures
        spec_places_stone(wx, wz, t) <==> {
            &&& t != TileType::Water && t != TileType::DeepWater && t != TileType::Sand
            &&& spec_tile_hash(wx, wz, 42u64 ^ 0xDEAD_BEEFu64) >= (u64::MAX / 16) * 15
            &&& forall|dx: i32, dz: i32|
                -2 <= dx <= 2 && -2 <= dz <= 2 && !(dx == 0 && dz == 0) ==> #[trigger] spec_tile_hash(
                    (wx + dx) as i32,
                    (wz + dz) as i32,
                    42u64 ^ 0xDEAD_BEEFu64,
                ) < spec_tile_hash(wx, wz, 42u64 ^ 0xDEAD_BEEFu64)
        },
{
    let h = spec_tile_hash(wx, wz, 42u64 ^ 0xDEAD_BEEFu64);
    if spec_places_stone(wx, wz, t) {
        assert forall|dx: i32, dz: i32|
            -2 <= dx <= 2 && -2 <= dz <= 2 && !(dx == 0 && dz == 0) implies #[trigger] spec_tile_hash(
                (wx + dx) as i32,
                (wz + dz) as i32,
                42u64 ^ 0xDEAD_BEEFu64,
            ) < h by {
            assert(stone_hash(wx + dx as int, wz + dz as int) < stone_hash(wx as int, wz as int));
        }
    }
    if t != TileType::Water && t != TileType::DeepWater && t != TileType::Sand && h >= (u64::MAX / 16) * 15 && (
    forall|dx: i32, dz: i32|
        -2 <= dx <= 2 && -2 <= dz <= 2 && !(dx == 0 && dz == 0) ==> #[trigger] spec_tile_hash(
            (wx + dx) as i32,
            (wz + dz) as i32,
            42u64 ^ 0xDEAD_BEEFu64,
        ) < h) {
        assert forall|dx: int, dz: int|
            -STONE_MIN_DIST <= dx <= STONE_MIN_DIST && -STONE_MIN_DIST <= dz <= STONE_MIN_DIST && !(dx == 0 && dz
                == 0) implies #[trigger] stone_hash(wx + dx, wz + dz) < stone_hash(wx as int, wz as int) by {
            let ex = dx as i32;
            let ez = dz as i32;
            assert(spec_tile_hash((wx + ex) as i32, (wz + ez) as i32, 42u64 ^ 0xDEAD_BEEFu64) < h);
        }
    }
}

/// A weed grows exactly on a grass tile whose weed hash is in the top quarter.
pub proof fn lemma_weed_rule(wx: i32, wz: i32, t: TileType)
    ensures
        spec_places_weed(wx, wz, t) <==> (t == TileType::Grass && spec_tile_hash(wx, wz, 42u64 ^ 0xBEEF_CAFEu64)
            >= (u64::MAX / 4) * 3),
{
}

} // verus!
