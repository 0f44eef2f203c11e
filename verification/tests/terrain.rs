use ashenveil::camera::pan_axes;
use ashenveil::layout::{chunk_in_range, chunk_tiles, surface_look, tile_pieces, PieceLook, SceneAsset, SlabMaterial, TilePiece};
use ashenveil::perm::{build_perm, lattice_hashes};
use ashenveil::scatter::{stone_rule_fits, should_place_stone, should_place_weed, tile_hash, STONE_SALT, WEED_SALT};
use ashenveil::tile::{TileType, STONE_MIN_DIST, WORLD_SEED};

#[test]
fn tile_hash_known_values() {
    assert_eq!(tile_hash(0, 0, 42), 12030492516465251977);
    assert_eq!(tile_hash(1, 2, 42), 8290160741290520699);
    assert_eq!(tile_hash(-3, 5, 7), 1955310699369855795);
}

#[test]
fn tile_hash_depends_on_each_argument() {
    let base = tile_hash(4, 9, 42);
    assert_ne!(base, tile_hash(5, 9, 42));
    assert_ne!(base, tile_hash(4, 10, 42));
    assert_ne!(base, tile_hash(4, 9, 43));
}

#[test]
fn stone_needs_land_and_a_peak_hash() {
    assert!(should_place_stone(-31, -4, TileType::Grass));
    assert!(should_place_stone(-60, 14, TileType::Dirt));
    assert!(should_place_stone(-60, 14, TileType::Snow));
    assert!(!should_place_stone(-60, 14, TileType::Water));
    assert!(!should_place_stone(-60, 14, TileType::DeepWater));
    assert!(!should_place_stone(-60, 14, TileType::Sand));
    assert!(!should_place_stone(0, 0, TileType::Grass));
}

#[test]
fn stone_candidate_beaten_by_neighbour_is_refused() {
    let seed = WORLD_SEED ^ STONE_SALT;
    let h = tile_hash(-20, 18, seed);
    assert!(h >= (u64::MAX / 16) * 15);
    let mut beaten = false;
    for dz in -STONE_MIN_DIST..=STONE_MIN_DIST {
        for dx in -STONE_MIN_DIST..=STONE_MIN_DIST {
            if (dx, dz) != (0, 0) && tile_hash(-20 + dx, 18 + dz, seed) >= h {
                beaten = true;
            }
        }
    }
    assert!(beaten);
    assert!(!should_place_stone(-20, 18, TileType::Grass));
}

#[test]
fn boulders_keep_their_distance() {
    // Adjacent candidates: only the higher hash keeps its boulder.
    assert!(!should_place_stone(-55, -44, TileType::Grass));
    assert!(should_place_stone(-54, -44, TileType::Grass));
    assert!(!should_place_stone(-31, -5, TileType::Grass));
    assert!(should_place_stone(-31, -4, TileType::Grass));
    let mut stones = Vec::new();
    for x in -60..=60 {
        for z in -60..=60 {
            if should_place_stone(x, z, TileType::Grass) {
                stones.push((x, z));
            }
        }
    }
    assert_eq!(stones.len(), 467);
    for &(x1, z1) in &stones {
        for &(x2, z2) in &stones {
            if (x1, z1) != (x2, z2) {
                assert!((x1 - x2).abs() > STONE_MIN_DIST || (z1 - z2).abs() > STONE_MIN_DIST);
            }
        }
    }
}

#[test]
fn stone_rule_range_at_the_border() {
    assert!(stone_rule_fits(0, 0, TileType::Grass));
    // Water, deep water and sand are answered without neighbour arithmetic.
    for t in [TileType::Water, TileType::DeepWater, TileType::Sand] {
        assert!(stone_rule_fits(i32::MAX, 0, t));
        assert!(stone_rule_fits(i32::MIN, i32::MAX, t));
        assert!(!should_place_stone(i32::MAX, 0, t));
        assert!(!should_place_stone(i32::MIN, i32::MAX, t));
    }
    // Land tiles whose hash is no candidate are answered too.
    let seed = WORLD_SEED ^ STONE_SALT;
    let mut z = 0;
    while tile_hash(i32::MAX, z, seed) >= (u64::MAX / 16) * 15 {
        z += 1;
    }
    assert!(stone_rule_fits(i32::MAX, z, TileType::Grass));
    assert!(!should_place_stone(i32::MAX, z, TileType::Grass));
    // A land candidate at the border would compare neighbours past i32.
    let mut z = 0;
    while tile_hash(i32::MAX, z, seed) < (u64::MAX / 16) * 15 {
        z += 1;
    }
    assert!(!stone_rule_fits(i32::MAX, z, TileType::Grass));
    assert!(stone_rule_fits(i32::MAX, z, TileType::Water));
    assert!(stone_rule_fits(i32::MAX - 2, z, TileType::Grass));
}

#[test]
fn border_water_tile_lays_out() {
    assert_eq!(
        tile_pieces(i32::MAX, i32::MIN, TileType::Water),
        vec![TilePiece::Surface(TileType::Water), TilePiece::Subsoil]
    );
}

#[test]
fn weed_only_on_grass_in_top_quarter() {
    assert!(tile_hash(0, 2, WORLD_SEED ^ WEED_SALT) >= (u64::MAX / 4) * 3);
    assert!(should_place_weed(0, 2, TileType::Grass));
    assert!(!should_place_weed(0, 2, TileType::Dirt));
    assert!(!should_place_weed(0, 2, TileType::Sand));
    assert!(!should_place_weed(0, 0, TileType::Grass));
}

#[test]
fn perm_table_known_prefix() {
    let p = build_perm(42);
    assert_eq!(&p[..16], &[253, 168, 148, 251, 19, 249, 66, 143, 94, 121, 139, 57, 131, 35, 105, 223]);
    assert_eq!(&p[250..256], &[250, 182, 152, 160, 71, 118]);
    let q = build_perm(0);
    assert_eq!(&q[..8], &[159, 246, 82, 153, 116, 223, 54, 124]);
}

#[test]
fn perm_table_is_doubled_permutation() {
    for seed in [0u64, 1, 42, u64::MAX] {
        let p = build_perm(seed);
        let mut seen = [false; 256];
        for i in 0..256 {
            assert!(!seen[p[i] as usize]);
            seen[p[i] as usize] = true;
            assert_eq!(p[i], p[i + 256]);
        }
    }
}

#[test]
fn lattice_hashes_known_values() {
    let p = build_perm(42);
    assert_eq!(lattice_hashes(0, 0, &p), (160, 71, 54, 218));
    assert_eq!(lattice_hashes(-1, -1, &p), (82, 0, 152, 160));
    assert_eq!(lattice_hashes(255, 3, &p), (17, 83, 253, 168));
}

#[test]
fn lattice_hashes_repeat_every_256_cells() {
    let p = build_perm(42);
    assert_eq!(lattice_hashes(511, 3, &p), lattice_hashes(255, 3, &p));
    assert_eq!(lattice_hashes(-257, -253, &p), lattice_hashes(255, 3, &p));
    assert_eq!(lattice_hashes(7, 300, &p), lattice_hashes(7, 44, &p));
}

#[test]
fn chunk_tiles_cover_the_chunk_row_by_row() {
    let tiles = chunk_tiles((1, -1));
    assert_eq!(tiles.len(), 256);
    assert_eq!(tiles[0], (16, -16));
    assert_eq!(tiles[1], (17, -16));
    assert_eq!(tiles[16], (16, -15));
    assert_eq!(tiles[255], (31, -1));
    for &(x, z) in &tiles {
        assert_eq!(x.div_euclid(16), 1);
        assert_eq!(z.div_euclid(16), -1);
    }
}

#[test]
fn chunk_tiles_at_the_coordinate_limits() {
    let lo = chunk_tiles((i32::MIN / 16, (i32::MAX - 15) / 16));
    assert_eq!(lo[0], (i32::MIN, i32::MAX - 15));
    assert_eq!(lo[255], (i32::MIN + 15, i32::MAX));
}

#[test]
fn tile_pieces_surface_then_subsoil_then_props() {
    assert_eq!(tile_pieces(0, 0, TileType::Grass), vec![TilePiece::Surface(TileType::Grass), TilePiece::Subsoil]);
    assert_eq!(
        tile_pieces(0, 2, TileType::Grass),
        vec![TilePiece::Surface(TileType::Grass), TilePiece::Subsoil, TilePiece::Weed]
    );
    assert_eq!(
        tile_pieces(-31, -4, TileType::Stone),
        vec![TilePiece::Surface(TileType::Stone), TilePiece::Subsoil, TilePiece::Boulder]
    );
    assert_eq!(tile_pieces(-31, -5, TileType::Stone), vec![TilePiece::Surface(TileType::Stone), TilePiece::Subsoil]);
    assert_eq!(
        tile_pieces(-60, 14, TileType::Grass),
        vec![TilePiece::Surface(TileType::Grass), TilePiece::Subsoil, TilePiece::Boulder, TilePiece::Weed]
    );
    assert_eq!(tile_pieces(-31, -5, TileType::Water), vec![TilePiece::Surface(TileType::Water), TilePiece::Subsoil]);
}

#[test]
fn surface_looks() {
    assert_eq!(surface_look(TileType::Grass), PieceLook::Scene(SceneAsset::Grass));
    assert_eq!(surface_look(TileType::Dirt), PieceLook::Scene(SceneAsset::Soil));
    assert_eq!(surface_look(TileType::Sand), PieceLook::Scene(SceneAsset::Sand));
    assert_eq!(surface_look(TileType::Stone), PieceLook::Scene(SceneAsset::Stone));
    assert_eq!(surface_look(TileType::DeepWater), PieceLook::Slab(SlabMaterial::DeepWater));
    assert_eq!(surface_look(TileType::Water), PieceLook::Slab(SlabMaterial::Water));
    assert_eq!(surface_look(TileType::Snow), PieceLook::Slab(SlabMaterial::Snow));
}

#[test]
fn piece_looks_markers_and_levels() {
    assert_eq!(TilePiece::Subsoil.look(), PieceLook::Scene(SceneAsset::Soil));
    assert_eq!(TilePiece::Boulder.look(), PieceLook::Scene(SceneAsset::Stone));
    assert_eq!(TilePiece::Weed.look(), PieceLook::Scene(SceneAsset::Weed));
    assert_eq!(TilePiece::Surface(TileType::Water).look(), PieceLook::Slab(SlabMaterial::Water));
    assert_eq!(TilePiece::Subsoil.marker(), TileType::Dirt);
    assert_eq!(TilePiece::Boulder.marker(), TileType::Stone);
    assert_eq!(TilePiece::Weed.marker(), TileType::Grass);
    assert_eq!(TilePiece::Surface(TileType::Sand).marker(), TileType::Sand);
    assert_eq!(TilePiece::Surface(TileType::Sand).level(), 0);
    assert_eq!(TilePiece::Subsoil.level(), -1);
    assert_eq!(TilePiece::Boulder.level(), 1);
    assert_eq!(TilePiece::Weed.level(), 1);
}

#[test]
fn pan_axes_directions() {
    assert_eq!(pan_axes(false, false, false, false), (0, 0));
    assert_eq!(pan_axes(true, false, false, false), (-1, -1));
    assert_eq!(pan_axes(false, true, false, false), (1, 1));
    assert_eq!(pan_axes(false, false, true, false), (-1, 1));
    assert_eq!(pan_axes(false, false, false, true), (1, -1));
    assert_eq!(pan_axes(true, false, true, false), (-2, 0));
    assert_eq!(pan_axes(true, true, false, true), (1, -1));
    assert_eq!(pan_axes(true, true, true, true), (0, 0));
}

#[test]
fn chunk_range_limits() {
    assert!(chunk_in_range((0, 0)));
    assert!(chunk_in_range((i32::MIN / 16, (i32::MAX - 15) / 16)));
    assert!(!chunk_in_range((i32::MIN / 16 - 1, 0)));
    assert!(!chunk_in_range((0, (i32::MAX - 15) / 16 + 1)));
    assert!(!chunk_in_range((i32::MAX, i32::MIN)));
}
