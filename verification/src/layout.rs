//! Which tiles make up a chunk, and which pieces stand on each tile.
use vstd::prelude::*;
use crate::tile::{TileType, CHUNK_SIZE};
use crate::scatter::{stone_rule_in_range, should_place_stone, should_place_weed, spec_places_stone, spec_places_weed};

verus! {

/// The world coordinates of the first tile of chunk coordinate `c` fit in an
/// `i32`, and so do those of its last tile.
pub open spec fn chunk_origin_in_range(c: i32) -> bool {
    &&& i32::MIN <= c * CHUNK_SIZE
    &&& c * CHUNK_SIZE + (CHUNK_SIZE - 1) <= i32::MAX
}

/// The tiles of chunk `chunk`, row by row: entry `k` is the tile at column
/// `k % 16` and row `k / 16` of the chunk.
pub open spec fn spec_chunk_tiles(chunk: (i32, i32)) -> Seq<(i32, i32)> {
    Seq::new(
        (CHUNK_SIZE * CHUNK_SIZE) as nat,
        |k: int| ((chunk.0 * CHUNK_SIZE + k % (CHUNK_SIZE as int)) as i32, (chunk.1 * CHUNK_SIZE + k / (CHUNK_SIZE as int)) as i32),
    )
}

/// The chunk that a tile belongs to: its coordinates divided by the chunk
/// size, rounded down.
pub open spec fn tile_chunk(t: (i32, i32)) -> (int, int) {
    (t.0 as int / CHUNK_SIZE as int, t.1 as int / CHUNK_SIZE as int)
}

/// Whether the world coordinates of every tile of `chunk` fit in an `i32`,
/// that is whether [`chunk_tiles`] may be called on it.
pub fn chunk_in_range(chunk: (i32, i32)) -> (ok: bool)
    ensures
        ok == (chunk_origin_in_range(chunk.0) && chunk_origin_in_range(chunk.1)),
{
    let lo: i32 = i32::MIN / CHUNK_SIZE;
    let hi: i32 = (i32::MAX - (CHUNK_SIZE - 1)) / CHUNK_SIZE;
    lo <= chunk.0 && chunk.0 <= hi && lo <= chunk.1 && chunk.1 <= hi
}

/// Lists the world tiles of a chunk, in the order in which they are spawned.
pub fn chunk_tiles(chunk: (i32, i32)) -> (tiles: Vec<(i32, i32)>)
    requires
        chunk_origin_in_range(chunk.0),
        chunk_origin_in_range(chunk.1),
    ensures
        tiles@ == spec_chunk_tiles(chunk),
{
    let (chunk_x, chunk_z) = chunk;
    let origin_x = chunk_x * CHUNK_SIZE;
    let origin_z = chunk_z * CHUNK_SIZE;
    let mut tiles: Vec<(i32, i32)> = Vec::new();
    let mut lz: i32 = 0;
    while lz < CHUNK_SIZE
        invariant
            0 <= lz <= CHUNK_SIZE,
            origin_x == chunk_x * CHUNK_SIZE,
            origin_z == chunk_z * CHUNK_SIZE,
            chunk_origin_in_range(chunk_x),
            chunk_origin_in_range(chunk_z),
            chunk == (chunk_x, chunk_z),
            tiles@ == spec_chunk_tiles(chunk).take(lz * CHUNK_SIZE),
        decreases CHUNK_SIZE - lz,
    {
        let mut lx: i32 = 0;
        while lx < CHUNK_SIZE
            invariant
                0 <= lz < CHUNK_SIZE,
                0 <= lx <= CHUNK_SIZE,
                origin_x == chunk_x * CHUNK_SIZE,
                origin_z == chunk_z * CHUNK_SIZE,
                chunk_origin_in_range(chunk_x),
                chunk_origin_in_range(chunk_z),
                chunk == (chunk_x, chunk_z),
                tiles@ == spec_chunk_tiles(chunk).take(lz * CHUNK_SIZE + lx),
            decreases CHUNK_SIZE - lx,
        {
            let ghost k: int = lz * CHUNK_SIZE + lx;
            proof {
                vstd::arithmetic::div_mod::lemma_fundamental_div_mod_converse(
                    k,
                    CHUNK_SIZE as int,
                    lz as int,
                    lx as int,
                );
            }
            tiles.push((origin_x + lx, origin_z + lz));
            assert(tiles@ =~= spec_chunk_tiles(chunk).take(k + 1));
            lx = lx + 1;
        }
        lz = lz + 1;
    }
    assert(tiles@ =~= spec_chunk_tiles(chunk));
    tiles
}

/// Every tile belongs to exactly one chunk: a tile is among the tiles of a
/// chunk exactly when that chunk is the tile's coordinates divided by the
/// chunk size, rounded down.
pub proof fn lemma_chunk_tiles_partition(chunk: (i32, i32), t: (i32, i32))
    requires
        chunk_origin_in_range(chunk.0),
        chunk_origin_in_range(chunk.1),
    ensures
        spec_chunk_tiles(chunk).contains(t) <==> tile_chunk(t) == (chunk.0 as int, chunk.1 as int),
{
    let s = spec_chunk_tiles(chunk);
    if s.contains(t) {
        let k = choose|k: int| 0 <= k < s.len() && s[k] == t;
        vstd::arithmetic::div_mod::lemma_fundamental_div_mod(k, CHUNK_SIZE as int);
        assert(0 <= k % (CHUNK_SIZE as int) < CHUNK_SIZE);
        assert(0 <= k / (CHUNK_SIZE as int) < CHUNK_SIZE);
        vstd::arithmetic::div_mod::lemma_fundamental_div_mod_converse(
            t.0 as int,
            CHUNK_SIZE as int,
            chunk.0 as int,
            k % (CHUNK_SIZE as int),
        );
        vstd::arithmetic::div_mod::lemma_fundamental_div_mod_converse(
            t.1 as int,
            CHUNK_SIZE as int,
            chunk.1 as int,
            k / (CHUNK_SIZE as int),
        );
    }
    if tile_chunk(t) == (chunk.0 as int, chunk.1 as int) {
        vstd::arithmetic::div_mod::lemma_fundamental_div_mod(t.0 as int, CHUNK_SIZE as int);
        vstd::arithmetic::div_mod::lemma_fundamental_div_mod(t.1 as int, CHUNK_SIZE as int);
        let lx = t.0 as int % CHUNK_SIZE as int;
        let lz = t.1 as int % CHUNK_SIZE as int;
        let k = lz * CHUNK_SIZE + lx;
        vstd::arithmetic::div_mod::lemma_fundamental_div_mod_converse(k, CHUNK_SIZE as int, lz, lx);
        assert(s[k] == t);
    }
}

/// A 3D scene asset placed on a tile.
#[derive(Debug, Clone, Copy, PartialEq, Eq, Structural)]
pub enum SceneAsset {
    Grass,
    Soil,
    Sand,
    Stone,
    Weed,
}

/// The material of a flat slab placed on a tile.
#[derive(Debug, Clone, Copy, PartialEq, Eq, Structural)]
pub enum SlabMaterial {
    DeepWater,
    Water,
    Snow,
}

/// How a piece is drawn: as a scene, or as a flat slab of some material.
#[derive(Debug, Clone, Copy, PartialEq, Eq, Structural)]
pub enum PieceLook {
    Scene(SceneAsset),
    Slab(SlabMaterial),
}

/// One entity spawned for a tile.
#[derive(Debug, Clone, Copy, PartialEq, Eq, Structural)]
pub enum TilePiece {
    /// The visible surface, of the tile's own type.
    Surface(TileType),
    /// The dirt layer one unit below the surface.
    Subsoil,
    /// A stone boulder one unit above the surface.
    Boulder,
    /// A weed one unit above the surface.
    Weed,
}

/// How the surface of a tile of type `t` is drawn.
pub open spec fn spec_surface_look(t: TileType) -> PieceLook {
    match t {
        TileType::Grass => PieceLook::Scene(SceneAsset::Grass),
        TileType::Dirt => PieceLook::Scene(SceneAsset::Soil),
        TileType::Sand => PieceLook::Scene(SceneAsset::Sand),
        TileType::Stone => PieceLook::Scene(SceneAsset::Stone),
        TileType::DeepWater => PieceLook::Slab(SlabMaterial::DeepWater),
        TileType::Water => PieceLook::Slab(SlabMaterial::Water),
        TileType::Snow => PieceLook::Slab(SlabMaterial::Snow),
    }
}

/// Picks how the surface of a tile of type `t` is drawn: grass, dirt, sand
/// and stone by their scenes, water, deep water and snow as flat slabs.
pub fn surface_look(t: TileType) -> (look: PieceLook)
    ensures
        look == spec_surface_look(t),
{
    match t {
        TileType::Grass => PieceLook::Scene(SceneAsset::Grass),
        TileType::Dirt => PieceLook::Scene(SceneAsset::Soil),
        TileType::Sand => PieceLook::Scene(SceneAsset::Sand),
        TileType::Stone => PieceLook::Scene(SceneAsset::Stone),
        TileType::DeepWater => PieceLook::Slab(SlabMaterial::DeepWater),
        TileType::Water => PieceLook::Slab(SlabMaterial::Water),
        TileType::Snow => PieceLook::Slab(SlabMaterial::Snow),
    }
}

impl TilePiece {
    pub open spec fn spec_look(self) -> PieceLook {
        match self {
            TilePiece::Surface(t) => spec_surface_look(t),
            TilePiece::Subsoil => PieceLook::Scene(SceneAsset::Soil),
            TilePiece::Boulder => PieceLook::Scene(SceneAsset::Stone),
            TilePiece::Weed => PieceLook::Scene(SceneAsset::Weed),
        }
    }

    pub open spec fn spec_marker(self) -> TileType {
        match self {
            TilePiece::Surface(t) => t,
            TilePiece::Subsoil => TileType::Dirt,
            TilePiece::Boulder => TileType::Stone,
            TilePiece::Weed => TileType::Grass,
        }
    }

    pub open spec fn spec_level(self) -> i32 {
        match self {
            TilePiece::Surface(_) => 0,
            TilePiece::Subsoil => -1i32,
            TilePiece::Boulder => 1,
            TilePiece::Weed => 1,
        }
    }

    /// How the piece is drawn.
    pub fn look(&self) -> (look: PieceLook)
        ensures
            look == self.spec_look(),
    {
        match self {
            TilePiece::Surface(t) => surface_look(*t),
            TilePiece::Subsoil => PieceLook::Scene(SceneAsset::Soil),
            TilePiece::Boulder => PieceLook::Scene(SceneAsset::Stone),
            TilePiece::Weed => PieceLook::Scene(SceneAsset::Weed),
        }
    }

    /// The tile type recorded on the piece's entity.
    pub fn marker(&self) -> (t: TileType)
        ensures
            t == self.spec_marker(),
    {
        match self {
            TilePiece::Surface(t) => *t,
            TilePiece::Subsoil => TileType::Dirt,
            TilePiece::Boulder => TileType::Stone,
            TilePiece::Weed => TileType::Grass,
        }
    }

    /// Height of the piece relative to the tile's surface, in whole units.
    pub fn level(&self) -> (level: i32)
        ensures
            level == self.spec_level(),
    {
        match self {
            TilePiece::Surface(_) => 0,
            TilePiece::Subsoil => -1i32,
            TilePiece::Boulder => 1,
            TilePiece::Weed => 1,
        }
    }
}

/// The pieces of the tile `(wx, wz)` of type `tile_type`, in spawn order:
/// its surface, the subsoil below it, then a boulder and a weed where they grow.
pub open spec fn spec_tile_pieces(wx: i32, wz: i32, tile_type: TileType) -> Seq<TilePiece> {
    seq![TilePiece::Surface(tile_type), TilePiece::Subsoil]
        + (if spec_places_stone(wx, wz, tile_type) { seq![TilePiece::Boulder] } else { Seq::empty() })
        + (if spec_places_weed(wx, wz, tile_type) { seq![TilePiece::Weed] } else { Seq::empty() })
}

/// Decides which entities to spawn for one tile.
pub fn tile_pieces(wx: i32, wz: i32, tile_type: TileType) -> (pieces: Vec<TilePiece>)
    requires
        stone_rule_in_range(wx, wz, tile_type),
    ensures
        pieces@ == spec_tile_pieces(wx, wz, tile_type),
        2 <= pieces.len() <= 4,
        pieces@[0] == TilePiece::Surface(tile_type),
        pieces@[1] == TilePiece::Subsoil,
{
    let mut pieces: Vec<TilePiece> = Vec::new();
    pieces.push(TilePiece::Surface(tile_type));
    pieces.push(TilePiece::Subsoil);
    if should_place_stone(wx, wz, tile_type) {
        pieces.push(TilePiece::Boulder);
    }
    if should_place_weed(wx, wz, tile_type) {
        pieces.push(TilePiece::Weed);
    }
    assert(pieces@ =~= spec_tile_pieces(wx, wz, tile_type));
    pieces
}

/// How pieces are drawn and tagged: a surface piece is drawn as its tile
/// type's surface and tagged with that type; the subsoil is drawn and tagged as
/// a dirt surface and a boulder as a stone surface; a weed has its own scene and
/// is tagged as grass; land surfaces are scenes and the others slabs; and no
/// two tile types share a surface look.
pub proof fn lemma_piece_looks(t: TileType, u: TileType)
    ensures
        TilePiece::Surface(t).spec_look() == spec_surface_look(t),
        TilePiece::Surface(t).spec_marker() == t,
        TilePiece::Surface(t).spec_level() == 0,
        TilePiece::Subsoil.spec_look() == TilePiece::Surface(TileType::Dirt).spec_look(),
        TilePiece::Subsoil.spec_marker() == TileType::Dirt,
        TilePiece::Subsoil.spec_level() == -1,
        TilePiece::Boulder.spec_look() == TilePiece::Surface(TileType::Stone).spec_look(),
        TilePiece::Boulder.spec_marker() == TileType::Stone,
        TilePiece::Boulder.spec_level() == 1,
        TilePiece::Weed.spec_look() == PieceLook::Scene(SceneAsset::Weed),
        TilePiece::Weed.spec_marker() == TileType::Grass,
        TilePiece::Weed.spec_level() == 1,
        spec_surface_look(t) is Slab <==> (t is Water || t is DeepWater || t is Snow),
        spec_surface_look(t) != PieceLook::Scene(SceneAsset::Weed),
        t != u ==> spec_surface_look(t) != spec_surface_look(u),
{
}

/// The tiles of a chunk are listed row by row from its lowest corner: each
/// next tile is one further along x, and after the last tile of a row comes the
/// first tile of the next row.
pub proof fn lemma_chunk_tiles_row_order(chunk: (i32, i32))
    requires
        chunk_origin_in_range(chunk.0),
        chunk_origin_in_range(chunk.1),
    ensures
        spec_chunk_tiles(chunk).len() == CHUNK_SIZE * CHUNK_SIZE,
        spec_chunk_tiles(chunk)[0].0 == chunk.0 * CHUNK_SIZE,
        spec_chunk_tiles(chunk)[0].1 == chunk.1 * CHUNK_SIZE,
        forall|k: int|
            0 <= k < spec_chunk_tiles(chunk).len() - 1 ==> {
                let a = #[trigger] spec_chunk_tiles(chunk)[k];
                let b = spec_chunk_tiles(chunk)[k + 1];
                if a.0 < chunk.0 * CHUNK_SIZE + CHUNK_SIZE - 1 {
                    b.0 == a.0 + 1 && b.1 == a.1
                } else {
                    b.0 == chunk.0 * CHUNK_SIZE && b.1 == a.1 + 1
                }
            },
{
    let t = spec_chunk_tiles(chunk);
    assert(0int % (CHUNK_SIZE as int) == 0 && 0int / (CHUNK_SIZE as int) == 0);
    assert forall|k: int|
        0 <= k < t.len() - 1 implies {
            let a = #[trigger] t[k];
            let b = t[k + 1];
            if a.0 < chunk.0 * CHUNK_SIZE + CHUNK_SIZE - 1 {
                b.0 == a.0 + 1 && b.1 == a.1
            } else {
                b.0 == chunk.0 * CHUNK_SIZE && b.1 == a.1 + 1
            }
        } by {
        vstd::arithmetic::div_mod::lemma_fundamental_div_mod(k, 16);
        let q = k / 16;
        let r = k % 16;
        assert(0 <= r < 16);
        assert(0 <= q < 16) by {
            vstd::arithmetic::div_mod::lemma_div_pos_is_pos(k, 16);
            vstd::arithmetic::div_mod::lemma_div_is_ordered(k, 255, 16);
            vstd::arithmetic::div_mod::lemma_fundamental_div_mod_converse(255, 16, 15, 15);
        }
        if r < 15 {
            vstd::arithmetic::div_mod::lemma_fundamental_div_mod_converse(k + 1, 16, q, r + 1);
        } else {
            vstd::arithmetic::div_mod::lemma_fundamental_div_mod_converse(k + 1, 16, q + 1, 0);
        }
    }
}

/// A tile always gets its surface and then the subsoil; a boulder follows
/// exactly when one stands on the tile, and a weed comes last exactly when one
/// grows there.
pub proof fn lemma_tile_pieces_shape(wx: i32, wz: i32, t: TileType)
    ensures
        ({
            let p = spec_tile_pieces(wx, wz, t);
            let ns: int = if spec_places_stone(wx, wz, t) { 1 } else { 0 };
            let nw: int = if spec_places_weed(wx, wz, t) { 1 } else { 0 };
            &&& p.len() == 2 + ns + nw
            &&& p[0] == TilePiece::Surface(t)
            &&& p[1] == TilePiece::Subsoil
            &&& spec_places_stone(wx, wz, t) ==> p[2] == TilePiece::Boulder
            &&& spec_places_weed(wx, wz, t) ==> p[p.len() - 1] == TilePiece::Weed
            &&& p.contains(TilePiece::Boulder) <==> spec_places_stone(wx, wz, t)
            &&& p.contains(TilePiece::Weed) <==> spec_places_weed(wx, wz, t)
        }),
{
    let p = spec_tile_pieces(wx, wz, t);
    if p.contains(TilePiece::Boulder) {
        let k = choose|k: int| 0 <= k < p.len() && p[k] == TilePiece::Boulder;
    }
    if p.contains(TilePiece::Weed) {
        let k = choose|k: int| 0 <= k < p.len() && p[k] == TilePiece::Weed;
    }
    if spec_places_stone(wx, wz, t) {
        assert(p[2] == TilePiece::Boulder);
    }
    if spec_places_weed(wx, wz, t) {
        assert(p[p.len() - 1] == TilePiece::Weed);
    }
}

/// Land surfaces are drawn with the scene named after their tile type (the
/// soil scene for dirt), and water, deep water and snow as slabs of their own
/// material.
pub proof fn lemma_surface_looks_by_name()
    ensures
        spec_surface_look(TileType::Grass) == PieceLook::Scene(SceneAsset::Grass),
        spec_surface_look(TileType::Dirt) == PieceLook::Scene(SceneAsset::Soil),
        spec_surface_look(TileType::Sand) == PieceLook::Scene(SceneAsset::Sand),
        spec_surface_look(TileType::Stone) == PieceLook::Scene(SceneAsset::Stone),
        spec_surface_look(TileType::DeepWater) == PieceLook::Slab(SlabMaterial::DeepWater),
        spec_surface_look(TileType::Water) == PieceLook::Slab(SlabMaterial::Water),
        spec_surface_look(TileType::Snow) == PieceLook::Slab(SlabMaterial::Snow),
{
}

} // verus!
