# ashenveil

The rules of a streamed, isometric tile world, verified with Verus, and the
game that draws it.

- `src/` is the verified library: tile kinds and world constants (`tile`),
  the seeded tile hash and the boulders and weeds it scatters (`scatter`),
  the noise permutation table and its lattice lookups (`perm`), the tiles of
  a chunk and the pieces spawned per tile (`layout`), keyboard pan directions
  (`camera`), stable ordering by distance (`by_distance`) and the chunk
  streaming state machine (`streaming`).
- `app/` is the game around it: engine plugins and systems, the
  floating-point noise, heights and camera motion, asset loading and entity
  spawning. Each frame it asks `ChunkManager::update_chunks` what to despawn
  and spawn, performs that, and records the spawned entities with
  `ChunkManager::insert_loaded`.
- `tests/` runs the library on concrete values.
