# minicraft

The core of a small voxel game, verified with Verus: block kinds, chunk
storage, world editing with torch-light and sky-light propagation, water
flow, terrain assembly, chunk streaming, meshing rules and the save format.

- `src/blocks.rs` – block kinds, their ids and properties.
- `src/noise.rs` – integer position hashes.
- `src/chunk.rs` – a 16×96×16 chunk, its cell layout and column heights.
- `src/world.rs` – the world: loaded chunks, block edits (with the
  recorded edit list), light flood fill and removal (which cells a removal
  clears, and that every raised light is accounted for by a source or a
  neighbour), the light a block edit leaves around the edited cell, chunk
  relighting, water flow, and the invariants the operations keep.
- `src/measure.rs` – sums over chunks used as termination measures.
- `src/gen.rs` – assembly of a generated chunk from surface data, cave
  mask and tree list.
- `src/mesh.rs` – snapshot of a chunk and its neighbours, and the faces to
  draw with their ambient-occlusion levels (cross blocks as two diagonal
  planes).
- `src/stream.rs` – which chunks to generate and re-mesh, nearest first.
- `src/spawn.rs` – spawn places for the player and animals.
- `src/storage.rs` – the text save format, with a proof that reading a
  written save gives it back.
- `src/wav.rs` – the WAV container around 16-bit PCM samples.

`app/` holds the game around the library: the window and render loop
(macroquad), the floating-point terrain noise, vertex building, textures,
sky, sound synthesis, player and animal physics, and save-file I/O.
