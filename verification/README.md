# git_craft

The engine core of a voxel sandbox, written in Verus: every function in
`src/` carries a `requires`/`ensures` contract that Verus proves.

- `src/world/` — palette-packed sections, light volumes and the column light
  pass, the column map with structure writes and dirty tracking, the
  incremental flood-fill lighting engine, region and column byte formats,
  tree and cactus shapes, and the per-frame world decisions (taking columns
  in, requesting columns, scheduling meshes, player edits).
- `src/mesh/` — the padded section, the greedy mesher with ambient occlusion
  and per-face light, quad packing, and mesh neighbourhoods.
- `src/render/` — cave-culling connectivity and the visibility walk, the
  vertex arena, render-target and bloom sizes, shadow cascade cadence, the
  material mip chain, GPU timestamp spans, and shader hot-reload decisions
  (WGSL validation through naga).
- `src/game/` — the hotbar, key and button edges, and movement modes.
- `src/bench.rs` — `--bench` argument parsing and the benchmark state machine.
- `app/` — the program around the library: region files on disk, the
  persistence thread, shader file polling, benchmark statistics and the
  floating-point texel generation.
- `tests/` — ordinary Rust tests of the library.
