//! Verified core of a voxel sandbox engine: palette-compressed block sections,
//! nibble-packed light storage, flood-fill lighting, region persistence
//! format, greedy meshing and the small game-side state machines.

pub mod bench;
pub mod world;
pub mod render;
pub mod game;
pub mod mesh;
