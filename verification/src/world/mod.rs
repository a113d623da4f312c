pub mod block;
pub mod packed;
pub mod section;
pub mod le;
pub mod light;
pub mod column_light;
pub mod chunks;
pub mod region;
pub mod light_engine;
pub mod decor;
pub mod persistence;
pub mod streaming;
