pub mod arena;
pub mod shadow;
pub mod targets;
pub mod visibility;
pub mod material;
pub mod hot_reload;
pub mod timestamps;
