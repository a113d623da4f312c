pub mod hotbar;
pub mod input;
pub mod player;
