pub mod block;
pub mod game;
pub mod laws;
pub mod tile;
