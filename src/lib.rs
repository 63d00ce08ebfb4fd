pub mod grid;
pub mod laws;
pub mod path;
pub mod pos;
pub mod score;
