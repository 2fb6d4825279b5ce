pub mod cells;
pub mod index;
pub mod piece;
pub mod field;
pub mod solver;
pub mod text;
pub mod render;
