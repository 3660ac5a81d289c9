pub mod board;
pub mod game;
pub mod gen;
pub mod parse;
pub mod render;
