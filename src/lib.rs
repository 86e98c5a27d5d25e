//! A small Breakout board: level files, entity identity and texture binding,
//! and paddle steering from held keys.
pub mod text;
pub mod levels;
pub mod entity;
pub mod input;
