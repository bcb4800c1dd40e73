//! Conway's Game of Life on a finite square board whose edges are hard:
//! cells beyond the border do not exist and are never counted.

pub mod board;
pub mod game_rules;
pub mod json;
pub mod render;
pub mod address;
