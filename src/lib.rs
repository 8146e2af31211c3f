//! A grid-based raycasting engine: a tile-map text format and its parser, a
//! digital differential analyser that finds the first wall along a ray, and
//! player movement that slides along walls.

pub mod map;
pub mod parser;
pub mod player;
pub mod vector;
