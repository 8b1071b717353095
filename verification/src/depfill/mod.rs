//! Depression filling on tiled and normal elevation models.
//!
//! Non-tiled elevation models are tiled ones with a single tile, so the main
//! depression filling algorithm also serves that case.
pub mod cell;
pub mod fill;
pub mod graph_fill;
pub mod grid;
pub mod label;
pub mod supergraph;
pub mod zhou;
