//! Hydrological grid algorithms: grid indexing, depression filling on tiled
//! elevation models, watershed spill graphs and topological flow orders.
use vstd::prelude::*;

pub mod array_2d;
pub mod depfill;
pub mod elev;
pub mod flats;
pub mod error;
pub mod fastscape;
pub mod grid;
pub mod level_sums;
pub mod mflow;
pub mod priority_flood;
pub mod queue;
pub mod resolve_flats;
pub mod sflow;
pub mod text;
pub mod tile;

verus! {

/// The labels used for identifying watersheds.
pub type TLabel = u32;

} // verus!
