//! Tiles of a larger grid: their coordinates and shapes.
use vstd::prelude::*;

use crate::grid::GridMeta;

verus! {

/// A tile coordinate in the grid of tiles.
#[derive(Debug, Clone, Copy, PartialEq, Eq, Structural, Hash)]
pub struct TileCoord {
    pub x: usize,
    pub y: usize,
}

impl TileCoord {
    /// Create a new tile coordinate.
    pub fn new(x: usize, y: usize) -> (r: Self)
        ensures
            r == (TileCoord { x, y }),
    {
        Self { x, y }
    }
}

impl Default for TileCoord {
    fn default() -> (r: Self)
        ensures
            r == (TileCoord { x: 0, y: 0 }),
    {
        Self { x: 0, y: 0 }
    }
}

impl From<(usize, usize)> for TileCoord {
    fn from(value: (usize, usize)) -> (r: Self) {
        Self::new(value.0, value.1)
    }
}

impl vstd::std_specs::convert::FromSpecImpl<(usize, usize)> for TileCoord {
    open spec fn obeys_from_spec() -> bool {
        true
    }

    open spec fn from_spec(v: (usize, usize)) -> Self {
        TileCoord { x: v.0, y: v.1 }
    }
}

impl From<TileCoord> for (usize, usize) {
    fn from(value: TileCoord) -> (r: Self) {
        (value.x, value.y)
    }
}

impl vstd::std_specs::convert::FromSpecImpl<TileCoord> for (usize, usize) {
    open spec fn obeys_from_spec() -> bool {
        true
    }

    open spec fn from_spec(v: TileCoord) -> Self {
        (v.x, v.y)
    }
}

/// A tile: where it lies in the grid of tiles, and its own shape.
#[derive(Debug, Clone, Copy, PartialEq, Eq, Hash)]
pub struct TileInfo {
    /// coordinates of the tile in the grid
    pub tile_coord: TileCoord,
    /// Tile metadata (width and height)
    pub meta: GridMeta,
}

impl TileInfo {
    /// A tile at `tile_coord` with shape `meta`.
    pub fn new(tile_coord: TileCoord, meta: GridMeta) -> (r: Self)
        ensures
            r.tile_coord == tile_coord,
            r.meta == meta,
    {
        Self { tile_coord, meta }
    }

    /// The tile's coordinate.
    pub fn xy(&self) -> (r: TileCoord)
        ensures
            r == self.tile_coord,
    {
        self.tile_coord
    }

    /// The tile's shape.
    pub fn meta(&self) -> (r: &GridMeta)
        ensures
            *r == self.meta,
    {
        &self.meta
    }
}

/// What to keep of intermediate results.
#[derive(Debug, Clone, Copy, PartialEq, Eq, Structural, Hash)]
pub enum RetentionStrategy {
    /// Don't store any intermediate results: re-calculate them every step
    Evict,
    /// Store intermediate results in a cache
    Cache,
    /// Keep intermediate results in memory
    Retain,
}

impl Default for RetentionStrategy {
    fn default() -> (r: Self)
        ensures
            r == RetentionStrategy::Cache,
    {
        RetentionStrategy::Cache
    }
}

} // verus!
