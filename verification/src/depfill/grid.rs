//! Grids of tiles: which tiles there are, where they lie and what their
//! edges hold.
use vstd::prelude::*;

use crate::depfill::fill::FillData;
use crate::grid::{dir_index, lemma_cell_index_bound, skirt_start, xshift, yshift, Dir, GridMeta};
use crate::tile::{TileCoord, TileInfo};
use crate::TLabel;

use std::collections::HashMap;

verus! {

broadcast use vstd::std_specs::hash::group_hash_axioms;

/// The tile's skirt holds one label and one elevation per edge cell and
/// corner.
pub open spec fn tile_wf(fd: FillData) -> bool {
    let m = fd.spec_tile_info().meta;
    &&& 2 * m.spec_width() + 2 * m.spec_height() + 4 <= usize::MAX
    &&& fd.spec_label_edges().len() == skirt_start(m, 8)
    &&& fd.spec_dem_edges().len() == skirt_start(m, 8)
}

/// The labels on edge `d` of the tile's skirt.
pub open spec fn edge_labels(fd: FillData, d: Dir) -> Seq<TLabel> {
    let m = fd.spec_tile_info().meta;
    fd.spec_label_edges().subrange(skirt_start(m, dir_index(d)), skirt_start(m, dir_index(d) + 1))
}

/// The elevations on edge `d` of the tile's skirt.
pub open spec fn edge_elevs(fd: FillData, d: Dir) -> Seq<u64> {
    let m = fd.spec_tile_info().meta;
    fd.spec_dem_edges().subrange(skirt_start(m, dir_index(d)), skirt_start(m, dir_index(d) + 1))
}

/// The skirt starts of a grid are in order.
pub proof fn lemma_skirt_order(m: GridMeta, d: int)
    requires
        0 <= d < 8,
    ensures
        0 <= skirt_start(m, d) <= skirt_start(m, d + 1) <= skirt_start(m, 8),
{
}

/// All that solving a tiled filling problem needs to know about the grid
/// of tiles: its tiles, which tiles neighbour each other and what their
/// edges hold.
pub trait FillGrid {
    /// The tiles' fill data, in the order the grid walks them.
    spec fn spec_tiles(&self) -> Seq<FillData>;

    /// The number of tiles the grid is made for.
    spec fn spec_n_tiles(&self) -> nat;

    /// Where the tile at `c` is among the tiles, if the grid holds one there.
    spec fn spec_find(&self, c: TileCoord) -> Option<int>;

    /// The coordinate of the neighbour of `c` in direction `d`, if the grid
    /// holds one there.
    spec fn spec_neighbour(&self, c: TileCoord, d: Dir) -> Option<TileCoord>;

    /// All tiles' fill data, in order.
    fn tiles(&self) -> (r: &[FillData])
        ensures
            r@ == self.spec_tiles(),
    ;

    /// The number of tiles in the grid.
    fn n_tiles(&self) -> (r: usize)
        ensures
            r == self.spec_n_tiles(),
    ;

    /// The fill data of the tile at `coord`.
    fn tile(&self, coord: &TileCoord) -> (r: &FillData)
        requires
            self.spec_find(*coord) is Some,
        ensures
            0 <= self.spec_find(*coord)->0 < self.spec_tiles().len(),
            *r == self.spec_tiles()[self.spec_find(*coord)->0],
    ;

    /// The labels and elevations on edge `dir` of the tile at `coord`.
    fn edge(&self, coord: &TileCoord, dir: Dir) -> (r: (&[TLabel], &[u64]))
        requires
            self.spec_find(*coord) is Some,
            tile_wf(self.spec_tiles()[self.spec_find(*coord)->0]),
        ensures
            r.0@ == edge_labels(self.spec_tiles()[self.spec_find(*coord)->0], dir),
            r.1@ == edge_elevs(self.spec_tiles()[self.spec_find(*coord)->0], dir),
    ;

    /// The tile that neighbours the one at `coord` in direction `dir`.
    fn neighbour(&self, coord: &TileCoord, dir: Dir) -> (r: Option<TileCoord>)
        ensures
            r == self.spec_neighbour(*coord, dir),
    ;
}

/// A dense, row-major grid of tiles.
pub struct VecFillGrid {
    meta: GridMeta,
    data: Vec<FillData>,
}

impl VecFillGrid {
    /// The shape of the grid of tiles.
    pub closed spec fn spec_meta(&self) -> GridMeta {
        self.meta
    }

    /// The tiles, row by row.
    pub closed spec fn spec_data(&self) -> Seq<FillData> {
        self.data@
    }

    /// A grid of tiles of shape `meta` holding `data` row by row.
    pub fn new(meta: GridMeta, data: Vec<FillData>) -> (r: Self)
        ensures
            r.spec_meta() == meta,
            r.spec_data() == data@,
    {
        Self { meta, data }
    }

    /// The shape of the grid of tiles.
    pub fn meta(&self) -> (r: &GridMeta)
        ensures
            *r == self.spec_meta(),
    {
        &self.meta
    }

    /// The tiles, row by row.
    pub fn data(&self) -> (r: &Vec<FillData>)
        ensures
            r@ == self.spec_data(),
    {
        &self.data
    }
}

impl FillGrid for VecFillGrid {
    open spec fn spec_tiles(&self) -> Seq<FillData> {
        self.spec_data()
    }

    open spec fn spec_n_tiles(&self) -> nat {
        self.spec_meta().spec_size() as nat
    }

    open spec fn spec_find(&self, c: TileCoord) -> Option<int> {
        let i = c.x + c.y * self.spec_meta().spec_width();
        if c.x < self.spec_meta().spec_width() && c.y < self.spec_meta().spec_height() && i
            < self.spec_data().len() {
            Some(i)
        } else {
            None
        }
    }

    open spec fn spec_neighbour(&self, c: TileCoord, d: Dir) -> Option<TileCoord> {
        let x = c.x + xshift(dir_index(d));
        let y = c.y + yshift(dir_index(d));
        if 0 <= x < self.spec_meta().spec_width() && 0 <= y < self.spec_meta().spec_height() {
            Some(TileCoord { x: x as usize, y: y as usize })
        } else {
            None
        }
    }

    fn tiles(&self) -> (r: &[FillData]) {
        self.data.as_slice()
    }

    fn n_tiles(&self) -> (r: usize) {
        self.meta.size()
    }

    fn tile(&self, coord: &TileCoord) -> (r: &FillData) {
        proof {
            use_type_invariant(&self.meta);
            lemma_cell_index_bound(
                self.meta.spec_width() as int,
                self.meta.spec_height() as int,
                coord.x as int,
                coord.y as int,
            );
        }
        &self.data[self.meta.xy_to_i(coord.x, coord.y)]
    }

    fn edge(&self, coord: &TileCoord, dir: Dir) -> (r: (&[TLabel], &[u64])) {
        let fd = self.tile(coord);
        let range = fd.tile_info().meta().skirt_range(dir);
        proof {
            lemma_skirt_order(fd.spec_tile_info().meta, dir_index(dir));
        }
        let labels = fd.label_edges();
        let elevs = fd.dem_edges();
        (slice_range(labels, range.start, range.end), slice_range(elevs, range.start, range.end))
    }

    fn neighbour(&self, coord: &TileCoord, dir: Dir) -> (r: Option<TileCoord>) {
        proof {
            crate::grid::lemma_shift_tables();
        }
        let d = dir.index() as usize;
        let x = coord.x as i128 + crate::grid::XSHIFT[d] as i128;
        let y = coord.y as i128 + crate::grid::YSHIFT[d] as i128;
        if x >= 0 && y >= 0 && x < self.meta.width() as i128 && y < self.meta.height() as i128 {
            Some(TileCoord::new(x as usize, y as usize))
        } else {
            None
        }
    }
}

/// The coordinate of a tile.
pub open spec fn coord(fd: FillData) -> TileCoord {
    fd.spec_tile_info().tile_coord
}

/// The position that `index` gives the tile at `c`, if any: the index is
/// keyed by column, then by row.
pub open spec fn index_at(index: Map<usize, HashMap<usize, usize>>, c: TileCoord) -> Option<usize> {
    if index.contains_key(c.x) && index[c.x]@.contains_key(c.y) {
        Some(index[c.x]@[c.y])
    } else {
        None
    }
}

/// A grid of tiles held by coordinate: only the tiles that are there, at
/// most one per coordinate, in the order they were put in, with an index
/// from coordinate to position.
pub struct HashMapFillGrid {
    grid: Vec<FillData>,
    index: HashMap<usize, HashMap<usize, usize>>,
}

impl HashMapFillGrid {
    /// No two tiles share a coordinate, and the index gives the position of
    /// each tile by its coordinate, and nothing else.
    #[verifier::type_invariant]
    spec fn index_ok(&self) -> bool {
        &&& forall|i: int, j: int| 0 <= i < j < self.grid@.len() ==> coord(self.grid@[i]) != coord(self.grid@[j])
        &&& forall|i: int| 0 <= i < self.grid@.len() ==> index_at(self.index@, coord(#[trigger] self.grid@[i])) == Some(i as usize)
        &&& forall|c: TileCoord| #[trigger] index_at(self.index@, c) is Some ==> index_at(self.index@, c)->0 < self.grid@.len() && coord(self.grid@[index_at(self.index@, c)->0 as int]) == c
    }

    /// The tiles, in the order they were put in.
    pub closed spec fn spec_grid(&self) -> Seq<FillData> {
        self.grid@
    }

    /// The grid holds a tile at `c`.
    pub open spec fn holds(&self, c: TileCoord) -> bool {
        exists|i: int| 0 <= i < self.spec_grid().len() && #[trigger] coord(self.spec_grid()[i]) == c
    }

    /// A grid without tiles.
    pub fn new() -> (r: Self)
        ensures
            r.spec_grid().len() == 0,
    {
        let r = Self { grid: Vec::new(), index: HashMap::new() };
        r
    }

    /// The number of tiles held.
    pub fn len(&self) -> (r: usize)
        ensures
            r == self.spec_grid().len(),
    {
        self.grid.len()
    }

    /// Puts a tile in: it takes the place of the tile at its coordinate if
    /// there is one, and comes last otherwise.
    pub fn insert(&mut self, fd: FillData)
        ensures
            old(self).holds(coord(fd)) ==> exists|i: int|
                0 <= i < old(self).spec_grid().len() && coord(#[trigger] old(self).spec_grid()[i]) == coord(fd)
                    && final(self).spec_grid() == old(self).spec_grid().update(i, fd),
            !old(self).holds(coord(fd)) ==> final(self).spec_grid() == old(self).spec_grid().push(fd),
    {
        proof {
            use_type_invariant(&*self);
        }
        let c = fd.tile_info().xy();
        let found = self.find(&c);
        let mut tmp = HashMapFillGrid::new();
        std::mem::swap(&mut tmp, self);
        let HashMapFillGrid { mut grid, mut index } = tmp;
        let ghost g0 = grid@;
        let ghost ix0 = index@;
        match found {
            Some(i) => {
                grid.set(i, fd);
                proof {
                    assert(grid@ == g0.update(i as int, fd));
                    assert(coord(g0[i as int]) == c);
                    assert forall|a: int, b: int| 0 <= a < b < grid@.len() implies coord(grid@[a]) != coord(grid@[b]) by {
                        if a != i && b != i {
                            assert(grid@[a] == g0[a] && grid@[b] == g0[b]);
                        } else if a == i {
                            assert(grid@[b] == g0[b]);
                        } else {
                            assert(grid@[a] == g0[a]);
                        }
                    }
                    assert forall|a: int| 0 <= a < grid@.len() implies index_at(index@, coord(#[trigger] grid@[a])) == Some(a as usize) by {
                        if a != i {
                            assert(grid@[a] == g0[a]);
                        }
                    }
                    assert forall|c2: TileCoord| #[trigger] index_at(index@, c2) is Some implies index_at(index@, c2)->0 < grid@.len() && coord(grid@[index_at(index@, c2)->0 as int]) == c2 by {
                        let k = index_at(index@, c2)->0;
                        if k != i {
                            assert(grid@[k as int] == g0[k as int]);
                        }
                    }
                }
                *self = HashMapFillGrid { grid, index };
                proof {
                    assert(self.spec_grid() == old(self).spec_grid().update(i as int, fd));
                }
            },
            None => {
                let n = grid.len();
                grid.push(fd);
                let mut inner = match index.remove(&c.x) {
                    Some(m) => m,
                    None => HashMap::new(),
                };
                let ghost inner0 = inner@;
                inner.insert(c.y, n);
                index.insert(c.x, inner);
                proof {
                    assert(!old(self).holds(c));
                    assert(ix0.contains_key(c.x) ==> inner0 == ix0[c.x]@);
                    assert(!ix0.contains_key(c.x) ==> inner0 == Map::<usize, usize>::empty());
                    assert forall|a: int, b: int| 0 <= a < b < grid@.len() implies coord(grid@[a]) != coord(grid@[b]) by {
                        assert(grid@[a] == g0[a]);
                        if b < g0.len() {
                            assert(grid@[b] == g0[b]);
                        }
                    }
                    assert forall|a: int| 0 <= a < grid@.len() implies index_at(index@, coord(#[trigger] grid@[a])) == Some(a as usize) by {
                        if a < g0.len() {
                            assert(grid@[a] == g0[a]);
                            let ca = coord(g0[a]);
                            assert(index_at(ix0, ca) == Some(a as usize));
                            assert(ca != c);
                        }
                    }
                    assert forall|c2: TileCoord| #[trigger] index_at(index@, c2) is Some implies index_at(index@, c2)->0 < grid@.len() && coord(grid@[index_at(index@, c2)->0 as int]) == c2 by {
                        if c2 != c {
                            assert(index_at(ix0, c2) == index_at(index@, c2));
                            let k = index_at(ix0, c2)->0;
                            assert(grid@[k as int] == g0[k as int]);
                        }
                    }
                }
                *self = HashMapFillGrid { grid, index };
                proof {
                    assert(self.spec_grid() == old(self).spec_grid().push(fd));
                }
            },
        }
    }

    /// Where the tile at `c` is among the tiles, if there is one.
    fn find(&self, c: &TileCoord) -> (r: Option<usize>)
        ensures
            r matches Some(i) ==> i < self.spec_grid().len() && coord(self.spec_grid()[i as int]) == *c,
            r is None <==> !self.holds(*c),
    {
        proof {
            use_type_invariant(self);
        }
        let r = match self.index.get(&c.x) {
            Some(inner) => match inner.get(&c.y) {
                Some(i) => Some(*i),
                None => None,
            },
            None => None,
        };
        proof {
            assert(r == index_at(self.index@, *c));
            if r is Some {
                let i = r->0 as int;
                assert(coord(self.spec_grid()[i]) == *c);
                assert(0 <= i < self.spec_grid().len());
            }
            if self.holds(*c) {
                let k = choose|k: int| 0 <= k < self.spec_grid().len() && #[trigger] coord(self.spec_grid()[k]) == *c;
                assert(index_at(self.index@, coord(self.grid@[k])) == Some(k as usize));
            }
        }
        r
    }
}

impl FillGrid for HashMapFillGrid {
    open spec fn spec_tiles(&self) -> Seq<FillData> {
        self.spec_grid()
    }

    open spec fn spec_n_tiles(&self) -> nat {
        self.spec_grid().len()
    }

    open spec fn spec_find(&self, c: TileCoord) -> Option<int> {
        if self.holds(c) {
            Some(choose|i: int| 0 <= i < self.spec_grid().len() && #[trigger] coord(self.spec_grid()[i]) == c)
        } else {
            None
        }
    }

    open spec fn spec_neighbour(&self, c: TileCoord, d: Dir) -> Option<TileCoord> {
        let x = c.x + xshift(dir_index(d));
        let y = c.y + yshift(dir_index(d));
        if 0 <= x <= usize::MAX && 0 <= y <= usize::MAX && self.holds(TileCoord { x: x as usize, y: y as usize }) {
            Some(TileCoord { x: x as usize, y: y as usize })
        } else {
            None
        }
    }

    fn tiles(&self) -> (r: &[FillData]) {
        self.grid.as_slice()
    }

    fn n_tiles(&self) -> (r: usize) {
        self.grid.len()
    }

    fn tile(&self, coord: &TileCoord) -> (r: &FillData) {
        proof {
            use_type_invariant(self);
        }
        let i = match self.find(coord) {
            Some(i) => i,
            None => 0,
        };
        proof {
            let k = self.spec_find(*coord)->0;
            assert(0 <= k < self.spec_grid().len() && crate::depfill::grid::coord(self.spec_grid()[k]) == *coord);
            if k != i as int {
                if k < i {
                    assert(crate::depfill::grid::coord(self.grid@[k]) != crate::depfill::grid::coord(self.grid@[i as int]));
                } else {
                    assert(crate::depfill::grid::coord(self.grid@[i as int]) != crate::depfill::grid::coord(self.grid@[k]));
                }
            }
        }
        &self.grid[i]
    }

    fn edge(&self, coord: &TileCoord, dir: Dir) -> (r: (&[TLabel], &[u64])) {
        let fd = self.tile(coord);
        let range = fd.tile_info().meta().skirt_range(dir);
        proof {
            lemma_skirt_order(fd.spec_tile_info().meta, dir_index(dir));
        }
        let labels = fd.label_edges();
        let elevs = fd.dem_edges();
        (slice_range(labels, range.start, range.end), slice_range(elevs, range.start, range.end))
    }

    fn neighbour(&self, my_coord: &TileCoord, dir: Dir) -> (r: Option<TileCoord>) {
        proof {
            crate::grid::lemma_shift_tables();
        }
        let d = dir.index() as usize;
        let x = my_coord.x as i128 + crate::grid::XSHIFT[d] as i128;
        let y = my_coord.y as i128 + crate::grid::YSHIFT[d] as i128;
        if x < 0 || y < 0 || x > usize::MAX as i128 || y > usize::MAX as i128 {
            return None;
        }
        let n_coord = TileCoord::new(x as usize, y as usize);
        match self.find(&n_coord) {
            Some(_) => Some(n_coord),
            None => None,
        }
    }
}

/// The part `start..end` of a slice.
fn slice_range<T>(s: &[T], start: usize, end: usize) -> (r: &[T])
    requires
        start <= end <= s@.len(),
    ensures
        r@ == s@.subrange(start as int, end as int),
{
    &s[start..end]
}

} // verus!
