//! Seeds for resolving flats that span tiles.
//!
//! A flat that is filled up and drains across a tile edge must grow from the
//! edge cells where it drains. Which edge cells those are follows from the
//! supergraph: the watershed of the cell is filled, and across the edge lies
//! a lower cell of a watershed that is connected to it and processed before
//! it, so water leaves through it.
use vstd::prelude::*;

use crate::depfill::fill::FillData;
use crate::depfill::graph_fill::{
    fill_graph, graph_view, graph_wf, is_fill_elev, reachable, UNPROCESSED,
};
use crate::depfill::grid::{edge_elevs, edge_labels, tile_wf, FillGrid};
use crate::depfill::supergraph::{
    coord_of, find_offset, grid_consistent, keys_in, lemma_find_offset, lemma_offset_mono,
    lemma_super_nodes_len, lemma_tile_range, one_way, super_offsets, supergraph_of, tile_at,
    tile_offset, tiles_labelled, SuperGraph,
};
use crate::grid::{dir_index, dir_of, edge_cell, edge_len, rev_dir, skirt_start, Dir, GridMeta};
use crate::tile::TileInfo;
use crate::TLabel;

use std::collections::HashMap;

verus! {

/// Cell `i` of an edge drains into cell `j` of the facing edge: that cell
/// exists and is not higher, their watersheds are connected in the
/// supergraph, and the other watershed was processed first.
pub open spec fn drains_into(
    ml: Seq<TLabel>,
    me: Seq<u64>,
    nl: Seq<TLabel>,
    ne: Seq<u64>,
    moff: TLabel,
    noff: TLabel,
    g: Seq<Map<TLabel, u64>>,
    order: Seq<u32>,
    i: int,
    j: int,
) -> bool {
    &&& 0 <= j < nl.len()
    &&& ne[j] <= me[i]
    &&& g[ml[i] + moff].contains_key((nl[j] + noff) as TLabel)
    &&& order[ml[i] + moff] > order[nl[j] + noff]
}

/// The seed entries edge cell `i`, at flat index `cell`, makes for the first
/// `o` of the facing cells `i - 1`, `i`, `i + 1`.
pub open spec fn idx_seeds(
    ml: Seq<TLabel>,
    me: Seq<u64>,
    nl: Seq<TLabel>,
    ne: Seq<u64>,
    moff: TLabel,
    noff: TLabel,
    g: Seq<Map<TLabel, u64>>,
    order: Seq<u32>,
    cell: usize,
    i: int,
    o: int,
) -> Seq<usize>
    decreases o,
{
    if o <= 0 {
        Seq::empty()
    } else {
        let prev = idx_seeds(ml, me, nl, ne, moff, noff, g, order, cell, i, o - 1);
        if drains_into(ml, me, nl, ne, moff, noff, g, order, i, i + o - 2) {
            prev.push(cell)
        } else {
            prev
        }
    }
}

/// The seeds of the first `k` cells of an edge that faces a neighbouring
/// tile: a cell above its watershed's fill level is skipped, any other
/// cell is entered once per facing cell it drains into.
pub open spec fn cross_seeds(
    m: GridMeta,
    d: Dir,
    ml: Seq<TLabel>,
    me: Seq<u64>,
    nl: Seq<TLabel>,
    ne: Seq<u64>,
    moff: TLabel,
    noff: TLabel,
    g: Seq<Map<TLabel, u64>>,
    order: Seq<u32>,
    raise: Seq<u64>,
    k: int,
) -> Seq<usize>
    decreases k,
{
    if k <= 0 {
        Seq::empty()
    } else {
        let i = k - 1;
        let prev = cross_seeds(m, d, ml, me, nl, ne, moff, noff, g, order, raise, k - 1);
        if me[i] > raise[ml[i] as int] {
            prev
        } else {
            prev + idx_seeds(ml, me, nl, ne, moff, noff, g, order, edge_cell(m, d, i) as usize, i, 3)
        }
    }
}

/// The seeds of edge `d` (number `dn`) of tile `t`: on an edge of the whole
/// grid every cell, else the cells that drain across.
pub open spec fn dir_seeds<G: FillGrid>(
    gr: G,
    offs: Seq<(crate::tile::TileCoord, (TLabel, usize))>,
    g: Seq<Map<TLabel, u64>>,
    order: Seq<u32>,
    elevs: Seq<u64>,
    t: int,
    dn: int,
) -> Seq<usize> {
    let tiles = gr.spec_tiles();
    let c = coord_of(tiles, t);
    let fd = tile_at(gr, c);
    let m = fd.spec_tile_info().meta;
    let d = dir_of(dn);
    let moff = find_offset(offs, c)->0;
    let raise = elevs.subrange(moff as int, moff + fd.spec_graph().len());
    match gr.spec_neighbour(c, d) {
        Some(nc) => {
            let nfd = tile_at(gr, nc);
            let rd = dir_of(rev_dir(dn));
            cross_seeds(
                m,
                d,
                edge_labels(fd, d),
                edge_elevs(fd, d),
                edge_labels(nfd, rd),
                edge_elevs(nfd, rd),
                moff,
                find_offset(offs, nc)->0,
                g,
                order,
                raise,
                edge_labels(fd, d).len() as int,
            )
        },
        None => Seq::new(edge_len(m, d) as nat, |k: int| edge_cell(m, d, k) as usize),
    }
}

/// The seeds of the first `dn` edges of tile `t`.
pub open spec fn tile_seeds<G: FillGrid>(
    gr: G,
    offs: Seq<(crate::tile::TileCoord, (TLabel, usize))>,
    g: Seq<Map<TLabel, u64>>,
    order: Seq<u32>,
    elevs: Seq<u64>,
    t: int,
    dn: int,
) -> Seq<usize>
    decreases dn,
{
    if dn <= 0 {
        Seq::empty()
    } else {
        tile_seeds(gr, offs, g, order, elevs, t, dn - 1) + dir_seeds(gr, offs, g, order, elevs, t, dn - 1)
    }
}

/// The tiles are not empty.
pub open spec fn tiles_nonempty(tiles: Seq<FillData>) -> bool {
    forall|t: int|
        0 <= t < tiles.len() ==> (#[trigger] tiles[t]).spec_tile_info().meta.spec_width() >= 1
            && tiles[t].spec_tile_info().meta.spec_height() >= 1
}

/// What filling the supergraph gives: for each node its processing number
/// (or [`UNPROCESSED`]) and its fill level.
pub open spec fn fill_outcome(
    g: Seq<Map<TLabel, u64>>,
    floor: u64,
    zero: u64,
    order: Seq<u32>,
    elevs: Seq<u64>,
) -> bool {
    &&& order.len() == g.len()
    &&& elevs.len() == g.len()
    &&& forall|v: int| 0 <= v < g.len() ==> (#[trigger] order[v] != UNPROCESSED <==> reachable(g, v))
    &&& forall|v: int|
        0 <= v < g.len() ==> #[trigger] crate::depfill::supergraph::graph_level(g, floor, zero, v, elevs[v])
    &&& forall|u: int, v: int|
        0 <= u < g.len() && 0 <= v < g.len() && order[u] != UNPROCESSED && order[v] != UNPROCESSED
            && #[trigger] order[u] < #[trigger] order[v] ==> elevs[u] <= elevs[v]
}

/// An edge of a skirt holds as many cells as the edge of the grid.
proof fn lemma_skirt_edge_len(m: GridMeta, d: int)
    requires
        0 <= d < 8,
    ensures
        skirt_start(m, d + 1) - skirt_start(m, d) == edge_len(m, dir_of(d)),
{
}

/// Enters the seeds of an edge that faces a neighbouring tile.
fn seed_across(
    seeds: &mut Vec<usize>,
    m: &GridMeta,
    dir: Dir,
    ml: &[TLabel],
    me: &[u64],
    nl: &[TLabel],
    ne: &[u64],
    moff: TLabel,
    noff: TLabel,
    graph: &Vec<HashMap<TLabel, u64>>,
    order: &[u32],
    raise: &[u64],
)
    requires
        m.spec_width() >= 1,
        m.spec_height() >= 1,
        ml@.len() == edge_len(*m, dir),
        me@.len() == ml@.len(),
        ne@.len() == nl@.len(),
        forall|k: int| 0 <= k < ml@.len() ==> #[trigger] ml@[k] < raise@.len(),
        forall|k: int| 0 <= k < ml@.len() ==> #[trigger] ml@[k] + moff < graph@.len(),
        forall|k: int| 0 <= k < nl@.len() ==> #[trigger] nl@[k] + noff < graph@.len(),
        order@.len() == graph@.len(),
        graph@.len() <= u32::MAX,
    ensures
        final(seeds)@ == old(seeds)@ + cross_seeds(
            *m,
            dir,
            ml@,
            me@,
            nl@,
            ne@,
            moff,
            noff,
            graph_view(graph@),
            order@,
            raise@,
            ml@.len() as int,
        ),
{
    let ghost s0 = seeds@;
    let ghost g = graph_view(graph@);
    let mut i: usize = 0;
    while i < ml.len()
        invariant
            i <= ml@.len(),
            m.spec_width() >= 1,
            m.spec_height() >= 1,
            ml@.len() == edge_len(*m, dir),
            me@.len() == ml@.len(),
            ne@.len() == nl@.len(),
            forall|k: int| 0 <= k < ml@.len() ==> #[trigger] ml@[k] < raise@.len(),
            forall|k: int| 0 <= k < ml@.len() ==> #[trigger] ml@[k] + moff < graph@.len(),
            forall|k: int| 0 <= k < nl@.len() ==> #[trigger] nl@[k] + noff < graph@.len(),
            order@.len() == graph@.len(),
            graph@.len() <= u32::MAX,
            g == graph_view(graph@),
            seeds@ == s0 + cross_seeds(
                *m,
                dir,
                ml@,
                me@,
                nl@,
                ne@,
                moff,
                noff,
                g,
                order@,
                raise@,
                i as int,
            ),
        decreases ml@.len() - i,
    {
        let ghost before = seeds@;
        proof {
            assert(ml@[i as int] < raise@.len());
            assert(ml@[i as int] + moff < graph@.len());
        }
        if me[i] <= raise[ml[i] as usize] {
            let cell = m.edge_idx_to_i(dir, i);
            let a = ml[i] + moff;
            let mut o: usize = 0;
            while o < 3
                invariant
                    i < ml@.len(),
                    o <= 3,
                    a == ml@[i as int] + moff,
                    a < graph@.len(),
                    me@.len() == ml@.len(),
                    ne@.len() == nl@.len(),
                    forall|k: int| 0 <= k < nl@.len() ==> #[trigger] nl@[k] + noff < graph@.len(),
                    order@.len() == graph@.len(),
                    graph@.len() <= u32::MAX,
                    g == graph_view(graph@),
                    seeds@ == before + idx_seeds(
                        ml@,
                        me@,
                        nl@,
                        ne@,
                        moff,
                        noff,
                        g,
                        order@,
                        cell,
                        i as int,
                        o as int,
                    ),
                decreases 3 - o,
            {
                let ghost before2 = seeds@;
                let jj: Option<usize> = if o == 0 {
                    if i >= 1 && i - 1 < nl.len() {
                        Some(i - 1)
                    } else {
                        None
                    }
                } else if i < nl.len() && o - 1 < nl.len() - i {
                    Some(i + (o - 1))
                } else {
                    None
                };
                match jj {
                    Some(j) => {
                        proof {
                            assert(nl@[j as int] + noff < graph@.len());
                        }
                        let b = nl[j] + noff;
                        proof {
                            assert(g[a as int] == graph@[a as int]@);
                        }
                        if ne[j] <= me[i] && graph[a as usize].contains_key(&b) && order[a as usize]
                            > order[b as usize] {
                            seeds.push(cell);
                        }
                        proof {
                            assert(seeds@ =~= before + idx_seeds(
                                ml@,
                                me@,
                                nl@,
                                ne@,
                                moff,
                                noff,
                                g,
                                order@,
                                cell,
                                i as int,
                                o + 1,
                            ));
                        }
                    },
                    None => {
                        proof {
                            assert(!drains_into(ml@, me@, nl@, ne@, moff, noff, g, order@, i as int, i + o - 1));
                            assert(seeds@ =~= before + idx_seeds(
                                ml@,
                                me@,
                                nl@,
                                ne@,
                                moff,
                                noff,
                                g,
                                order@,
                                cell,
                                i as int,
                                o + 1,
                            ));
                        }
                    },
                }
                o = o + 1;
            }
            proof {
                assert(seeds@ =~= s0 + cross_seeds(
                    *m,
                    dir,
                    ml@,
                    me@,
                    nl@,
                    ne@,
                    moff,
                    noff,
                    g,
                    order@,
                    raise@,
                    i + 1,
                ));
            }
        }
        i = i + 1;
    }
}

/// Enters every cell of an edge of the whole grid as a seed.
fn seed_outlet(seeds: &mut Vec<usize>, m: &GridMeta, dir: Dir)
    requires
        m.spec_width() >= 1,
        m.spec_height() >= 1,
        2 * m.spec_width() + 2 * m.spec_height() + 4 <= usize::MAX,
    ensures
        final(seeds)@ == old(seeds)@ + Seq::new(
            edge_len(*m, dir) as nat,
            |k: int| edge_cell(*m, dir, k) as usize,
        ),
{
    let ghost s0 = seeds@;
    let range = m.skirt_range(dir);
    proof {
        lemma_skirt_edge_len(*m, dir_index(dir));
        assert(dir_of(dir_index(dir)) == dir);
    }
    let count = range.end - range.start;
    let mut k: usize = 0;
    while k < count
        invariant
            k <= count,
            count == edge_len(*m, dir),
            m.spec_width() >= 1,
            m.spec_height() >= 1,
            seeds@ == s0 + Seq::new(k as nat, |q: int| edge_cell(*m, dir, q) as usize),
        decreases count - k,
    {
        let cell = m.edge_idx_to_i(dir, k);
        seeds.push(cell);
        proof {
            assert(seeds@ =~= s0 + Seq::new((k + 1) as nat, |q: int| edge_cell(*m, dir, q) as usize));
        }
        k = k + 1;
    }
}

/// The seeds of tile `t`, given the supergraph, the order in which its
/// nodes were processed and their fill levels.
pub fn tile_seed_cells<G: FillGrid>(
    fill_grid: &G,
    offsets: &Vec<(crate::tile::TileCoord, (TLabel, usize))>,
    graph: &Vec<HashMap<TLabel, u64>>,
    order: &[u32],
    elevs: &[u64],
    t: usize,
) -> (r: Vec<usize>)
    requires
        grid_consistent(*fill_grid),
        tiles_labelled(fill_grid.spec_tiles()),
        tiles_nonempty(fill_grid.spec_tiles()),
        offsets@ == super_offsets(fill_grid.spec_tiles()),
        graph@.len() == tile_offset(fill_grid.spec_tiles(), fill_grid.spec_tiles().len() as int),
        graph@.len() <= u32::MAX,
        order@.len() == graph@.len(),
        elevs@.len() == graph@.len(),
        t < fill_grid.spec_tiles().len(),
    ensures
        r@ == tile_seeds(*fill_grid, offsets@, graph_view(graph@), order@, elevs@, t as int, 8),
{
    let ghost gr = *fill_grid;
    let tiles = fill_grid.tiles();
    let ghost ts = tiles@;
    let n = tiles.len();
    let c = tiles[t].tile_info().tile_coord;
    proof {
        assert(c == coord_of(ts, t as int));
        assert forall|s: int| 0 <= s < t implies coord_of(ts, s) != coord_of(ts, t as int) by {
            assert(gr.spec_find(coord_of(ts, s)) == Some(s));
            assert(gr.spec_find(coord_of(ts, t as int)) == Some(t as int));
        }
        lemma_find_offset(ts, t as int, 0);
        lemma_tile_range(ts, t as int);
        lemma_offset_mono(ts, t as int, n as int);
        lemma_super_nodes_len(ts, t as int);
        assert(gr.spec_find(c) == Some(t as int));
        assert(tile_wf(ts[t as int]));
    }
    let fd = fill_grid.tile(&c);
    let m = fd.tile_info().meta;
    let len = fd.spill_graph().len();
    let moff = match lookup(offsets, &c) {
        Some(o) => o,
        None => {
            proof {
                assert(false);
            }
            0
        },
    };
    proof {
        assert(moff == tile_offset(ts, t as int));
        assert(len == ts[t as int].spec_graph().len());
    }
    let raise = slice_range(elevs, moff as usize, moff as usize + len);
    let dirs = Dir::iter();
    let mut seeds: Vec<usize> = Vec::new();
    let mut d: usize = 0;
    while d < 8
        invariant
            gr == *fill_grid,
            ts == gr.spec_tiles(),
            ts == tiles@,
            n == ts.len(),
            t < n,
            c == coord_of(ts, t as int),
            *fd == ts[t as int],
            m == fd.spec_tile_info().meta,
            m.spec_width() >= 1,
            m.spec_height() >= 1,
            moff == tile_offset(ts, t as int),
            moff == find_offset(offsets@, c)->0,
            moff + len == tile_offset(ts, t + 1),
            len == fd.spec_graph().len(),
            tile_offset(ts, t + 1) <= tile_offset(ts, n as int),
            raise@ == elevs@.subrange(moff as int, moff + len),
            d <= 8,
            dirs@.len() == 8,
            forall|i: int| 0 <= i < 8 ==> #[trigger] dirs@[i] == dir_of(i),
            grid_consistent(gr),
            tiles_labelled(ts),
            tiles_nonempty(ts),
            offsets@ == super_offsets(ts),
            graph@.len() == tile_offset(ts, n as int),
            graph@.len() <= u32::MAX,
            order@.len() == graph@.len(),
            elevs@.len() == graph@.len(),
            seeds@ == tile_seeds(gr, offsets@, graph_view(graph@), order@, elevs@, t as int, d as int),
        decreases 8 - d,
    {
        let dir = dirs[d];
        let ghost before = seeds@;
        proof {
            crate::depfill::grid::lemma_skirt_order(m, d as int);
            lemma_skirt_edge_len(m, d as int);
        }
        match fill_grid.neighbour(&c, dir) {
            Some(nc) => {
                let ghost s = gr.spec_find(nc)->0;
                proof {
                    assert(gr.spec_neighbour(coord_of(ts, t as int), dir) == Some(nc));
                    assert(gr.spec_find(nc) is Some);
                    assert(coord_of(ts, s) == nc);
                    assert(tile_wf(ts[s]));
                    assert forall|q: int| 0 <= q < s implies coord_of(ts, q) != coord_of(ts, s) by {
                        assert(gr.spec_find(coord_of(ts, q)) == Some(q));
                    }
                    lemma_find_offset(ts, s, 0);
                    lemma_tile_range(ts, s);
                    lemma_offset_mono(ts, s, n as int);
                    lemma_super_nodes_len(ts, s);
                    crate::depfill::grid::lemma_skirt_order(ts[s].spec_tile_info().meta, rev_dir(d as int));
                }
                let (ml, me) = fill_grid.edge(&c, dir);
                let rdir = dir.rev();
                proof {
                    assert(rdir == dir_of(rev_dir(d as int)));
                }
                let (nl, ne) = fill_grid.edge(&nc, rdir);
                let noff = match lookup(offsets, &nc) {
                    Some(o) => o,
                    None => {
                        proof {
                            assert(false);
                        }
                        0
                    },
                };
                proof {
                    assert(noff == tile_offset(ts, s));
                    assert(tile_at(gr, c) == *fd);
                    assert forall|k: int| 0 <= k < ml@.len() implies #[trigger] ml@[k] < raise@.len() && ml@[k]
                        + moff < graph@.len() by {
                        assert(ml@[k] == fd.spec_label_edges()[skirt_start(m, d as int) + k]);
                    }
                    assert forall|k: int| 0 <= k < nl@.len() implies #[trigger] nl@[k] + noff < graph@.len() by {
                        assert(nl@[k] == ts[s].spec_label_edges()[skirt_start(
                            ts[s].spec_tile_info().meta,
                            rev_dir(d as int),
                        ) + k]);
                    }
                }
                seed_across(&mut seeds, &m, dir, ml, me, nl, ne, moff, noff, graph, order, raise);
            },
            None => {
                proof {
                    assert(tile_wf(ts[t as int]));
                }
                seed_outlet(&mut seeds, &m, dir);
            },
        }
        proof {
            assert(seeds@ =~= tile_seeds(
                gr,
                offsets@,
                graph_view(graph@),
                order@,
                elevs@,
                t as int,
                d + 1,
            ));
        }
        d = d + 1;
    }
    seeds
}

/// The node at which the nodes of the tile at `c` start.
fn lookup(offsets: &Vec<(crate::tile::TileCoord, (TLabel, usize))>, c: &crate::tile::TileCoord) -> (r:
    Option<TLabel>)
    ensures
        r == find_offset(offsets@, *c),
{
    let mut k: usize = 0;
    while k < offsets.len()
        invariant
            k <= offsets@.len(),
            find_offset(offsets@, *c) == crate::depfill::supergraph::find_offset_from(
                offsets@,
                *c,
                k as int,
            ),
        decreases offsets@.len() - k,
    {
        if offsets[k].0 == *c {
            return Some(offsets[k].1.0);
        }
        k = k + 1;
    }
    None
}

/// The part `start..end` of a slice.
fn slice_range<T>(s: &[T], start: usize, end: usize) -> (r: &[T])
    requires
        start <= end <= s@.len(),
    ensures
        r@ == s@.subrange(start as int, end as int),
{
    &s[start..end]
}

/// Finds the edge cells from which the flats that span tiles must grow.
///
/// The supergraph of the grid is filled again to learn which watersheds
/// are raised and in which order they drain. A cell of a tile edge that
/// faces another tile is a seed when it does not stand above its
/// watershed's fill level and drains across the edge into a cell no higher
/// than itself, of a connected watershed that drains first; it is entered
/// once for each such cell. All cells on the edge of the whole grid are
/// seeds. Seeds are given as flat indices within their tile, per tile.
pub fn seed_superflat<G: FillGrid>(graph_grid: G, floor: u64, zero: u64) -> (r: Vec<(TileInfo, Vec<usize>)>)
    requires
        forall|t: int|
            0 <= t < graph_grid.spec_tiles().len() ==> one_way(
                #[trigger] graph_grid.spec_tiles()[t].spec_graph(),
            ),
        tile_offset(graph_grid.spec_tiles(), graph_grid.spec_tiles().len() as int) < u32::MAX,
        grid_consistent(graph_grid),
        tiles_labelled(graph_grid.spec_tiles()),
        tiles_nonempty(graph_grid.spec_tiles()),
    ensures
        r@.len() == graph_grid.spec_tiles().len(),
        exists|order: Seq<u32>, elevs: Seq<u64>|
            {
                &&& fill_outcome(supergraph_of(graph_grid), floor, zero, order, elevs)
                &&& forall|t: int|
                    0 <= t < graph_grid.spec_tiles().len() ==> (#[trigger] r@[t]).0 == tile_at(
                        graph_grid,
                        coord_of(graph_grid.spec_tiles(), t),
                    ).spec_tile_info() && r@[t].1@ == tile_seeds(
                        graph_grid,
                        super_offsets(graph_grid.spec_tiles()),
                        supergraph_of(graph_grid),
                        order,
                        elevs,
                        t,
                        8,
                    )
            },
{
    let ghost tiles = graph_grid.spec_tiles();
    let ghost n = tiles.len() as int;
    let sg = SuperGraph::from_grid(&graph_grid).connect_edges(&graph_grid);
    let ghost gv = sg.spec_graph();
    proof {
        lemma_super_nodes_len(tiles, n);
    }
    let graph = sg.spill_graph();
    let len = graph.len();
    let mut elevs: Vec<u64> = Vec::new();
    let mut k: usize = 0;
    while k < len
        invariant
            k <= len,
            elevs@.len() == k,
            forall|i: int| 0 <= i < k ==> #[trigger] elevs@[i] == zero,
        decreases len - k,
    {
        elevs.push(zero);
        k = k + 1;
    }
    proof {
        assert(graph_view(graph@) == gv);
        assert(keys_in(gv));
        assert(graph_wf(gv));
    }
    let order = fill_graph(graph.as_slice(), elevs.as_mut_slice(), floor);
    proof {
        assert forall|v: int| 0 <= v < gv.len() implies #[trigger] crate::depfill::supergraph::graph_level(
            gv,
            floor,
            zero,
            v,
            elevs@[v],
        ) by {
            if order@[v] != UNPROCESSED {
            } else {
            }
        }
        assert(fill_outcome(gv, floor, zero, order@, elevs@));
    }
    let offsets = sg.offsets();
    let mut res: Vec<(TileInfo, Vec<usize>)> = Vec::new();
    let mut t: usize = 0;
    let nt = graph_grid.tiles().len();
    while t < nt
        invariant
            tiles == graph_grid.spec_tiles(),
            nt == tiles.len(),
            n == nt,
            offsets@ == super_offsets(tiles),
            grid_consistent(graph_grid),
            tiles_labelled(tiles),
            tiles_nonempty(tiles),
            gv == supergraph_of(graph_grid),
            graph_view(graph@) == gv,
            graph@.len() == tile_offset(tiles, n),
            tile_offset(tiles, n) < u32::MAX,
            order@.len() == graph@.len(),
            elevs@.len() == graph@.len(),
            t <= nt,
            res@.len() == t,
            forall|q: int|
                0 <= q < t ==> (#[trigger] res@[q]).0 == tile_at(graph_grid, coord_of(tiles, q)).spec_tile_info()
                    && res@[q].1@ == tile_seeds(graph_grid, offsets@, gv, order@, elevs@, q, 8),
        decreases nt - t,
    {
        let seeds = tile_seed_cells(&graph_grid, offsets, graph, order.as_slice(), elevs.as_slice(), t);
        let coord = offsets[t].0;
        proof {
            assert(coord == coord_of(tiles, t as int));
            assert(graph_grid.spec_find(coord) == Some(t as int));
        }
        let info = *graph_grid.tile(&coord).tile_info();
        res.push((info, seeds));
        t = t + 1;
    }
    res
}

} // verus!
