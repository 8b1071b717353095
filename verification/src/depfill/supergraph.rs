//! The supergraph: the spill graphs of all tiles side by side, made two-way
//! and joined where tiles meet, with one extra outlet node for the edge of
//! the whole grid.
use vstd::prelude::*;

use std::collections::HashMap;
use vstd::std_specs::iter::IteratorSpec;

use crate::depfill::fill::FillData;
use crate::depfill::graph_fill::{
    fill_graph, graph_view, graph_wf, is_fill_elev, max_key, reachable, SpillGraph, UNPROCESSED,
};
use crate::depfill::grid::{edge_elevs, edge_labels, tile_wf, FillGrid};
use crate::grid::{dir_index, dir_of, rev_dir, Dir};
use crate::tile::{TileCoord, TileInfo};
use crate::TLabel;

verus! {

broadcast use vstd::std_specs::hash::group_hash_axioms;

/// Where the nodes of tile `t` start in the supergraph: after the outlet
/// node and the nodes of the tiles before it.
pub open spec fn tile_offset(tiles: Seq<FillData>, t: int) -> int
    decreases t,
{
    if t <= 0 {
        1
    } else {
        tile_offset(tiles, t - 1) + tiles[t - 1].spec_graph().len()
    }
}

/// A tile graph keeps each ridge once, under the smaller label, and points
/// only at its own nodes.
pub open spec fn one_way(g: Seq<Map<TLabel, u64>>) -> bool {
    forall|a: int, b: TLabel| 0 <= a < g.len() && #[trigger] g[a].contains_key(b) ==> a < b < g.len()
}

/// Node `l` of tile graph `g` placed at offset `off`, with its ridges in
/// both directions.
pub open spec fn two_way(g: Seq<Map<TLabel, u64>>, off: int, l: int) -> Map<TLabel, u64> {
    Map::new(
        |y: TLabel|
            off <= y < off + g.len() && (g[l].contains_key((y - off) as TLabel) || g[y - off].contains_key(
                l as TLabel,
            )),
        |y: TLabel|
            if g[l].contains_key((y - off) as TLabel) {
                g[l][(y - off) as TLabel]
            } else {
                g[y - off][l as TLabel]
            },
    )
}

/// The nodes of the supergraph of the first `t` tiles: the outlet, then
/// each tile's nodes made two-way.
pub open spec fn super_nodes(tiles: Seq<FillData>, t: int) -> Seq<Map<TLabel, u64>>
    decreases t,
{
    if t <= 0 {
        seq![Map::empty()]
    } else {
        super_nodes(tiles, t - 1) + Seq::new(
            tiles[t - 1].spec_graph().len(),
            |l: int| two_way(tiles[t - 1].spec_graph(), tile_offset(tiles, t - 1), l),
        )
    }
}

/// For each tile, its coordinate, where its nodes start and how many there are.
pub open spec fn super_offsets(tiles: Seq<FillData>) -> Seq<(TileCoord, (TLabel, usize))> {
    Seq::new(
        tiles.len(),
        |t: int|
            (
                tiles[t].spec_tile_info().tile_coord,
                (tile_offset(tiles, t) as TLabel, tiles[t].spec_graph().len() as usize),
            ),
    )
}

/// The supergraph has one node per tile node, plus the outlet.
pub proof fn lemma_super_nodes_len(tiles: Seq<FillData>, t: int)
    requires
        0 <= t <= tiles.len(),
    ensures
        super_nodes(tiles, t).len() == tile_offset(tiles, t),
        tile_offset(tiles, t) >= 1,
    decreases t,
{
    if t > 0 {
        lemma_super_nodes_len(tiles, t - 1);
    }
}

/// Offsets grow with the tile number.
pub proof fn lemma_offset_mono(tiles: Seq<FillData>, s: int, t: int)
    requires
        0 <= s <= t <= tiles.len(),
    ensures
        tile_offset(tiles, s) <= tile_offset(tiles, t),
    decreases t - s,
{
    if s < t {
        lemma_offset_mono(tiles, s, t - 1);
    }
}

/// The graph after noting that nodes `a` and `b` meet at `e`: unless a
/// level no higher is noted between them already, both directions get `e`.
pub open spec fn note_link(g: Seq<Map<TLabel, u64>>, a: TLabel, b: TLabel, e: u64) -> Seq<
    Map<TLabel, u64>,
> {
    if !g[a as int].contains_key(b) || g[a as int][b] > e {
        let g1 = g.update(a as int, g[a as int].insert(b, e));
        g1.update(b as int, g1[b as int].insert(a, e))
    } else {
        g
    }
}

/// The graph after noting the links one after the other.
pub open spec fn note_links(g: Seq<Map<TLabel, u64>>, links: Seq<(TLabel, TLabel, u64)>) -> Seq<
    Map<TLabel, u64>,
>
    decreases links.len(),
{
    if links.len() == 0 {
        g
    } else {
        let l = links.last();
        note_link(note_links(g, links.drop_last()), l.0, l.1, l.2)
    }
}

/// Noting two lists of links one after the other.
pub proof fn lemma_note_links_append(
    g: Seq<Map<TLabel, u64>>,
    a: Seq<(TLabel, TLabel, u64)>,
    b: Seq<(TLabel, TLabel, u64)>,
)
    ensures
        note_links(g, a + b) == note_links(note_links(g, a), b),
    decreases b.len(),
{
    if b.len() == 0 {
        assert(a + b =~= a);
    } else {
        assert((a + b).drop_last() =~= a + b.drop_last());
        lemma_note_links_append(g, a, b.drop_last());
    }
}

/// Link `l` joins nodes `a` and `b`, either way round.
pub open spec fn link_between(l: (TLabel, TLabel, u64), a: int, b: TLabel) -> bool {
    (l.0 == a && l.1 == b) || (l.1 == a && l.0 == b)
}

/// Both directions of link `l` are noted in `r`, no higher than its level.
pub open spec fn link_noted(r: Seq<Map<TLabel, u64>>, l: (TLabel, TLabel, u64)) -> bool {
    &&& r[l.0 as int].contains_key(l.1)
    &&& r[l.0 as int][l.1] <= l.2
    &&& r[l.1 as int].contains_key(l.0)
    &&& r[l.1 as int][l.0] <= l.2
}

/// `r` is `g` with `links` noted, in no particular order: no level of `g`
/// rises, both directions of every link are noted at most at its level,
/// and every level of `r` is that of `g` or of a link between its nodes.
/// So each level of `r` is the least of the level of `g` and those of the
/// links between the two nodes.
pub open spec fn links_applied(
    g: Seq<Map<TLabel, u64>>,
    links: Seq<(TLabel, TLabel, u64)>,
    r: Seq<Map<TLabel, u64>>,
) -> bool {
    &&& r.len() == g.len()
    &&& forall|a: int, b: TLabel|
        0 <= a < g.len() && #[trigger] g[a].contains_key(b) ==> r[a].contains_key(b) && r[a][b] <= g[a][b]
    &&& forall|q: int| 0 <= q < links.len() ==> link_noted(r, #[trigger] links[q])
    &&& forall|a: int, b: TLabel|
        0 <= a < r.len() && #[trigger] r[a].contains_key(b) ==> (g[a].contains_key(b) && r[a][b] == g[a][b])
            || exists|q: int| 0 <= q < links.len() && #[trigger] link_between(links[q], a, b) && links[q].2 == r[a][b]
}

/// Noting links one after the other in a two-way graph lowers levels only,
/// honours every link, and leaves no level that neither the graph nor a
/// link gave: the order of the links does not matter, and no level rises.
pub proof fn lemma_note_links_applied(g: Seq<Map<TLabel, u64>>, links: Seq<(TLabel, TLabel, u64)>)
    requires
        two_way_graph(g),
        g.len() <= u32::MAX,
        forall|q: int| 0 <= q < links.len() ==> (#[trigger] links[q]).0 < g.len() && links[q].1 < g.len(),
    ensures
        links_applied(g, links, note_links(g, links)),
        two_way_graph(note_links(g, links)),
    decreases links.len(),
{
    if links.len() == 0 {
        let r = note_links(g, links);
        assert(r == g);
        assert forall|a: int, b: TLabel| 0 <= a < r.len() && #[trigger] r[a].contains_key(b) implies (
        g[a].contains_key(b) && r[a][b] == g[a][b]) || exists|q: int|
            0 <= q < links.len() && #[trigger] link_between(links[q], a, b) && links[q].2 == r[a][b] by {
        }
    } else {
        let init = links.drop_last();
        let l = links.last();
        assert forall|q: int| 0 <= q < init.len() implies (#[trigger] init[q]).0 < g.len() && init[q].1 < g.len() by {
            assert(init[q] == links[q]);
        }
        lemma_note_links_applied(g, init);
        let r = note_links(g, init);
        let r2 = note_links(g, links);
        assert(r2 == note_link(r, l.0, l.1, l.2));
        assert(links[links.len() - 1] == l);
        let a = l.0;
        let b = l.1;
        let e = l.2;
        assert(a < r.len() && b < r.len());
        let upd = !r[a as int].contains_key(b) || r[a as int][b] > e;
        if upd {
            assert(r[a as int].contains_key(b) ==> r[b as int].contains_key(a) && r[b as int][a] == r[a as int][b]);
            assert(r[b as int].contains_key(a) ==> r[a as int].contains_key(b) && r[a as int][b] == r[b as int][a]);
        }
        // what changed: at most the two directions of the new link, set to `e`
        assert forall|x: int, y: TLabel| 0 <= x < r.len() && #[trigger] r2[x].contains_key(y) implies (r[x].contains_key(y) && r2[x][y] <= r[x][y]
            && (r2[x][y] == r[x][y] || link_between(l, x, y))) || (link_between(l, x, y) && r2[x][y] == e) by {
        }
        assert forall|x: int, y: TLabel| 0 <= x < r.len() && #[trigger] r[x].contains_key(y) implies r2[x].contains_key(y) && r2[x][y] <= r[x][y] by {
        }
        assert forall|x: int, y: TLabel| 0 <= x < r.len() && link_between(l, x, y) implies #[trigger] r2[x].contains_key(y) && r2[x][y] <= e by {
        }
        assert(r2.len() == g.len());
        assert forall|x: int, y: TLabel| 0 <= x < g.len() && #[trigger] g[x].contains_key(y) implies r2[x].contains_key(y) && r2[x][y] <= g[x][y] by {
            assert(r[x].contains_key(y) && r[x][y] <= g[x][y]);
        }
        assert forall|q: int| 0 <= q < links.len() implies link_noted(r2, #[trigger] links[q]) by {
            if q < init.len() {
                assert(init[q] == links[q]);
                assert(link_noted(r, init[q]));
                let lq = links[q];
                assert(r[lq.0 as int].contains_key(lq.1));
                assert(r[lq.1 as int].contains_key(lq.0));
            } else {
                assert(link_between(l, a as int, b));
                assert(link_between(l, b as int, a));
            }
        }
        assert forall|x: int, y: TLabel| 0 <= x < r2.len() && #[trigger] r2[x].contains_key(y) implies (
        g[x].contains_key(y) && r2[x][y] == g[x][y]) || exists|q: int|
            0 <= q < links.len() && #[trigger] link_between(links[q], x, y) && links[q].2 == r2[x][y] by {
            if r[x].contains_key(y) && r2[x][y] == r[x][y] {
                if !(g[x].contains_key(y) && r[x][y] == g[x][y]) {
                    let q = choose|q: int| 0 <= q < init.len() && #[trigger] link_between(init[q], x, y) && init[q].2 == r[x][y];
                    assert(init[q] == links[q]);
                    assert(link_between(links[q], x, y));
                }
            } else {
                assert(link_between(links[links.len() - 1], x, y));
            }
        }
        assert forall|x: int, y: TLabel| 0 <= x < r2.len() && #[trigger] r2[x].contains_key(y) implies y < r2.len()
            && r2[y as int].contains_key(x as TLabel) && r2[y as int][x as TLabel] == r2[x][y] by {
            if link_between(l, x, y) {
                assert(link_between(l, y as int, x as TLabel));
            } else {
                assert(r[x].contains_key(y));
                assert(r[y as int].contains_key(x as TLabel));
                assert(x as TLabel == x);
                assert(!link_between(l, y as int, x as TLabel));
            }
        }
    }
}

/// Every link of `links` joins two nodes below `n`.
pub open spec fn links_within(links: Seq<(TLabel, TLabel, u64)>, n: int) -> bool {
    forall|q: int| 0 <= q < links.len() ==> (#[trigger] links[q]).0 < n && links[q].1 < n
}

/// Two lists of links within `n` make one.
proof fn lemma_within_append(a: Seq<(TLabel, TLabel, u64)>, b: Seq<(TLabel, TLabel, u64)>, n: int)
    requires
        links_within(a, n),
        links_within(b, n),
    ensures
        links_within(a + b, n),
{
    assert forall|q: int| 0 <= q < (a + b).len() implies (#[trigger] (a + b)[q]).0 < n && (a + b)[q].1 < n by {
        if q < a.len() {
            assert((a + b)[q] == a[q]);
        } else {
            assert((a + b)[q] == b[q - a.len()]);
        }
    }
}

/// The links across two edges whose nodes lie below `n` stay below `n`.
proof fn lemma_cross_within(
    ml: Seq<TLabel>,
    me: Seq<u64>,
    nl: Seq<TLabel>,
    ne: Seq<u64>,
    moff: TLabel,
    noff: TLabel,
    k: int,
    n: int,
)
    requires
        0 <= k <= ml.len(),
        n <= u32::MAX,
        forall|i: int| 0 <= i < ml.len() ==> #[trigger] ml[i] + moff < n,
        forall|i: int| 0 <= i < nl.len() ==> #[trigger] nl[i] + noff < n,
    ensures
        links_within(cross_links(ml, me, nl, ne, moff, noff, k), n),
    decreases k,
{
    if k > 0 {
        lemma_cross_within(ml, me, nl, ne, moff, noff, k - 1, n);
        lemma_idx_within(ml, me, nl, ne, moff, noff, k - 1, 3, n);
        lemma_within_append(
            cross_links(ml, me, nl, ne, moff, noff, k - 1),
            idx_links(ml, me, nl, ne, moff, noff, k - 1, 3),
            n,
        );
    }
}

/// The links of one edge cell across the edge stay below `n`.
proof fn lemma_idx_within(
    ml: Seq<TLabel>,
    me: Seq<u64>,
    nl: Seq<TLabel>,
    ne: Seq<u64>,
    moff: TLabel,
    noff: TLabel,
    i: int,
    o: int,
    n: int,
)
    requires
        0 <= i < ml.len(),
        n <= u32::MAX,
        forall|k: int| 0 <= k < ml.len() ==> #[trigger] ml[k] + moff < n,
        forall|k: int| 0 <= k < nl.len() ==> #[trigger] nl[k] + noff < n,
    ensures
        links_within(idx_links(ml, me, nl, ne, moff, noff, i, o), n),
    decreases o,
{
    if o > 0 {
        lemma_idx_within(ml, me, nl, ne, moff, noff, i, o - 1, n);
        let prev = idx_links(ml, me, nl, ne, moff, noff, i, o - 1);
        let j = i + o - 2;
        if 0 <= j < nl.len() {
            let l = link_at(ml, me, nl, ne, moff, noff, i, j);
            assert(ml[i] + moff < n && nl[j] + noff < n);
            let cur = idx_links(ml, me, nl, ne, moff, noff, i, o);
            assert(cur == prev.push(l));
            assert forall|q: int| 0 <= q < cur.len() implies (#[trigger] cur[q]).0 < n && cur[q].1 < n by {
                if q < prev.len() {
                    assert(cur[q] == prev[q]);
                }
            }
        }
    }
}

/// The links of an edge to the outlet stay below `n`.
proof fn lemma_outlet_within(ml: Seq<TLabel>, me: Seq<u64>, moff: TLabel, k: int, n: int)
    requires
        0 <= k <= ml.len(),
        n <= u32::MAX,
        0 < n,
        forall|i: int| 0 <= i < ml.len() ==> #[trigger] ml[i] + moff < n,
    ensures
        links_within(outlet_links(ml, me, moff, k), n),
    decreases k,
{
    if k > 0 {
        lemma_outlet_within(ml, me, moff, k - 1, n);
        let prev = outlet_links(ml, me, moff, k - 1);
        let cur = outlet_links(ml, me, moff, k);
        assert(ml[k - 1] + moff < n);
        assert forall|q: int| 0 <= q < cur.len() implies (#[trigger] cur[q]).0 < n && cur[q].1 < n by {
            if q < prev.len() {
                assert(cur[q] == prev[q]);
            }
        }
    }
}

/// The node at which the nodes of the tile at `c` start, by the first
/// entry of `offs` from `k` on that belongs to `c`.
pub open spec fn find_offset_from(offs: Seq<(TileCoord, (TLabel, usize))>, c: TileCoord, k: int) -> Option<
    TLabel,
>
    decreases offs.len() - k,
{
    if k < 0 || k >= offs.len() {
        None
    } else if offs[k].0 == c {
        Some(offs[k].1.0)
    } else {
        find_offset_from(offs, c, k + 1)
    }
}

/// The node at which the nodes of the tile at `c` start.
pub open spec fn find_offset(offs: Seq<(TileCoord, (TLabel, usize))>, c: TileCoord) -> Option<TLabel> {
    find_offset_from(offs, c, 0)
}

/// The coordinate of tile `t`.
pub open spec fn coord_of(tiles: Seq<FillData>, t: int) -> TileCoord {
    tiles[t].spec_tile_info().tile_coord
}

/// The tile the grid holds at `c`.
pub open spec fn tile_at<G: FillGrid>(g: G, c: TileCoord) -> FillData {
    g.spec_tiles()[g.spec_find(c)->0]
}

/// The link between cell `i` of one edge and cell `j` of the facing edge:
/// their nodes in the supergraph, at the higher of their elevations.
pub open spec fn link_at(
    ml: Seq<TLabel>,
    me: Seq<u64>,
    nl: Seq<TLabel>,
    ne: Seq<u64>,
    moff: TLabel,
    noff: TLabel,
    i: int,
    j: int,
) -> (TLabel, TLabel, u64) {
    ((ml[i] + moff) as TLabel, (nl[j] + noff) as TLabel, max_key(me[i], ne[j]))
}

/// The links of cell `i` of an edge with the first `o` of the cells
/// `i - 1`, `i`, `i + 1` of the facing edge that exist.
pub open spec fn idx_links(
    ml: Seq<TLabel>,
    me: Seq<u64>,
    nl: Seq<TLabel>,
    ne: Seq<u64>,
    moff: TLabel,
    noff: TLabel,
    i: int,
    o: int,
) -> Seq<(TLabel, TLabel, u64)>
    decreases o,
{
    if o <= 0 {
        Seq::empty()
    } else {
        let prev = idx_links(ml, me, nl, ne, moff, noff, i, o - 1);
        let j = i + o - 2;
        if 0 <= j < nl.len() {
            prev.push(link_at(ml, me, nl, ne, moff, noff, i, j))
        } else {
            prev
        }
    }
}

/// The links across two facing edges, of their first `k` cells.
pub open spec fn cross_links(
    ml: Seq<TLabel>,
    me: Seq<u64>,
    nl: Seq<TLabel>,
    ne: Seq<u64>,
    moff: TLabel,
    noff: TLabel,
    k: int,
) -> Seq<(TLabel, TLabel, u64)>
    decreases k,
{
    if k <= 0 {
        Seq::empty()
    } else {
        cross_links(ml, me, nl, ne, moff, noff, k - 1) + idx_links(ml, me, nl, ne, moff, noff, k - 1, 3)
    }
}

/// The links of the first `k` cells of an edge of the whole grid to the
/// outlet node, at their own elevations.
pub open spec fn outlet_links(ml: Seq<TLabel>, me: Seq<u64>, moff: TLabel, k: int) -> Seq<
    (TLabel, TLabel, u64),
>
    decreases k,
{
    if k <= 0 {
        Seq::empty()
    } else {
        outlet_links(ml, me, moff, k - 1).push(((ml[k - 1] + moff) as TLabel, 0, me[k - 1]))
    }
}

/// The links that edge `d` of tile `t` makes: with the facing edge of its
/// neighbour, or with the outlet where it has none.
pub open spec fn dir_links<G: FillGrid>(g: G, offs: Seq<(TileCoord, (TLabel, usize))>, t: int, d: int) -> Seq<
    (TLabel, TLabel, u64),
> {
    let c = coord_of(g.spec_tiles(), t);
    let fd = tile_at(g, c);
    let moff = find_offset(offs, c)->0;
    let ml = edge_labels(fd, dir_of(d));
    let me = edge_elevs(fd, dir_of(d));
    match g.spec_neighbour(c, dir_of(d)) {
        Some(nc) => {
            let nfd = tile_at(g, nc);
            let rd = dir_of(rev_dir(d));
            cross_links(
                ml,
                me,
                edge_labels(nfd, rd),
                edge_elevs(nfd, rd),
                moff,
                find_offset(offs, nc)->0,
                ml.len() as int,
            )
        },
        None => outlet_links(ml, me, moff, ml.len() as int),
    }
}

/// The links of the first `d` edges of tile `t`.
pub open spec fn tile_links<G: FillGrid>(g: G, offs: Seq<(TileCoord, (TLabel, usize))>, t: int, d: int) -> Seq<
    (TLabel, TLabel, u64),
>
    decreases d,
{
    if d <= 0 {
        Seq::empty()
    } else {
        tile_links(g, offs, t, d - 1) + dir_links(g, offs, t, d - 1)
    }
}

/// The links of all edges of the first `t` tiles.
pub open spec fn grid_links<G: FillGrid>(g: G, offs: Seq<(TileCoord, (TLabel, usize))>, t: int) -> Seq<
    (TLabel, TLabel, u64),
>
    decreases t,
{
    if t <= 0 {
        Seq::empty()
    } else {
        grid_links(g, offs, t - 1) + tile_links(g, offs, t - 1, 8)
    }
}

/// The grid finds each tile by its own coordinate, and only there; every
/// neighbour it names is a tile of its own, other than the tile itself.
pub open spec fn grid_consistent<G: FillGrid>(g: G) -> bool {
    let tiles = g.spec_tiles();
    &&& forall|t: int| 0 <= t < tiles.len() ==> g.spec_find(#[trigger] coord_of(tiles, t)) == Some(t)
    &&& forall|c: TileCoord|
        #[trigger] g.spec_find(c) matches Some(i) ==> 0 <= i < tiles.len() && coord_of(tiles, i) == c
    &&& forall|t: int, d: Dir|
        0 <= t < tiles.len() ==> (#[trigger] g.spec_neighbour(coord_of(tiles, t), d) matches Some(nc)
            ==> g.spec_find(nc) is Some && nc != coord_of(tiles, t))
}

/// Every tile's skirt has the right size and names only the tile's own
/// watersheds.
pub open spec fn tiles_labelled(tiles: Seq<FillData>) -> bool {
    forall|t: int|
        0 <= t < tiles.len() ==> {
            &&& tile_wf(#[trigger] tiles[t])
            &&& forall|k: int|
                0 <= k < tiles[t].spec_label_edges().len() ==> tiles[t].spec_label_edges()[k]
                    < tiles[t].spec_graph().len()
        }
}

/// The graph is two-way: each ridge leads back at the same elevation.
pub open spec fn two_way_graph(g: Seq<Map<TLabel, u64>>) -> bool {
    forall|a: int, b: TLabel|
        0 <= a < g.len() && #[trigger] g[a].contains_key(b) ==> b < g.len() && g[b as int].contains_key(
            a as TLabel,
        ) && g[b as int][a as TLabel] == g[a][b]
}

/// Without two tiles at one coordinate, the offset found for tile `t` is
/// its own.
pub proof fn lemma_find_offset(tiles: Seq<FillData>, t: int, k: int)
    requires
        0 <= k <= t < tiles.len(),
        forall|s: int| 0 <= s < t ==> coord_of(tiles, s) != coord_of(tiles, t),
    ensures
        find_offset_from(super_offsets(tiles), coord_of(tiles, t), k) == Some(
            tile_offset(tiles, t) as TLabel,
        ),
    decreases t - k,
{
    let offs = super_offsets(tiles);
    assert(offs[k].0 == coord_of(tiles, k));
    if k < t {
        lemma_find_offset(tiles, t, k + 1);
    } else {
        assert(offs[k].1.0 == tile_offset(tiles, t) as TLabel);
    }
}

/// Within a tile's range, node labels stay below the next tile's offset.
pub proof fn lemma_tile_range(tiles: Seq<FillData>, t: int)
    requires
        0 <= t < tiles.len(),
    ensures
        tile_offset(tiles, t + 1) == tile_offset(tiles, t) + tiles[t].spec_graph().len(),
        tile_offset(tiles, t + 1) <= tile_offset(tiles, tiles.len() as int),
{
    lemma_offset_mono(tiles, t + 1, tiles.len() as int);
}

/// Every ridge of the graph leads to one of its nodes.
pub open spec fn keys_in(g: Seq<Map<TLabel, u64>>) -> bool {
    forall|a: int, b: TLabel| 0 <= a < g.len() && #[trigger] g[a].contains_key(b) ==> b < g.len()
}

/// The supergraph of tiles that keep each ridge once is two-way, and its
/// ridges lead to its own nodes.
pub proof fn lemma_super_nodes_two_way(tiles: Seq<FillData>, t: int)
    requires
        0 <= t <= tiles.len(),
        forall|s: int| 0 <= s < tiles.len() ==> one_way(#[trigger] tiles[s].spec_graph()),
        tile_offset(tiles, t) <= u32::MAX,
    ensures
        keys_in(super_nodes(tiles, t)),
        two_way_graph(super_nodes(tiles, t)),
    decreases t,
{
    lemma_super_nodes_len(tiles, t);
    if t > 0 {
        lemma_super_nodes_len(tiles, t - 1);
        lemma_super_nodes_two_way(tiles, t - 1);
        let prev = super_nodes(tiles, t - 1);
        let sn = super_nodes(tiles, t);
        let g = tiles[t - 1].spec_graph();
        let off = tile_offset(tiles, t - 1);
        assert(one_way(g));
        assert forall|x: int, y: TLabel| 0 <= x < sn.len() && #[trigger] sn[x].contains_key(y) implies y
            < sn.len() && sn[y as int].contains_key(x as TLabel) && sn[y as int][x as TLabel]
            == sn[x][y] by {
            if x < off {
                assert(sn[x] == prev[x]);
                assert(sn[y as int] == prev[y as int]);
            } else {
                let l = x - off;
                assert(sn[x] == two_way(g, off, l));
                let k = y - off;
                assert(off <= y < off + g.len());
                assert(sn[y as int] == two_way(g, off, k));
                assert((x - off) as TLabel == l);
                assert((y - off) as TLabel == k);
                if g[l].contains_key(k as TLabel) {
                    assert(l < k);
                    if g[k].contains_key(l as TLabel) {
                        assert(k < l);
                    }
                } else {
                    assert(g[k].contains_key(l as TLabel));
                }
            }
        }
    }
}

/// A graph of spill elevations that also keeps track of which range of its
/// nodes belongs to which tile.
#[derive(Debug)]
pub struct SuperGraph {
    spill_graph: SpillGraph,
    offsets: Vec<(TileCoord, (TLabel, usize))>,
}

/// Node `l` of a tile graph placed at `off` once its first `i` nodes are
/// entered, and of node `i` the ridges towards `done`.
pub open spec fn partial_node(
    g: Seq<Map<TLabel, u64>>,
    off: int,
    l: int,
    i: int,
    done: Set<TLabel>,
) -> Map<TLabel, u64> {
    Map::new(
        |y: TLabel|
            off <= y < off + g.len() && ((l < i && g[l].contains_key((y - off) as TLabel)) || (y
                - off < i && g[y - off].contains_key(l as TLabel)) || (l == i && done.contains(
                (y - off) as TLabel,
            )) || (y - off == i && done.contains(l as TLabel))),
        |y: TLabel|
            if g[l].contains_key((y - off) as TLabel) {
                g[l][(y - off) as TLabel]
            } else {
                g[y - off][l as TLabel]
            },
    )
}

impl SuperGraph {
    /// The supergraph's nodes with their ridges.
    pub closed spec fn spec_graph(&self) -> Seq<Map<TLabel, u64>> {
        graph_view(self.spill_graph@)
    }

    /// For each tile, its coordinate, where its nodes start and how many there are.
    pub closed spec fn spec_offsets(&self) -> Seq<(TileCoord, (TLabel, usize))> {
        self.offsets@
    }

    /// The supergraph's nodes with their ridges.
    pub fn spill_graph(&self) -> (r: &SpillGraph)
        ensures
            graph_view(r@) == self.spec_graph(),
    {
        &self.spill_graph
    }

    /// For each tile, its coordinate, where its nodes start and how many there are.
    pub fn offsets(&self) -> (r: &Vec<(TileCoord, (TLabel, usize))>)
        ensures
            r@ == self.spec_offsets(),
    {
        &self.offsets
    }

    /// Puts the spill graphs of all tiles side by side after an outlet
    /// node, each made two-way: the ridge from node `a` to node `b` of a
    /// tile also leads back from `b` to `a`.
    pub fn from_grid<G: FillGrid>(fill_grid: &G) -> (r: Self)
        requires
            forall|t: int|
                0 <= t < fill_grid.spec_tiles().len() ==> one_way(
                    #[trigger] fill_grid.spec_tiles()[t].spec_graph(),
                ),
            tile_offset(fill_grid.spec_tiles(), fill_grid.spec_tiles().len() as int) <= u32::MAX,
        ensures
            r.spec_graph() == super_nodes(fill_grid.spec_tiles(), fill_grid.spec_tiles().len() as int),
            r.spec_offsets() == super_offsets(fill_grid.spec_tiles()),
            r.spec_graph().len() == tile_offset(
                fill_grid.spec_tiles(),
                fill_grid.spec_tiles().len() as int,
            ),
            keys_in(r.spec_graph()),
            two_way_graph(r.spec_graph()),
    {
        let tiles = fill_grid.tiles();
        let ghost ts = tiles@;
        let n = tiles.len();
        let mut total: usize = 1;
        let mut t: usize = 0;
        while t < n
            invariant
                ts == tiles@,
                n == ts.len(),
                t <= n,
                total == tile_offset(ts, t as int),
                tile_offset(ts, n as int) <= u32::MAX,
            decreases n - t,
        {
            proof {
                lemma_offset_mono(ts, t + 1, n as int);
            }
            total = total + tiles[t].spill_graph().len();
            t = t + 1;
        }
        let mut spill_graph: SpillGraph = Vec::new();
        let mut k: usize = 0;
        while k < total
            invariant
                k <= total,
                spill_graph@.len() == k,
                forall|a: int| 0 <= a < k ==> #[trigger] spill_graph@[a]@ == Map::<TLabel, u64>::empty(),
            decreases total - k,
        {
            spill_graph.push(HashMap::new());
            k = k + 1;
        }
        let mut offsets: Vec<(TileCoord, (TLabel, usize))> = Vec::new();
        let mut off: TLabel = 1;
        let mut t: usize = 0;
        proof {
            lemma_super_nodes_len(ts, 0);
            lemma_offset_mono(ts, 0, n as int);
            assert(super_nodes(ts, 0)[0] == Map::<TLabel, u64>::empty());
        }
        while t < n
            invariant
                ts == tiles@,
                n == ts.len(),
                t <= n,
                total == tile_offset(ts, n as int),
                total <= u32::MAX,
                off == tile_offset(ts, t as int),
                forall|s: int| 0 <= s < n ==> one_way(#[trigger] ts[s].spec_graph()),
                spill_graph@.len() == total,
                forall|x: int|
                    0 <= x < off ==> #[trigger] spill_graph@[x]@ == super_nodes(ts, t as int)[x],
                forall|x: int|
                    off <= x < total ==> #[trigger] spill_graph@[x]@ == Map::<TLabel, u64>::empty(),
                offsets@ == super_offsets(ts).take(t as int),
            decreases n - t,
        {
            proof {
                lemma_offset_mono(ts, t + 1, n as int);
                lemma_super_nodes_len(ts, t as int);
                lemma_super_nodes_len(ts, t + 1);
            }
            let graph = tiles[t].spill_graph();
            let ghost gv = graph_view(graph@);
            let len = graph.len();
            let mut idx: usize = 0;
            while idx < len
                invariant
                    gv == graph_view(graph@),
                    gv == ts[t as int].spec_graph(),
                    one_way(gv),
                    len == gv.len(),
                    idx <= len,
                    off + len <= total,
                    total <= u32::MAX,
                    spill_graph@.len() == total,
                    forall|x: int|
                        0 <= x < off ==> #[trigger] spill_graph@[x]@ == super_nodes(ts, t as int)[x],
                    forall|x: int|
                        off + len <= x < total ==> #[trigger] spill_graph@[x]@ == Map::<
                            TLabel,
                            u64,
                        >::empty(),
                    forall|x: int|
                        off <= x < off + len ==> #[trigger] spill_graph@[x]@ == partial_node(
                            gv,
                            off as int,
                            x - off,
                            idx as int,
                            Set::empty(),
                        ),
                decreases len - idx,
            {
                let node: &HashMap<TLabel, u64> = &graph[idx];
                let ghost pairs = vstd::std_specs::hash::spec_hash_map_iter(node).remaining();
                proof {
                    assert(gv[idx as int] == node@);
                }
                for (neighbour, spill_elev) in it: node.iter()
                    invariant
                        gv == graph_view(graph@),
                        one_way(gv),
                        len == gv.len(),
                        idx < len,
                        gv[idx as int] == node@,
                        off + len <= total,
                        total <= u32::MAX,
                        spill_graph@.len() == total,
                        it.seq() == pairs,
                        it.seq().no_duplicates(),
                        forall|x: int|
                            0 <= x < off ==> #[trigger] spill_graph@[x]@ == super_nodes(
                                ts,
                                t as int,
                            )[x],
                        forall|x: int|
                            off + len <= x < total ==> #[trigger] spill_graph@[x]@ == Map::<
                                TLabel,
                                u64,
                            >::empty(),
                        forall|x: int|
                            off <= x < off + len ==> #[trigger] spill_graph@[x]@ == partial_node(
                                gv,
                                off as int,
                                x - off,
                                idx as int,
                                Set::new(
                                    |b: TLabel|
                                        exists|q: int|
                                            0 <= q < it.index() && *(#[trigger] it.seq()[q]).0 == b,
                                ),
                            ),
                {
                    let ghost q = it.index();
                    let ghost done = Set::new(
                        |b: TLabel| exists|q2: int| 0 <= q2 < q && *(#[trigger] it.seq()[q2]).0 == b,
                    );
                    let ghost done2 = Set::new(
                        |b: TLabel|
                            exists|q2: int| 0 <= q2 < q + 1 && *(#[trigger] it.seq()[q2]).0 == b,
                    );
                    proof {
                        assert(node@.contains_key(*neighbour));
                        assert(*spill_elev == node@[*neighbour]);
                        assert(idx < *neighbour < len);
                        assert(done2 =~= done.insert(*neighbour)) by {
                            assert(*it.seq()[q].0 == *neighbour);
                        }
                    }
                    let my_label = idx as TLabel + off;
                    let n_label = *neighbour + off;
                    let ghost before = spill_graph@;
                    spill_graph[my_label as usize].insert(n_label, *spill_elev);
                    spill_graph[n_label as usize].insert(my_label, *spill_elev);
                    proof {
                        assert forall|x: int| off <= x < off + len implies #[trigger] spill_graph@[x]@
                            == partial_node(gv, off as int, x - off, idx as int, done2) by {
                            let l = x - off;
                            if x == my_label {
                                assert(spill_graph@[x]@ =~= partial_node(
                                    gv,
                                    off as int,
                                    l,
                                    idx as int,
                                    done,
                                ).insert(n_label, *spill_elev));
                                assert(partial_node(gv, off as int, l, idx as int, done2) =~= partial_node(
                                    gv,
                                    off as int,
                                    l,
                                    idx as int,
                                    done,
                                ).insert(n_label, *spill_elev));
                            } else if x == n_label {
                                assert(!gv[l].contains_key(idx as TLabel));
                                assert(partial_node(gv, off as int, l, idx as int, done2) =~= partial_node(
                                    gv,
                                    off as int,
                                    l,
                                    idx as int,
                                    done,
                                ).insert(my_label, *spill_elev));
                            } else {
                                assert(partial_node(gv, off as int, l, idx as int, done2) =~= partial_node(
                                    gv,
                                    off as int,
                                    l,
                                    idx as int,
                                    done,
                                ));
                            }
                        }
                    }
                }
                proof {
                    let done = Set::new(
                        |b: TLabel|
                            exists|q: int| 0 <= q < pairs.len() && *(#[trigger] pairs[q]).0 == b,
                    );
                    assert(done =~= node@.dom()) by {
                        assert forall|b: TLabel| node@.contains_key(b) implies done.contains(b) by {
                            assert(pairs.contains((&b, &node@[b])));
                            let q = choose|q: int| 0 <= q < pairs.len() && pairs[q] == (&b, &node@[b]);
                            assert(*pairs[q].0 == b);
                        }
                    }
                    assert forall|x: int| off <= x < off + len implies #[trigger] spill_graph@[x]@
                        == partial_node(gv, off as int, x - off, idx + 1, Set::empty()) by {
                        assert(partial_node(gv, off as int, x - off, idx + 1, Set::empty()) =~= partial_node(
                            gv,
                            off as int,
                            x - off,
                            idx as int,
                            done,
                        ));
                    }
                }
                idx = idx + 1;
            }
            proof {
                assert forall|x: int| 0 <= x < off + len implies #[trigger] spill_graph@[x]@ == super_nodes(
                    ts,
                    t + 1,
                )[x] by {
                    if x >= off {
                        assert(partial_node(gv, off as int, x - off, len as int, Set::empty()) =~= two_way(
                            gv,
                            off as int,
                            x - off,
                        ));
                    }
                }
            }
            offsets.push((tiles[t].tile_info().tile_coord, (off, len)));
            proof {
                assert(offsets@ =~= super_offsets(ts).take(t + 1));
            }
            off = off + len as TLabel;
            t = t + 1;
        }
        proof {
            lemma_super_nodes_len(ts, n as int);
            assert(graph_view(spill_graph@) =~= super_nodes(ts, n as int));
            assert(offsets@ =~= super_offsets(ts));
            lemma_super_nodes_two_way(ts, n as int);
        }
        SuperGraph { spill_graph, offsets }
    }
}

/// The node at which the nodes of the tile at `c` start.
fn lookup_offset(offsets: &Vec<(TileCoord, (TLabel, usize))>, c: &TileCoord) -> (r: Option<TLabel>)
    ensures
        r == find_offset(offsets@, *c),
{
    let mut k: usize = 0;
    while k < offsets.len()
        invariant
            k <= offsets@.len(),
            find_offset(offsets@, *c) == find_offset_from(offsets@, *c, k as int),
        decreases offsets@.len() - k,
    {
        if offsets[k].0 == *c {
            return Some(offsets[k].1.0);
        }
        k = k + 1;
    }
    None
}

/// Notes that nodes `a` and `b` meet at `e`, unless a level no higher is
/// noted between them already.
fn note_link_exec(g: &mut SpillGraph, a: TLabel, b: TLabel, e: u64)
    requires
        a < old(g)@.len(),
        b < old(g)@.len(),
        a != b,
        old(g)@.len() <= u32::MAX,
    ensures
        final(g)@.len() == old(g)@.len(),
        graph_view(final(g)@) == note_link(graph_view(old(g)@), a, b, e),
        keys_in(graph_view(old(g)@)) ==> keys_in(graph_view(final(g)@)),
        two_way_graph(graph_view(old(g)@)) ==> two_way_graph(graph_view(final(g)@)),
{
    let ghost g0 = graph_view(g@);
    let lower = match g[a as usize].get(&b) {
        None => true,
        Some(v) => *v > e,
    };
    if lower {
        g[a as usize].insert(b, e);
        g[b as usize].insert(a, e);
    }
    proof {
        assert(graph_view(g@) =~= note_link(g0, a, b, e));
        let g2 = graph_view(g@);
        if two_way_graph(g0) && lower {
            assert forall|x: int, y: TLabel| 0 <= x < g2.len() && #[trigger] g2[x].contains_key(y) implies y
                < g2.len() && g2[y as int].contains_key(x as TLabel) && g2[y as int][x as TLabel]
                == g2[x][y] by {
                if x == a && y == b {
                } else if x == b && y == a {
                } else if x == a {
                    assert(g0[x].contains_key(y));
                    assert(y != b);
                } else if x == b {
                    assert(g0[x].contains_key(y));
                    assert(y != a);
                } else {
                    assert(g0[x].contains_key(y));
                }
            }
        }
    }
}

/// Links the cells of one edge to the up to three cells facing each of
/// them across the edge.
fn connect_across(
    g: &mut SpillGraph,
    ml: &[TLabel],
    me: &[u64],
    nl: &[TLabel],
    ne: &[u64],
    moff: TLabel,
    noff: TLabel,
    Ghost(lo1): Ghost<int>,
    Ghost(hi1): Ghost<int>,
    Ghost(lo2): Ghost<int>,
    Ghost(hi2): Ghost<int>,
)
    requires
        me@.len() == ml@.len(),
        ne@.len() == nl@.len(),
        forall|k: int| 0 <= k < ml@.len() ==> lo1 <= #[trigger] ml@[k] + moff < hi1,
        forall|k: int| 0 <= k < nl@.len() ==> lo2 <= #[trigger] nl@[k] + noff < hi2,
        hi1 <= lo2 || hi2 <= lo1,
        hi1 <= old(g)@.len(),
        hi2 <= old(g)@.len(),
        old(g)@.len() <= u32::MAX,
    ensures
        final(g)@.len() == old(g)@.len(),
        graph_view(final(g)@) == note_links(
            graph_view(old(g)@),
            cross_links(ml@, me@, nl@, ne@, moff, noff, ml@.len() as int),
        ),
        links_within(cross_links(ml@, me@, nl@, ne@, moff, noff, ml@.len() as int), old(g)@.len() as int),
        keys_in(graph_view(old(g)@)) ==> keys_in(graph_view(final(g)@)),
        two_way_graph(graph_view(old(g)@)) ==> two_way_graph(graph_view(final(g)@)),
{
    proof {
        lemma_cross_within(ml@, me@, nl@, ne@, moff, noff, ml@.len() as int, g@.len() as int);
    }
    let ghost g0 = graph_view(g@);
    let mut i: usize = 0;
    while i < ml.len()
        invariant
            i <= ml@.len(),
            me@.len() == ml@.len(),
            ne@.len() == nl@.len(),
            forall|k: int| 0 <= k < ml@.len() ==> lo1 <= #[trigger] ml@[k] + moff < hi1,
            forall|k: int| 0 <= k < nl@.len() ==> lo2 <= #[trigger] nl@[k] + noff < hi2,
            hi1 <= lo2 || hi2 <= lo1,
            hi1 <= g@.len(),
            hi2 <= g@.len(),
            g@.len() <= u32::MAX,
            g@.len() == old(g)@.len(),
            g0 == graph_view(old(g)@),
            keys_in(g0) ==> keys_in(graph_view(g@)),
            two_way_graph(g0) ==> two_way_graph(graph_view(g@)),
            graph_view(g@) == note_links(g0, cross_links(ml@, me@, nl@, ne@, moff, noff, i as int)),
        decreases ml@.len() - i,
    {
        let mut o: usize = 0;
        while o < 3
            invariant
                i < ml@.len(),
                o <= 3,
                me@.len() == ml@.len(),
                ne@.len() == nl@.len(),
                forall|k: int| 0 <= k < ml@.len() ==> lo1 <= #[trigger] ml@[k] + moff < hi1,
                forall|k: int| 0 <= k < nl@.len() ==> lo2 <= #[trigger] nl@[k] + noff < hi2,
                hi1 <= lo2 || hi2 <= lo1,
                hi1 <= g@.len(),
                hi2 <= g@.len(),
                g@.len() <= u32::MAX,
                g@.len() == old(g)@.len(),
                g0 == graph_view(old(g)@),
                keys_in(g0) ==> keys_in(graph_view(g@)),
                two_way_graph(g0) ==> two_way_graph(graph_view(g@)),
                graph_view(g@) == note_links(
                    g0,
                    cross_links(ml@, me@, nl@, ne@, moff, noff, i as int) + idx_links(
                        ml@,
                        me@,
                        nl@,
                        ne@,
                        moff,
                        noff,
                        i as int,
                        o as int,
                    ),
                ),
            decreases 3 - o,
        {
            let ghost before = cross_links(ml@, me@, nl@, ne@, moff, noff, i as int) + idx_links(
                ml@,
                me@,
                nl@,
                ne@,
                moff,
                noff,
                i as int,
                o as int,
            );
            let jj: Option<usize> = if o == 0 {
                if i >= 1 && i - 1 < nl.len() {
                    Some(i - 1)
                } else {
                    None
                }
            } else if i < nl.len() && o - 1 < nl.len() - i {
                Some(i + (o - 1))
            } else {
                None
            };
            if let Some(j) = jj {
                proof {
                    assert(lo1 <= ml@[i as int] + moff < hi1);
                    assert(lo2 <= nl@[j as int] + noff < hi2);
                }
                let a = ml[i] + moff;
                let b = nl[j] + noff;
                let e = if me[i] > ne[j] {
                    me[i]
                } else {
                    ne[j]
                };
                note_link_exec(g, a, b, e);
                proof {
                    let l = link_at(ml@, me@, nl@, ne@, moff, noff, i as int, j as int);
                    assert(l == (a, b, e));
                    assert(before.push(l).drop_last() =~= before);
                    assert(cross_links(ml@, me@, nl@, ne@, moff, noff, i as int) + idx_links(
                        ml@,
                        me@,
                        nl@,
                        ne@,
                        moff,
                        noff,
                        i as int,
                        o + 1,
                    ) =~= before.push(l));
                }
            } else {
                proof {
                    assert(cross_links(ml@, me@, nl@, ne@, moff, noff, i as int) + idx_links(
                        ml@,
                        me@,
                        nl@,
                        ne@,
                        moff,
                        noff,
                        i as int,
                        o + 1,
                    ) =~= before);
                }
            }
            o = o + 1;
        }
        proof {
            assert(cross_links(ml@, me@, nl@, ne@, moff, noff, i + 1) =~= cross_links(
                ml@,
                me@,
                nl@,
                ne@,
                moff,
                noff,
                i as int,
            ) + idx_links(ml@, me@, nl@, ne@, moff, noff, i as int, 3));
        }
        i = i + 1;
    }
}

/// Links the cells of an edge of the whole grid to the outlet node.
fn connect_outlet(g: &mut SpillGraph, ml: &[TLabel], me: &[u64], moff: TLabel)
    requires
        me@.len() == ml@.len(),
        moff >= 1,
        forall|k: int| 0 <= k < ml@.len() ==> #[trigger] ml@[k] + moff < old(g)@.len(),
        old(g)@.len() <= u32::MAX,
    ensures
        final(g)@.len() == old(g)@.len(),
        graph_view(final(g)@) == note_links(
            graph_view(old(g)@),
            outlet_links(ml@, me@, moff, ml@.len() as int),
        ),
        links_within(outlet_links(ml@, me@, moff, ml@.len() as int), old(g)@.len() as int),
        keys_in(graph_view(old(g)@)) ==> keys_in(graph_view(final(g)@)),
        two_way_graph(graph_view(old(g)@)) ==> two_way_graph(graph_view(final(g)@)),
{
    proof {
        if ml@.len() > 0 {
            assert(ml@[0] + moff < g@.len());
            lemma_outlet_within(ml@, me@, moff, ml@.len() as int, g@.len() as int);
        } else {
            assert(outlet_links(ml@, me@, moff, 0) =~= Seq::<(TLabel, TLabel, u64)>::empty());
        }
    }
    let ghost g0 = graph_view(g@);
    let mut i: usize = 0;
    while i < ml.len()
        invariant
            i <= ml@.len(),
            me@.len() == ml@.len(),
            moff >= 1,
            forall|k: int| 0 <= k < ml@.len() ==> #[trigger] ml@[k] + moff < g@.len(),
            g@.len() <= u32::MAX,
            g@.len() == old(g)@.len(),
            g0 == graph_view(old(g)@),
            keys_in(g0) ==> keys_in(graph_view(g@)),
            two_way_graph(g0) ==> two_way_graph(graph_view(g@)),
            graph_view(g@) == note_links(g0, outlet_links(ml@, me@, moff, i as int)),
        decreases ml@.len() - i,
    {
        proof {
            assert(ml@[i as int] + moff < g@.len());
        }
        let a = ml[i] + moff;
        let e = me[i];
        note_link_exec(g, a, 0, e);
        proof {
            let before = outlet_links(ml@, me@, moff, i as int);
            assert(before.push((a, 0, e)).drop_last() =~= before);
            assert(outlet_links(ml@, me@, moff, i + 1) =~= before.push((a, 0, e)));
        }
        i = i + 1;
    }
}

/// Links edge `dir` (number `d`) of tile `t`, at `c`, to the facing edge
/// of its neighbour, or to the outlet where it has none.
fn connect_dir<G: FillGrid>(
    g: &mut SpillGraph,
    fill_grid: &G,
    offsets: &Vec<(TileCoord, (TLabel, usize))>,
    tiles: &[FillData],
    t: usize,
    c: TileCoord,
    moff: TLabel,
    d: usize,
    dir: Dir,
)
    requires
        tiles@ == fill_grid.spec_tiles(),
        t < tiles@.len(),
        c == coord_of(tiles@, t as int),
        d < 8,
        dir == dir_of(d as int),
        grid_consistent(*fill_grid),
        tiles_labelled(tiles@),
        offsets@ == super_offsets(tiles@),
        moff == tile_offset(tiles@, t as int),
        moff >= 1,
        moff == find_offset(offsets@, c)->0,
        tile_offset(tiles@, t + 1) == tile_offset(tiles@, t as int) + tiles@[t as int].spec_graph().len(),
        tile_offset(tiles@, t + 1) <= tile_offset(tiles@, tiles@.len() as int),
        old(g)@.len() == tile_offset(tiles@, tiles@.len() as int),
        old(g)@.len() <= u32::MAX,
    ensures
        final(g)@.len() == old(g)@.len(),
        graph_view(final(g)@) == note_links(
            graph_view(old(g)@),
            dir_links(*fill_grid, offsets@, t as int, d as int),
        ),
        links_within(dir_links(*fill_grid, offsets@, t as int, d as int), old(g)@.len() as int),
        keys_in(graph_view(old(g)@)) ==> keys_in(graph_view(final(g)@)),
        two_way_graph(graph_view(old(g)@)) ==> two_way_graph(graph_view(final(g)@)),
{
    let ghost gr = *fill_grid;
    let ghost ts = tiles@;
    let ghost offs = offsets@;
    let n = tiles.len();
    let ghost g0 = graph_view(g@);
        proof {
            assert(gr.spec_find(c) == Some(t as int));
            assert(tile_wf(ts[t as int]));
        }
        let (ml, me) = fill_grid.edge(&c, dir);
        let ghost fd = ts[t as int];
        let ghost m = fd.spec_tile_info().meta;
        proof {
            assert(tile_at(gr, c) == fd);
            crate::depfill::grid::lemma_skirt_order(m, d as int);
            assert forall|k: int| 0 <= k < ml@.len() implies #[trigger] ml@[k] + moff
                < tile_offset(ts, t + 1) by {
                assert(ml@[k] == fd.spec_label_edges()[crate::grid::skirt_start(m, d as int) + k]);
            }
        }
        match fill_grid.neighbour(&c, dir) {
            Some(nc) => {
                let ghost s = gr.spec_find(nc)->0;
                proof {
                    assert(gr.spec_neighbour(coord_of(ts, t as int), dir) == Some(nc));
                    assert(gr.spec_find(nc) is Some);
                    assert(coord_of(ts, s) == nc);
                    assert(s != t);
                    assert(tile_wf(ts[s]));
                }
                let rdir = dir.rev();
                proof {
                    assert(rdir == dir_of(rev_dir(d as int)));
                }
                let (nl, ne) = fill_grid.edge(&nc, rdir);
                proof {
                    assert forall|q: int| 0 <= q < s implies coord_of(ts, q) != coord_of(ts, s) by {
                        assert(gr.spec_find(coord_of(ts, q)) == Some(q));
                    }
                    lemma_find_offset(ts, s, 0);
                    lemma_tile_range(ts, s);
                    lemma_offset_mono(ts, s, n as int);
                    crate::depfill::grid::lemma_skirt_order(
                        ts[s].spec_tile_info().meta,
                        rev_dir(d as int),
                    );
                }
                let noff = match lookup_offset(offsets, &nc) {
                    Some(o) => o,
                    None => {
                        proof {
                            assert(false);
                        }
                        0
                    },
                };
                proof {
                    assert(0 <= s < n);
                    assert(tile_offset(ts, s) <= tile_offset(ts, n as int));
                    assert(tile_offset(ts, n as int) == old(g)@.len());
                    lemma_super_nodes_len(ts, s);
                    assert(find_offset(offs, nc) == Some(tile_offset(ts, s) as TLabel));
                    assert(noff == tile_offset(ts, s));
                    assert forall|k: int| 0 <= k < nl@.len() implies #[trigger] nl@[k] + noff
                        < tile_offset(ts, s + 1) by {
                        assert(nl@[k] == ts[s].spec_label_edges()[crate::grid::skirt_start(
                            ts[s].spec_tile_info().meta,
                            rev_dir(d as int),
                        ) + k]);
                    }
                    if s < t {
                        lemma_offset_mono(ts, s + 1, t as int);
                    } else {
                        lemma_offset_mono(ts, t + 1, s);
                    }
                }
                connect_across(
                    g,
                    ml,
                    me,
                    nl,
                    ne,
                    moff,
                    noff,
                    Ghost(tile_offset(ts, t as int)),
                    Ghost(tile_offset(ts, t + 1)),
                    Ghost(tile_offset(ts, s)),
                    Ghost(tile_offset(ts, s + 1)),
                );
                proof {
                    assert(dir_links(gr, offs, t as int, d as int) == cross_links(
                        ml@,
                        me@,
                        nl@,
                        ne@,
                        moff,
                        noff,
                        ml@.len() as int,
                    ));
                }
            },
            None => {
                connect_outlet(g, ml, me, moff);
            },
        }
}

impl SuperGraph {
    /// Joins the tiles of the supergraph where they meet: each cell of an
    /// edge of a tile is linked to the up to three cells facing it across
    /// the edge, at the higher of their elevations; edges of the whole grid
    /// are linked to the outlet node at their own elevation. A link only
    /// lowers the level noted between two nodes: every link joins nodes of
    /// the graph, and for a two-way graph no level rises, both directions of
    /// every link end at most at its level, and every level left is the
    /// graph's or a link's (`links_applied`).
    pub fn connect_edges<G: FillGrid>(self, fill_grid: &G) -> (r: Self)
        requires
            grid_consistent(*fill_grid),
            tiles_labelled(fill_grid.spec_tiles()),
            self.spec_offsets() == super_offsets(fill_grid.spec_tiles()),
            self.spec_graph().len() == tile_offset(
                fill_grid.spec_tiles(),
                fill_grid.spec_tiles().len() as int,
            ),
            self.spec_graph().len() <= u32::MAX,
        ensures
            r.spec_offsets() == self.spec_offsets(),
            r.spec_graph() == note_links(
                self.spec_graph(),
                grid_links(*fill_grid, self.spec_offsets(), fill_grid.spec_tiles().len() as int),
            ),
            r.spec_graph().len() == self.spec_graph().len(),
            keys_in(self.spec_graph()) ==> keys_in(r.spec_graph()),
            two_way_graph(self.spec_graph()) ==> two_way_graph(r.spec_graph()),
            links_within(
                grid_links(*fill_grid, self.spec_offsets(), fill_grid.spec_tiles().len() as int),
                self.spec_graph().len() as int,
            ),
            two_way_graph(self.spec_graph()) ==> links_applied(
                self.spec_graph(),
                grid_links(*fill_grid, self.spec_offsets(), fill_grid.spec_tiles().len() as int),
                r.spec_graph(),
            ),
    {
        let ghost g0 = graph_view(self.spill_graph@);
        let ghost offs = self.offsets@;
        let ghost gr = *fill_grid;
        let mut sg = self;
        let tiles = fill_grid.tiles();
        let ghost ts = tiles@;
        let n = tiles.len();
        let dirs = Dir::iter();
        let mut t: usize = 0;
        while t < n
            invariant
                gr == *fill_grid,
                ts == tiles@,
                ts == gr.spec_tiles(),
                n == ts.len(),
                t <= n,
                dirs@.len() == 8,
                forall|i: int| 0 <= i < 8 ==> #[trigger] dirs@[i] == dir_of(i),
                grid_consistent(gr),
                tiles_labelled(ts),
                offs == super_offsets(ts),
                sg.offsets@ == offs,
                sg.spill_graph@.len() == tile_offset(ts, n as int),
                sg.spill_graph@.len() <= u32::MAX,
                keys_in(g0) ==> keys_in(graph_view(sg.spill_graph@)),
                two_way_graph(g0) ==> two_way_graph(graph_view(sg.spill_graph@)),
                graph_view(sg.spill_graph@) == note_links(g0, grid_links(gr, offs, t as int)),
                links_within(grid_links(gr, offs, t as int), g0.len() as int),
                g0.len() == sg.spill_graph@.len(),
            decreases n - t,
        {
            let c = tiles[t].tile_info().tile_coord;
            proof {
                assert(c == coord_of(ts, t as int));
                assert forall|s: int| 0 <= s < t implies coord_of(ts, s) != coord_of(ts, t as int) by {
                    assert(gr.spec_find(coord_of(ts, s)) == Some(s));
                    assert(gr.spec_find(coord_of(ts, t as int)) == Some(t as int));
                }
                lemma_find_offset(ts, t as int, 0);
                lemma_tile_range(ts, t as int);
                lemma_offset_mono(ts, t as int, n as int);
                lemma_super_nodes_len(ts, t as int);
            }
            let moff = match lookup_offset(&sg.offsets, &c) {
                Some(o) => o,
                None => {
                    proof {
                        assert(false);
                    }
                    0
                },
            };
            let ghost prefix = grid_links(gr, offs, t as int);
            let mut d: usize = 0;
            while d < 8
                invariant
                    gr == *fill_grid,
                    ts == gr.spec_tiles(),
                    ts == tiles@,
                    n == ts.len(),
                    t < n,
                    c == coord_of(ts, t as int),
                    moff == tile_offset(ts, t as int),
                    moff >= 1,
                    moff == find_offset(offs, c)->0,
                    tile_offset(ts, t + 1) == tile_offset(ts, t as int) + ts[t as int].spec_graph().len(),
                    tile_offset(ts, t + 1) <= tile_offset(ts, n as int),
                    d <= 8,
                    dirs@.len() == 8,
                    forall|i: int| 0 <= i < 8 ==> #[trigger] dirs@[i] == dir_of(i),
                    grid_consistent(gr),
                    tiles_labelled(ts),
                    offs == super_offsets(ts),
                    sg.offsets@ == offs,
                    sg.spill_graph@.len() == tile_offset(ts, n as int),
                    sg.spill_graph@.len() <= u32::MAX,
                    prefix == grid_links(gr, offs, t as int),
                    keys_in(g0) ==> keys_in(graph_view(sg.spill_graph@)),
                    two_way_graph(g0) ==> two_way_graph(graph_view(sg.spill_graph@)),
                    graph_view(sg.spill_graph@) == note_links(
                        g0,
                        prefix + tile_links(gr, offs, t as int, d as int),
                    ),
                    links_within(prefix + tile_links(gr, offs, t as int, d as int), g0.len() as int),
                    g0.len() == sg.spill_graph@.len(),
                decreases 8 - d,
            {
                let dir = dirs[d];
                connect_dir(&mut sg.spill_graph, fill_grid, &sg.offsets, tiles, t, c, moff, d, dir);
                proof {
                    lemma_note_links_append(
                        g0,
                        prefix + tile_links(gr, offs, t as int, d as int),
                        dir_links(gr, offs, t as int, d as int),
                    );
                    assert(prefix + tile_links(gr, offs, t as int, d + 1) =~= prefix + tile_links(
                        gr,
                        offs,
                        t as int,
                        d as int,
                    ) + dir_links(gr, offs, t as int, d as int));
                    lemma_within_append(
                        prefix + tile_links(gr, offs, t as int, d as int),
                        dir_links(gr, offs, t as int, d as int),
                        g0.len() as int,
                    );
                }
                d = d + 1;
            }
            proof {
                assert(grid_links(gr, offs, t + 1) =~= prefix + tile_links(gr, offs, t as int, 8));
            }
            t = t + 1;
        }
        proof {
            if two_way_graph(g0) {
                lemma_note_links_applied(g0, grid_links(gr, offs, n as int));
            }
        }
        sg
    }
}

/// The supergraph of a grid of tiles: the tiles' graphs side by side,
/// joined where the tiles meet.
pub open spec fn supergraph_of<G: FillGrid>(g: G) -> Seq<Map<TLabel, u64>> {
    let tiles = g.spec_tiles();
    note_links(
        super_nodes(tiles, tiles.len() as int),
        grid_links(g, super_offsets(tiles), tiles.len() as int),
    )
}

/// `e` is the level node `v` of graph `g` is filled to when water leaves
/// through node 0 at `floor`: its fill elevation when it is connected to
/// node 0, else `zero`.
pub open spec fn graph_level(g: Seq<Map<TLabel, u64>>, floor: u64, zero: u64, v: int, e: u64) -> bool {
    if reachable(g, v) {
        is_fill_elev(g, floor, v, e)
    } else {
        e == zero
    }
}

/// Fills the supergraph of a grid of tiles and gives, for each tile, the
/// level to raise each of its watersheds to: the lowest level at which
/// water from it leaves the whole grid. Watersheds that cannot reach the
/// edge of the grid get `zero`.
pub fn fill_supergraph<G: FillGrid>(graph_grid: G, floor: u64, zero: u64) -> (r: Vec<(TileInfo, Vec<u64>)>)
    requires
        forall|t: int|
            0 <= t < graph_grid.spec_tiles().len() ==> one_way(
                #[trigger] graph_grid.spec_tiles()[t].spec_graph(),
            ),
        tile_offset(graph_grid.spec_tiles(), graph_grid.spec_tiles().len() as int) < u32::MAX,
        grid_consistent(graph_grid),
        tiles_labelled(graph_grid.spec_tiles()),
    ensures
        r@.len() == graph_grid.spec_tiles().len(),
        forall|t: int|
            0 <= t < graph_grid.spec_tiles().len() ==> {
                let tiles = graph_grid.spec_tiles();
                &&& (#[trigger] r@[t]).0 == tile_at(graph_grid, coord_of(tiles, t)).spec_tile_info()
                &&& r@[t].1@.len() == tiles[t].spec_graph().len()
                &&& forall|k: int|
                    0 <= k < tiles[t].spec_graph().len() ==> graph_level(
                        supergraph_of(graph_grid),
                        floor,
                        zero,
                        tile_offset(tiles, t) + k,
                        r@[t].1@[k],
                    )
            },
{
    let ghost tiles = graph_grid.spec_tiles();
    let ghost n = tiles.len() as int;
    let sg = SuperGraph::from_grid(&graph_grid).connect_edges(&graph_grid);
    let ghost gv = sg.spec_graph();
    proof {
        assert(gv == supergraph_of(graph_grid));
        lemma_super_nodes_len(tiles, n);
    }
    let graph = sg.spill_graph();
    let len = graph.len();
    let mut elevs: Vec<u64> = Vec::new();
    let mut k: usize = 0;
    while k < len
        invariant
            k <= len,
            elevs@.len() == k,
            forall|i: int| 0 <= i < k ==> #[trigger] elevs@[i] == zero,
        decreases len - k,
    {
        elevs.push(zero);
        k = k + 1;
    }
    proof {
        assert(graph_view(graph@) == gv);
        assert(graph_wf(gv));
    }
    let _order = fill_graph(graph.as_slice(), elevs.as_mut_slice(), floor);
    let ghost order = _order@;
    let tile_list = graph_grid.tiles();
    let offsets = sg.offsets();
    let mut res: Vec<(TileInfo, Vec<u64>)> = Vec::new();
    let mut t: usize = 0;
    while t < offsets.len()
        invariant
            tiles == graph_grid.spec_tiles(),
            tile_list@ == tiles,
            offsets@ == super_offsets(tiles),
            n == tiles.len(),
            grid_consistent(graph_grid),
            gv == supergraph_of(graph_grid),
            gv.len() == tile_offset(tiles, n),
            tile_offset(tiles, n) < u32::MAX,
            elevs@.len() == gv.len(),
            order.len() == gv.len(),
            forall|v: int| 0 <= v < gv.len() ==> (#[trigger] order[v] != UNPROCESSED <==> reachable(gv, v)),
            forall|v: int|
                0 <= v < gv.len() && order[v] != UNPROCESSED ==> #[trigger] is_fill_elev(
                    gv,
                    floor,
                    v,
                    elevs@[v],
                ),
            forall|v: int| 0 <= v < gv.len() && order[v] == UNPROCESSED ==> #[trigger] elevs@[v] == zero,
            t <= n,
            res@.len() == t,
            forall|q: int|
                0 <= q < t ==> {
                    &&& (#[trigger] res@[q]).0 == tile_at(graph_grid, coord_of(tiles, q)).spec_tile_info()
                    &&& res@[q].1@.len() == tiles[q].spec_graph().len()
                    &&& forall|k: int|
                        0 <= k < tiles[q].spec_graph().len() ==> graph_level(
                            gv,
                            floor,
                            zero,
                            tile_offset(tiles, q) + k,
                            res@[q].1@[k],
                        )
                },
        decreases n - t,
    {
        let coord = offsets[t].0;
        let start = offsets[t].1.0 as usize;
        let count = offsets[t].1.1;
        proof {
            lemma_tile_range(tiles, t as int);
            lemma_super_nodes_len(tiles, t as int);
            lemma_offset_mono(tiles, t as int, n);
            assert(coord == coord_of(tiles, t as int));
            assert(graph_grid.spec_find(coord) == Some(t as int));
        }
        let fd = graph_grid.tile(&coord);
        let info = *fd.tile_info();
        proof {
            assert(start == tile_offset(tiles, t as int));
            assert(count == tiles[t as int].spec_graph().len());
            assert(start + count <= elevs@.len());
        }
        let mut part: Vec<u64> = Vec::new();
        let mut i: usize = 0;
        while i < count
            invariant
                i <= count,
                start + count <= elevs@.len(),
                start + count < u32::MAX,
                part@ =~= elevs@.subrange(start as int, start + i),
            decreases count - i,
        {
            part.push(elevs[start + i]);
            i = i + 1;
        }
        proof {
            assert forall|k: int| 0 <= k < count implies graph_level(
                gv,
                floor,
                zero,
                tile_offset(tiles, t as int) + k,
                part@[k],
            ) by {
                let v = tile_offset(tiles, t as int) + k;
                assert(part@[k] == elevs@[v]);
                if order[v] != UNPROCESSED {
                } else {
                }
            }
        }
        res.push((info, part));
        t = t + 1;
    }
    res
}

} // verus!
