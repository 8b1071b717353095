//! Depression filling by priority flood with an epsilon gradient, after
//! Wei et al. (2018).
//!
//! Starting from the edge of the grid, cells are visited lowest first. A
//! neighbour that lies no higher than the cell it is reached from is raised
//! to the next representable elevation above it, so that it still drains,
//! and the depression it belongs to is filled by a breadth-first search; a
//! higher neighbour starts a trace upslope that needs no priority queue
//! until it meets a cell that is not higher.
use vstd::prelude::*;
use vstd::multiset::Multiset;

use std::collections::VecDeque;

use crate::depfill::zhou::nbr;
use crate::elev::{lemma_next_up64, next_up64, NextUp, NEG_INF64, POS_INF64};
use crate::error::{ErrorStatus, GridError, GridErrorKind};
use crate::grid::{lemma_cell_index_bound, nshift_of, xshift, yshift, GridMeta};
use crate::queue::{rank_gt, MaxQueue, Ranked};
use crate::sflow::lemma_distinct_len;

verus! {

/// A cell and the elevation it is queued with.
#[derive(Clone, Copy)]
pub struct CellZ {
    /// The cell's flat index.
    pub i: usize,
    /// The elevation the cell is queued with.
    pub z: u64,
}

impl Ranked for CellZ {
    open spec fn rank(&self) -> (int, int) {
        (-(self.z as int), 0)
    }

    fn outranks(&self, other: &Self) -> (r: bool) {
        self.z < other.z
    }
}

/// Cell `c` lies on the outer ring of the grid.
pub open spec fn is_edge_at(m: GridMeta, c: int) -> bool {
    m.spec_is_edge_cell(c % (m.spec_width() as int), c / (m.spec_width() as int))
}

/// The elevation key stands for a number, not for positive infinity or a
/// NaN: stepping up from it gives a greater key.
pub open spec fn finite64(v: u64) -> bool {
    NEG_INF64 <= v < POS_INF64
}

/// Cell `c` passes its water on to its neighbour in direction `d`: the
/// neighbour comes earlier in `rank`, is not higher, and is lower where the
/// elevation of `c` is finite.
pub open spec fn drains_via(m: GridMeta, dem: Seq<u64>, rank: Seq<nat>, c: int, d: int) -> bool {
    match nbr(m, c, d) {
        Some(p) => rank[p as int] < rank[c] && dem[p as int] <= dem[c] && (finite64(dem[c]) ==> dem[p as int]
            < dem[c]),
        None => false,
    }
}

/// `dem` has no pits: every cell off the edge passes its water on to a
/// neighbour that comes earlier in `rank`, so that following neighbours
/// leads to the edge without ever climbing.
pub open spec fn drain_ranked(m: GridMeta, dem: Seq<u64>, rank: Seq<nat>) -> bool {
    &&& rank.len() == m.spec_size()
    &&& forall|c: int|
        0 <= c < m.spec_size() && !is_edge_at(m, c) ==> exists|d: int|
            0 <= d < 8 && #[trigger] drains_via(m, dem, rank, c, d)
}

/// All neighbours of `c` on the grid are flagged.
pub open spec fn all_nbrs_flagged(m: GridMeta, flag: Seq<bool>, c: int) -> bool {
    forall|d: int| 0 <= d < 8 ==> match #[trigger] nbr(m, c, d) {
        Some(n) => flag[n as int],
        None => true,
    }
}

/// Some node of queue `q` is for cell `c`.
pub open spec fn seq_has(q: Seq<CellZ>, c: int) -> bool {
    exists|k: int| 0 <= k < q.len() && #[trigger] q[k].i == c
}

/// Some node of the priority queue `q` is for cell `c`.
pub open spec fn ms_has(q: Multiset<CellZ>, c: int) -> bool {
    exists|n: CellZ| #[trigger] q.count(n) > 0 && n.i == c
}

/// Every node of `q` is for a flagged cell, queued no lower than the cell
/// lies, and, where `inner`, off the edge.
pub open spec fn seq_nodes_ok(m: GridMeta, dem: Seq<u64>, flag: Seq<bool>, q: Seq<CellZ>, inner: bool) -> bool {
    forall|k: int|
        0 <= k < q.len() ==> #[trigger] q[k].i < m.spec_size() && flag[q[k].i as int] && q[k].z
            >= dem[q[k].i as int] && (inner ==> !is_edge_at(m, q[k].i as int))
}

/// Every node of the priority queue is for a flagged cell, queued no lower
/// than the cell lies.
pub open spec fn ms_nodes_ok(m: GridMeta, dem: Seq<u64>, flag: Seq<bool>, q: Multiset<CellZ>) -> bool {
    forall|n: CellZ|
        #[trigger] q.count(n) > 0 ==> n.i < m.spec_size() && flag[n.i as int] && n.z >= dem[n.i as int]
}

/// Queue node `n` carries the elevation of its cell, or, for a cell off
/// the edge, the next elevation above it.
pub open spec fn key_ok(m: GridMeta, dem: Seq<u64>, n: CellZ) -> bool {
    n.z == dem[n.i as int] || (n.z == next_up64(dem[n.i as int]) && !is_edge_at(m, n.i as int))
}

/// Every node of queue `q` carries a key as `key_ok` says.
pub open spec fn seq_keys_ok(m: GridMeta, dem: Seq<u64>, q: Seq<CellZ>) -> bool {
    forall|k: int| 0 <= k < q.len() ==> key_ok(m, dem, #[trigger] q[k])
}

/// Every node of the priority queue `q` carries a key as `key_ok` says.
pub open spec fn ms_keys_ok(m: GridMeta, dem: Seq<u64>, q: Multiset<CellZ>) -> bool {
    forall|n: CellZ| #[trigger] q.count(n) > 0 ==> key_ok(m, dem, n)
}

/// Cell `c` stands one elevation step above its neighbour `p` in direction
/// `d`, or two steps where `p` lies off the edge.
pub open spec fn raised_from(m: GridMeta, dem: Seq<u64>, c: int, d: int) -> bool {
    match nbr(m, c, d) {
        Some(p) => dem[c] == next_up64(dem[p as int]) || (dem[c] == next_up64(next_up64(dem[p as int]))
            && !is_edge_at(m, p as int)),
        None => false,
    }
}

/// `raised_from`, with the neighbour flagged.
pub open spec fn raised_via(m: GridMeta, dem: Seq<u64>, flag: Seq<bool>, c: int, d: int) -> bool {
    raised_from(m, dem, c, d) && flag[nbr(m, c, d)->0 as int]
}

/// Every flagged cell that was raised stands a step above a flagged
/// neighbour, the one it was reached from.
pub open spec fn raised_ok(m: GridMeta, dem0: Seq<u64>, dem: Seq<u64>, flag: Seq<bool>) -> bool {
    forall|c: int|
        0 <= c < m.spec_size() && flag[c] && #[trigger] dem[c] != dem0[c] ==> exists|d: int|
            0 <= d < 8 && #[trigger] raised_via(m, dem, flag, c, d)
}

/// The state of the flood: cells only rise once flagged and never before,
/// the edge is flagged and kept, every flagged cell off the edge passes its
/// water to an earlier flagged neighbour, every flagged cell whose
/// neighbours are not all flagged is queued or being processed, and
/// `visited` lists the flagged cells once each.
#[verifier::opaque]
pub open spec fn flood_inv(
    m: GridMeta,
    dem0: Seq<u64>,
    dem: Seq<u64>,
    flag: Seq<bool>,
    ord: Seq<nat>,
    visited: Seq<usize>,
    pq: Multiset<CellZ>,
    tq: Seq<CellZ>,
    dq: Seq<CellZ>,
    pot: Seq<CellZ>,
    cur: Multiset<int>,
) -> bool {
    let size = m.spec_size() as int;
    &&& m.wf()
    &&& size <= isize::MAX
    &&& dem0.len() == size
    &&& dem.len() == size
    &&& flag.len() == size
    &&& ord.len() == size
    &&& forall|c: int| 0 <= c < size && !#[trigger] flag[c] ==> dem[c] == dem0[c]
    &&& forall|c: int| 0 <= c < size && #[trigger] flag[c] ==> dem[c] >= dem0[c]
    &&& forall|c: int| 0 <= c < size && #[trigger] is_edge_at(m, c) ==> flag[c] && dem[c] == dem0[c]
    &&& forall|c: int|
        0 <= c < size && #[trigger] flag[c] && !is_edge_at(m, c) ==> exists|d: int|
            0 <= d < 8 && #[trigger] drains_via(m, dem, ord, c, d) && flag[nbr(m, c, d)->0 as int]
    &&& forall|c: int| 0 <= c < size && #[trigger] flag[c] ==> ord[c] < visited.len()
    &&& forall|c: int|
        0 <= c < size && #[trigger] flag[c] && !all_nbrs_flagged(m, flag, c) ==> ms_has(pq, c) || seq_has(
            tq,
            c,
        ) || seq_has(dq, c) || seq_has(pot, c) || cur.count(c) > 0
    &&& ms_nodes_ok(m, dem, flag, pq)
    &&& seq_nodes_ok(m, dem, flag, tq, true)
    &&& seq_nodes_ok(m, dem, flag, dq, true)
    &&& seq_nodes_ok(m, dem, flag, pot, true)
    &&& ms_keys_ok(m, dem, pq)
    &&& seq_keys_ok(m, dem, tq)
    &&& seq_keys_ok(m, dem, dq)
    &&& seq_keys_ok(m, dem, pot)
    &&& raised_ok(m, dem0, dem, flag)
    &&& visited.no_duplicates()
    &&& forall|q: int| 0 <= q < visited.len() ==> #[trigger] visited[q] < size
    &&& forall|c: int| 0 <= c < size ==> (#[trigger] flag[c] <==> visited.contains(c as usize))
}

/// The measure that every step of the flood lowers or keeps: unflagged
/// cells weigh most, then trace and depression nodes, then potential ones,
/// then the priority queue's.
pub open spec fn flood_weight(
    m: GridMeta,
    visited: Seq<usize>,
    pq: Multiset<CellZ>,
    tq: Seq<CellZ>,
    dq: Seq<CellZ>,
    pot: Seq<CellZ>,
) -> int {
    4 * (m.spec_size() - visited.len()) + 3 * (tq.len() + dq.len()) + 2 * pot.len() + pq.len()
}


/// Neighbourhood is symmetric.
proof fn lemma_nbr_rev(m: GridMeta, c: int, d: int)
    requires
        m.wf(),
        0 <= c < m.spec_size(),
        0 <= d < 8,
        nbr(m, c, d) is Some,
    ensures
        nbr(m, c, d)->0 < m.spec_size(),
        nbr(m, nbr(m, c, d)->0 as int, crate::grid::rev_dir(d)) == Some(c as usize),
{
    let w = m.spec_width() as int;
    let h = m.spec_height() as int;
    assert(w > 0) by (nonlinear_arith)
        requires
            m.spec_size() == w * h,
            0 <= c < m.spec_size(),
            h >= 0,
    ;
    let x = c % w;
    let y = c / w;
    assert(c == x + y * w && 0 <= x < w && 0 <= y < h) by (nonlinear_arith)
        requires
            w > 0,
            x == c % w,
            y == c / w,
            0 <= c < w * h,
    ;
    let nx = x + xshift(d);
    let ny = y + yshift(d);
    let k = nx + ny * w;
    lemma_cell_index_bound(w, h, nx, ny);
    assert(k % w == nx && k / w == ny) by (nonlinear_arith)
        requires
            w > 0,
            0 <= nx < w,
            0 <= ny,
            k == nx + ny * w,
    ;
    let r = crate::grid::rev_dir(d);
    assert(0 <= r < 8 && xshift(r) == -xshift(d) && yshift(r) == -yshift(d));
}

/// Off the edge, every direction leads to a cell of the grid, at the flat
/// offset of that direction.
proof fn lemma_interior_nbr(m: GridMeta, c: int, d: int)
    requires
        m.wf(),
        0 <= c < m.spec_size(),
        !is_edge_at(m, c),
        0 <= d < 8,
    ensures
        nbr(m, c, d) == Some((c + nshift_of(m.spec_width() as int, d)) as usize),
        0 <= c + nshift_of(m.spec_width() as int, d) < m.spec_size(),
{
    let w = m.spec_width() as int;
    let h = m.spec_height() as int;
    assert(w > 0) by (nonlinear_arith)
        requires
            m.spec_size() == w * h,
            0 <= c < m.spec_size(),
            h >= 0,
    ;
    let x = c % w;
    let y = c / w;
    assert(c == x + y * w && 0 <= x < w && 0 <= y < h) by (nonlinear_arith)
        requires
            w > 0,
            x == c % w,
            y == c / w,
            0 <= c < w * h,
    ;
    let nx = x + xshift(d);
    let ny = y + yshift(d);
    lemma_cell_index_bound(w, h, nx, ny);
    assert(yshift(d) * w == if yshift(d) < 0 {
        -w
    } else if yshift(d) == 0 {
        0
    } else {
        w
    }) by (nonlinear_arith)
        requires
            yshift(d) == -1 || yshift(d) == 0 || yshift(d) == 1,
    ;
    assert(nx + ny * w == c + nshift_of(w, d)) by (nonlinear_arith)
        requires
            c == x + y * w,
            nx == x + xshift(d),
            ny == y + yshift(d),
            nshift_of(w, d) == xshift(d) + yshift(d) * w,
    ;
}

/// Popping a queue's front node keeps its other cells queued.
proof fn lemma_seq_has_pop(q: Seq<CellZ>, c: int)
    requires
        q.len() > 0,
        seq_has(q, c),
    ensures
        seq_has(q.subrange(1, q.len() as int), c) || q[0].i == c,
{
    let k = choose|k: int| 0 <= k < q.len() && #[trigger] q[k].i == c;
    if k > 0 {
        assert(q.subrange(1, q.len() as int)[k - 1].i == c);
    }
}

/// Pushing a node keeps the queued cells queued and queues the node's.
proof fn lemma_seq_has_push(q: Seq<CellZ>, n: CellZ, c: int)
    ensures
        seq_has(q, c) ==> seq_has(q.push(n), c),
        seq_has(q.push(n), n.i as int),
{
    if seq_has(q, c) {
        let k = choose|k: int| 0 <= k < q.len() && #[trigger] q[k].i == c;
        assert(q.push(n)[k].i == c);
    }
    assert(q.push(n)[q.len() as int].i == n.i);
}


/// Flagging an unflagged neighbour `ni` (in direction `d`) of a flagged
/// cell `x.i` that lies higher than `x` is queued starts a trace from it.
proof fn lemma_flag_trace(
    m: GridMeta,
    dem0: Seq<u64>,
    dem: Seq<u64>,
    flag: Seq<bool>,
    ord: Seq<nat>,
    visited: Seq<usize>,
    pq: Multiset<CellZ>,
    tq: Seq<CellZ>,
    dq: Seq<CellZ>,
    pot: Seq<CellZ>,
    cur: Multiset<int>,
    x: CellZ,
    d: int,
    zt: u64,
)
    requires
        flood_inv(m, dem0, dem, flag, ord, visited, pq, tq, dq, pot, cur),
        x.i < m.spec_size(),
        flag[x.i as int],
        x.z >= dem[x.i as int],
        0 <= d < 8,
        nbr(m, x.i as int, d) is Some,
        !flag[nbr(m, x.i as int, d)->0 as int],
        dem[nbr(m, x.i as int, d)->0 as int] > x.z,
        zt >= dem[nbr(m, x.i as int, d)->0 as int],
        zt == dem[nbr(m, x.i as int, d)->0 as int] || zt == next_up64(dem[nbr(m, x.i as int, d)->0 as int]),
    ensures
        ({
            let ni = nbr(m, x.i as int, d)->0;
            &&& ni < m.spec_size()
            &&& !is_edge_at(m, ni as int)
            &&& !visited.contains(ni)
            &&& flood_inv(
                m,
                dem0,
                dem,
                flag.update(ni as int, true),
                ord.update(ni as int, visited.len()),
                visited.push(ni),
                pq,
                tq.push(CellZ { i: ni, z: zt }),
                dq,
                pot,
                cur,
            )
        }),
{
    reveal(flood_inv);
    lemma_flag_common(m, dem0, dem, flag, ord, visited, pq, tq, dq, pot, cur, x, d);
    let ni = nbr(m, x.i as int, d)->0;
    let node = CellZ { i: ni, z: zt };
    let flag1 = flag.update(ni as int, true);
    let ord1 = ord.update(ni as int, visited.len());
    let tq1 = tq.push(node);
    assert forall|c: int|
        0 <= c < m.spec_size() && #[trigger] flag1[c] && !all_nbrs_flagged(m, flag1, c) implies ms_has(
        pq,
        c,
    ) || seq_has(tq1, c) || seq_has(dq, c) || seq_has(pot, c) || cur.count(c) > 0 by {
        lemma_seq_has_push(tq, node, c);
        if c != ni as int {
            lemma_flagged_more(m, flag, flag1, c);
        }
    }
    assert forall|k: int| 0 <= k < tq1.len() implies #[trigger] tq1[k].i < m.spec_size() && flag1[tq1[k].i as int]
        && tq1[k].z >= dem[tq1[k].i as int] && (true ==> !is_edge_at(m, tq1[k].i as int)) by {
        if k < tq.len() {
            assert(tq1[k] == tq[k]);
        }
    }
    assert forall|k: int| 0 <= k < tq1.len() implies key_ok(m, dem, #[trigger] tq1[k]) by {
        if k < tq.len() {
            assert(tq1[k] == tq[k]);
        }
    }
    assert(!flag[ni as int] && dem[ni as int] == dem0[ni as int]);
    lemma_raised_more(m, dem0, dem, flag, flag1);
    lemma_nodes_keep(m, dem, flag, flag1, pq, dq, pot);
}

/// Raising an unflagged neighbour `ni` (in direction `d`) of a flagged cell
/// `x.i` that lies no higher than `x` is queued to the next elevation above
/// that, and queueing it as part of the depression.
proof fn lemma_flag_depression(
    m: GridMeta,
    dem0: Seq<u64>,
    dem: Seq<u64>,
    flag: Seq<bool>,
    ord: Seq<nat>,
    visited: Seq<usize>,
    pq: Multiset<CellZ>,
    tq: Seq<CellZ>,
    dq: Seq<CellZ>,
    pot: Seq<CellZ>,
    cur: Multiset<int>,
    x: CellZ,
    d: int,
)
    requires
        flood_inv(m, dem0, dem, flag, ord, visited, pq, tq, dq, pot, cur),
        x.i < m.spec_size(),
        flag[x.i as int],
        x.z >= dem[x.i as int],
        0 <= d < 8,
        nbr(m, x.i as int, d) is Some,
        !flag[nbr(m, x.i as int, d)->0 as int],
        dem[nbr(m, x.i as int, d)->0 as int] <= x.z,
        key_ok(m, dem, x),
    ensures
        ({
            let ni = nbr(m, x.i as int, d)->0;
            let zu = next_up64(x.z);
            &&& ni < m.spec_size()
            &&& !is_edge_at(m, ni as int)
            &&& !visited.contains(ni)
            &&& flood_inv(
                m,
                dem0,
                dem.update(ni as int, zu),
                flag.update(ni as int, true),
                ord.update(ni as int, visited.len()),
                visited.push(ni),
                pq,
                tq,
                dq.push(CellZ { i: ni, z: zu }),
                pot,
                cur,
            )
        }),
{
    reveal(flood_inv);
    let ni = nbr(m, x.i as int, d)->0;
    let zu = next_up64(x.z);
    lemma_next_up64(x.z);
    lemma_nbr_rev(m, x.i as int, d);
    let dem1 = dem.update(ni as int, zu);
    let node = CellZ { i: ni, z: zu };
    let flag1 = flag.update(ni as int, true);
    let ord1 = ord.update(ni as int, visited.len());
    let visited1 = visited.push(ni);
    let dq1 = dq.push(node);
    assert(!is_edge_at(m, ni as int));
    assert(!visited.contains(ni));
    assert(ni as int != x.i as int);
    // the new cell drains into the cell it was reached from
    let rd = crate::grid::rev_dir(d);
    assert(drains_via(m, dem1, ord1, ni as int, rd)) by {
        assert(nbr(m, ni as int, rd) == Some(x.i));
        if finite64(zu) {
            assert(NEG_INF64 <= x.z < POS_INF64);
        }
    }
    assert forall|c: int|
        0 <= c < m.spec_size() && #[trigger] flag1[c] && !is_edge_at(m, c) implies exists|e: int|
        0 <= e < 8 && #[trigger] drains_via(m, dem1, ord1, c, e) && flag1[nbr(m, c, e)->0 as int] by {
        if c == ni as int {
            assert(drains_via(m, dem1, ord1, c, rd) && flag1[nbr(m, c, rd)->0 as int]);
        } else {
            let e = choose|e: int| 0 <= e < 8 && #[trigger] drains_via(m, dem, ord, c, e) && flag[nbr(m, c, e)->0 as int];
            let p = nbr(m, c, e)->0;
            lemma_nbr_rev(m, c, e);
            assert(p != ni);
            assert(drains_via(m, dem1, ord1, c, e));
        }
    }
    assert forall|c: int|
        0 <= c < m.spec_size() && #[trigger] flag1[c] && !all_nbrs_flagged(m, flag1, c) implies ms_has(
        pq,
        c,
    ) || seq_has(tq, c) || seq_has(dq1, c) || seq_has(pot, c) || cur.count(c) > 0 by {
        lemma_seq_has_push(dq, node, c);
        if c != ni as int {
            lemma_flagged_more(m, flag, flag1, c);
        }
    }
    assert forall|n: CellZ| #[trigger] pq.count(n) > 0 implies n.i < m.spec_size() && flag1[n.i as int] && n.z
        >= dem1[n.i as int] by {
        assert(flag[n.i as int]);
    }
    assert forall|k: int| 0 <= k < tq.len() implies #[trigger] tq[k].i < m.spec_size() && flag1[tq[k].i as int]
        && tq[k].z >= dem1[tq[k].i as int] && (true ==> !is_edge_at(m, tq[k].i as int)) by {
        assert(flag[tq[k].i as int]);
    }
    assert forall|k: int| 0 <= k < pot.len() implies #[trigger] pot[k].i < m.spec_size() && flag1[pot[k].i as int]
        && pot[k].z >= dem1[pot[k].i as int] && (true ==> !is_edge_at(m, pot[k].i as int)) by {
        assert(flag[pot[k].i as int]);
    }
    assert forall|k: int| 0 <= k < dq1.len() implies #[trigger] dq1[k].i < m.spec_size() && flag1[dq1[k].i as int]
        && dq1[k].z >= dem1[dq1[k].i as int] && (true ==> !is_edge_at(m, dq1[k].i as int)) by {
        if k < dq.len() {
            assert(dq1[k] == dq[k]);
            assert(flag[dq[k].i as int]);
        }
    }
    assert forall|c: int| 0 <= c < m.spec_size() implies (#[trigger] flag1[c] <==> visited1.contains(c as usize)) by {
        if c != ni as int {
            if visited1.contains(c as usize) {
                let q = choose|q: int| 0 <= q < visited1.len() && visited1[q] == c as usize;
                assert(q < visited.len());
                assert(visited[q] == c as usize);
            }
            if flag[c] {
                assert(visited.contains(c as usize));
                let q = choose|q: int| 0 <= q < visited.len() && visited[q] == c as usize;
                assert(visited1[q] == c as usize);
            }
        } else {
            assert(visited1[visited.len() as int] == ni);
        }
    }
    // keys stay: every queued cell is flagged, so it is not the raised one
    assert forall|n: CellZ| #[trigger] pq.count(n) > 0 implies key_ok(m, dem1, n) by {
        assert(flag[n.i as int]);
    }
    assert forall|k: int| 0 <= k < tq.len() implies key_ok(m, dem1, #[trigger] tq[k]) by {
        assert(flag[tq[k].i as int]);
    }
    assert forall|k: int| 0 <= k < pot.len() implies key_ok(m, dem1, #[trigger] pot[k]) by {
        assert(flag[pot[k].i as int]);
    }
    assert forall|k: int| 0 <= k < dq1.len() implies key_ok(m, dem1, #[trigger] dq1[k]) by {
        if k < dq.len() {
            assert(dq1[k] == dq[k]);
            assert(flag[dq[k].i as int]);
        }
    }
    // the raised cell stands a step above the cell it was reached from
    assert(flag[x.i as int] && x.i as int != ni as int);
    assert(dem1[x.i as int] == dem[x.i as int]);
    assert(raised_via(m, dem1, flag1, ni as int, rd)) by {
        assert(nbr(m, ni as int, rd) == Some(x.i));
    }
    assert forall|c: int| 0 <= c < m.spec_size() && flag1[c] && #[trigger] dem1[c] != dem0[c] implies exists|e: int|
        0 <= e < 8 && #[trigger] raised_via(m, dem1, flag1, c, e) by {
        if c == ni as int {
            assert(raised_via(m, dem1, flag1, c, rd));
        } else {
            assert(flag[c] && dem[c] != dem0[c]);
            let e = choose|e: int| 0 <= e < 8 && #[trigger] raised_via(m, dem, flag, c, e);
            crate::depfill::zhou::lemma_nbr(m, c, e);
            let p = nbr(m, c, e)->0;
            assert(flag[p as int]);
            assert(p != ni);
            assert(raised_via(m, dem1, flag1, c, e));
        }
    }
}

/// The part shared by flagging a cell: where the flagged cell lies, that it
/// drains into the cell it was reached from, and that all other flagged
/// cells keep draining and stay listed.
proof fn lemma_flag_common(
    m: GridMeta,
    dem0: Seq<u64>,
    dem: Seq<u64>,
    flag: Seq<bool>,
    ord: Seq<nat>,
    visited: Seq<usize>,
    pq: Multiset<CellZ>,
    tq: Seq<CellZ>,
    dq: Seq<CellZ>,
    pot: Seq<CellZ>,
    cur: Multiset<int>,
    x: CellZ,
    d: int,
)
    requires
        flood_inv(m, dem0, dem, flag, ord, visited, pq, tq, dq, pot, cur),
        x.i < m.spec_size(),
        flag[x.i as int],
        x.z >= dem[x.i as int],
        0 <= d < 8,
        nbr(m, x.i as int, d) is Some,
        !flag[nbr(m, x.i as int, d)->0 as int],
        dem[nbr(m, x.i as int, d)->0 as int] > x.z,
    ensures
        ({
            let ni = nbr(m, x.i as int, d)->0;
            let flag1 = flag.update(ni as int, true);
            let ord1 = ord.update(ni as int, visited.len());
            let visited1 = visited.push(ni);
            &&& ni < m.spec_size()
            &&& !is_edge_at(m, ni as int)
            &&& !visited.contains(ni)
            &&& forall|c: int|
                0 <= c < m.spec_size() && #[trigger] flag1[c] && !is_edge_at(m, c) ==> exists|e: int|
                    0 <= e < 8 && #[trigger] drains_via(m, dem, ord1, c, e) && flag1[nbr(m, c, e)->0 as int]
            &&& forall|c: int| 0 <= c < m.spec_size() ==> (#[trigger] flag1[c] <==> visited1.contains(c as usize))
            &&& forall|c: int| 0 <= c < m.spec_size() && #[trigger] flag1[c] ==> ord1[c] < visited1.len()
        }),
{
    reveal(flood_inv);
    let ni = nbr(m, x.i as int, d)->0;
    lemma_nbr_rev(m, x.i as int, d);
    let flag1 = flag.update(ni as int, true);
    let ord1 = ord.update(ni as int, visited.len());
    let visited1 = visited.push(ni);
    assert(!is_edge_at(m, ni as int));
    assert(!visited.contains(ni));
    assert(ni as int != x.i as int);
    let rd = crate::grid::rev_dir(d);
    assert(drains_via(m, dem, ord1, ni as int, rd)) by {
        assert(nbr(m, ni as int, rd) == Some(x.i));
    }
    assert forall|c: int|
        0 <= c < m.spec_size() && #[trigger] flag1[c] && !is_edge_at(m, c) implies exists|e: int|
        0 <= e < 8 && #[trigger] drains_via(m, dem, ord1, c, e) && flag1[nbr(m, c, e)->0 as int] by {
        if c == ni as int {
            assert(drains_via(m, dem, ord1, c, rd) && flag1[nbr(m, c, rd)->0 as int]);
        } else {
            let e = choose|e: int| 0 <= e < 8 && #[trigger] drains_via(m, dem, ord, c, e) && flag[nbr(m, c, e)->0 as int];
            let p = nbr(m, c, e)->0;
            lemma_nbr_rev(m, c, e);
            assert(p != ni);
            assert(drains_via(m, dem, ord1, c, e));
        }
    }
    assert forall|c: int| 0 <= c < m.spec_size() implies (#[trigger] flag1[c] <==> visited1.contains(c as usize)) by {
        if c != ni as int {
            if visited1.contains(c as usize) {
                let q = choose|q: int| 0 <= q < visited1.len() && visited1[q] == c as usize;
                assert(q < visited.len());
                assert(visited[q] == c as usize);
            }
            if flag[c] {
                assert(visited.contains(c as usize));
                let q = choose|q: int| 0 <= q < visited.len() && visited[q] == c as usize;
                assert(visited1[q] == c as usize);
            }
        } else {
            assert(visited1[visited.len() as int] == ni);
        }
    }
}

/// Flagging a cell leaves a cell whose neighbours were all flagged so.
proof fn lemma_flagged_more(m: GridMeta, flag: Seq<bool>, flag1: Seq<bool>, c: int)
    requires
        flag.len() == flag1.len(),
        forall|k: int| 0 <= k < flag.len() && #[trigger] flag[k] ==> flag1[k],
        m.wf(),
        flag.len() == m.spec_size(),
        0 <= c < m.spec_size(),
    ensures
        all_nbrs_flagged(m, flag, c) ==> all_nbrs_flagged(m, flag1, c),
{
    if all_nbrs_flagged(m, flag, c) {
        assert forall|d: int| 0 <= d < 8 implies match #[trigger] nbr(m, c, d) {
            Some(n) => flag1[n as int],
            None => true,
        } by {
            match nbr(m, c, d) {
                Some(n) => {
                    crate::depfill::zhou::lemma_nbr(m, c, d);
                    assert(flag[n as int]);
                },
                None => {},
            }
        }
    }
}

/// Flagging more cells, none of them raised, keeps every raised flagged
/// cell a step above a flagged neighbour.
proof fn lemma_raised_more(m: GridMeta, dem0: Seq<u64>, dem: Seq<u64>, flag: Seq<bool>, flag1: Seq<bool>)
    requires
        m.wf(),
        flag.len() == m.spec_size(),
        flag1.len() == m.spec_size(),
        dem.len() == m.spec_size(),
        dem0.len() == m.spec_size(),
        raised_ok(m, dem0, dem, flag),
        forall|k: int| 0 <= k < flag.len() && #[trigger] flag[k] ==> flag1[k],
        forall|k: int| 0 <= k < flag.len() && #[trigger] flag1[k] && !flag[k] ==> dem[k] == dem0[k],
    ensures
        raised_ok(m, dem0, dem, flag1),
{
    assert forall|c: int| 0 <= c < m.spec_size() && flag1[c] && #[trigger] dem[c] != dem0[c] implies exists|e: int|
        0 <= e < 8 && #[trigger] raised_via(m, dem, flag1, c, e) by {
        assert(flag[c]);
        let e = choose|e: int| 0 <= e < 8 && #[trigger] raised_via(m, dem, flag, c, e);
        crate::depfill::zhou::lemma_nbr(m, c, e);
        assert(flag1[nbr(m, c, e)->0 as int]);
        assert(raised_via(m, dem, flag1, c, e));
    }
}

/// Flagging more cells keeps the nodes of the other queues in order.
proof fn lemma_nodes_keep(
    m: GridMeta,
    dem: Seq<u64>,
    flag: Seq<bool>,
    flag1: Seq<bool>,
    pq: Multiset<CellZ>,
    dq: Seq<CellZ>,
    pot: Seq<CellZ>,
)
    requires
        flag.len() == flag1.len(),
        forall|k: int| 0 <= k < flag.len() && #[trigger] flag[k] ==> flag1[k],
        ms_nodes_ok(m, dem, flag, pq),
        seq_nodes_ok(m, dem, flag, dq, true),
        seq_nodes_ok(m, dem, flag, pot, true),
        flag.len() == m.spec_size(),
    ensures
        ms_nodes_ok(m, dem, flag1, pq),
        seq_nodes_ok(m, dem, flag1, dq, true),
        seq_nodes_ok(m, dem, flag1, pot, true),
{
    assert forall|n: CellZ| #[trigger] pq.count(n) > 0 implies n.i < m.spec_size() && flag1[n.i as int] && n.z
        >= dem[n.i as int] by {
        assert(flag[n.i as int]);
    }
    assert forall|k: int| 0 <= k < dq.len() implies #[trigger] dq[k].i < m.spec_size() && flag1[dq[k].i as int]
        && dq[k].z >= dem[dq[k].i as int] && (true ==> !is_edge_at(m, dq[k].i as int)) by {
        assert(flag[dq[k].i as int]);
    }
    assert forall|k: int| 0 <= k < pot.len() implies #[trigger] pot[k].i < m.spec_size() && flag1[pot[k].i as int]
        && pot[k].z >= dem[pot[k].i as int] && (true ==> !is_edge_at(m, pot[k].i as int)) by {
        assert(flag[pot[k].i as int]);
    }
}


/// Taking the front node off the trace queue to process it.
proof fn lemma_pop_tq(
    m: GridMeta,
    dem0: Seq<u64>,
    dem: Seq<u64>,
    flag: Seq<bool>,
    ord: Seq<nat>,
    visited: Seq<usize>,
    pq: Multiset<CellZ>,
    tq: Seq<CellZ>,
    dq: Seq<CellZ>,
    pot: Seq<CellZ>,
    cur: Multiset<int>,
)
    requires
        flood_inv(m, dem0, dem, flag, ord, visited, pq, tq, dq, pot, cur),
        tq.len() > 0,
    ensures
        tq[0].i < m.spec_size(),
        flag[tq[0].i as int],
        tq[0].z >= dem[tq[0].i as int],
        key_ok(m, dem, tq[0]),
        !is_edge_at(m, tq[0].i as int),
        flood_inv(
            m,
            dem0,
            dem,
            flag,
            ord,
            visited,
            pq,
            tq.subrange(1, tq.len() as int),
            dq,
            pot,
            cur.insert(tq[0].i as int),
        ),
{
    reveal(flood_inv);
    let tq1 = tq.subrange(1, tq.len() as int);
    let cur1 = cur.insert(tq[0].i as int);
    assert forall|c: int|
        0 <= c < m.spec_size() && #[trigger] flag[c] && !all_nbrs_flagged(m, flag, c) implies ms_has(pq, c)
        || seq_has(tq1, c) || seq_has(dq, c) || seq_has(pot, c) || cur1.count(c) > 0 by {
        if seq_has(tq, c) {
            lemma_seq_has_pop(tq, c);
        }
    }
    assert forall|k: int| 0 <= k < tq1.len() implies #[trigger] tq1[k].i < m.spec_size() && flag[tq1[k].i as int]
        && tq1[k].z >= dem[tq1[k].i as int] && (true ==> !is_edge_at(m, tq1[k].i as int)) by {
        assert(tq1[k] == tq[k + 1]);
    }
    assert(key_ok(m, dem, tq[0]));
    assert forall|k: int| 0 <= k < tq1.len() implies key_ok(m, dem, #[trigger] tq1[k]) by {
        assert(tq1[k] == tq[k + 1]);
    }
}

/// Taking the front node off the depression queue to process it.
proof fn lemma_pop_dq(
    m: GridMeta,
    dem0: Seq<u64>,
    dem: Seq<u64>,
    flag: Seq<bool>,
    ord: Seq<nat>,
    visited: Seq<usize>,
    pq: Multiset<CellZ>,
    tq: Seq<CellZ>,
    dq: Seq<CellZ>,
    pot: Seq<CellZ>,
    cur: Multiset<int>,
)
    requires
        flood_inv(m, dem0, dem, flag, ord, visited, pq, tq, dq, pot, cur),
        dq.len() > 0,
    ensures
        dq[0].i < m.spec_size(),
        flag[dq[0].i as int],
        dq[0].z >= dem[dq[0].i as int],
        key_ok(m, dem, dq[0]),
        !is_edge_at(m, dq[0].i as int),
        flood_inv(
            m,
            dem0,
            dem,
            flag,
            ord,
            visited,
            pq,
            tq,
            dq.subrange(1, dq.len() as int),
            pot,
            cur.insert(dq[0].i as int),
        ),
{
    reveal(flood_inv);
    let dq1 = dq.subrange(1, dq.len() as int);
    let cur1 = cur.insert(dq[0].i as int);
    assert forall|c: int|
        0 <= c < m.spec_size() && #[trigger] flag[c] && !all_nbrs_flagged(m, flag, c) implies ms_has(pq, c)
        || seq_has(tq, c) || seq_has(dq1, c) || seq_has(pot, c) || cur1.count(c) > 0 by {
        if seq_has(dq, c) {
            lemma_seq_has_pop(dq, c);
        }
    }
    assert forall|k: int| 0 <= k < dq1.len() implies #[trigger] dq1[k].i < m.spec_size() && flag[dq1[k].i as int]
        && dq1[k].z >= dem[dq1[k].i as int] && (true ==> !is_edge_at(m, dq1[k].i as int)) by {
        assert(dq1[k] == dq[k + 1]);
    }
    assert(key_ok(m, dem, dq[0]));
    assert forall|k: int| 0 <= k < dq1.len() implies key_ok(m, dem, #[trigger] dq1[k]) by {
        assert(dq1[k] == dq[k + 1]);
    }
}

/// Taking the front node off the queue of potential ones to process it.
proof fn lemma_pop_pot(
    m: GridMeta,
    dem0: Seq<u64>,
    dem: Seq<u64>,
    flag: Seq<bool>,
    ord: Seq<nat>,
    visited: Seq<usize>,
    pq: Multiset<CellZ>,
    tq: Seq<CellZ>,
    dq: Seq<CellZ>,
    pot: Seq<CellZ>,
    cur: Multiset<int>,
)
    requires
        flood_inv(m, dem0, dem, flag, ord, visited, pq, tq, dq, pot, cur),
        pot.len() > 0,
    ensures
        pot[0].i < m.spec_size(),
        flag[pot[0].i as int],
        pot[0].z >= dem[pot[0].i as int],
        key_ok(m, dem, pot[0]),
        !is_edge_at(m, pot[0].i as int),
        flood_inv(
            m,
            dem0,
            dem,
            flag,
            ord,
            visited,
            pq,
            tq,
            dq,
            pot.subrange(1, pot.len() as int),
            cur.insert(pot[0].i as int),
        ),
{
    reveal(flood_inv);
    let pot1 = pot.subrange(1, pot.len() as int);
    let cur1 = cur.insert(pot[0].i as int);
    assert forall|c: int|
        0 <= c < m.spec_size() && #[trigger] flag[c] && !all_nbrs_flagged(m, flag, c) implies ms_has(pq, c)
        || seq_has(tq, c) || seq_has(dq, c) || seq_has(pot1, c) || cur1.count(c) > 0 by {
        if seq_has(pot, c) {
            lemma_seq_has_pop(pot, c);
        }
    }
    assert forall|k: int| 0 <= k < pot1.len() implies #[trigger] pot1[k].i < m.spec_size() && flag[pot1[k].i as int]
        && pot1[k].z >= dem[pot1[k].i as int] && (true ==> !is_edge_at(m, pot1[k].i as int)) by {
        assert(pot1[k] == pot[k + 1]);
    }
    assert(key_ok(m, dem, pot[0]));
    assert forall|k: int| 0 <= k < pot1.len() implies key_ok(m, dem, #[trigger] pot1[k]) by {
        assert(pot1[k] == pot[k + 1]);
    }
}

/// Taking a node off the priority queue to process it.
proof fn lemma_pop_pq(
    m: GridMeta,
    dem0: Seq<u64>,
    dem: Seq<u64>,
    flag: Seq<bool>,
    ord: Seq<nat>,
    visited: Seq<usize>,
    pq: Multiset<CellZ>,
    tq: Seq<CellZ>,
    dq: Seq<CellZ>,
    pot: Seq<CellZ>,
    cur: Multiset<int>,
    x: CellZ,
)
    requires
        flood_inv(m, dem0, dem, flag, ord, visited, pq, tq, dq, pot, cur),
        pq.count(x) > 0,
    ensures
        x.i < m.spec_size(),
        flag[x.i as int],
        x.z >= dem[x.i as int],
        key_ok(m, dem, x),
        flood_inv(m, dem0, dem, flag, ord, visited, pq.remove(x), tq, dq, pot, cur.insert(x.i as int)),
{
    reveal(flood_inv);
    let pq1 = pq.remove(x);
    let cur1 = cur.insert(x.i as int);
    assert forall|c: int|
        0 <= c < m.spec_size() && #[trigger] flag[c] && !all_nbrs_flagged(m, flag, c) implies ms_has(pq1, c)
        || seq_has(tq, c) || seq_has(dq, c) || seq_has(pot, c) || cur1.count(c) > 0 by {
        if ms_has(pq, c) && c != x.i as int {
            let n = choose|n: CellZ| #[trigger] pq.count(n) > 0 && n.i == c;
            assert(n != x);
            assert(pq1.count(n) > 0);
        }
    }
    assert forall|n: CellZ| #[trigger] pq1.count(n) > 0 implies n.i < m.spec_size() && flag[n.i as int] && n.z
        >= dem[n.i as int] by {
        assert(pq.count(n) > 0);
    }
    assert forall|n: CellZ| #[trigger] pq1.count(n) > 0 implies key_ok(m, dem, n) by {
        assert(pq.count(n) > 0);
    }
}

/// Queueing a cell being processed in the priority queue.
proof fn lemma_push_pq(
    m: GridMeta,
    dem0: Seq<u64>,
    dem: Seq<u64>,
    flag: Seq<bool>,
    ord: Seq<nat>,
    visited: Seq<usize>,
    pq: Multiset<CellZ>,
    tq: Seq<CellZ>,
    dq: Seq<CellZ>,
    pot: Seq<CellZ>,
    cur: Multiset<int>,
    x: CellZ,
)
    requires
        flood_inv(m, dem0, dem, flag, ord, visited, pq, tq, dq, pot, cur),
        x.i < m.spec_size(),
        flag[x.i as int],
        x.z >= dem[x.i as int],
        key_ok(m, dem, x),
    ensures
        flood_inv(m, dem0, dem, flag, ord, visited, pq.insert(x), tq, dq, pot, cur.remove(x.i as int)),
        pq.insert(x).len() == pq.len() + 1,
{
    broadcast use vstd::multiset::group_multiset_axioms;
    reveal(flood_inv);
    let pq1 = pq.insert(x);
    let cur1 = cur.remove(x.i as int);
    assert forall|c: int|
        0 <= c < m.spec_size() && #[trigger] flag[c] && !all_nbrs_flagged(m, flag, c) implies ms_has(pq1, c)
        || seq_has(tq, c) || seq_has(dq, c) || seq_has(pot, c) || cur1.count(c) > 0 by {
        if c == x.i as int {
            assert(pq1.count(x) > 0);
        } else if ms_has(pq, c) {
            let n = choose|n: CellZ| #[trigger] pq.count(n) > 0 && n.i == c;
            assert(pq1.count(n) > 0);
        }
    }
    assert forall|n: CellZ| #[trigger] pq1.count(n) > 0 implies n.i < m.spec_size() && flag[n.i as int] && n.z
        >= dem[n.i as int] by {
        if n != x {
            assert(pq.count(n) > 0);
        }
    }
    assert forall|n: CellZ| #[trigger] pq1.count(n) > 0 implies key_ok(m, dem, n) by {
        if n != x {
            assert(pq.count(n) > 0);
        }
    }
}

/// Queueing a cell being processed among the potential ones.
proof fn lemma_push_pot(
    m: GridMeta,
    dem0: Seq<u64>,
    dem: Seq<u64>,
    flag: Seq<bool>,
    ord: Seq<nat>,
    visited: Seq<usize>,
    pq: Multiset<CellZ>,
    tq: Seq<CellZ>,
    dq: Seq<CellZ>,
    pot: Seq<CellZ>,
    cur: Multiset<int>,
    x: CellZ,
)
    requires
        flood_inv(m, dem0, dem, flag, ord, visited, pq, tq, dq, pot, cur),
        x.i < m.spec_size(),
        flag[x.i as int],
        x.z >= dem[x.i as int],
        !is_edge_at(m, x.i as int),
        key_ok(m, dem, x),
    ensures
        flood_inv(m, dem0, dem, flag, ord, visited, pq, tq, dq, pot.push(x), cur.remove(x.i as int)),
{
    reveal(flood_inv);
    let pot1 = pot.push(x);
    let cur1 = cur.remove(x.i as int);
    assert forall|c: int|
        0 <= c < m.spec_size() && #[trigger] flag[c] && !all_nbrs_flagged(m, flag, c) implies ms_has(pq, c)
        || seq_has(tq, c) || seq_has(dq, c) || seq_has(pot1, c) || cur1.count(c) > 0 by {
        lemma_seq_has_push(pot, x, c);
    }
    assert forall|k: int| 0 <= k < pot1.len() implies #[trigger] pot1[k].i < m.spec_size() && flag[pot1[k].i as int]
        && pot1[k].z >= dem[pot1[k].i as int] && (true ==> !is_edge_at(m, pot1[k].i as int)) by {
        if k < pot.len() {
            assert(pot1[k] == pot[k]);
        }
    }
    assert forall|k: int| 0 <= k < pot1.len() implies key_ok(m, dem, #[trigger] pot1[k]) by {
        if k < pot.len() {
            assert(pot1[k] == pot[k]);
        }
    }
}

/// A processed cell whose neighbours are all flagged needs no more work.
proof fn lemma_done(
    m: GridMeta,
    dem0: Seq<u64>,
    dem: Seq<u64>,
    flag: Seq<bool>,
    ord: Seq<nat>,
    visited: Seq<usize>,
    pq: Multiset<CellZ>,
    tq: Seq<CellZ>,
    dq: Seq<CellZ>,
    pot: Seq<CellZ>,
    cur: Multiset<int>,
    c: int,
)
    requires
        flood_inv(m, dem0, dem, flag, ord, visited, pq, tq, dq, pot, cur),
        0 <= c < m.spec_size(),
        all_nbrs_flagged(m, flag, c),
    ensures
        flood_inv(m, dem0, dem, flag, ord, visited, pq, tq, dq, pot, cur.remove(c)),
{
    reveal(flood_inv);
}

/// Facts of the flood state used by the loops.
proof fn lemma_flood_facts(
    m: GridMeta,
    dem0: Seq<u64>,
    dem: Seq<u64>,
    flag: Seq<bool>,
    ord: Seq<nat>,
    visited: Seq<usize>,
    pq: Multiset<CellZ>,
    tq: Seq<CellZ>,
    dq: Seq<CellZ>,
    pot: Seq<CellZ>,
    cur: Multiset<int>,
)
    requires
        flood_inv(m, dem0, dem, flag, ord, visited, pq, tq, dq, pot, cur),
    ensures
        m.wf(),
        m.spec_size() <= isize::MAX,
        dem.len() == m.spec_size(),
        flag.len() == m.spec_size(),
        visited.len() <= m.spec_size(),
        forall|c: int| 0 <= c < m.spec_size() ==> (#[trigger] flag[c] <==> visited.contains(c as usize)),
{
    reveal(flood_inv);
    lemma_distinct_len(visited, m.spec_size() as int);
}


/// When every flagged cell has all its neighbours flagged and the edge is
/// flagged, every cell is: walk left from any cell to the edge.
proof fn lemma_all_flagged(m: GridMeta, flag: Seq<bool>, x: int, y: int)
    requires
        m.wf(),
        flag.len() == m.spec_size(),
        0 <= x < m.spec_width(),
        0 <= y < m.spec_height(),
        forall|c: int| 0 <= c < m.spec_size() && #[trigger] is_edge_at(m, c) ==> flag[c],
        forall|c: int| 0 <= c < m.spec_size() && #[trigger] flag[c] ==> all_nbrs_flagged(m, flag, c),
    ensures
        flag[x + y * m.spec_width()],
    decreases x,
{
    let w = m.spec_width() as int;
    let h = m.spec_height() as int;
    let c = x + y * w;
    lemma_cell_index_bound(w, h, x, y);
    assert(c % w == x && c / w == y) by (nonlinear_arith)
        requires
            w > 0,
            0 <= x < w,
            0 <= y,
            c == x + y * w,
    ;
    if x == 0 {
        assert(is_edge_at(m, c));
    } else {
        lemma_all_flagged(m, flag, x - 1, y);
        let p = (x - 1) + y * w;
        lemma_cell_index_bound(w, h, x - 1, y);
        assert(p % w == x - 1 && p / w == y) by (nonlinear_arith)
            requires
                w > 0,
                0 <= x - 1 < w,
                0 <= y,
                p == (x - 1) + y * w,
        ;
        assert(all_nbrs_flagged(m, flag, p));
        assert(nbr(m, p, 4) == Some(c as usize));
    }
}

/// With nothing left queued or in process, the flood is complete: every
/// cell off the edge drains to an earlier neighbour, no cell was lowered,
/// and the edge kept its elevations.
proof fn lemma_flood_final(
    m: GridMeta,
    dem0: Seq<u64>,
    dem: Seq<u64>,
    flag: Seq<bool>,
    ord: Seq<nat>,
    visited: Seq<usize>,
)
    requires
        flood_inv(
            m,
            dem0,
            dem,
            flag,
            ord,
            visited,
            Multiset::empty(),
            Seq::empty(),
            Seq::empty(),
            Seq::empty(),
            Multiset::empty(),
        ),
    ensures
        dem.len() == dem0.len(),
        drain_ranked(m, dem, ord),
        forall|c: int| 0 <= c < dem.len() ==> #[trigger] dem[c] >= dem0[c],
        forall|c: int| 0 <= c < dem.len() && #[trigger] is_edge_at(m, c) ==> dem[c] == dem0[c],
        forall|c: int|
            0 <= c < dem.len() && #[trigger] dem[c] != dem0[c] ==> exists|d: int|
                0 <= d < 8 && #[trigger] raised_from(m, dem, c, d),
{
    reveal(flood_inv);
    let w = m.spec_width() as int;
    let h = m.spec_height() as int;
    assert forall|c: int| 0 <= c < m.spec_size() && #[trigger] flag[c] implies all_nbrs_flagged(m, flag, c) by {
        if !all_nbrs_flagged(m, flag, c) {
            assert(!seq_has(Seq::<CellZ>::empty(), c));
            assert(!ms_has(Multiset::<CellZ>::empty(), c));
        }
    }
    assert forall|c: int| 0 <= c < m.spec_size() implies #[trigger] flag[c] by {
        assert(w > 0) by (nonlinear_arith)
            requires
                m.spec_size() == w * h,
                0 <= c < m.spec_size(),
                h >= 0,
        ;
        let x = c % w;
        let y = c / w;
        assert(c == x + y * w && 0 <= x < w && 0 <= y < h) by (nonlinear_arith)
            requires
                w > 0,
                x == c % w,
                y == c / w,
                0 <= c < w * h,
        ;
        lemma_all_flagged(m, flag, x, y);
    }
    assert forall|c: int| 0 <= c < m.spec_size() && !is_edge_at(m, c) implies exists|d: int|
        0 <= d < 8 && #[trigger] drains_via(m, dem, ord, c, d) by {
        assert(flag[c]);
        let d = choose|d: int| 0 <= d < 8 && #[trigger] drains_via(m, dem, ord, c, d) && flag[nbr(m, c, d)->0 as int];
    }
    assert forall|c: int| 0 <= c < dem.len() implies #[trigger] dem[c] >= dem0[c] by {
        assert(flag[c]);
    }
    assert forall|c: int| 0 <= c < dem.len() && #[trigger] dem[c] != dem0[c] implies exists|d: int|
        0 <= d < 8 && #[trigger] raised_from(m, dem, c, d) by {
        assert(flag[c]);
        let d = choose|d: int| 0 <= d < 8 && #[trigger] raised_via(m, dem, flag, c, d);
    }
}


/// Queues every unflagged cell on the edge of the grid with its own
/// elevation, and flags it.
fn init_priority_queue(dem: &[u64], flag: &mut [bool], meta: &GridMeta, pq: &mut MaxQueue<CellZ>) -> (r: Ghost<
    (Seq<nat>, Seq<usize>),
>)
    requires
        dem@.len() == meta.spec_size(),
        meta.spec_size() <= isize::MAX,
        old(flag)@.len() == meta.spec_size(),
        forall|c: int| 0 <= c < meta.spec_size() ==> !#[trigger] old(flag)@[c],
        old(pq)@ =~= Multiset::<CellZ>::empty(),
    ensures
        flood_inv(
            *meta,
            dem@,
            dem@,
            final(flag)@,
            r@.0,
            r@.1,
            final(pq)@,
            Seq::empty(),
            Seq::empty(),
            Seq::empty(),
            Multiset::empty(),
        ),
{
    proof {
        use_type_invariant(meta);
    }
    let ghost m = *meta;
    let size = meta.size();
    let ghost mut ord: Seq<nat> = Seq::new(size as nat, |c: int| 0nat);
    assert(size <= isize::MAX);
    let ghost mut visited: Seq<usize> = Seq::empty();
    let mut i: usize = 0;
    while i < size
        invariant
            m == *meta,
            m.wf(),
            size == m.spec_size(),
            i <= size,
            dem@.len() == size,
            flag@.len() == size,
            ord.len() == size,
            forall|c: int| 0 <= c < i ==> (#[trigger] flag@[c] <==> is_edge_at(m, c)),
            forall|c: int| i <= c < size ==> !#[trigger] flag@[c],
            visited.no_duplicates(),
            forall|q: int| 0 <= q < visited.len() ==> #[trigger] visited[q] < i,
            forall|c: int| 0 <= c < size ==> (#[trigger] flag@[c] <==> visited.contains(c as usize)),
            forall|c: int| 0 <= c < size && #[trigger] flag@[c] ==> ord[c] < visited.len(),
            forall|n: CellZ|
                #[trigger] pq@.count(n) > 0 ==> n.i < size && flag@[n.i as int] && n.z >= dem@[n.i as int]
                    && n.z == dem@[n.i as int],
            forall|c: int| 0 <= c < i && #[trigger] is_edge_at(m, c) ==> ms_has(pq@, c),
        decreases size - i,
    {
        if flag[i] {
            i = i + 1;
            continue;
        }
        proof {
            assert(m.spec_width() > 0) by (nonlinear_arith)
                requires
                    size == m.spec_width() * m.spec_height(),
                    i < size,
            ;
        }
        if meta.is_edge(i) {
            let node = CellZ { i, z: dem[i] };
            let ghost pq0 = pq@;
            pq.push(node);
            flag[i] = true;
            proof {
                assert(!visited.contains(i));
                let v0 = visited;
                ord = ord.update(i as int, visited.len());
                visited = visited.push(i);
                assert forall|c: int| 0 <= c < size implies (#[trigger] flag@[c] <==> visited.contains(c as usize)) by {
                    if c != i as int {
                        if visited.contains(c as usize) {
                            let q = choose|q: int| 0 <= q < visited.len() && visited[q] == c as usize;
                            assert(q < v0.len());
                            assert(v0[q] == c as usize);
                        }
                        if flag@[c] {
                            assert(v0.contains(c as usize));
                            let q = choose|q: int| 0 <= q < v0.len() && v0[q] == c as usize;
                            assert(visited[q] == c as usize);
                        }
                    } else {
                        assert(visited[v0.len() as int] == i);
                    }
                }
                assert forall|c: int| 0 <= c < i + 1 && #[trigger] is_edge_at(m, c) implies ms_has(pq@, c) by {
                    if c == i as int {
                        assert(pq@.count(node) > 0);
                    } else {
                        let n = choose|n: CellZ| #[trigger] pq0.count(n) > 0 && n.i == c;
                        assert(pq@.count(n) > 0);
                    }
                }
                assert forall|n: CellZ| #[trigger] pq@.count(n) > 0 implies n.i < size && flag@[n.i as int] && n.z
                    >= dem@[n.i as int] && n.z == dem@[n.i as int] by {
                    if n != node {
                        assert(pq0.count(n) > 0);
                    }
                }
            }
        } else {
            proof {
                assert(!is_edge_at(m, i as int));
            }
        }
        i = i + 1;
    }
    proof {
        reveal(flood_inv);
        assert forall|c: int| 0 <= c < size && #[trigger] flag@[c] && !all_nbrs_flagged(m, flag@, c) implies ms_has(
            pq@,
            c,
        ) || seq_has(Seq::<CellZ>::empty(), c) || seq_has(Seq::<CellZ>::empty(), c) || seq_has(
            Seq::<CellZ>::empty(),
            c,
        ) || Multiset::<int>::empty().count(c) > 0 by {
            assert(is_edge_at(m, c));
        }
    }
    Ghost((ord, visited))
}


/// Fills the depression queued in `depression_q`: each unflagged neighbour
/// of a queued cell is flagged; one no higher than the cell is queued with
/// is raised to the next elevation above that and queued in turn, a higher
/// one starts a trace, queued one step above its own elevation.
fn process_pit(
    dem: &mut [u64],
    flag: &mut [bool],
    meta: &GridMeta,
    depression_q: &mut VecDeque<CellZ>,
    trace_q: &mut VecDeque<CellZ>,
    Ghost(dem0): Ghost<Seq<u64>>,
    Ghost(ord0): Ghost<Seq<nat>>,
    Ghost(vis0): Ghost<Seq<usize>>,
    Ghost(pq): Ghost<Multiset<CellZ>>,
    Ghost(cur): Ghost<Multiset<int>>,
) -> (r: Ghost<(Seq<nat>, Seq<usize>)>)
    requires
        flood_inv(
            *meta,
            dem0,
            old(dem)@,
            old(flag)@,
            ord0,
            vis0,
            pq,
            old(trace_q)@,
            old(depression_q)@,
            Seq::empty(),
            cur,
        ),
    ensures
        final(depression_q)@.len() == 0,
        final(flag)@.len() == old(flag)@.len(),
        forall|c: int|
            0 <= c < old(flag)@.len() && #[trigger] old(flag)@[c] ==> final(flag)@[c] && final(dem)@[c] == old(
                dem,
            )@[c],
        flood_inv(
            *meta,
            dem0,
            final(dem)@,
            final(flag)@,
            r@.0,
            r@.1,
            pq,
            final(trace_q)@,
            Seq::empty(),
            Seq::empty(),
            cur,
        ),
        flood_weight(*meta, r@.1, pq, final(trace_q)@, Seq::empty(), Seq::empty()) <= flood_weight(
            *meta,
            vis0,
            pq,
            old(trace_q)@,
            old(depression_q)@,
            Seq::empty(),
        ),
{
    let ghost m = *meta;
    let ghost mut ord = ord0;
    let ghost mut visited = vis0;
    let ghost w0 = flood_weight(m, vis0, pq, trace_q@, depression_q@, Seq::empty());
    let ghost flag0 = flag@;
    let ghost demi = dem@;
    proof {
        lemma_flood_facts(m, dem0, dem@, flag@, ord, visited, pq, trace_q@, depression_q@, Seq::empty(), cur);
    }
    while depression_q.len() > 0
        invariant
            m == *meta,
            flag@.len() == flag0.len(),
            forall|c: int| 0 <= c < flag0.len() && #[trigger] flag0[c] ==> flag@[c] && dem@[c] == demi[c],
            flood_inv(m, dem0, dem@, flag@, ord, visited, pq, trace_q@, depression_q@, Seq::empty(), cur),
            flood_weight(m, visited, pq, trace_q@, depression_q@, Seq::empty()) <= w0,
        decreases flood_weight(m, visited, pq, trace_q@, depression_q@, Seq::empty()),
    {
        proof {
            lemma_flood_facts(m, dem0, dem@, flag@, ord, visited, pq, trace_q@, depression_q@, Seq::empty(), cur);
            lemma_pop_dq(m, dem0, dem@, flag@, ord, visited, pq, trace_q@, depression_q@, Seq::empty(), cur);
        }
        let ghost wstart = flood_weight(m, visited, pq, trace_q@, depression_q@, Seq::empty());
        let node = match depression_q.pop_front() {
            Some(n) => n,
            None => {
                proof {
                    assert(false);
                }
                CellZ { i: 0, z: 0 }
            },
        };
        let ghost cur1 = cur.insert(node.i as int);
        let mut d: u8 = 0;
        while d < 8
            invariant
                m == *meta,
                flag@.len() == flag0.len(),
                forall|c: int| 0 <= c < flag0.len() && #[trigger] flag0[c] ==> flag@[c] && dem@[c] == demi[c],
                flood_inv(m, dem0, dem@, flag@, ord, visited, pq, trace_q@, depression_q@, Seq::empty(), cur1),
                cur1 == cur.insert(node.i as int),
                node.i < m.spec_size(),
                flag@[node.i as int],
                node.z >= dem@[node.i as int],
                key_ok(m, dem@, node),
                !is_edge_at(m, node.i as int),
                d <= 8,
                forall|e: int| 0 <= e < d ==> match #[trigger] nbr(m, node.i as int, e) {
                    Some(n) => flag@[n as int],
                    None => true,
                },
                flood_weight(m, visited, pq, trace_q@, depression_q@, Seq::empty()) < wstart,
            decreases 8 - d,
        {
            proof {
                lemma_flood_facts(m, dem0, dem@, flag@, ord, visited, pq, trace_q@, depression_q@, Seq::empty(), cur1);
                lemma_interior_nbr(m, node.i as int, d as int);
                crate::depfill::zhou::lemma_nbr(m, node.i as int, d as int);
            }
            let ni = meta.shift(node.i, d);
            if flag[ni] {
                d = d + 1;
                continue;
            }
            let spill = dem[ni];
            if spill > node.z {
                let zt = spill.next_up();
                proof {
                    lemma_next_up64(spill);
                    lemma_flag_trace(
                        m,
                        dem0,
                        dem@,
                        flag@,
                        ord,
                        visited,
                        pq,
                        trace_q@,
                        depression_q@,
                        Seq::empty(),
                        cur1,
                        node,
                        d as int,
                        zt,
                    );
                }
                flag[ni] = true;
                trace_q.push_back(CellZ { i: ni, z: zt });
                proof {
                    ord = ord.update(ni as int, visited.len());
                    visited = visited.push(ni);
                }
            } else {
                let zu = node.z.next_up();
                proof {
                    lemma_flag_depression(
                        m,
                        dem0,
                        dem@,
                        flag@,
                        ord,
                        visited,
                        pq,
                        trace_q@,
                        depression_q@,
                        Seq::empty(),
                        cur1,
                        node,
                        d as int,
                    );
                }
                flag[ni] = true;
                dem[ni] = zu;
                depression_q.push_back(CellZ { i: ni, z: zu });
                proof {
                    ord = ord.update(ni as int, visited.len());
                    visited = visited.push(ni);
                }
            }
            proof {
                assert forall|e: int| 0 <= e < d + 1 implies match #[trigger] nbr(m, node.i as int, e) {
                    Some(n) => flag@[n as int],
                    None => true,
                } by {
                    lemma_interior_nbr(m, node.i as int, e);
                }
            }
            d = d + 1;
        }
        proof {
            assert(all_nbrs_flagged(m, flag@, node.i as int));
            lemma_done(m, dem0, dem@, flag@, ord, visited, pq, trace_q@, depression_q@, Seq::empty(), cur1, node.i as int);
            assert(cur1.remove(node.i as int) =~= cur);
            lemma_flood_facts(m, dem0, dem@, flag@, ord, visited, pq, trace_q@, depression_q@, Seq::empty(), cur);
        }
    }
    assert(depression_q@ =~= Seq::<CellZ>::empty());
    Ghost((ord, visited))
}


/// Follows the traces queued in `trace_q` upslope: each unflagged neighbour
/// higher than a traced cell is flagged and traced in turn; a traced cell
/// that meets an unflagged neighbour no higher is handed to the priority
/// queue, or, if that neighbour lies in one of the first two directions,
/// kept as potential and handed over only if it still has an unflagged
/// neighbour once all traces are done.
fn process_trace_queue(
    dem: &[u64],
    flag: &mut [bool],
    meta: &GridMeta,
    trace_q: &mut VecDeque<CellZ>,
    pq: &mut MaxQueue<CellZ>,
    Ghost(dem0): Ghost<Seq<u64>>,
    Ghost(ord0): Ghost<Seq<nat>>,
    Ghost(vis0): Ghost<Seq<usize>>,
    Ghost(dq): Ghost<Seq<CellZ>>,
    Ghost(cur): Ghost<Multiset<int>>,
) -> (r: Ghost<(Seq<nat>, Seq<usize>)>)
    requires
        flood_inv(
            *meta,
            dem0,
            dem@,
            old(flag)@,
            ord0,
            vis0,
            old(pq)@,
            old(trace_q)@,
            dq,
            Seq::empty(),
            cur,
        ),
    ensures
        final(trace_q)@.len() == 0,
        final(flag)@.len() == old(flag)@.len(),
        forall|c: int| 0 <= c < old(flag)@.len() && #[trigger] old(flag)@[c] ==> final(flag)@[c],
        flood_inv(
            *meta,
            dem0,
            dem@,
            final(flag)@,
            r@.0,
            r@.1,
            final(pq)@,
            Seq::empty(),
            dq,
            Seq::empty(),
            cur,
        ),
        flood_weight(*meta, r@.1, final(pq)@, Seq::empty(), dq, Seq::empty()) <= flood_weight(
            *meta,
            vis0,
            old(pq)@,
            old(trace_q)@,
            dq,
            Seq::empty(),
        ),
{
    let ghost m = *meta;
    let ghost mut ord = ord0;
    let ghost mut visited = vis0;
    let ghost w0 = flood_weight(m, vis0, pq@, trace_q@, dq, Seq::empty());
    let mut potential_q: VecDeque<CellZ> = VecDeque::new();
    let index_threshold: u8 = 2;
    let ghost flag0 = flag@;
    while trace_q.len() > 0
        invariant
            m == *meta,
            flag@.len() == flag0.len(),
            forall|c: int| 0 <= c < flag0.len() && #[trigger] flag0[c] ==> flag@[c],
            index_threshold == 2,
            flood_inv(m, dem0, dem@, flag@, ord, visited, pq@, trace_q@, dq, potential_q@, cur),
            flood_weight(m, visited, pq@, trace_q@, dq, potential_q@) <= w0,
        decreases flood_weight(m, visited, pq@, trace_q@, dq, potential_q@),
    {
        proof {
            lemma_flood_facts(m, dem0, dem@, flag@, ord, visited, pq@, trace_q@, dq, potential_q@, cur);
            lemma_pop_tq(m, dem0, dem@, flag@, ord, visited, pq@, trace_q@, dq, potential_q@, cur);
        }
        let ghost wstart = flood_weight(m, visited, pq@, trace_q@, dq, potential_q@);
        let node = match trace_q.pop_front() {
            Some(n) => n,
            None => {
                proof {
                    assert(false);
                }
                CellZ { i: 0, z: 0 }
            },
        };
        let ghost cur1 = cur.insert(node.i as int);
        let mut handed: bool = false;
        let mut d: u8 = 0;
        while d < 8 && !handed
            invariant
                m == *meta,
                flag@.len() == flag0.len(),
                forall|c: int| 0 <= c < flag0.len() && #[trigger] flag0[c] ==> flag@[c],
                index_threshold == 2,
                cur1 == cur.insert(node.i as int),
                !handed ==> flood_inv(m, dem0, dem@, flag@, ord, visited, pq@, trace_q@, dq, potential_q@, cur1),
                handed ==> flood_inv(m, dem0, dem@, flag@, ord, visited, pq@, trace_q@, dq, potential_q@, cur),
                node.i < m.spec_size(),
                flag@[node.i as int],
                node.z >= dem@[node.i as int],
                key_ok(m, dem@, node),
                !is_edge_at(m, node.i as int),
                d <= 8,
                !handed ==> forall|e: int| 0 <= e < d ==> match #[trigger] nbr(m, node.i as int, e) {
                    Some(n) => flag@[n as int],
                    None => true,
                },
                !handed ==> flood_weight(m, visited, pq@, trace_q@, dq, potential_q@) + 3 <= wstart,
                handed ==> flood_weight(m, visited, pq@, trace_q@, dq, potential_q@) < wstart,
            decreases 9 - d - if handed {
                1int
            } else {
                0int
            },
        {
            proof {
                lemma_flood_facts(m, dem0, dem@, flag@, ord, visited, pq@, trace_q@, dq, potential_q@, cur1);
                lemma_interior_nbr(m, node.i as int, d as int);
                crate::depfill::zhou::lemma_nbr(m, node.i as int, d as int);
            }
            let ni = meta.shift(node.i, d);
            if flag[ni] {
                d = d + 1;
                continue;
            }
            if dem[ni] > node.z {
                proof {
                    lemma_flag_trace(
                        m,
                        dem0,
                        dem@,
                        flag@,
                        ord,
                        visited,
                        pq@,
                        trace_q@,
                        dq,
                        potential_q@,
                        cur1,
                        node,
                        d as int,
                        dem@[ni as int],
                    );
                }
                flag[ni] = true;
                trace_q.push_back(CellZ { i: ni, z: dem[ni] });
                proof {
                    ord = ord.update(ni as int, visited.len());
                    visited = visited.push(ni);
                    assert forall|e: int| 0 <= e < d + 1 implies match #[trigger] nbr(m, node.i as int, e) {
                        Some(n) => flag@[n as int],
                        None => true,
                    } by {
                        lemma_interior_nbr(m, node.i as int, e);
                    }
                }
                d = d + 1;
            } else {
                if d < index_threshold {
                    proof {
                        lemma_push_pot(m, dem0, dem@, flag@, ord, visited, pq@, trace_q@, dq, potential_q@, cur1, node);
                    }
                    potential_q.push_back(node);
                } else {
                    proof {
                        lemma_push_pq(m, dem0, dem@, flag@, ord, visited, pq@, trace_q@, dq, potential_q@, cur1, node);
                    }
                    pq.push(node);
                }
                proof {
                    assert(cur1.remove(node.i as int) =~= cur);
                }
                handed = true;
            }
        }
        if !handed {
            proof {
                assert(all_nbrs_flagged(m, flag@, node.i as int));
                lemma_done(m, dem0, dem@, flag@, ord, visited, pq@, trace_q@, dq, potential_q@, cur1, node.i as int);
                assert(cur1.remove(node.i as int) =~= cur);
            }
        }
        proof {
            lemma_flood_facts(m, dem0, dem@, flag@, ord, visited, pq@, trace_q@, dq, potential_q@, cur);
        }
    }
    while potential_q.len() > 0
        invariant
            m == *meta,
            flag@.len() == flag0.len(),
            forall|c: int| 0 <= c < flag0.len() && #[trigger] flag0[c] ==> flag@[c],
            trace_q@.len() == 0,
            flood_inv(m, dem0, dem@, flag@, ord, visited, pq@, trace_q@, dq, potential_q@, cur),
            flood_weight(m, visited, pq@, trace_q@, dq, potential_q@) <= w0,
        decreases flood_weight(m, visited, pq@, trace_q@, dq, potential_q@),
    {
        proof {
            lemma_flood_facts(m, dem0, dem@, flag@, ord, visited, pq@, trace_q@, dq, potential_q@, cur);
            lemma_pop_pot(m, dem0, dem@, flag@, ord, visited, pq@, trace_q@, dq, potential_q@, cur);
        }
        let ghost wstart = flood_weight(m, visited, pq@, trace_q@, dq, potential_q@);
        let node = match potential_q.pop_front() {
            Some(n) => n,
            None => {
                proof {
                    assert(false);
                }
                CellZ { i: 0, z: 0 }
            },
        };
        let ghost cur1 = cur.insert(node.i as int);
        let mut handed: bool = false;
        let mut d: u8 = 0;
        while d < 8 && !handed
            invariant
                m == *meta,
                flag@.len() == flag0.len(),
                forall|c: int| 0 <= c < flag0.len() && #[trigger] flag0[c] ==> flag@[c],
                trace_q@.len() == 0,
                cur1 == cur.insert(node.i as int),
                !handed ==> flood_inv(m, dem0, dem@, flag@, ord, visited, pq@, trace_q@, dq, potential_q@, cur1),
                handed ==> flood_inv(m, dem0, dem@, flag@, ord, visited, pq@, trace_q@, dq, potential_q@, cur),
                node.i < m.spec_size(),
                flag@[node.i as int],
                node.z >= dem@[node.i as int],
                key_ok(m, dem@, node),
                !is_edge_at(m, node.i as int),
                d <= 8,
                !handed ==> forall|e: int| 0 <= e < d ==> match #[trigger] nbr(m, node.i as int, e) {
                    Some(n) => flag@[n as int],
                    None => true,
                },
                !handed ==> flood_weight(m, visited, pq@, trace_q@, dq, potential_q@) + 2 <= wstart,
                handed ==> flood_weight(m, visited, pq@, trace_q@, dq, potential_q@) < wstart,
            decreases 9 - d - if handed {
                1int
            } else {
                0int
            },
        {
            proof {
                lemma_flood_facts(m, dem0, dem@, flag@, ord, visited, pq@, trace_q@, dq, potential_q@, cur1);
                lemma_interior_nbr(m, node.i as int, d as int);
                crate::depfill::zhou::lemma_nbr(m, node.i as int, d as int);
            }
            let ni = meta.shift(node.i, d);
            if !flag[ni] {
                proof {
                    lemma_push_pq(m, dem0, dem@, flag@, ord, visited, pq@, trace_q@, dq, potential_q@, cur1, node);
                    assert(cur1.remove(node.i as int) =~= cur);
                }
                pq.push(node);
                handed = true;
            } else {
                d = d + 1;
            }
        }
        if !handed {
            proof {
                assert(all_nbrs_flagged(m, flag@, node.i as int));
                lemma_done(m, dem0, dem@, flag@, ord, visited, pq@, trace_q@, dq, potential_q@, cur1, node.i as int);
                assert(cur1.remove(node.i as int) =~= cur);
            }
        }
        proof {
            lemma_flood_facts(m, dem0, dem@, flag@, ord, visited, pq@, trace_q@, dq, potential_q@, cur);
        }
    }
    proof {
        assert(potential_q@ =~= Seq::<CellZ>::empty());
        assert(trace_q@ =~= Seq::<CellZ>::empty());
    }
    Ghost((ord, visited))
}


/// Fills the depressions of `dem` so that every cell drains to the edge of
/// the grid: cells in a depression are raised, each to the next elevation
/// above the cell it drains to, and no cell is lowered. Fails if `dem` does
/// not fit the grid, leaving it as it was.
///
/// Afterwards every cell off the edge has a neighbour that comes earlier in
/// some ranking of the cells and lies no higher, and lower wherever the
/// cell's elevation is a number; edge cells keep their elevation. Every
/// raised cell stands one elevation step above a neighbour, the cell it was
/// reached from, or two steps where that neighbour lies off the edge and
/// was queued a step above its own elevation when the pit found it.
pub fn priority_flood_wei2018(dem: &mut [u64], meta: &GridMeta) -> (r: Result<(), GridError>)
    requires
        meta.spec_size() <= isize::MAX,
    ensures
        r is Err <==> old(dem)@.len() != meta.spec_size(),
        r matches Err(e) ==> e.spec_kind() == (GridErrorKind::SizeMismatch {
            found: old(dem)@.len() as usize,
            expected: meta.spec_size(),
        }) && e.spec_status() == ErrorStatus::Permanent && final(dem)@ == old(dem)@,
        r is Ok ==> {
            &&& final(dem)@.len() == old(dem)@.len()
            &&& exists|rank: Seq<nat>| drain_ranked(*meta, final(dem)@, rank)
            &&& forall|c: int| 0 <= c < old(dem)@.len() ==> #[trigger] final(dem)@[c] >= old(dem)@[c]
            &&& forall|c: int|
                0 <= c < old(dem)@.len() && #[trigger] is_edge_at(*meta, c) ==> final(dem)@[c] == old(dem)@[c]
            &&& forall|c: int|
                0 <= c < old(dem)@.len() && #[trigger] final(dem)@[c] != old(dem)@[c] ==> exists|d: int|
                    0 <= d < 8 && #[trigger] raised_from(*meta, final(dem)@, c, d)
        },
{
    match meta.check(dem) {
        Err(e) => {
            return Err(e);
        },
        Ok(()) => {},
    }
    proof {
        use_type_invariant(meta);
    }
    let ghost m = *meta;
    let ghost dem0 = dem@;
    let size = meta.size();
    let mut flag: Vec<bool> = Vec::new();
    let mut k: usize = 0;
    while k < size
        invariant
            k <= size,
            flag@.len() == k,
            forall|c: int| 0 <= c < k ==> !#[trigger] flag@[c],
        decreases size - k,
    {
        flag.push(false);
        k = k + 1;
    }
    let mut pq: MaxQueue<CellZ> = MaxQueue::new();
    let mut trace_q: VecDeque<CellZ> = VecDeque::new();
    let mut depression_q: VecDeque<CellZ> = VecDeque::new();
    let g0 = init_priority_queue(dem, flag.as_mut_slice(), meta, &mut pq);
    let ghost mut ord = g0@.0;
    let ghost mut visited = g0@.1;
    let ghost empty_c: Multiset<int> = Multiset::empty();
    proof {
        assert(trace_q@ =~= Seq::<CellZ>::empty());
        assert(depression_q@ =~= Seq::<CellZ>::empty());
    }
    while pq.len() > 0
        invariant
            m == *meta,
            dem0.len() == size,
            size == m.spec_size(),
            trace_q@ == Seq::<CellZ>::empty(),
            depression_q@ == Seq::<CellZ>::empty(),
            flood_inv(m, dem0, dem@, flag@, ord, visited, pq@, Seq::empty(), Seq::empty(), Seq::empty(), empty_c),
        decreases flood_weight(m, visited, pq@, Seq::empty(), Seq::empty(), Seq::empty()),
    {
        proof {
            lemma_flood_facts(m, dem0, dem@, flag@, ord, visited, pq@, Seq::empty(), Seq::empty(), Seq::empty(), empty_c);
        }
        let ghost wstart = flood_weight(m, visited, pq@, Seq::empty(), Seq::empty(), Seq::empty());
        let ghost pq_before = pq@;
        let node = match pq.pop() {
            Some(n) => n,
            None => {
                proof {
                    assert(false);
                }
                CellZ { i: 0, z: 0 }
            },
        };
        proof {
            broadcast use vstd::multiset::group_multiset_axioms;
            lemma_pop_pq(m, dem0, dem@, flag@, ord, visited, pq_before, Seq::empty(), Seq::empty(), Seq::empty(), empty_c, node);
            assert(pq@.len() + 1 == pq_before.len());
        }
        let ghost cur1 = empty_c.insert(node.i as int);
        let mut dir: u8 = 0;
        while dir < 8
            invariant
                m == *meta,
                dem0.len() == size,
                size == m.spec_size(),
                trace_q@ == Seq::<CellZ>::empty(),
                depression_q@ == Seq::<CellZ>::empty(),
                cur1 == empty_c.insert(node.i as int),
                flood_inv(m, dem0, dem@, flag@, ord, visited, pq@, Seq::empty(), Seq::empty(), Seq::empty(), cur1),
                node.i < size,
                flag@[node.i as int],
                node.z >= dem@[node.i as int],
                key_ok(m, dem@, node),
                dir <= 8,
                forall|e: int| 0 <= e < dir ==> match #[trigger] nbr(m, node.i as int, e) {
                    Some(n) => flag@[n as int],
                    None => true,
                },
                flood_weight(m, visited, pq@, Seq::empty(), Seq::empty(), Seq::empty()) < wstart,
            decreases 8 - dir,
        {
            proof {
                lemma_flood_facts(m, dem0, dem@, flag@, ord, visited, pq@, Seq::empty(), Seq::empty(), Seq::empty(), cur1);
                crate::depfill::zhou::lemma_nbr(m, node.i as int, dir as int);
                assert(m.spec_width() > 0);
            }
            let (x, y) = meta.i_to_xy(node.i);
            let t = meta.try_shift(x, y, dir);
            let ni = match t {
                None => {
                    dir = dir + 1;
                    continue;
                },
                Some(ni) => ni,
            };
            if flag[ni] {
                dir = dir + 1;
                continue;
            }
            let ghost flag_before_calls = flag@;
            let ghost dem_before_calls = dem@;
            let spill = dem[ni];
            if spill <= node.z {
                let zu = node.z.next_up();
                proof {
                    lemma_flag_depression(
                        m,
                        dem0,
                        dem@,
                        flag@,
                        ord,
                        visited,
                        pq@,
                        Seq::empty(),
                        Seq::empty(),
                        Seq::empty(),
                        cur1,
                        node,
                        dir as int,
                    );
                }
                dem[ni] = zu;
                flag[ni] = true;
                depression_q.push_back(CellZ { i: ni, z: zu });
                proof {
                    ord = ord.update(ni as int, visited.len());
                    visited = visited.push(ni);
                    assert(depression_q@ =~= Seq::<CellZ>::empty().push(CellZ { i: ni, z: zu }));
                }
                let ghost fl_p = flag@;
                let ghost dm_p = dem@;
                let g1 = process_pit(
                    dem,
                    flag.as_mut_slice(),
                    meta,
                    &mut depression_q,
                    &mut trace_q,
                    Ghost(dem0),
                    Ghost(ord),
                    Ghost(visited),
                    Ghost(pq@),
                    Ghost(cur1),
                );
                proof {
                    ord = g1@.0;
                    visited = g1@.1;
                    assert(depression_q@ =~= Seq::<CellZ>::empty());
                    assert(fl_p[ni as int]);
                    assert forall|c: int| 0 <= c < size && #[trigger] flag_before_calls[c] implies flag@[c] && dem@[c]
                        == dem_before_calls[c] by {
                        assert(c != ni as int);
                        assert(fl_p[c]);
                    }
                }
            } else {
                proof {
                    lemma_flag_trace(
                        m,
                        dem0,
                        dem@,
                        flag@,
                        ord,
                        visited,
                        pq@,
                        Seq::empty(),
                        Seq::empty(),
                        Seq::empty(),
                        cur1,
                        node,
                        dir as int,
                        spill,
                    );
                }
                flag[ni] = true;
                trace_q.push_back(CellZ { i: ni, z: spill });
                proof {
                    ord = ord.update(ni as int, visited.len());
                    visited = visited.push(ni);
                    assert(trace_q@ =~= Seq::<CellZ>::empty().push(CellZ { i: ni, z: spill }));
                }
            }
            let ghost fl_b = flag@;
            let ghost dm_b = dem@;
            proof {
                assert(fl_b[ni as int]);
                assert forall|c: int| 0 <= c < size && #[trigger] flag_before_calls[c] implies fl_b[c] && dm_b[c]
                    == dem_before_calls[c] by {
                    if c == ni as int {
                        assert(!flag_before_calls[c]);
                    }
                }
            }
            let g2 = process_trace_queue(
                dem,
                flag.as_mut_slice(),
                meta,
                &mut trace_q,
                &mut pq,
                Ghost(dem0),
                Ghost(ord),
                Ghost(visited),
                Ghost(Seq::empty()),
                Ghost(cur1),
            );
            proof {
                ord = g2@.0;
                visited = g2@.1;
                assert(trace_q@ =~= Seq::<CellZ>::empty());
                assert(flag_before_calls[node.i as int]);
                assert(fl_b[node.i as int]);
                assert(flag@[node.i as int]);
                assert(dem@[node.i as int] == dem_before_calls[node.i as int]);
                assert forall|e: int| 0 <= e < dir + 1 implies match #[trigger] nbr(m, node.i as int, e) {
                    Some(n) => flag@[n as int],
                    None => true,
                } by {
                    crate::depfill::zhou::lemma_nbr(m, node.i as int, e);
                    match nbr(m, node.i as int, e) {
                        Some(n) => {
                            if e < dir {
                                assert(flag_before_calls[n as int]);
                                assert(fl_b[n as int]);
                            } else {
                                assert(n == ni);
                                assert(fl_b[n as int]);
                            }
                        },
                        None => {},
                    }
                }
            }
            dir = dir + 1;
        }
        proof {
            lemma_done(m, dem0, dem@, flag@, ord, visited, pq@, Seq::empty(), Seq::empty(), Seq::empty(), cur1, node.i as int);
            assert(cur1.remove(node.i as int) =~= empty_c);
            lemma_flood_facts(m, dem0, dem@, flag@, ord, visited, pq@, Seq::empty(), Seq::empty(), Seq::empty(), empty_c);
        }
    }
    proof {
        assert(pq@ =~= Multiset::<CellZ>::empty());
        lemma_flood_final(m, dem0, dem@, flag@, ord, visited);
    }
    Ok(())
}

} // verus!
