//! Flat resolution for single flow directions.
//!
//! Once depressions are filled, flats remain: groups of neighbouring cells of
//! equal elevation through which no flow direction leads downhill. Starting
//! from the cells through which a flat drains, a breadth-first search over
//! equal-elevation neighbours gives every cell of the flat its distance to
//! the drain, its level, and routes its flow to a neighbour one step closer.
use vstd::prelude::*;

use std::collections::VecDeque;

use crate::grid::{rev_dir, xshift, yshift, GridMeta};
use crate::sflow::lemma_distinct_len;

verus! {

/// A level in this sense is a cell's distance to the drain of its flat.
pub type TLevel = u32;

/// The level of a cell that no search reached.
pub const UNPROCESSED: TLevel = 0xFFFF_FFFF;

/// The neighbour of cell `c` in direction `d`, if it is on the grid and has
/// the same elevation as `c`.
pub open spec fn flat_nbr(m: GridMeta, dem: Seq<u64>, c: int, d: int) -> Option<usize> {
    let w = m.spec_width() as int;
    match m.spec_try_shift(c % w, c / w, d) {
        Some(k) => if dem[k as int] == dem[c] {
            Some(k)
        } else {
            None
        },
        None => None,
    }
}

/// Cell `c` is at most `l` steps over equal-elevation neighbours away from
/// one of the `seeds`.
pub open spec fn within(m: GridMeta, dem: Seq<u64>, seeds: Seq<usize>, c: int, l: nat) -> bool
    decreases l,
{
    if l == 0 {
        seeds.contains(c as usize)
    } else {
        within(m, dem, seeds, c, (l - 1) as nat) || exists|d: int|
            0 <= d < 8 && match #[trigger] flat_nbr(m, dem, c, d) {
                Some(n) => within(m, dem, seeds, n as int, (l - 1) as nat),
                None => false,
            }
    }
}

/// All neighbours of the same elevation of cell `c` have a level, at most
/// one more than that of `c`.
pub open spec fn expanded(m: GridMeta, dem: Seq<u64>, lv: Seq<u32>, c: int) -> bool {
    forall|d: int|
        0 <= d < 8 ==> match #[trigger] flat_nbr(m, dem, c, d) {
            Some(n) => lv[n as int] != UNPROCESSED && lv[n as int] <= lv[c] + 1,
            None => true,
        }
}

/// `lv` gives each cell its distance to the seeds, the number of steps over
/// equal-elevation neighbours, or [`UNPROCESSED`] where no such path leads.
pub open spec fn flat_levels(m: GridMeta, dem: Seq<u64>, seeds: Seq<usize>, lv: Seq<u32>) -> bool {
    &&& lv.len() == m.spec_size()
    &&& forall|c: int|
        0 <= c < m.spec_size() ==> (#[trigger] lv[c] == UNPROCESSED <==> forall|l: nat|
            !#[trigger] within(m, dem, seeds, c, l))
    &&& forall|c: int|
        0 <= c < m.spec_size() && #[trigger] lv[c] != UNPROCESSED ==> within(
            m,
            dem,
            seeds,
            c,
            lv[c] as nat,
        ) && (lv[c] >= 1 ==> !within(m, dem, seeds, c, (lv[c] - 1) as nat))
}

/// Every cell of level at least one routes its flow to a neighbour of the
/// same elevation one level lower; the other cells keep their receivers.
pub open spec fn flat_receivers(
    m: GridMeta,
    dem: Seq<u64>,
    lv: Seq<u32>,
    rec0: Seq<u8>,
    rec: Seq<u8>,
) -> bool {
    &&& rec.len() == rec0.len()
    &&& forall|c: int|
        0 <= c < m.spec_size() && 1 <= #[trigger] lv[c] < UNPROCESSED ==> rec[c] < 8 && match flat_nbr(
            m,
            dem,
            c,
            rec[c] as int,
        ) {
            Some(p) => lv[p as int] + 1 == lv[c],
            None => false,
        }
    &&& forall|c: int|
        0 <= c < m.spec_size() && (#[trigger] lv[c] == 0 || lv[c] == UNPROCESSED) ==> rec[c] == rec0[c]
}

/// Equal-elevation neighbourhood is symmetric.
proof fn lemma_flat_sym(m: GridMeta, dem: Seq<u64>, c: int, d: int)
    requires
        m.wf(),
        0 <= c < m.spec_size(),
        0 <= d < 8,
        flat_nbr(m, dem, c, d) is Some,
    ensures
        flat_nbr(m, dem, flat_nbr(m, dem, c, d)->0 as int, rev_dir(d)) == Some(c as usize),
        flat_nbr(m, dem, c, d)->0 < m.spec_size(),
{
    let w = m.spec_width() as int;
    let h = m.spec_height() as int;
    assert(w > 0) by (nonlinear_arith)
        requires
            m.spec_size() == w * h,
            0 <= c < m.spec_size(),
            h >= 0,
    ;
    let x = c % w;
    let y = c / w;
    let nx = x + xshift(d);
    let ny = y + yshift(d);
    assert(c == x + y * w) by (nonlinear_arith)
        requires
            w > 0,
            x == c % w,
            y == c / w,
    ;
    let k = nx + ny * w;
    crate::grid::lemma_cell_index_bound(w, h, nx, ny);
    assert(k % w == nx && k / w == ny) by (nonlinear_arith)
        requires
            w > 0,
            0 <= nx < w,
            0 <= ny,
            k == nx + ny * w,
    ;
    assert(0 <= x < w && 0 <= y < h) by (nonlinear_arith)
        requires
            w > 0,
            x == c % w,
            y == c / w,
            0 <= c < w * h,
    ;
    let r = rev_dir(d);
    assert(0 <= r < 8 && xshift(r) == -xshift(d) && yshift(r) == -yshift(d));
    assert(nx + xshift(r) == x && ny + yshift(r) == y);
    assert(m.spec_try_shift(k % w, k / w, r) == Some((x + y * w) as usize));
}

/// What the search has found so far is complete up to `l` steps: every cell
/// within `l` steps has a level of at most `l`, provided all cells of level
/// below `lim` have had their neighbours looked at.
proof fn lemma_within_leveled(
    m: GridMeta,
    dem: Seq<u64>,
    seeds: Seq<usize>,
    lv: Seq<u32>,
    lim: int,
    l: nat,
    c: int,
)
    requires
        m.wf(),
        lv.len() == m.spec_size(),
        dem.len() == m.spec_size(),
        forall|q: int| 0 <= q < seeds.len() ==> #[trigger] lv[seeds[q] as int] == 0,
        forall|q: int| 0 <= q < seeds.len() ==> #[trigger] seeds[q] < m.spec_size(),
        forall|e: int|
            0 <= e < m.spec_size() && #[trigger] lv[e] != UNPROCESSED && lv[e] < lim ==> expanded(m, dem, lv, e),
        l <= lim,
        0 <= c < m.spec_size(),
        within(m, dem, seeds, c, l),
    ensures
        lv[c] != UNPROCESSED,
        lv[c] <= l,
    decreases l,
{
    if l == 0 {
        let q = choose|q: int| 0 <= q < seeds.len() && seeds[q] == c as usize;
        assert(lv[seeds[q] as int] == 0);
    } else if within(m, dem, seeds, c, (l - 1) as nat) {
        lemma_within_leveled(m, dem, seeds, lv, lim, (l - 1) as nat, c);
    } else {
        let d = choose|d: int|
            0 <= d < 8 && match #[trigger] flat_nbr(m, dem, c, d) {
                Some(n) => within(m, dem, seeds, n as int, (l - 1) as nat),
                None => false,
            };
        let n = flat_nbr(m, dem, c, d)->0;
        lemma_flat_sym(m, dem, c, d);
        lemma_within_leveled(m, dem, seeds, lv, lim, (l - 1) as nat, n as int);
        assert(expanded(m, dem, lv, n as int));
        assert(flat_nbr(m, dem, n as int, rev_dir(d)) == Some(c as usize));
    }
}


/// The state of the search: levels up to `top` are exact distances, cells
/// of level below `done` have had their neighbours looked at, receivers
/// point one level down, and `found` lists the cells of level one or more,
/// once each.
#[verifier::opaque]
spec fn search_state(
    m: GridMeta,
    dem: Seq<u64>,
    seeds: Seq<usize>,
    rec0: Seq<u8>,
    lv: Seq<u32>,
    rec: Seq<u8>,
    found: Seq<usize>,
    top: int,
    done: int,
) -> bool {
    let size = m.spec_size() as int;
    &&& m.wf()
    &&& dem.len() == size
    &&& lv.len() == size
    &&& rec.len() == size
    &&& 0 <= done <= top < UNPROCESSED
    &&& forall|q: int| 0 <= q < seeds.len() ==> #[trigger] seeds[q] < size
    &&& forall|q: int| 0 <= q < seeds.len() ==> #[trigger] lv[seeds[q] as int] == 0
    &&& forall|c: int| 0 <= c < size && #[trigger] lv[c] != UNPROCESSED ==> lv[c] <= top
    &&& forall|c: int|
        0 <= c < size && #[trigger] lv[c] != UNPROCESSED && lv[c] < done ==> expanded(m, dem, lv, c)
    &&& forall|c: int|
        0 <= c < size && #[trigger] lv[c] != UNPROCESSED ==> within(m, dem, seeds, c, lv[c] as nat) && (
        lv[c] >= 1 ==> !within(m, dem, seeds, c, (lv[c] - 1) as nat))
    &&& flat_receivers(m, dem, lv, rec0, rec)
    &&& found.no_duplicates()
    &&& forall|q: int| 0 <= q < found.len() ==> #[trigger] found[q] < size
    &&& forall|c: int| 0 <= c < size ==> (1 <= #[trigger] lv[c] < UNPROCESSED <==> found.contains(c as usize))
}

/// Facts of the search state used by the search's loops.
proof fn lemma_state_facts(
    m: GridMeta,
    dem: Seq<u64>,
    seeds: Seq<usize>,
    rec0: Seq<u8>,
    lv: Seq<u32>,
    rec: Seq<u8>,
    found: Seq<usize>,
    top: int,
    done: int,
)
    requires
        search_state(m, dem, seeds, rec0, lv, rec, found, top, done),
    ensures
        m.wf(),
        dem.len() == m.spec_size(),
        lv.len() == m.spec_size(),
        rec.len() == m.spec_size(),
        found.len() <= m.spec_size(),
        0 <= done <= top < UNPROCESSED,
        forall|c: int| 0 <= c < m.spec_size() && #[trigger] lv[c] != UNPROCESSED ==> lv[c] <= top,
        forall|c: int| 0 <= c < m.spec_size() ==> (1 <= #[trigger] lv[c] < UNPROCESSED <==> found.contains(c as usize)),
{
    reveal(search_state);
    lemma_distinct_len(found, m.spec_size() as int);
}

/// The search state may promise a higher top level.
proof fn lemma_state_raise(
    m: GridMeta,
    dem: Seq<u64>,
    seeds: Seq<usize>,
    rec0: Seq<u8>,
    lv: Seq<u32>,
    rec: Seq<u8>,
    found: Seq<usize>,
    top: int,
    done: int,
)
    requires
        search_state(m, dem, seeds, rec0, lv, rec, found, top, done),
        top + 1 < UNPROCESSED,
    ensures
        search_state(m, dem, seeds, rec0, lv, rec, found, top + 1, done),
{
    reveal(search_state);
}

/// Once all cells of level `done` have had their neighbours looked at, the
/// search state says so.
proof fn lemma_state_done(
    m: GridMeta,
    dem: Seq<u64>,
    seeds: Seq<usize>,
    rec0: Seq<u8>,
    lv: Seq<u32>,
    rec: Seq<u8>,
    found: Seq<usize>,
    top: int,
    done: int,
)
    requires
        search_state(m, dem, seeds, rec0, lv, rec, found, top, done),
        done < top,
        forall|c: int| 0 <= c < m.spec_size() && #[trigger] lv[c] == done ==> expanded(m, dem, lv, c),
    ensures
        search_state(m, dem, seeds, rec0, lv, rec, found, top, done + 1),
{
    reveal(search_state);
}

/// A cell of the same elevation next to a cell of level `top - 1` that has
/// no level yet gets level `top` and a receiver pointing back.
proof fn lemma_state_assign(
    m: GridMeta,
    dem: Seq<u64>,
    seeds: Seq<usize>,
    rec0: Seq<u8>,
    lv: Seq<u32>,
    rec: Seq<u8>,
    found: Seq<usize>,
    top: int,
    p: int,
    dir: int,
)
    requires
        search_state(m, dem, seeds, rec0, lv, rec, found, top, top - 1),
        top >= 1,
        0 <= p < m.spec_size(),
        lv[p] == top - 1,
        0 <= dir < 8,
        flat_nbr(m, dem, p, dir) is Some,
        lv[flat_nbr(m, dem, p, dir)->0 as int] == UNPROCESSED,
    ensures
        ({
            let ni = flat_nbr(m, dem, p, dir)->0;
            &&& ni < m.spec_size()
            &&& !found.contains(ni)
            &&& search_state(
                m,
                dem,
                seeds,
                rec0,
                lv.update(ni as int, top as u32),
                rec.update(ni as int, rev_dir(dir) as u8),
                found.push(ni),
                top,
                top - 1,
            )
            &&& forall|c: int|
                0 <= c < m.spec_size() && #[trigger] expanded(m, dem, lv, c) ==> expanded(
                    m,
                    dem,
                    lv.update(ni as int, top as u32),
                    c,
                )
        }),
{
    reveal(search_state);
    let size = m.spec_size() as int;
    let ni = flat_nbr(m, dem, p, dir)->0;
    lemma_flat_sym(m, dem, p, dir);
    let lv1 = lv.update(ni as int, top as u32);
    let rec1 = rec.update(ni as int, rev_dir(dir) as u8);
    let found1 = found.push(ni);
    if within(m, dem, seeds, ni as int, (top - 1) as nat) {
        lemma_within_leveled(m, dem, seeds, lv, top - 1, (top - 1) as nat, ni as int);
    }
    assert(within(m, dem, seeds, ni as int, top as nat)) by {
        assert(flat_nbr(m, dem, ni as int, rev_dir(dir)) == Some(p as usize));
        assert(within(m, dem, seeds, p, (top - 1) as nat));
    }
    assert(!found.contains(ni));
    assert forall|c: int|
        0 <= c < size && #[trigger] expanded(m, dem, lv, c) implies expanded(m, dem, lv1, c) by {
        assert forall|d: int| 0 <= d < 8 implies match #[trigger] flat_nbr(m, dem, c, d) {
            Some(n) => lv1[n as int] != UNPROCESSED && lv1[n as int] <= lv1[c] + 1,
            None => true,
        } by {
            match flat_nbr(m, dem, c, d) {
                Some(n) => {
                    lemma_flat_sym(m, dem, c, d);
                    assert(lv[n as int] != UNPROCESSED);
                    assert(n != ni);
                    assert(lv[n as int] <= top);
                },
                None => {},
            }
        }
    }
    assert forall|c: int|
        0 <= c < size && #[trigger] lv1[c] != UNPROCESSED && lv1[c] < top - 1 implies expanded(m, dem, lv1, c) by {
        assert(c != ni as int);
        assert(expanded(m, dem, lv, c));
    }
    assert forall|c: int|
        0 <= c < size && 1 <= #[trigger] lv1[c] < UNPROCESSED implies rec1[c] < 8 && match flat_nbr(
            m,
            dem,
            c,
            rec1[c] as int,
        ) {
            Some(q) => lv1[q as int] + 1 == lv1[c],
            None => false,
        } by {
        if c == ni as int {
            assert(rec1[c] == rev_dir(dir) as u8);
            assert(flat_nbr(m, dem, c, rev_dir(dir)) == Some(p as usize));
            assert(p != ni as int);
        } else {
            assert(rec1[c] == rec[c]);
            match flat_nbr(m, dem, c, rec[c] as int) {
                Some(q) => {
                    lemma_flat_sym(m, dem, c, rec[c] as int);
                    assert(q != ni as int);
                },
                None => {},
            }
        }
    }
    assert forall|c: int|
        0 <= c < size implies (1 <= #[trigger] lv1[c] < UNPROCESSED <==> found1.contains(c as usize)) by {
        if c != ni as int {
            if found1.contains(c as usize) {
                let q = choose|q: int| 0 <= q < found1.len() && found1[q] == c as usize;
                assert(q < found.len());
                assert(found[q] == c as usize);
            }
            if 1 <= lv[c] < UNPROCESSED {
                assert(found.contains(c as usize));
                let q = choose|q: int| 0 <= q < found.len() && found[q] == c as usize;
                assert(found1[q] == c as usize);
            }
        } else {
            assert(found1[found.len() as int] == ni);
        }
    }
    assert forall|q: int| 0 <= q < seeds.len() implies #[trigger] lv1[seeds[q] as int] == 0 by {
        assert(lv[seeds[q] as int] == 0);
    }
}

/// When every cell with a level has had its neighbours looked at, the
/// levels are the distances to the seeds and the receivers point down.
proof fn lemma_state_final(
    m: GridMeta,
    dem: Seq<u64>,
    seeds: Seq<usize>,
    rec0: Seq<u8>,
    lv: Seq<u32>,
    rec: Seq<u8>,
    found: Seq<usize>,
    top: int,
)
    requires
        search_state(m, dem, seeds, rec0, lv, rec, found, top, top),
        forall|c: int| 0 <= c < m.spec_size() ==> #[trigger] lv[c] != top,
    ensures
        flat_levels(m, dem, seeds, lv),
        flat_receivers(m, dem, lv, rec0, rec),
{
    reveal(search_state);
    let size = m.spec_size() as int;
    assert forall|c: int|
        0 <= c < size implies (#[trigger] lv[c] == UNPROCESSED <==> forall|l: nat|
            !#[trigger] within(m, dem, seeds, c, l)) by {
        if lv[c] == UNPROCESSED {
            assert forall|l: nat| !#[trigger] within(m, dem, seeds, c, l) by {
                if within(m, dem, seeds, c, l) {
                    assert forall|e: int|
                        0 <= e < size && #[trigger] lv[e] != UNPROCESSED && lv[e] < l + top + 1 implies expanded(
                        m,
                        dem,
                        lv,
                        e,
                    ) by {
                        assert(lv[e] != top);
                    }
                    lemma_within_leveled(m, dem, seeds, lv, l + top + 1, l, c);
                }
            }
        } else {
            assert(within(m, dem, seeds, c, lv[c] as nat));
        }
    }
}

/// The queue, levels and receivers of the search after it has looked at
/// the neighbours of cell `c` (of level `lc`) in the directions below `d`,
/// in direction order: each neighbour of equal elevation not reached yet
/// gets the next level, routes its flow back to `c`, and joins the queue.
pub open spec fn scan_nbrs(
    m: GridMeta,
    dem: Seq<u64>,
    c: int,
    lc: u32,
    st: (Seq<usize>, Seq<u32>, Seq<u8>),
    d: int,
) -> (Seq<usize>, Seq<u32>, Seq<u8>)
    decreases d,
{
    if d <= 0 {
        st
    } else {
        let p = scan_nbrs(m, dem, c, lc, st, d - 1);
        match flat_nbr(m, dem, c, d - 1) {
            Some(n) => if p.1[n as int] == UNPROCESSED {
                (p.0.push(n), p.1.update(n as int, (lc + 1) as u32), p.2.update(n as int, rev_dir(d - 1) as u8))
            } else {
                p
            },
            None => p,
        }
    }
}

/// One step of the search: the cell at the front of the queue is taken off
/// and its neighbours are looked at.
pub open spec fn search_pop(m: GridMeta, dem: Seq<u64>, st: (Seq<usize>, Seq<u32>, Seq<u8>)) -> (
    Seq<usize>,
    Seq<u32>,
    Seq<u8>,
) {
    let c = st.0[0] as int;
    scan_nbrs(m, dem, c, st.1[c], (st.0.drop_first(), st.1, st.2), 8)
}

/// Step `k` of a run of the search takes the front cell of a non-empty
/// queue.
pub open spec fn search_step_at(
    m: GridMeta,
    dem: Seq<u64>,
    fs: Seq<Seq<usize>>,
    ls: Seq<Seq<u32>>,
    rs: Seq<Seq<u8>>,
    k: int,
) -> bool {
    fs[k].len() > 0 && (fs[k + 1], ls[k + 1], rs[k + 1]) == search_pop(m, dem, (fs[k], ls[k], rs[k]))
}

/// A run of the search: queue, levels and receivers after each step.
pub open spec fn search_run(m: GridMeta, dem: Seq<u64>, fs: Seq<Seq<usize>>, ls: Seq<Seq<u32>>, rs: Seq<Seq<u8>>) -> bool {
    &&& fs.len() >= 1
    &&& ls.len() == fs.len()
    &&& rs.len() == fs.len()
    &&& forall|k: int| 0 <= k < fs.len() - 1 ==> #[trigger] search_step_at(m, dem, fs, ls, rs, k)
}

/// The levels the search starts from: zero for the seeds, none for the
/// other cells.
pub open spec fn seed_levels(size: int, seeds: Seq<usize>) -> Seq<u32> {
    Seq::new(size as nat, |c: int| if seeds.contains(c as usize) { 0u32 } else { UNPROCESSED })
}

/// Levels `lv` and receivers `rec` are what the breadth-first search leaves
/// when started from the queue `seeds` and receivers `rec0`, taking cells
/// off the front of the queue until it is empty: each cell is routed to the
/// first queued cell that reached it.
#[verifier::opaque]
pub open spec fn flats_searched(
    m: GridMeta,
    dem: Seq<u64>,
    seeds: Seq<usize>,
    rec0: Seq<u8>,
    lv: Seq<u32>,
    rec: Seq<u8>,
) -> bool {
    exists|fs: Seq<Seq<usize>>, ls: Seq<Seq<u32>>, rs: Seq<Seq<u8>>|
        {
            &&& #[trigger] search_run(m, dem, fs, ls, rs)
            &&& fs[0] == seeds
            &&& ls[0] == seed_levels(m.spec_size() as int, seeds)
            &&& rs[0] == rec0
            &&& fs.last().len() == 0
            &&& ls.last() == lv
            &&& rs.last() == rec
        }
}

/// A run extended by one more step is a run.
proof fn lemma_search_push(
    m: GridMeta,
    dem: Seq<u64>,
    fs: Seq<Seq<usize>>,
    ls: Seq<Seq<u32>>,
    rs: Seq<Seq<u8>>,
    f: Seq<usize>,
    l: Seq<u32>,
    r: Seq<u8>,
)
    requires
        search_run(m, dem, fs, ls, rs),
        fs.last().len() > 0,
        (f, l, r) == search_pop(m, dem, (fs.last(), ls.last(), rs.last())),
    ensures
        search_run(m, dem, fs.push(f), ls.push(l), rs.push(r)),
{
    let fs2 = fs.push(f);
    let ls2 = ls.push(l);
    let rs2 = rs.push(r);
    assert forall|k: int| 0 <= k < fs2.len() - 1 implies #[trigger] search_step_at(m, dem, fs2, ls2, rs2, k) by {
        if k < fs.len() - 1 {
            assert(search_step_at(m, dem, fs, ls, rs, k));
            assert(fs2[k] == fs[k] && fs2[k + 1] == fs[k + 1]);
            assert(ls2[k] == ls[k] && ls2[k + 1] == ls[k + 1]);
            assert(rs2[k] == rs[k] && rs2[k + 1] == rs[k + 1]);
        } else {
            assert(fs2[k] == fs.last() && fs2[k + 1] == f);
            assert(ls2[k] == ls.last() && ls2[k + 1] == l);
            assert(rs2[k] == rs.last() && rs2[k + 1] == r);
        }
    }
}

/// Resolves flats whose drainage cells are already seeded: `front` holds
/// the seeds. A breadth-first search over neighbours of equal elevation
/// gives every cell it reaches its distance to the nearest seed as its
/// level and routes its flow to the cell it was reached from, one level
/// lower; seeds get level zero and cells not reached [`UNPROCESSED`]. The
/// queue `front` is empty afterwards. Levels and receivers are exactly
/// those of the search run step by step (`flats_searched`): a cell routes
/// to the first queued cell that reached it, the front of the queue first,
/// then direction order.
///
/// For D8-based flow routing, the seeds can be obtained as a by-product of
/// depression filling.
pub fn resolve_flats_seeded(
    meta: &GridMeta,
    dem: &[u64],
    receivers: &mut [u8],
    front: &mut VecDeque<usize>,
    levels: &mut [TLevel],
)
    requires
        dem@.len() == meta.spec_size(),
        old(receivers)@.len() == meta.spec_size(),
        old(levels)@.len() == meta.spec_size(),
        meta.spec_size() < 0xFFFF_FFFE,
        forall|q: int| 0 <= q < old(front)@.len() ==> #[trigger] old(front)@[q] < meta.spec_size(),
    ensures
        final(front)@.len() == 0,
        flat_levels(*meta, dem@, old(front)@, final(levels)@),
        flat_receivers(*meta, dem@, final(levels)@, old(receivers)@, final(receivers)@),
        flats_searched(*meta, dem@, old(front)@, old(receivers)@, final(levels)@, final(receivers)@),
{
    proof {
        use_type_invariant(meta);
    }
    let ghost seeds = front@;
    let ghost rec0 = receivers@;
    let ghost m = *meta;
    let size = meta.size();
    let mut i: usize = 0;
    while i < size
        invariant
            i <= size,
            size == m.spec_size(),
            levels@.len() == size,
            forall|c: int| 0 <= c < i ==> #[trigger] levels@[c] == UNPROCESSED,
        decreases size - i,
    {
        levels[i] = UNPROCESSED;
        i = i + 1;
    }
    let mut current_level: TLevel = 0;
    let mut j: usize = 0;
    while j < front.len()
        invariant
            j <= front@.len(),
            front@ == seeds,
            size == m.spec_size(),
            levels@.len() == size,
            forall|q: int| 0 <= q < seeds.len() ==> #[trigger] seeds[q] < size,
            forall|c: int|
                0 <= c < size ==> (#[trigger] levels@[c] == 0 <==> seeds.take(j as int).contains(c as usize)),
            forall|c: int| 0 <= c < size ==> #[trigger] levels@[c] == 0 || levels@[c] == UNPROCESSED,
        decreases front@.len() - j,
    {
        let seed = front[j];
        let ghost lvb = levels@;
        levels[seed] = 0;
        proof {
            assert(levels@ == lvb.update(seed as int, 0));
            let tk1 = seeds.take(j + 1);
            let tk = seeds.take(j as int);
            assert(tk1 =~= tk.push(seed));
            assert forall|c: int| 0 <= c < size implies (#[trigger] levels@[c] == 0 <==> tk1.contains(
                c as usize,
            )) by {
                if tk.contains(c as usize) {
                    let q = choose|q: int| 0 <= q < tk.len() && tk[q] == c as usize;
                    assert(tk1[q] == c as usize);
                }
                if c == seed as int {
                    assert(tk1[tk1.len() - 1] == seed);
                }
                if tk1.contains(c as usize) && c != seed as int {
                    let q = choose|q: int| 0 <= q < tk1.len() && tk1[q] == c as usize;
                    assert(q < j);
                    assert(tk[q] == c as usize);
                }
            }
        }
        j = j + 1;
    }
    let ghost mut found: Seq<usize> = Seq::empty();
    proof {
        reveal(search_state);
        assert(seeds.take(seeds.len() as int) =~= seeds);
        assert forall|q: int| 0 <= q < seeds.len() implies #[trigger] levels@[seeds[q] as int] == 0 by {
            assert(seeds.contains(seeds[q]));
        }
        assert(search_state(m, dem@, seeds, rec0, levels@, receivers@, found, 0, 0));
        assert forall|c: int| 0 <= c < size implies #[trigger] levels@[c] == seed_levels(size as int, seeds)[c] by {
            if seeds.contains(c as usize) {
                assert(levels@[c] == 0);
            } else {
                assert(levels@[c] != 0);
            }
        }
        assert(levels@ =~= seed_levels(size as int, seeds));
    }
    let ghost mut fs: Seq<Seq<usize>> = seq![front@];
    let ghost mut ls: Seq<Seq<u32>> = seq![levels@];
    let ghost mut rs: Seq<Seq<u8>> = seq![receivers@];
    proof {
        assert(search_run(m, dem@, fs, ls, rs));
    }
    while front.len() > 0
        invariant
            search_run(m, dem@, fs, ls, rs),
            fs[0] == seeds,
            ls[0] == seed_levels(size as int, seeds),
            rs[0] == rec0,
            fs.last() == front@,
            ls.last() == levels@,
            rs.last() == receivers@,
            size == m.spec_size(),
            m == *meta,
            size < 0xFFFF_FFFE,
            search_state(m, dem@, seeds, rec0, levels@, receivers@, found, current_level as int, current_level as int),
            forall|q: int| 0 <= q < front@.len() ==> #[trigger] front@[q] < size,
            forall|q: int| 0 <= q < front@.len() ==> #[trigger] levels@[front@[q] as int] == current_level,
            forall|c: int| 0 <= c < size && #[trigger] levels@[c] == current_level ==> front@.contains(c as usize),
            front@.len() > 0 ==> current_level <= found.len(),
        decreases size - found.len() + if front@.len() > 0 {
            1int
        } else {
            0int
        },
    {
        proof {
            lemma_state_facts(m, dem@, seeds, rec0, levels@, receivers@, found, current_level as int, current_level as int);
            lemma_state_raise(m, dem@, seeds, rec0, levels@, receivers@, found, current_level as int, current_level as int);
        }
        let level_size = front.len();
        let ghost old_front = front@;
        let ghost found0 = found;
        let ghost mut newc: Seq<usize> = Seq::empty();
        current_level = current_level + 1;
        let r = current_level;
        proof {
            assert(found0 + newc =~= found);
        }
        let mut t: usize = 0;
        while t < level_size
            invariant
                search_run(m, dem@, fs, ls, rs),
                fs[0] == seeds,
                ls[0] == seed_levels(size as int, seeds),
                rs[0] == rec0,
                fs.last() == front@,
                ls.last() == levels@,
                rs.last() == receivers@,
                size == m.spec_size(),
                m == *meta,
                size < 0xFFFF_FFFE,
                1 <= r == current_level <= found0.len() + 1,
                found0.len() <= size,
                level_size == old_front.len(),
                t <= level_size,
                front@ == old_front.subrange(t as int, level_size as int) + newc,
                search_state(m, dem@, seeds, rec0, levels@, receivers@, found, r as int, r - 1),
                found == found0 + newc,
                forall|q: int| 0 <= q < old_front.len() ==> #[trigger] old_front[q] < size,
                forall|q: int| 0 <= q < old_front.len() ==> #[trigger] levels@[old_front[q] as int] == r - 1,
                forall|q: int| 0 <= q < newc.len() ==> #[trigger] newc[q] < size,
                forall|q: int| 0 <= q < newc.len() ==> #[trigger] levels@[newc[q] as int] == r,
                forall|c: int| 0 <= c < size && #[trigger] levels@[c] == r ==> newc.contains(c as usize),
                forall|c: int|
                    0 <= c < size && #[trigger] levels@[c] == r - 1 && !expanded(m, dem@, levels@, c)
                        ==> old_front.subrange(t as int, level_size as int).contains(c as usize),
            decreases level_size - t,
        {
            let ghost f0 = front@;
            let ghost l0v = levels@;
            let ghost r0v = receivers@;
            let popped = front.pop_front();
            let current_cell = match popped {
                Some(c) => c,
                None => {
                    proof {
                        assert(false);
                    }
                    0
                },
            };
            proof {
                assert(current_cell == old_front[t as int]);
                assert(front@ =~= old_front.subrange(t + 1, level_size as int) + newc);
                let s0 = old_front.subrange(t as int, level_size as int);
                let s1 = old_front.subrange(t + 1, level_size as int);
                assert forall|c: int|
                    0 <= c < size && #[trigger] levels@[c] == r - 1 && !expanded(m, dem@, levels@, c) && c
                        != current_cell implies s1.contains(c as usize) by {
                    assert(s0.contains(c as usize));
                    let q = choose|q: int| 0 <= q < s0.len() && s0[q] == c as usize;
                    assert(q != 0);
                    assert(s1[q - 1] == c as usize);
                }
                assert(levels@[current_cell as int] == r - 1);
                lemma_state_facts(m, dem@, seeds, rec0, levels@, receivers@, found, r as int, r - 1);
                assert(m.spec_width() > 0) by (nonlinear_arith)
                    requires
                        size == m.spec_width() * m.spec_height(),
                        current_cell < size,
                ;
            }
            let (x, y) = meta.i_to_xy(current_cell);
            proof {
                assert(y < m.spec_height()) by (nonlinear_arith)
                    requires
                        y == current_cell / m.spec_width(),
                        m.spec_width() > 0,
                        current_cell < m.spec_width() * m.spec_height(),
                ;
            }
            let mut dir: u8 = 0;
            while dir < 8
                invariant
                    search_run(m, dem@, fs, ls, rs),
                    fs[0] == seeds,
                    ls[0] == seed_levels(size as int, seeds),
                    rs[0] == rec0,
                    fs.last() == f0,
                    ls.last() == l0v,
                    rs.last() == r0v,
                    f0.len() > 0,
                    f0[0] == current_cell,
                    l0v[current_cell as int] == r - 1,
                    (front@, levels@, receivers@) == scan_nbrs(
                        m,
                        dem@,
                        current_cell as int,
                        l0v[current_cell as int],
                        (f0.drop_first(), l0v, r0v),
                        dir as int,
                    ),
                    size == m.spec_size(),
                    m == *meta,
                    m.wf(),
                    size < 0xFFFF_FFFE,
                    1 <= r == current_level <= found0.len() + 1,
                    found0.len() <= size,
                    level_size == old_front.len(),
                    t < level_size,
                    current_cell == old_front[t as int],
                    current_cell < size,
                    levels@[current_cell as int] == r - 1,
                    m.spec_width() > 0,
                    x == current_cell % m.spec_width(),
                    y == current_cell / m.spec_width(),
                    y < m.spec_height(),
                    dir <= 8,
                    front@ == old_front.subrange(t + 1, level_size as int) + newc,
                    search_state(m, dem@, seeds, rec0, levels@, receivers@, found, r as int, r - 1),
                    dem@.len() == size,
                    levels@.len() == size,
                    found == found0 + newc,
                    forall|q: int| 0 <= q < old_front.len() ==> #[trigger] old_front[q] < size,
                    forall|q: int| 0 <= q < old_front.len() ==> #[trigger] levels@[old_front[q] as int] == r - 1,
                    forall|q: int| 0 <= q < newc.len() ==> #[trigger] newc[q] < size,
                    forall|q: int| 0 <= q < newc.len() ==> #[trigger] levels@[newc[q] as int] == r,
                    forall|c: int| 0 <= c < size && #[trigger] levels@[c] == r ==> newc.contains(c as usize),
                    forall|c: int|
                        0 <= c < size && #[trigger] levels@[c] == r - 1 && !expanded(m, dem@, levels@, c) && c
                            != current_cell ==> old_front.subrange(t + 1, level_size as int).contains(c as usize),
                    forall|d: int|
                        0 <= d < dir ==> match #[trigger] flat_nbr(m, dem@, current_cell as int, d) {
                            Some(n) => n < size && levels@[n as int] != UNPROCESSED && levels@[n as int] <= r,
                            None => true,
                        },
                decreases 8 - dir,
            {
                proof {
                    lemma_state_facts(m, dem@, seeds, rec0, levels@, receivers@, found, r as int, r - 1);
                }
                let ghost st_d = (front@, levels@, receivers@);
                let ts = meta.try_shift(x, y, dir);
                match ts {
                    Some(ni) => {
                        proof {
                            crate::grid::lemma_cell_index_bound(
                                m.spec_width() as int,
                                m.spec_height() as int,
                                x + xshift(dir as int),
                                y + yshift(dir as int),
                            );
                        }
                        if dem[ni] == dem[current_cell] && levels[ni] > current_level {
                            let ghost lv0 = levels@;
                            let ghost newc_old = newc;
                            proof {
                                assert(flat_nbr(m, dem@, current_cell as int, dir as int) == Some(ni));
                                assert(lv0[ni as int] == UNPROCESSED);
                                lemma_state_assign(
                                    m,
                                    dem@,
                                    seeds,
                                    rec0,
                                    levels@,
                                    receivers@,
                                    found,
                                    r as int,
                                    current_cell as int,
                                    dir as int,
                                );
                            }
                            receivers[ni] = GridMeta::rev(dir as usize) as u8;
                            levels[ni] = current_level;
                            front.push_back(ni);
                            proof {
                                assert(st_d.1[ni as int] == UNPROCESSED);
                                assert(front@ == st_d.0.push(ni));
                                assert(receivers@ == st_d.2.update(ni as int, rev_dir(dir as int) as u8));
                                assert(levels@ == st_d.1.update(ni as int, (l0v[current_cell as int] + 1) as u32));
                                assert(scan_nbrs(m, dem@, current_cell as int, l0v[current_cell as int], (f0.drop_first(), l0v, r0v), dir + 1) == (front@, levels@, receivers@));
                            }
                            proof {
                                newc = newc.push(ni);
                                found = found.push(ni);
                                assert(found0 + newc =~= found);
                                assert(front@ =~= old_front.subrange(t + 1, level_size as int) + newc);
                                assert(levels@ == lv0.update(ni as int, r));
                                assert forall|c: int|
                                    0 <= c < size && #[trigger] levels@[c] == r - 1 && !expanded(m, dem@, levels@, c)
                                        && c != current_cell implies old_front.subrange(t + 1, level_size as int).contains(
                                    c as usize,
                                ) by {
                                    assert(c != ni as int);
                                    assert(!expanded(m, dem@, lv0, c));
                                }
                                assert forall|d: int|
                                    0 <= d < dir + 1 implies match #[trigger] flat_nbr(m, dem@, current_cell as int, d) {
                                    Some(n) => n < size && levels@[n as int] != UNPROCESSED && levels@[n as int] <= r,
                                    None => true,
                                } by {
                                    match flat_nbr(m, dem@, current_cell as int, d) {
                                        Some(n) => {
                                            if d < dir {
                                                assert(n != ni);
                                            }
                                        },
                                        None => {},
                                    }
                                }
                                assert forall|c: int| 0 <= c < size && #[trigger] levels@[c] == r implies newc.contains(
                                    c as usize,
                                ) by {
                                    if c != ni as int {
                                        assert(lv0[c] == r);
                                        assert(newc_old.contains(c as usize));
                                        let q = choose|q: int| 0 <= q < newc_old.len() && newc_old[q] == c as usize;
                                        assert(newc[q] == c as usize);
                                    } else {
                                        assert(newc[newc.len() - 1] == ni);
                                    }
                                }
                                assert forall|q: int| 0 <= q < old_front.len() implies #[trigger] levels@[old_front[q] as int]
                                    == r - 1 by {
                                    assert(lv0[old_front[q] as int] == r - 1);
                                }
                                assert forall|q: int| 0 <= q < newc.len() implies #[trigger] levels@[newc[q] as int] == r by {
                                    if q < newc.len() - 1 {
                                        assert(newc[q] == newc_old[q]);
                                    }
                                }
                            }
                        } else {
                            proof {
                                let f = flat_nbr(m, dem@, current_cell as int, dir as int);
                                if dem@[ni as int] == dem@[current_cell as int] {
                                    assert(f == Some(ni));
                                    assert(levels@[ni as int] <= r);
                                } else {
                                    assert(f is None);
                                }
                                assert(scan_nbrs(m, dem@, current_cell as int, l0v[current_cell as int], (f0.drop_first(), l0v, r0v), dir + 1) == st_d);
                            }
                        }
                    },
                    None => {
                        proof {
                            assert(flat_nbr(m, dem@, current_cell as int, dir as int) is None);
                            assert(scan_nbrs(m, dem@, current_cell as int, l0v[current_cell as int], (f0.drop_first(), l0v, r0v), dir + 1) == st_d);
                        }
                    },
                }
                dir = dir + 1;
            }
            proof {
                assert(expanded(m, dem@, levels@, current_cell as int));
                assert((front@, levels@, receivers@) == search_pop(m, dem@, (f0, l0v, r0v)));
                lemma_search_push(m, dem@, fs, ls, rs, front@, levels@, receivers@);
                fs = fs.push(front@);
                ls = ls.push(levels@);
                rs = rs.push(receivers@);
            }
            t = t + 1;
        }
        proof {
            assert(front@ =~= newc);
            assert forall|c: int| 0 <= c < size && #[trigger] levels@[c] == r - 1 implies expanded(m, dem@, levels@, c) by {
                let sub = old_front.subrange(level_size as int, level_size as int);
                assert(sub.len() == 0);
                if !expanded(m, dem@, levels@, c) {
                    assert(sub.contains(c as usize));
                }
            }
            lemma_state_done(m, dem@, seeds, rec0, levels@, receivers@, found, r as int, r - 1);
            lemma_state_facts(m, dem@, seeds, rec0, levels@, receivers@, found, r as int, r as int);
        }
    }
    proof {
        assert forall|c: int| 0 <= c < size implies #[trigger] levels@[c] != current_level by {
            if levels@[c] == current_level {
                assert(front@.contains(c as usize));
            }
        }
        lemma_state_final(m, dem@, seeds, rec0, levels@, receivers@, found, current_level as int);
        reveal(flats_searched);
        assert(search_run(m, dem@, fs, ls, rs));
        assert(flats_searched(m, dem@, seeds, rec0, levels@, receivers@));
    }
}

/// `dirs` marks, for every cell of level one or more, the directions to its
/// neighbours of equal elevation one level lower, and nothing else.
pub open spec fn flat_dirs(m: GridMeta, dem: Seq<u64>, lv: Seq<u32>, dirs: Seq<[bool; 8]>) -> bool {
    &&& dirs.len() == m.spec_size()
    &&& forall|c: int, d: int|
        0 <= c < m.spec_size() && 0 <= d < 8 ==> (#[trigger] dirs[c]@[d] <==> (1 <= lv[c] < UNPROCESSED
            && match flat_nbr(m, dem, c, d) {
            Some(p) => lv[p as int] + 1 == lv[c],
            None => false,
        }))
}

/// Resolves flats for multiple flow directions from the seeds in `front`:
/// the breadth-first search of `resolve_flats_seeded` gives every cell its
/// level, and every reached cell is marked with all directions to
/// neighbours of equal elevation one level lower, the cells it can pass
/// its flow to. The queue `front` is empty afterwards.
pub fn resolve_flats_seeded_dirs(
    meta: &GridMeta,
    dem: &[u64],
    front: &mut VecDeque<usize>,
    levels: &mut [TLevel],
) -> (r: Vec<[bool; 8]>)
    requires
        dem@.len() == meta.spec_size(),
        old(levels)@.len() == meta.spec_size(),
        meta.spec_size() < 0xFFFF_FFFE,
        forall|q: int| 0 <= q < old(front)@.len() ==> #[trigger] old(front)@[q] < meta.spec_size(),
    ensures
        final(front)@.len() == 0,
        flat_levels(*meta, dem@, old(front)@, final(levels)@),
        flat_dirs(*meta, dem@, final(levels)@, r@),
{
    proof {
        use_type_invariant(meta);
    }
    let ghost m = *meta;
    let size = meta.size();
    let mut scratch: Vec<u8> = Vec::new();
    let mut k: usize = 0;
    while k < size
        invariant
            k <= size,
            scratch@.len() == k,
        decreases size - k,
    {
        scratch.push(crate::grid::NO_FLOW);
        k = k + 1;
    }
    resolve_flats_seeded(meta, dem, scratch.as_mut_slice(), front, levels);
    let mut dirs: Vec<[bool; 8]> = Vec::new();
    let mut c: usize = 0;
    while c < size
        invariant
            m == *meta,
            m.wf(),
            size == m.spec_size(),
            size < 0xFFFF_FFFE,
            dem@.len() == size,
            levels@.len() == size,
            c <= size,
            dirs@.len() == c,
            forall|c2: int, d: int|
                0 <= c2 < c && 0 <= d < 8 ==> (#[trigger] dirs@[c2]@[d] <==> (1 <= levels@[c2] < UNPROCESSED
                    && match flat_nbr(m, dem@, c2, d) {
                    Some(p) => levels@[p as int] + 1 == levels@[c2],
                    None => false,
                })),
        decreases size - c,
    {
        proof {
            assert(m.spec_width() > 0) by (nonlinear_arith)
                requires
                    size == m.spec_width() * m.spec_height(),
                    c < size,
            ;
        }
        let (x, y) = meta.i_to_xy(c);
        proof {
            assert(y < m.spec_height()) by (nonlinear_arith)
                requires
                    y == c / m.spec_width(),
                    m.spec_width() > 0,
                    c < m.spec_width() * m.spec_height(),
            ;
            assert(x < m.spec_width());
            assert(m.spec_width() <= size) by (nonlinear_arith)
                requires
                    size == m.spec_width() * m.spec_height(),
                    m.spec_height() > y,
            ;
            assert(m.spec_height() <= size) by (nonlinear_arith)
                requires
                    size == m.spec_width() * m.spec_height(),
                    m.spec_width() > x,
            ;
            crate::grid::lemma_shift_tables();
        }
        let lc = levels[c];
        let mut a: [bool; 8] = [false; 8];
        let mut d: u8 = 0;
        while d < 8
            invariant
                m == *meta,
                m.wf(),
                size == m.spec_size(),
                size < 0xFFFF_FFFE,
                dem@.len() == size,
                levels@.len() == size,
                c < size,
                lc == levels@[c as int],
                m.spec_width() > 0,
                x == c % m.spec_width(),
                y == c / m.spec_width(),
                x < m.spec_width() <= size,
                y < m.spec_height() <= size,
                d <= 8,
                forall|e: int|
                    0 <= e < d ==> (#[trigger] a@[e] <==> (1 <= lc < UNPROCESSED && match flat_nbr(m, dem@, c as int, e) {
                        Some(p) => levels@[p as int] + 1 == lc,
                        None => false,
                    })),
                forall|e: int| d <= e < 8 ==> !#[trigger] a@[e],
            decreases 8 - d,
        {
            proof {
                crate::grid::lemma_shift_tables();
            }
            let ts = meta.try_shift(x, y, d);
            let mut mark = false;
            match ts {
                Some(p) => {
                    proof {
                        crate::depfill::zhou::lemma_nbr(m, c as int, d as int);
                    }
                    if 1 <= lc && lc < UNPROCESSED && dem[p] == dem[c] && levels[p] < lc && levels[p] + 1 == lc {
                        mark = true;
                    }
                },
                None => {},
            }
            a[d as usize] = mark;
            d = d + 1;
        }
        dirs.push(a);
        proof {
            assert forall|c2: int, e: int|
                0 <= c2 < c + 1 && 0 <= e < 8 implies (#[trigger] dirs@[c2]@[e] <==> (1 <= levels@[c2] < UNPROCESSED
                    && match flat_nbr(m, dem@, c2, e) {
                    Some(p) => levels@[p as int] + 1 == levels@[c2],
                    None => false,
                })) by {
                if c2 == c as int {
                    assert(dirs@[c2] == a);
                } else {
                    assert(dirs@[c2] == dirs@.drop_last()[c2]);
                }
            }
        }
        c = c + 1;
    }
    dirs
}

} // verus!
