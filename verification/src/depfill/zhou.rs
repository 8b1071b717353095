//! Priority-flood depression filling of a grid after Zhou et al. (2016),
//! which labels the watershed of every cell on the way.
use vstd::prelude::*;
use vstd::multiset::Multiset;

use std::collections::VecDeque;

use crate::depfill::cell::Cell;
use crate::grid::{lemma_cell_index_bound, xshift, yshift, GridMeta};
use crate::queue::{rank_gt, MaxQueue, Ranked};
use crate::TLabel;

verus! {

broadcast use vstd::seq_lib::group_to_multiset_ensures;

/// Flag bit for the region of interest: the highest bit of a label.
pub const ROI_FLAG: TLabel = 0x8000_0000;

/// The label value of a cell that is not processed yet.
pub const NOT_FILLED: TLabel = 0x7FFF_FFFF;

/// A point where two watersheds meet.
///
/// This does not say anything about it being a saddle point, only that it is
/// on a ridge. A ridge is always approached from one side, and a ridge point
/// therefore has a degree of subjectivity.
#[derive(Debug, Clone, Copy, PartialEq, Eq, Structural)]
#[non_exhaustive]
pub struct RidgePoint {
    /// The label of the approaching side
    pub my_label: TLabel,
    /// The label of the other side
    pub n_label: TLabel,
    /// Elevation key of the approaching side
    pub my_elev: u64,
    /// Elevation key of the other side
    pub n_elev: u64,
    /// Approacher's cell index
    pub my_cell: usize,
    /// Other's cell index
    pub n_cell: usize,
}

/// The neighbour of flat index `i` in direction `d`, if it is on the grid.
pub open spec fn nbr(m: GridMeta, i: int, d: int) -> Option<usize> {
    m.spec_try_shift(i % (m.spec_width() as int), i / (m.spec_width() as int), d)
}

/// `j` is the neighbour of `i` in one of the directions below `d`.
pub open spec fn nbr_below(m: GridMeta, i: int, j: int, d: int) -> bool {
    exists|e: int| 0 <= e < d && #[trigger] nbr(m, i, e) == Some(j as usize)
}

/// `j` is one of the eight neighbours of `i`.
pub open spec fn is_nbr(m: GridMeta, i: int, j: int) -> bool {
    nbr_below(m, i, j, 8)
}

/// The neighbours of `i` in the directions below `d` that satisfy `p`, in
/// direction order.
pub open spec fn nbrs_upto(m: GridMeta, i: int, p: spec_fn(usize) -> bool, d: int) -> Seq<usize>
    decreases d,
{
    if d <= 0 {
        Seq::empty()
    } else {
        let prev = nbrs_upto(m, i, p, d - 1);
        match nbr(m, i, d - 1) {
            Some(j) => if p(j) {
                prev.push(j)
            } else {
                prev
            },
            None => prev,
        }
    }
}

/// All neighbours of `i` that satisfy `p`, in direction order.
pub open spec fn nbrs_where(m: GridMeta, i: int, p: spec_fn(usize) -> bool) -> Seq<usize> {
    nbrs_upto(m, i, p, 8)
}


/// Cells that are processed already.
pub open spec fn filled_where(labels: Seq<TLabel>) -> spec_fn(usize) -> bool {
    |j: usize| labels[j as int] != NOT_FILLED
}

/// Unprocessed cells not above `e`.
pub open spec fn unfilled_not_above(labels: Seq<TLabel>, dem: Seq<u64>, e: u64) -> spec_fn(
    usize,
) -> bool {
    |j: usize| labels[j as int] == NOT_FILLED && dem[j as int] <= e
}

/// Unprocessed cells below `e`.
pub open spec fn unfilled_below(labels: Seq<TLabel>, dem: Seq<u64>, e: u64) -> spec_fn(
    usize,
) -> bool {
    |j: usize| labels[j as int] == NOT_FILLED && dem[j as int] < e
}

/// Unprocessed cells not below `e`.
pub open spec fn unfilled_not_below(labels: Seq<TLabel>, dem: Seq<u64>, e: u64) -> spec_fn(
    usize,
) -> bool {
    |j: usize| labels[j as int] == NOT_FILLED && dem[j as int] >= e
}

/// Unprocessed cells above `e`.
pub open spec fn unfilled_above(labels: Seq<TLabel>, dem: Seq<u64>, e: u64) -> spec_fn(
    usize,
) -> bool {
    |j: usize| labels[j as int] == NOT_FILLED && dem[j as int] > e
}

/// The ridge points seen from cell `i` (labelled `li`) towards `cells`.
pub open spec fn ridge_points(
    i: int,
    li: TLabel,
    cells: Seq<usize>,
    labels: Seq<TLabel>,
    dem: Seq<u64>,
) -> Seq<RidgePoint> {
    cells.map_values(
        |j: usize|
            RidgePoint {
                my_label: li,
                n_label: labels[j as int],
                my_elev: dem[i],
                n_elev: dem[j as int],
                my_cell: i as usize,
                n_cell: j,
            },
    )
}

/// Every cell.
pub open spec fn any_cell() -> spec_fn(usize) -> bool {
    |j: usize| true
}

/// The label of the last neighbour of `n`, in the directions below `d`,
/// that is processed and not above `n`.
pub open spec fn low_nbr_label(m: GridMeta, labels: Seq<TLabel>, dem: Seq<u64>, n: int, d: int) -> Option<
    TLabel,
>
    decreases d,
{
    if d <= 0 {
        None
    } else {
        match nbr(m, n, d - 1) {
            Some(k) => if labels[k as int] != NOT_FILLED && dem[k as int] <= dem[n] {
                Some(labels[k as int])
            } else {
                low_nbr_label(m, labels, dem, n, d - 1)
            },
            None => low_nbr_label(m, labels, dem, n, d - 1),
        }
    }
}

/// The neighbour of `n` in direction `e` is processed and lower than `n`.
pub open spec fn lower_filled_at(m: GridMeta, labels: Seq<TLabel>, dem: Seq<u64>, n: int, e: int) -> bool {
    match nbr(m, n, e) {
        Some(k) => labels[k as int] != NOT_FILLED && dem[k as int] < dem[n],
        None => false,
    }
}

/// `n` has a processed neighbour lower than itself.
pub open spec fn has_lower_filled_nbr(m: GridMeta, labels: Seq<TLabel>, dem: Seq<u64>, n: int) -> bool {
    exists|e: int| 0 <= e < 8 && #[trigger] lower_filled_at(m, labels, dem, n, e)
}

/// The labels once the slope walk from `si` has handled the directions
/// below `d`: unprocessed neighbours above `si` take its label.
pub open spec fn slope_labels(m: GridMeta, labels: Seq<TLabel>, dem: Seq<u64>, si: int, d: int) -> Seq<
    TLabel,
> {
    Seq::new(
        labels.len(),
        |j: int|
            if nbr_below(m, si, j, d) && labels[j] == NOT_FILLED && dem[j] > dem[si] {
                labels[si]
            } else {
                labels[j]
            },
    )
}

/// In direction `d` the slope walk from `si` meets an unprocessed neighbour
/// that, at that moment, has no processed neighbour lower than itself: `si`
/// borders the unprocessed area.
pub open spec fn slope_boundary_at(m: GridMeta, labels: Seq<TLabel>, dem: Seq<u64>, si: int, d: int) -> bool {
    match nbr(m, si, d) {
        Some(n) => labels[n as int] == NOT_FILLED && !has_lower_filled_nbr(
            m,
            slope_labels(m, labels, dem, si, d + 1),
            dem,
            n as int,
        ),
        None => false,
    }
}

/// The slope walk from `si` finds a boundary in a direction below `d`.
pub open spec fn slope_boundary_below(m: GridMeta, labels: Seq<TLabel>, dem: Seq<u64>, si: int, d: int) -> bool {
    exists|e: int| 0 <= e < d && #[trigger] slope_boundary_at(m, labels, dem, si, e)
}

/// The queue entry of cell `i` at elevation `z`.
pub open spec fn cell_at(m: GridMeta, i: int, z: u64) -> Cell {
    Cell {
        x: (i % (m.spec_width() as int)) as usize,
        y: (i / (m.spec_width() as int)) as usize,
        z,
        roi: false,
    }
}

/// The label boundary cell `n` ends up with when it is popped: its own if it
/// has one, else that of its last processed neighbour not above it, else
/// `fresh`.
pub open spec fn boundary_label(m: GridMeta, labels: Seq<TLabel>, dem: Seq<u64>, n: int, fresh: TLabel) -> TLabel {
    if labels[n] != NOT_FILLED {
        labels[n]
    } else {
        match low_nbr_label(m, labels, dem, n, 8) {
            Some(l) => l,
            None => fresh,
        }
    }
}

/// Popping boundary cell `n` starts a new watershed.
pub open spec fn takes_fresh_label(m: GridMeta, labels: Seq<TLabel>, dem: Seq<u64>, n: int) -> bool {
    labels[n] == NOT_FILLED && low_nbr_label(m, labels, dem, n, 8) is None
}

/// The labels after flooding from cell `i`: its unprocessed neighbours take its label.
pub open spec fn flooded_labels(m: GridMeta, labels: Seq<TLabel>, i: int) -> Seq<TLabel> {
    Seq::new(
        labels.len(),
        |j: int|
            if is_nbr(m, i, j) && labels[j] == NOT_FILLED {
                labels[i]
            } else {
                labels[j]
            },
    )
}

/// The elevations after flooding from cell `i`: its unprocessed neighbours
/// below it (or not above it, when `level` is set) are raised to its level.
pub open spec fn flooded_dem(m: GridMeta, labels: Seq<TLabel>, dem: Seq<u64>, i: int, level: bool) -> Seq<u64> {
    Seq::new(
        dem.len(),
        |j: int|
            if is_nbr(m, i, j) && labels[j] == NOT_FILLED && (dem[j] < dem[i] || (level && dem[j]
                == dem[i])) {
                dem[i]
            } else {
                dem[j]
            },
    )
}

/// One step that took cell `di` off the depression queue.
pub open spec fn depression_step(
    m: GridMeta,
    pre: ZhouFillState,
    post: ZhouFillState,
    dem: Seq<u64>,
    dem2: Seq<u64>,
    labels: Seq<TLabel>,
    labels2: Seq<TLabel>,
    ridges: Seq<RidgePoint>,
    ridges2: Seq<RidgePoint>,
) -> bool {
    let di = pre.spec_depression()[0] as int;
    &&& post.spec_pq() == pre.spec_pq()
    &&& post.spec_label() == pre.spec_label()
    &&& post.spec_depression() == pre.spec_depression().drop_first() + nbrs_where(
        m,
        di,
        unfilled_not_above(labels, dem, dem[di]),
    )
    &&& post.spec_slope() == pre.spec_slope() + nbrs_where(m, di, unfilled_above(labels, dem, dem[di]))
    &&& ridges2 == ridges + ridge_points(di, labels[di], nbrs_where(m, di, filled_where(labels)), labels, dem)
    &&& labels2 == flooded_labels(m, labels, di)
    &&& dem2 == flooded_dem(m, labels, dem, di, true)
}

/// One step that took cell `si` off the slope queue.
pub open spec fn slope_step(
    m: GridMeta,
    pre: ZhouFillState,
    post: ZhouFillState,
    dem: Seq<u64>,
    dem2: Seq<u64>,
    labels: Seq<TLabel>,
    labels2: Seq<TLabel>,
    ridges: Seq<RidgePoint>,
    ridges2: Seq<RidgePoint>,
) -> bool {
    let si = pre.spec_slope()[0] as int;
    &&& post.spec_pq() == if slope_boundary_below(m, labels, dem, si, 8) {
        pre.spec_pq().insert(cell_at(m, si, dem[si]))
    } else {
        pre.spec_pq()
    }
    &&& post.spec_label() == pre.spec_label()
    &&& post.spec_depression() == pre.spec_depression()
    &&& post.spec_slope() == pre.spec_slope().drop_first() + nbrs_where(
        m,
        si,
        unfilled_above(labels, dem, dem[si]),
    )
    &&& ridges2 == ridges + ridge_points(si, labels[si], nbrs_where(m, si, filled_where(labels)), labels, dem)
    &&& labels2 == slope_labels(m, labels, dem, si, 8)
    &&& dem2 == dem
}

/// One step that took cell `c` off the priority queue.
pub open spec fn boundary_step(
    m: GridMeta,
    pre: ZhouFillState,
    post: ZhouFillState,
    dem: Seq<u64>,
    dem2: Seq<u64>,
    labels: Seq<TLabel>,
    labels2: Seq<TLabel>,
    ridges: Seq<RidgePoint>,
    ridges2: Seq<RidgePoint>,
    c: Cell,
) -> bool {
    let n = c.x + c.y * m.spec_width();
    let labels1 = labels.update(n, boundary_label(m, labels, dem, n, pre.spec_label()));
    &&& post.spec_pq() == pre.spec_pq().remove(c)
    &&& post.spec_label() == if takes_fresh_label(m, labels, dem, n) {
        (pre.spec_label() + 1) as TLabel
    } else {
        pre.spec_label()
    }
    &&& post.spec_depression() == pre.spec_depression() + nbrs_where(
        m,
        n,
        unfilled_below(labels1, dem, dem[n]),
    )
    &&& post.spec_slope() == pre.spec_slope() + nbrs_where(m, n, unfilled_not_below(labels1, dem, dem[n]))
    &&& ridges2 == ridges + ridge_points(n, labels1[n], nbrs_where(m, n, any_cell()), labels1, dem)
    &&& labels2 == flooded_labels(m, labels1, n)
    &&& dem2 == flooded_dem(m, labels1, dem, n, false)
}

/// The next step can take a new label if it needs one: when it will pop a
/// boundary cell that starts a new watershed, the label counter is not full.
#[verifier::opaque]
pub open spec fn label_room(m: GridMeta, st: ZhouFillState, dem: Seq<u64>, labels: Seq<TLabel>) -> bool {
    st.spec_depression().len() == 0 && st.spec_slope().len() == 0 ==> forall|c: Cell|
        #[trigger] st.spec_pq().count(c) > 0 && takes_fresh_label(m, labels, dem, c.x + c.y * m.spec_width())
            ==> st.spec_label() < u32::MAX
}

/// A label counter below its limit leaves room for any step.
pub proof fn lemma_label_room(m: GridMeta, st: ZhouFillState, dem: Seq<u64>, labels: Seq<TLabel>)
    requires
        st.spec_label() < u32::MAX,
    ensures
        label_room(m, st, dem, labels),
{
    reveal(label_room);
}

/// One step of the flood: from the depression queue if it holds a cell,
/// else from the slope queue if it holds one, else from the priority queue,
/// whose lowest cell (one of them, if several are lowest) it takes.
pub open spec fn zhou_step(
    m: GridMeta,
    pre: ZhouFillState,
    post: ZhouFillState,
    dem: Seq<u64>,
    dem2: Seq<u64>,
    labels: Seq<TLabel>,
    labels2: Seq<TLabel>,
    ridges: Seq<RidgePoint>,
    ridges2: Seq<RidgePoint>,
) -> bool {
    if pre.spec_depression().len() > 0 {
        depression_step(m, pre, post, dem, dem2, labels, labels2, ridges, ridges2)
    } else if pre.spec_slope().len() > 0 {
        slope_step(m, pre, post, dem, dem2, labels, labels2, ridges, ridges2)
    } else {
        exists|c: Cell|
            {
                &&& #[trigger] pre.spec_pq().count(c) > 0
                &&& forall|y: Cell| #[trigger] pre.spec_pq().count(y) > 0 ==> !rank_gt(y.rank(), c.rank())
                &&& boundary_step(m, pre, post, dem, dem2, labels, labels2, ridges, ridges2, c)
            }
    }
}

/// The members of `nbrs_upto` are neighbours on the grid that satisfy the filter.
pub proof fn lemma_nbrs_upto(m: GridMeta, i: int, p: spec_fn(usize) -> bool, d: int)
    requires
        m.wf(),
        0 <= i < m.spec_size(),
        0 <= d <= 8,
    ensures
        forall|k: int|
            0 <= k < nbrs_upto(m, i, p, d).len() ==> {
                let j = #[trigger] nbrs_upto(m, i, p, d)[k];
                &&& j < m.spec_size()
                &&& p(j)
                &&& nbr_below(m, i, j as int, d)
            },
    decreases d,
{
    if d > 0 {
        lemma_nbrs_upto(m, i, p, d - 1);
        lemma_nbr(m, i, d - 1);
        let prev = nbrs_upto(m, i, p, d - 1);
        assert forall|k: int| 0 <= k < nbrs_upto(m, i, p, d).len() implies {
            let j = #[trigger] nbrs_upto(m, i, p, d)[k];
            &&& j < m.spec_size()
            &&& p(j)
            &&& nbr_below(m, i, j as int, d)
        } by {
            let j = nbrs_upto(m, i, p, d)[k];
            lemma_nbr_below_step(m, i, j as int, d - 1);
            if k < prev.len() {
                assert(j == prev[k]);
            }
        }
    }
}

/// The cells on the outer ring of the grid, as `add_edges` queues them: top
/// and bottom row cell by cell from the left, then the left and right column
/// without the corners, from the top.
pub open spec fn edge_cells(m: GridMeta, dem: Seq<u64>) -> Seq<Cell> {
    let w = m.spec_width() as int;
    let h = m.spec_height() as int;
    let rows = Seq::new(
        (2 * w) as nat,
        |k: int|
            {
                let x = k / 2;
                let y = if k % 2 == 0 {
                    0
                } else {
                    h - 1
                };
                Cell { x: x as usize, y: y as usize, z: dem[x + y * w], roi: false }
            },
    );
    let cols = Seq::new(
        (if h >= 2 {
            2 * (h - 2)
        } else {
            0
        }) as nat,
        |k: int|
            {
                let y = 1 + k / 2;
                let x = if k % 2 == 0 {
                    0
                } else {
                    w - 1
                };
                Cell { x: x as usize, y: y as usize, z: dem[x + y * w], roi: false }
            },
    );
    rows + cols
}

/// The cells that `add_edges` queues are exactly the cells on the outer ring
/// of the grid, each at its elevation and outside the region of interest.
pub proof fn lemma_edge_cells_ring(m: GridMeta, dem: Seq<u64>)
    requires
        m.spec_height() >= 1,
        m.spec_width() >= 1 || m.spec_height() <= 2,
    ensures
        forall|c: Cell|
            #[trigger] edge_cells(m, dem).contains(c) <==> (c.x < m.spec_width() && c.y < m.spec_height() && (
            c.x == 0 || c.x + 1 == m.spec_width() || c.y == 0 || c.y + 1 == m.spec_height()) && c.z
                == dem[c.x + c.y * m.spec_width()] && !c.roi),
{
    let w = m.spec_width() as int;
    let h = m.spec_height() as int;
    let all = edge_cells(m, dem);
    let nrows = 2 * w;
    assert forall|c: Cell| #[trigger] all.contains(c) <==> (c.x < w && c.y < h && (c.x == 0 || c.x + 1 == w
        || c.y == 0 || c.y + 1 == h) && c.z == dem[c.x + c.y * w] && !c.roi) by {
        if all.contains(c) {
            let k = choose|k: int| 0 <= k < all.len() && all[k] == c;
            if k >= nrows {
                let j = k - nrows;
                assert(h >= 3);
                assert(all[k] == edge_cells(m, dem).subrange(nrows, all.len() as int)[j]);
            }
        }
        if c.x < w && c.y < h && (c.x == 0 || c.x + 1 == w || c.y == 0 || c.y + 1 == h) && c.z == dem[c.x
            + c.y * w] && !c.roi {
            let k: int = if c.y == 0 {
                2 * c.x
            } else if c.y + 1 == h {
                2 * c.x + 1
            } else if c.x == 0 {
                nrows + 2 * (c.y - 1)
            } else {
                nrows + 2 * (c.y - 1) + 1
            };
            assert(0 <= k < all.len());
            assert(all[k] == c);
        }
    }
}

/// The labels after seeding the cells `idxs` with label `l`.
pub open spec fn seeded_labels(labels: Seq<TLabel>, idxs: Seq<usize>, l: TLabel) -> Seq<TLabel> {
    Seq::new(
        labels.len(),
        |j: int|
            if idxs.contains(j as usize) {
                l
            } else {
                labels[j]
            },
    )
}

/// On a row of width `w`, a cell index splits uniquely into column and row.
proof fn lemma_split_unique(w: int, a: int, p: int, b: int, q: int)
    requires
        0 <= a < w,
        0 <= b < w,
        a + p * w == b + q * w,
    ensures
        a == b,
        p == q,
{
    assert((p - q) * w == b - a) by (nonlinear_arith)
        requires
            a + p * w == b + q * w,
    ;
    if p > q {
        assert((p - q) * w >= w) by (nonlinear_arith)
            requires
                p - q >= 1,
                w > 0,
        ;
    } else if p < q {
        assert((q - p) * w >= w) by (nonlinear_arith)
            requires
                q - p >= 1,
                w > 0,
        ;
        assert((p - q) * w == -((q - p) * w)) by (nonlinear_arith);
    }
}

/// The neighbours of a cell lie on the grid, differ from the cell and
/// from each other.
pub proof fn lemma_nbr(m: GridMeta, i: int, d: int)
    requires
        m.wf(),
        0 <= i < m.spec_size(),
        0 <= d < 8,
    ensures
        m.spec_width() > 0,
        i / (m.spec_width() as int) < m.spec_height(),
        nbr(m, i, d) matches Some(j) ==> {
            &&& j < m.spec_size()
            &&& j != i
            &&& forall|e: int| 0 <= e < 8 && e != d ==> #[trigger] nbr(m, i, e) != Some(j)
        },
{
    let w = m.spec_width() as int;
    let h = m.spec_height() as int;
    if w == 0 {
        assert(m.spec_size() == 0) by (nonlinear_arith)
            requires
                m.spec_size() == w * h,
                w == 0,
        ;
    }
    let x = i % w;
    let y = i / w;
    assert(i == x + y * w) by (nonlinear_arith)
        requires
            w > 0,
            x == i % w,
            y == i / w,
    ;
    assert(0 <= x < w);
    assert(y < h) by (nonlinear_arith)
        requires
            i == x + y * w,
            0 <= x,
            i < w * h,
            w > 0,
    ;
    if let Some(j) = nbr(m, i, d) {
        let nx = x + xshift(d);
        let ny = y + yshift(d);
        lemma_cell_index_bound(w, h, nx, ny);
        assert(j == nx + ny * w);
        if j == i {
            lemma_split_unique(w, nx, ny, x, y);
        }
        assert forall|e: int| 0 <= e < 8 && e != d implies #[trigger] nbr(m, i, e) != Some(j) by {
            if nbr(m, i, e) == Some(j) {
                let ex = x + xshift(e);
                let ey = y + yshift(e);
                lemma_cell_index_bound(w, h, ex, ey);
                lemma_split_unique(w, nx, ny, ex, ey);
            }
        }
    }
}

/// Unfolds `nbr_below` by one direction.
proof fn lemma_nbr_below_step(m: GridMeta, i: int, j: int, d: int)
    requires
        0 <= d,
    ensures
        nbr_below(m, i, j, d + 1) <==> (nbr_below(m, i, j, d) || nbr(m, i, d) == Some(j as usize)),
{
    if nbr_below(m, i, j, d + 1) {
        let e = choose|e: int| 0 <= e < d + 1 && #[trigger] nbr(m, i, e) == Some(j as usize);
        if e < d {
            assert(nbr_below(m, i, j, d));
        }
    }
    if nbr(m, i, d) == Some(j as usize) {
        assert(nbr_below(m, i, j, d + 1));
    }
}

/// A cell is not its own neighbour.
pub proof fn lemma_not_own_nbr(m: GridMeta, i: int, d: int)
    requires
        m.wf(),
        0 <= i < m.spec_size(),
        0 <= d <= 8,
    ensures
        !nbr_below(m, i, i, d),
{
    if nbr_below(m, i, i, d) {
        let e = choose|e: int| 0 <= e < d && #[trigger] nbr(m, i, e) == Some(i as usize);
        lemma_nbr(m, i, e);
    }
}

/// The priority-flood state of Zhou's depression filling.
///
/// This is separate from the labels and elevation arrays and only tracks
/// the front of the flood.
#[derive(Debug, Clone)]
pub struct ZhouFillState {
    /// The priority queue that holds boundary cells
    priority_queue: MaxQueue<Cell>,
    /// The slope queue that holds slope cells
    slope_queue: VecDeque<usize>,
    /// Depression cells
    depression_queue: VecDeque<usize>,
    /// The label the next watershed gets
    current_label: TLabel,
}

impl ZhouFillState {
    /// The cells waiting in the priority queue.
    pub closed spec fn spec_pq(&self) -> Multiset<Cell> {
        self.priority_queue@
    }

    /// The slope queue, front first.
    pub closed spec fn spec_slope(&self) -> Seq<usize> {
        self.slope_queue@
    }

    /// The depression queue, front first.
    pub closed spec fn spec_depression(&self) -> Seq<usize> {
        self.depression_queue@
    }

    /// The label the next new watershed gets.
    pub closed spec fn spec_label(&self) -> TLabel {
        self.current_label
    }

    /// Every queued cell lies on the grid `m`.
    pub open spec fn wf(&self, m: GridMeta) -> bool {
        &&& forall|k: int|
            0 <= k < self.spec_slope().len() ==> #[trigger] self.spec_slope()[k] < m.spec_size()
        &&& forall|k: int|
            0 <= k < self.spec_depression().len() ==> #[trigger] self.spec_depression()[k]
                < m.spec_size()
        &&& forall|c: Cell| #[trigger]
            self.spec_pq().count(c) > 0 ==> c.x < m.spec_width() && c.y < m.spec_height()
    }

    /// A new, empty state whose first watershed gets `start_label`.
    pub fn new(start_label: TLabel) -> (r: Self)
        ensures
            r.spec_pq() =~= Multiset::<Cell>::empty(),
            r.spec_slope() == Seq::<usize>::empty(),
            r.spec_depression() == Seq::<usize>::empty(),
            r.spec_label() == start_label,
    {
        Self {
            priority_queue: MaxQueue::new(),
            slope_queue: VecDeque::new(),
            depression_queue: VecDeque::new(),
            current_label: start_label,
        }
    }

    /// The priority queue: the cells that border the flooded area, lowest first.
    pub fn priority_queue(&self) -> (r: &MaxQueue<Cell>)
        ensures
            r@ == self.spec_pq(),
    {
        &self.priority_queue
    }

    /// The slope queue: cells that climb away from the flooded area.
    pub fn slope_queue(&self) -> (r: &VecDeque<usize>)
        ensures
            r@ == self.spec_slope(),
    {
        &self.slope_queue
    }

    /// The depression queue: cells raised to the level of a neighbour.
    pub fn depression_queue(&self) -> (r: &VecDeque<usize>)
        ensures
            r@ == self.spec_depression(),
    {
        &self.depression_queue
    }

    /// The label that the next new watershed gets.
    pub fn current_label(&self) -> (r: &TLabel)
        ensures
            *r == self.spec_label(),
    {
        &self.current_label
    }

    /// Floods the unprocessed neighbours of depression cell `di`: each takes
    /// its label; those not above it are raised to its level and queued as
    /// depression cells, the others as slope cells. Processed neighbours are
    /// reported as ridge points.
    fn flood_depression(
        &mut self,
        meta: &GridMeta,
        dem: &mut [u64],
        labels: &mut [TLabel],
        di: usize,
        ridges: &mut Vec<RidgePoint>,
    )
        requires
            di < meta.spec_size(),
            old(dem)@.len() == meta.spec_size(),
            old(labels)@.len() == meta.spec_size(),
        ensures
            final(self).spec_pq() == old(self).spec_pq(),
            final(self).spec_label() == old(self).spec_label(),
            final(self).spec_depression() == old(self).spec_depression() + nbrs_where(
                *meta,
                di as int,
                unfilled_not_above(old(labels)@, old(dem)@, old(dem)@[di as int]),
            ),
            final(self).spec_slope() == old(self).spec_slope() + nbrs_where(
                *meta,
                di as int,
                unfilled_above(old(labels)@, old(dem)@, old(dem)@[di as int]),
            ),
            final(ridges)@ == old(ridges)@ + ridge_points(
                di as int,
                old(labels)@[di as int],
                nbrs_where(*meta, di as int, filled_where(old(labels)@)),
                old(labels)@,
                old(dem)@,
            ),
            final(labels)@.len() == old(labels)@.len(),
            final(dem)@.len() == old(dem)@.len(),
            forall|j: int|
                0 <= j < old(labels)@.len() ==> #[trigger] final(labels)@[j] == if is_nbr(
                    *meta,
                    di as int,
                    j,
                ) && old(labels)@[j] == NOT_FILLED {
                    old(labels)@[di as int]
                } else {
                    old(labels)@[j]
                },
            forall|j: int|
                0 <= j < old(dem)@.len() ==> #[trigger] final(dem)@[j] == if is_nbr(
                    *meta,
                    di as int,
                    j,
                ) && old(labels)@[j] == NOT_FILLED && old(dem)@[j] <= old(dem)@[di as int] {
                    old(dem)@[di as int]
                } else {
                    old(dem)@[j]
                },
    {
        proof {
            use_type_invariant(meta);
        }
        let ghost m = *meta;
        let ghost l0 = labels@;
        let ghost d0 = dem@;
        let ghost r0 = ridges@;
        let ghost dq0 = self.depression_queue@;
        let ghost sq0 = self.slope_queue@;
        let ghost e0 = d0[di as int];
        let ghost li = l0[di as int];
        proof {
            lemma_nbr(m, di as int, 0);
        }
        let (x, y) = meta.i_to_xy(di);
        let mut d: u8 = 0;
        while d < 8
            invariant
                m == *meta,
                m.wf(),
                di < m.spec_size(),
                m.spec_width() > 0,
                x == di % m.spec_width(),
                y == di / m.spec_width(),
                l0.len() == m.spec_size(),
                d0.len() == m.spec_size(),
                e0 == d0[di as int],
                li == l0[di as int],
                d <= 8,
                self.priority_queue@ == old(self).spec_pq(),
                self.current_label == old(self).spec_label(),
                self.depression_queue@ == dq0 + nbrs_upto(
                    m,
                    di as int,
                    unfilled_not_above(l0, d0, e0),
                    d as int,
                ),
                self.slope_queue@ == sq0 + nbrs_upto(
                    m,
                    di as int,
                    unfilled_above(l0, d0, e0),
                    d as int,
                ),
                ridges@ == r0 + ridge_points(
                    di as int,
                    li,
                    nbrs_upto(m, di as int, filled_where(l0), d as int),
                    l0,
                    d0,
                ),
                labels@.len() == l0.len(),
                dem@.len() == d0.len(),
                forall|j: int|
                    0 <= j < l0.len() ==> #[trigger] labels@[j] == if nbr_below(
                        m,
                        di as int,
                        j,
                        d as int,
                    ) && l0[j] == NOT_FILLED {
                        li
                    } else {
                        l0[j]
                    },
                forall|j: int|
                    0 <= j < d0.len() ==> #[trigger] dem@[j] == if nbr_below(
                        m,
                        di as int,
                        j,
                        d as int,
                    ) && l0[j] == NOT_FILLED && d0[j] <= e0 {
                        e0
                    } else {
                        d0[j]
                    },
            decreases 8 - d,
        {
            proof {
                lemma_nbr(m, di as int, d as int);
                lemma_not_own_nbr(m, di as int, d as int);
                assert(labels@[di as int] == li);
                assert(dem@[di as int] == e0);
            }
            let ghost lbefore = labels@;
            let ghost dbefore = dem@;
            let nb = meta.try_shift(x, y, d);
            match nb {
                None => {},
                Some(ndi) => {
                    proof {
                        if nbr_below(m, di as int, ndi as int, d as int) {
                            let e = choose|e: int|
                                0 <= e < d && #[trigger] nbr(m, di as int, e) == Some(ndi);
                        }
                        assert(!nbr_below(m, di as int, ndi as int, d as int));
                        assert(labels@[ndi as int] == l0[ndi as int]);
                        assert(dem@[ndi as int] == d0[ndi as int]);
                    }
                    if labels[ndi] != NOT_FILLED {
                        ridges.push(
                            RidgePoint {
                                my_label: labels[di],
                                n_label: labels[ndi],
                                my_elev: dem[di],
                                n_elev: dem[ndi],
                                my_cell: di,
                                n_cell: ndi,
                            },
                        );
                    } else {
                        let l = labels[di];
                        labels[ndi] = l;
                        if dem[ndi] > dem[di] {
                            self.slope_queue.push_back(ndi);
                        } else {
                            let e = dem[di];
                            dem[ndi] = e;
                            self.depression_queue.push_back(ndi);
                        }
                    }
                },
            }
            proof {
                assert forall|j: int| 0 <= j < l0.len() implies #[trigger] labels@[j] == if nbr_below(
                    m,
                    di as int,
                    j,
                    d + 1,
                ) && l0[j] == NOT_FILLED {
                    li
                } else {
                    l0[j]
                } by {
                    lemma_nbr_below_step(m, di as int, j, d as int);
                }
                assert forall|j: int| 0 <= j < d0.len() implies #[trigger] dem@[j] == if nbr_below(
                    m,
                    di as int,
                    j,
                    d + 1,
                ) && l0[j] == NOT_FILLED && d0[j] <= e0 {
                    e0
                } else {
                    d0[j]
                } by {
                    lemma_nbr_below_step(m, di as int, j, d as int);
                }
                let pf = filled_where(l0);
                let cur = nbrs_upto(m, di as int, pf, d as int);
                let nxt = nbrs_upto(m, di as int, pf, d + 1);
                assert(ridge_points(di as int, li, nxt, l0, d0) =~= ridge_points(
                    di as int,
                    li,
                    cur,
                    l0,
                    d0,
                ) + ridge_points(di as int, li, nxt.skip(cur.len() as int), l0, d0));
            }
            d = d + 1;
        }
    }

    /// Floods the unprocessed neighbours of boundary cell `n`: each takes its
    /// label; those below it are raised to its level and queued as
    /// depression cells, the others as slope cells. Every neighbour is
    /// reported as a ridge point.
    fn flood_boundary(
        &mut self,
        meta: &GridMeta,
        dem: &mut [u64],
        labels: &mut [TLabel],
        n: usize,
        ridges: &mut Vec<RidgePoint>,
    )
        requires
            n < meta.spec_size(),
            old(dem)@.len() == meta.spec_size(),
            old(labels)@.len() == meta.spec_size(),
        ensures
            final(self).spec_pq() == old(self).spec_pq(),
            final(self).spec_label() == old(self).spec_label(),
            final(self).spec_depression() == old(self).spec_depression() + nbrs_where(
                *meta,
                n as int,
                unfilled_below(old(labels)@, old(dem)@, old(dem)@[n as int]),
            ),
            final(self).spec_slope() == old(self).spec_slope() + nbrs_where(
                *meta,
                n as int,
                unfilled_not_below(old(labels)@, old(dem)@, old(dem)@[n as int]),
            ),
            final(ridges)@ == old(ridges)@ + ridge_points(
                n as int,
                old(labels)@[n as int],
                nbrs_where(*meta, n as int, any_cell()),
                old(labels)@,
                old(dem)@,
            ),
            final(labels)@.len() == old(labels)@.len(),
            final(dem)@.len() == old(dem)@.len(),
            forall|j: int|
                0 <= j < old(labels)@.len() ==> #[trigger] final(labels)@[j] == if is_nbr(
                    *meta,
                    n as int,
                    j,
                ) && old(labels)@[j] == NOT_FILLED {
                    old(labels)@[n as int]
                } else {
                    old(labels)@[j]
                },
            forall|j: int|
                0 <= j < old(dem)@.len() ==> #[trigger] final(dem)@[j] == if is_nbr(
                    *meta,
                    n as int,
                    j,
                ) && old(labels)@[j] == NOT_FILLED && old(dem)@[j] < old(dem)@[n as int] {
                    old(dem)@[n as int]
                } else {
                    old(dem)@[j]
                },
    {
        proof {
            use_type_invariant(meta);
        }
        let ghost m = *meta;
        let ghost l0 = labels@;
        let ghost d0 = dem@;
        let ghost r0 = ridges@;
        let ghost dq0 = self.depression_queue@;
        let ghost sq0 = self.slope_queue@;
        let ghost e0 = d0[n as int];
        let ghost li = l0[n as int];
        proof {
            lemma_nbr(m, n as int, 0);
        }
        let (x, y) = meta.i_to_xy(n);
        let mut d: u8 = 0;
        while d < 8
            invariant
                m == *meta,
                m.wf(),
                n < m.spec_size(),
                m.spec_width() > 0,
                x == n % m.spec_width(),
                y == n / m.spec_width(),
                l0.len() == m.spec_size(),
                d0.len() == m.spec_size(),
                e0 == d0[n as int],
                li == l0[n as int],
                d <= 8,
                self.priority_queue@ == old(self).spec_pq(),
                self.current_label == old(self).spec_label(),
                self.depression_queue@ == dq0 + nbrs_upto(
                    m,
                    n as int,
                    unfilled_below(l0, d0, e0),
                    d as int,
                ),
                self.slope_queue@ == sq0 + nbrs_upto(
                    m,
                    n as int,
                    unfilled_not_below(l0, d0, e0),
                    d as int,
                ),
                ridges@ == r0 + ridge_points(
                    n as int,
                    li,
                    nbrs_upto(m, n as int, any_cell(), d as int),
                    l0,
                    d0,
                ),
                labels@.len() == l0.len(),
                dem@.len() == d0.len(),
                forall|j: int|
                    0 <= j < l0.len() ==> #[trigger] labels@[j] == if nbr_below(
                        m,
                        n as int,
                        j,
                        d as int,
                    ) && l0[j] == NOT_FILLED {
                        li
                    } else {
                        l0[j]
                    },
                forall|j: int|
                    0 <= j < d0.len() ==> #[trigger] dem@[j] == if nbr_below(
                        m,
                        n as int,
                        j,
                        d as int,
                    ) && l0[j] == NOT_FILLED && d0[j] < e0 {
                        e0
                    } else {
                        d0[j]
                    },
            decreases 8 - d,
        {
            proof {
                lemma_nbr(m, n as int, d as int);
                lemma_not_own_nbr(m, n as int, d as int);
                assert(labels@[n as int] == li);
                assert(dem@[n as int] == e0);
            }
            let nb = meta.try_shift(x, y, d);
            match nb {
                None => {},
                Some(ni) => {
                    proof {
                        if nbr_below(m, n as int, ni as int, d as int) {
                            let e = choose|e: int|
                                0 <= e < d && #[trigger] nbr(m, n as int, e) == Some(ni);
                        }
                        assert(!nbr_below(m, n as int, ni as int, d as int));
                        assert(labels@[ni as int] == l0[ni as int]);
                        assert(dem@[ni as int] == d0[ni as int]);
                    }
                    ridges.push(
                        RidgePoint {
                            my_label: labels[n],
                            n_label: labels[ni],
                            my_elev: dem[n],
                            n_elev: dem[ni],
                            my_cell: n,
                            n_cell: ni,
                        },
                    );
                    if labels[ni] == NOT_FILLED {
                        let l = labels[n];
                        labels[ni] = l;
                        if dem[ni] < dem[n] {
                            let e = dem[n];
                            dem[ni] = e;
                            self.depression_queue.push_back(ni);
                        } else {
                            self.slope_queue.push_back(ni);
                        }
                    }
                },
            }
            proof {
                assert forall|j: int| 0 <= j < l0.len() implies #[trigger] labels@[j] == if nbr_below(
                    m,
                    n as int,
                    j,
                    d + 1,
                ) && l0[j] == NOT_FILLED {
                    li
                } else {
                    l0[j]
                } by {
                    lemma_nbr_below_step(m, n as int, j, d as int);
                }
                assert forall|j: int| 0 <= j < d0.len() implies #[trigger] dem@[j] == if nbr_below(
                    m,
                    n as int,
                    j,
                    d + 1,
                ) && l0[j] == NOT_FILLED && d0[j] < e0 {
                    e0
                } else {
                    d0[j]
                } by {
                    lemma_nbr_below_step(m, n as int, j, d as int);
                }
                let pf = any_cell();
                let cur = nbrs_upto(m, n as int, pf, d as int);
                let nxt = nbrs_upto(m, n as int, pf, d + 1);
                assert(ridge_points(n as int, li, nxt, l0, d0) =~= ridge_points(
                    n as int,
                    li,
                    cur,
                    l0,
                    d0,
                ) + ridge_points(n as int, li, nxt.skip(cur.len() as int), l0, d0));
            }
            d = d + 1;
        }
    }

    /// Whether `n` has a processed neighbour lower than itself.
    fn has_lower_filled(meta: &GridMeta, dem: &[u64], labels: &[TLabel], n: usize) -> (r: bool)
        requires
            n < meta.spec_size(),
            dem@.len() == meta.spec_size(),
            labels@.len() == meta.spec_size(),
        ensures
            r == has_lower_filled_nbr(*meta, labels@, dem@, n as int),
    {
        proof {
            use_type_invariant(meta);
            lemma_nbr(*meta, n as int, 0);
        }
        let (x, y) = meta.i_to_xy(n);
        let mut d: u8 = 0;
        while d < 8
            invariant
                meta.wf(),
                n < meta.spec_size(),
                meta.spec_width() > 0,
                x == n % meta.spec_width(),
                y == n / meta.spec_width(),
                dem@.len() == meta.spec_size(),
                labels@.len() == meta.spec_size(),
                d <= 8,
                forall|e: int| 0 <= e < d ==> !#[trigger] lower_filled_at(*meta, labels@, dem@, n as int, e),
            decreases 8 - d,
        {
            proof {
                lemma_nbr(*meta, n as int, d as int);
            }
            match meta.try_shift(x, y, d) {
                None => {},
                Some(k) => {
                    if labels[k] != NOT_FILLED && dem[k] < dem[n] {
                        proof {
                            assert(lower_filled_at(*meta, labels@, dem@, n as int, d as int));
                        }
                        return true;
                    }
                },
            }
            d = d + 1;
        }
        false
    }

    /// Walks up from slope cell `si`: unprocessed neighbours above it take
    /// its label and are queued as slope cells; processed neighbours are
    /// reported as ridge points. If `si` borders the unprocessed area it is
    /// entered into the priority queue, once.
    fn climb_slope(
        &mut self,
        meta: &GridMeta,
        dem: &[u64],
        labels: &mut [TLabel],
        si: usize,
        ridges: &mut Vec<RidgePoint>,
    )
        requires
            si < meta.spec_size(),
            dem@.len() == meta.spec_size(),
            old(labels)@.len() == meta.spec_size(),
        ensures
            final(self).spec_pq() == if slope_boundary_below(*meta, old(labels)@, dem@, si as int, 8) {
                old(self).spec_pq().insert(cell_at(*meta, si as int, dem@[si as int]))
            } else {
                old(self).spec_pq()
            },
            final(self).spec_label() == old(self).spec_label(),
            final(self).spec_depression() == old(self).spec_depression(),
            final(self).spec_slope() == old(self).spec_slope() + nbrs_where(
                *meta,
                si as int,
                unfilled_above(old(labels)@, dem@, dem@[si as int]),
            ),
            final(ridges)@ == old(ridges)@ + ridge_points(
                si as int,
                old(labels)@[si as int],
                nbrs_where(*meta, si as int, filled_where(old(labels)@)),
                old(labels)@,
                dem@,
            ),
            final(labels)@ == slope_labels(*meta, old(labels)@, dem@, si as int, 8),
    {
        proof {
            use_type_invariant(meta);
        }
        let ghost m = *meta;
        let ghost l0 = labels@;
        let ghost r0 = ridges@;
        let ghost sq0 = self.slope_queue@;
        let ghost pq0 = self.priority_queue@;
        let ghost e0 = dem@[si as int];
        let ghost li = l0[si as int];
        proof {
            lemma_nbr(m, si as int, 0);
        }
        let (slope_x, slope_y) = meta.i_to_xy(si);
        let mut b_in_pq = false;
        let mut d: u8 = 0;
        while d < 8
            invariant
                m == *meta,
                m.wf(),
                si < m.spec_size(),
                m.spec_width() > 0,
                slope_x == si % m.spec_width(),
                slope_y == si / m.spec_width(),
                l0.len() == m.spec_size(),
                dem@.len() == m.spec_size(),
                e0 == dem@[si as int],
                li == l0[si as int],
                d <= 8,
                b_in_pq == slope_boundary_below(m, l0, dem@, si as int, d as int),
                self.priority_queue@ == if b_in_pq {
                    pq0.insert(cell_at(m, si as int, e0))
                } else {
                    pq0
                },
                self.current_label == old(self).spec_label(),
                self.depression_queue@ == old(self).spec_depression(),
                self.slope_queue@ == sq0 + nbrs_upto(
                    m,
                    si as int,
                    unfilled_above(l0, dem@, e0),
                    d as int,
                ),
                ridges@ == r0 + ridge_points(
                    si as int,
                    li,
                    nbrs_upto(m, si as int, filled_where(l0), d as int),
                    l0,
                    dem@,
                ),
                labels@ == slope_labels(m, l0, dem@, si as int, d as int),
            decreases 8 - d,
        {
            proof {
                lemma_nbr(m, si as int, d as int);
                lemma_not_own_nbr(m, si as int, d as int);
                assert(labels@[si as int] == li);
            }
            let nb = meta.try_shift(slope_x, slope_y, d);
            match nb {
                None => {
                    proof {
                        assert(labels@ =~= slope_labels(m, l0, dem@, si as int, d + 1)) by {
                            assert forall|j: int| 0 <= j < l0.len() implies nbr_below(
                                m,
                                si as int,
                                j,
                                d + 1,
                            ) == nbr_below(m, si as int, j, d as int) by {
                                lemma_nbr_below_step(m, si as int, j, d as int);
                            }
                        }
                        assert(slope_boundary_below(m, l0, dem@, si as int, d + 1) == b_in_pq) by {
                            if slope_boundary_below(m, l0, dem@, si as int, d + 1) {
                                let e = choose|e: int|
                                    0 <= e < d + 1 && #[trigger] slope_boundary_at(
                                        m,
                                        l0,
                                        dem@,
                                        si as int,
                                        e,
                                    );
                                assert(e != d);
                            }
                        }
                    }
                },
                Some(nsi) => {
                    proof {
                        if nbr_below(m, si as int, nsi as int, d as int) {
                            let e = choose|e: int|
                                0 <= e < d && #[trigger] nbr(m, si as int, e) == Some(nsi);
                        }
                        assert(!nbr_below(m, si as int, nsi as int, d as int));
                        assert(labels@[nsi as int] == l0[nsi as int]);
                    }
                    if labels[nsi] != NOT_FILLED {
                        ridges.push(
                            RidgePoint {
                                my_label: labels[si],
                                n_label: labels[nsi],
                                my_elev: dem[si],
                                n_elev: dem[nsi],
                                my_cell: si,
                                n_cell: nsi,
                            },
                        );
                        proof {
                            assert(labels@ =~= slope_labels(m, l0, dem@, si as int, d + 1)) by {
                                assert forall|j: int| 0 <= j < l0.len() implies (nbr_below(
                                    m,
                                    si as int,
                                    j,
                                    d + 1,
                                ) && l0[j] == NOT_FILLED) == (nbr_below(m, si as int, j, d as int)
                                    && l0[j] == NOT_FILLED) by {
                                    lemma_nbr_below_step(m, si as int, j, d as int);
                                }
                            }
                            assert(slope_boundary_below(m, l0, dem@, si as int, d + 1) == b_in_pq)
                                by {
                                if slope_boundary_below(m, l0, dem@, si as int, d + 1) {
                                    let e = choose|e: int|
                                        0 <= e < d + 1 && #[trigger] slope_boundary_at(
                                            m,
                                            l0,
                                            dem@,
                                            si as int,
                                            e,
                                        );
                                    assert(e != d);
                                }
                            }
                        }
                    } else {
                        if dem[nsi] > dem[si] {
                            self.slope_queue.push_back(nsi);
                            let l = labels[si];
                            labels[nsi] = l;
                        }
                        proof {
                            assert(labels@ =~= slope_labels(m, l0, dem@, si as int, d + 1)) by {
                                assert forall|j: int| 0 <= j < l0.len() implies #[trigger] labels@[j]
                                    == slope_labels(m, l0, dem@, si as int, d + 1)[j] by {
                                    lemma_nbr_below_step(m, si as int, j, d as int);
                                }
                            }
                        }
                        if !b_in_pq {
                            let lower = Self::has_lower_filled(meta, dem, labels, nsi);
                            if !lower {
                                self.priority_queue.push(
                                    Cell { x: slope_x, y: slope_y, z: dem[si], roi: false },
                                );
                                b_in_pq = true;
                                proof {
                                    assert(slope_boundary_at(m, l0, dem@, si as int, d as int));
                                }
                            }
                            proof {
                                assert(slope_boundary_below(m, l0, dem@, si as int, d + 1)
                                    == b_in_pq) by {
                                    if slope_boundary_below(m, l0, dem@, si as int, d + 1) {
                                        let e = choose|e: int|
                                            0 <= e < d + 1 && #[trigger] slope_boundary_at(
                                                m,
                                                l0,
                                                dem@,
                                                si as int,
                                                e,
                                            );
                                    }
                                }
                            }
                        } else {
                            proof {
                                let e = choose|e: int|
                                    0 <= e < d && #[trigger] slope_boundary_at(
                                        m,
                                        l0,
                                        dem@,
                                        si as int,
                                        e,
                                    );
                                assert(slope_boundary_below(m, l0, dem@, si as int, d + 1));
                            }
                        }
                    }
                },
            }
            proof {
                let pf = filled_where(l0);
                let cur = nbrs_upto(m, si as int, pf, d as int);
                let nxt = nbrs_upto(m, si as int, pf, d + 1);
                assert(ridge_points(si as int, li, nxt, l0, dem@) =~= ridge_points(
                    si as int,
                    li,
                    cur,
                    l0,
                    dem@,
                ) + ridge_points(si as int, li, nxt.skip(cur.len() as int), l0, dem@));
            }
            d = d + 1;
        }
    }

    /// Gives boundary cell `n` a label if it has none: that of its last
    /// processed neighbour not above it, or else a new one.
    fn label_boundary(&mut self, meta: &GridMeta, dem: &[u64], labels: &mut [TLabel], n: usize)
        requires
            n < meta.spec_size(),
            dem@.len() == meta.spec_size(),
            old(labels)@.len() == meta.spec_size(),
            takes_fresh_label(*meta, old(labels)@, dem@, n as int) ==> old(self).spec_label() < u32::MAX,
        ensures
            final(self).spec_pq() == old(self).spec_pq(),
            final(self).spec_depression() == old(self).spec_depression(),
            final(self).spec_slope() == old(self).spec_slope(),
            final(self).spec_label() == if takes_fresh_label(*meta, old(labels)@, dem@, n as int) {
                (old(self).spec_label() + 1) as TLabel
            } else {
                old(self).spec_label()
            },
            final(labels)@ == old(labels)@.update(
                n as int,
                boundary_label(*meta, old(labels)@, dem@, n as int, old(self).spec_label()),
            ),
    {
        proof {
            use_type_invariant(meta);
        }
        let ghost m = *meta;
        let ghost l0 = labels@;
        if labels[n] == NOT_FILLED {
            proof {
                lemma_nbr(m, n as int, 0);
            }
            let (x, y) = meta.i_to_xy(n);
            let mut neighbour = false;
            let mut d: u8 = 0;
            while d < 8
                invariant
                    m == *meta,
                    m.wf(),
                    n < m.spec_size(),
                    m.spec_width() > 0,
                    x == n % m.spec_width(),
                    y == n / m.spec_width(),
                    l0.len() == m.spec_size(),
                    l0[n as int] == NOT_FILLED,
                    dem@.len() == m.spec_size(),
                    d <= 8,
                    neighbour == low_nbr_label(m, l0, dem@, n as int, d as int) is Some,
                    labels@ == l0.update(
                        n as int,
                        match low_nbr_label(m, l0, dem@, n as int, d as int) {
                            Some(l) => l,
                            None => NOT_FILLED,
                        },
                    ),
                    *self == *old(self),
                decreases 8 - d,
            {
                proof {
                    lemma_nbr(m, n as int, d as int);
                }
                match meta.try_shift(x, y, d) {
                    None => {},
                    Some(nn) => {
                        if labels[nn] != NOT_FILLED && dem[nn] <= dem[n] {
                            let l = labels[nn];
                            labels[n] = l;
                            neighbour = true;
                        }
                    },
                }
                proof {
                    assert(labels@ =~= l0.update(
                        n as int,
                        match low_nbr_label(m, l0, dem@, n as int, d + 1) {
                            Some(l) => l,
                            None => NOT_FILLED,
                        },
                    ));
                }
                d = d + 1;
            }
            if !neighbour {
                labels[n] = self.current_label;
                self.current_label = self.current_label + 1;
            }
            proof {
                assert(labels@ =~= l0.update(
                    n as int,
                    boundary_label(m, l0, dem@, n as int, old(self).spec_label()),
                ));
            }
        } else {
            proof {
                assert(labels@ =~= l0.update(
                    n as int,
                    boundary_label(m, l0, dem@, n as int, old(self).spec_label()),
                ));
            }
        }
    }

    /// Performs a single step of the flood and returns `false` when there was
    /// nothing left to do.
    ///
    /// A cell from the depression queue goes first, then one from the slope
    /// queue, then the lowest cell of the priority queue. The ridge points
    /// met on the way, where the flooded area touches processed cells, are
    /// appended to `ridges` in the order they are met.
    #[verifier::spinoff_prover]
    pub fn step(
        &mut self,
        meta: &GridMeta,
        dem: &mut [u64],
        labels: &mut [TLabel],
        ridges: &mut Vec<RidgePoint>,
    ) -> (r: bool)
        requires
            old(dem)@.len() == meta.spec_size(),
            old(labels)@.len() == meta.spec_size(),
            old(self).wf(*meta),
            label_room(*meta, *old(self), old(dem)@, old(labels)@),
        ensures
            final(self).wf(*meta),
            r <==> (old(self).spec_depression().len() > 0 || old(self).spec_slope().len() > 0
                || old(self).spec_pq().len() > 0),
            !r ==> final(self).spec_pq() == old(self).spec_pq() && final(self).spec_slope() == old(
                self,
            ).spec_slope() && final(self).spec_depression() == old(self).spec_depression()
                && final(self).spec_label() == old(self).spec_label() && final(dem)@ == old(dem)@
                && final(labels)@ == old(labels)@ && final(ridges)@ == old(ridges)@,
            r ==> zhou_step(
                *meta,
                *old(self),
                *final(self),
                old(dem)@,
                final(dem)@,
                old(labels)@,
                final(labels)@,
                old(ridges)@,
                final(ridges)@,
            ),
    {
        proof {
            use_type_invariant(meta);
        }
        let ghost m = *meta;
        let ghost pre = *self;
        let ghost l0 = labels@;
        let ghost d0 = dem@;
        if let Some(di) = self.depression_queue.pop_front() {
            proof {
                assert(pre.spec_depression()[0] == di);
            }
            self.flood_depression(meta, dem, labels, di, ridges);
            proof {
                lemma_nbrs_upto(m, di as int, unfilled_not_above(l0, d0, d0[di as int]), 8);
                lemma_nbrs_upto(m, di as int, unfilled_above(l0, d0, d0[di as int]), 8);
                assert(labels@ =~= flooded_labels(m, l0, di as int));
                assert(dem@ =~= flooded_dem(m, l0, d0, di as int, true));
            }
            true
        } else if let Some(si) = self.slope_queue.pop_front() {
            proof {
                assert(pre.spec_slope()[0] == si);
            }
            self.climb_slope(meta, dem, labels, si, ridges);
            proof {
                lemma_nbr(m, si as int, 0);
                lemma_nbrs_upto(m, si as int, unfilled_above(l0, d0, d0[si as int]), 8);
            }
            true
        } else if let Some(c) = self.priority_queue.pop() {
            proof {
                assert(pre.spec_pq().count(c) > 0);
                assert(c.x < m.spec_width() && c.y < m.spec_height());
                lemma_cell_index_bound(m.spec_width() as int, m.spec_height() as int, c.x as int, c.y as int);
            }
            let n = meta.xy_to_i(c.x, c.y);
            proof {
                reveal(label_room);
                assert(takes_fresh_label(m, l0, d0, n as int) ==> pre.spec_label() < u32::MAX);
            }
            self.label_boundary(meta, dem, labels, n);
            let ghost l1 = labels@;
            self.flood_boundary(meta, dem, labels, n, ridges);
            proof {
                lemma_nbrs_upto(m, n as int, unfilled_below(l1, d0, d0[n as int]), 8);
                lemma_nbrs_upto(m, n as int, unfilled_not_below(l1, d0, d0[n as int]), 8);
                assert(labels@ =~= flooded_labels(m, l1, n as int));
                assert(dem@ =~= flooded_dem(m, l1, d0, n as int, false));
                assert(boundary_step(m, pre, *self, d0, dem@, l0, labels@, old(ridges)@, ridges@, c));
            }
            true
        } else {
            false
        }
    }

    /// Seeds the slope queue for growing regions of interest: the cells
    /// `idxs` are queued and labelled with the current label and the
    /// region-of-interest flag; the next watershed gets the following label.
    pub fn seed_slope(&mut self, labels: &mut [TLabel], idxs: &[usize])
        requires
            forall|k: int| 0 <= k < idxs@.len() ==> #[trigger] idxs@[k] < old(labels)@.len(),
            old(self).spec_label() < u32::MAX,
        ensures
            final(self).spec_pq() == old(self).spec_pq(),
            final(self).spec_depression() == old(self).spec_depression(),
            final(self).spec_slope() == old(self).spec_slope() + idxs@,
            final(self).spec_label() == old(self).spec_label() + 1,
            final(labels)@ == seeded_labels(old(labels)@, idxs@, old(self).spec_label() | ROI_FLAG),
    {
        let ghost l0 = labels@;
        let ghost sq0 = self.slope_queue@;
        let flagged = self.current_label | ROI_FLAG;
        let mut k: usize = 0;
        while k < idxs.len()
            invariant
                k <= idxs@.len(),
                forall|i: int| 0 <= i < idxs@.len() ==> #[trigger] idxs@[i] < l0.len(),
                flagged == old(self).spec_label() | ROI_FLAG,
                self.current_label == old(self).spec_label(),
                self.priority_queue@ == old(self).spec_pq(),
                self.depression_queue@ == old(self).spec_depression(),
                self.slope_queue@ == sq0 + idxs@.take(k as int),
                labels@ == seeded_labels(l0, idxs@.take(k as int), flagged),
            decreases idxs@.len() - k,
        {
            let idx = idxs[k];
            self.slope_queue.push_back(idx);
            labels[idx] = flagged;
            proof {
                broadcast use vstd::seq_lib::group_seq_properties;

                let t = idxs@.take(k as int);
                assert(idxs@.take(k + 1) =~= t.push(idx));
                assert forall|j: int| 0 <= j < l0.len() implies #[trigger] labels@[j] == seeded_labels(
                    l0,
                    t.push(idx),
                    flagged,
                )[j] by {
                    assert(t.push(idx).contains(j as usize) == (t.contains(j as usize) || j == idx));
                }
                assert(labels@ =~= seeded_labels(l0, idxs@.take(k + 1), flagged));
            }
            k = k + 1;
        }
        proof {
            assert(idxs@.take(k as int) =~= idxs@);
        }
        self.current_label = self.current_label + 1;
    }

    /// Adds all cells on the outer ring of the grid to the priority queue,
    /// at their elevations.
    pub fn add_edges(&mut self, meta: &GridMeta, dem: &[u64])
        requires
            dem@.len() == meta.spec_size(),
            meta.spec_height() >= 1,
            meta.spec_width() >= 1 || meta.spec_height() <= 2,
        ensures
            final(self).spec_pq() =~= old(self).spec_pq().add(edge_cells(*meta, dem@).to_multiset()),
            final(self).spec_slope() == old(self).spec_slope(),
            final(self).spec_depression() == old(self).spec_depression(),
            final(self).spec_label() == old(self).spec_label(),
    {
        proof {
            use_type_invariant(meta);
        }
        let ghost m = *meta;
        let ghost pq0 = self.priority_queue@;
        let ghost all = edge_cells(m, dem@);
        let w = meta.width();
        let h = meta.height();
        let ghost nrows = 2 * w;
        proof {
            assert(all.len() >= nrows);
        }
        let mut x: usize = 0;
        while x < w
            invariant
                m == *meta,
                m.wf(),
                w == m.spec_width(),
                h == m.spec_height(),
                h >= 1,
                dem@.len() == m.spec_size(),
                all == edge_cells(m, dem@),
                nrows == 2 * w,
                all.len() >= nrows,
                x <= w,
                self.priority_queue@ =~= pq0.add(all.take(2 * x).to_multiset()),
                self.slope_queue@ == old(self).spec_slope(),
                self.depression_queue@ == old(self).spec_depression(),
                self.current_label == old(self).spec_label(),
            decreases w - x,
        {
            proof {
                lemma_cell_index_bound(w as int, h as int, x as int, 0);
                lemma_cell_index_bound(w as int, h as int, x as int, h - 1);
            }
            let top = Cell { x, y: 0, z: dem[meta.xy_to_i(x, 0)], roi: false };
            self.priority_queue.push(top);
            let bot = Cell { x, y: h - 1, z: dem[meta.xy_to_i(x, h - 1)], roi: false };
            self.priority_queue.push(bot);
            proof {
                assert(all[2 * x] == top);
                assert(all[2 * x + 1] == bot);
                assert(all.take(2 * x + 2) =~= all.take(2 * x).push(top).push(bot));
            }
            x = x + 1;
        }
        let mut y: usize = 1;
        while y + 1 < h
            invariant
                m == *meta,
                m.wf(),
                w == m.spec_width(),
                h == m.spec_height(),
                h >= 1,
                w >= 1 || h <= 2,
                dem@.len() == m.spec_size(),
                all == edge_cells(m, dem@),
                nrows == 2 * w,
                1 <= y,
                y <= h,
                h >= 2 ==> y <= h - 1,
                all.len() == nrows + (if h >= 2 {
                    2 * (h - 2)
                } else {
                    0
                }),
                self.priority_queue@ =~= pq0.add(all.take(nrows + 2 * (y - 1)).to_multiset()),
                self.slope_queue@ == old(self).spec_slope(),
                self.depression_queue@ == old(self).spec_depression(),
                self.current_label == old(self).spec_label(),
            decreases h - y,
        {
            proof {
                lemma_cell_index_bound(w as int, h as int, 0, y as int);
                lemma_cell_index_bound(w as int, h as int, w - 1, y as int);
            }
            let left = Cell { x: 0, y, z: dem[meta.xy_to_i(0, y)], roi: false };
            self.priority_queue.push(left);
            let right = Cell { x: w - 1, y, z: dem[meta.xy_to_i(w - 1, y)], roi: false };
            self.priority_queue.push(right);
            proof {
                let k = nrows + 2 * (y - 1);
                assert(all[k] == left);
                assert(all[k + 1] == right);
                assert(all.take(k + 2) =~= all.take(k).push(left).push(right));
            }
            y = y + 1;
        }
        proof {
            assert(all.take(nrows + 2 * (y - 1)) =~= all);
        }
    }
}

} // verus!
