//! Running the flood of a grid to the end, noting where watersheds meet, and
//! raising watersheds to their spill levels.
use vstd::prelude::*;
use vstd::multiset::Multiset;

use crate::depfill::zhou::{
    any_cell, boundary_label, edge_cells, boundary_step, depression_step, filled_where, flooded_dem,
    flooded_labels, is_nbr, low_nbr_label, nbr, nbr_below, nbrs_upto, nbrs_where, lemma_nbr,
    lemma_nbrs_upto, slope_labels, slope_step, takes_fresh_label, zhou_step, unfilled_above, unfilled_below,
    unfilled_not_above, unfilled_not_below, cell_at, slope_boundary_below, slope_boundary_at,
    has_lower_filled_nbr, lower_filled_at, ridge_points, RidgePoint, ZhouFillState, NOT_FILLED,
};
use crate::depfill::cell::Cell;
use crate::depfill::graph_fill::{graph_view, max_key, SpillGraph};
use crate::grid::{edge_ok, skirt_values, GridMeta};
use crate::tile::{TileCoord, TileInfo};

use std::collections::HashMap;
use crate::TLabel;

verus! {

broadcast use {vstd::multiset::group_multiset_axioms, vstd::std_specs::hash::group_hash_axioms};

/// The cells not processed yet.
pub open spec fn unfilled_set(labels: Seq<TLabel>) -> Set<int> {
    Set::new(|j: int| 0 <= j < labels.len() && labels[j] == NOT_FILLED)
}

/// The work waiting in the queues of a flood, weighted so that every step
/// that processes no new cell lessens it.
pub open spec fn queue_weight(s: ZhouFillState) -> nat {
    2 * s.spec_depression().len() + 2 * s.spec_slope().len() + s.spec_pq().len()
}

/// The cells waiting in the depression and slope queues are processed.
pub open spec fn queued_filled(s: ZhouFillState, labels: Seq<TLabel>) -> bool {
    &&& forall|k: int|
        0 <= k < s.spec_depression().len() ==> labels[#[trigger] s.spec_depression()[k] as int]
            != NOT_FILLED
    &&& forall|k: int|
        0 <= k < s.spec_slope().len() ==> labels[#[trigger] s.spec_slope()[k] as int] != NOT_FILLED
}

/// What one step of the flood keeps and changes, whatever branch it took:
/// processed cells keep their label and elevation, no elevation falls, no
/// label goes back to unprocessed, and the flood makes progress.
pub open spec fn step_keeps(
    pre: ZhouFillState,
    post: ZhouFillState,
    dem: Seq<u64>,
    dem2: Seq<u64>,
    labels: Seq<TLabel>,
    labels2: Seq<TLabel>,
) -> bool {
    &&& dem2.len() == dem.len()
    &&& labels2.len() == labels.len()
    &&& forall|j: int|
        0 <= j < labels.len() ==> {
            &&& #[trigger] dem2[j] >= dem[j]
            &&& labels[j] != NOT_FILLED ==> labels2[j] == labels[j] && dem2[j] == dem[j]
            &&& labels2[j] == NOT_FILLED ==> labels[j] == NOT_FILLED && dem2[j] == dem[j]
        }
    &&& unfilled_set(labels2).subset_of(unfilled_set(labels))
    &&& unfilled_set(labels2) == unfilled_set(labels) ==> queue_weight(post) < queue_weight(pre)
}

/// A label found by `low_nbr_label` belongs to a processed cell.
proof fn lemma_low_nbr_label(m: GridMeta, labels: Seq<TLabel>, dem: Seq<u64>, n: int, d: int)
    ensures
        low_nbr_label(m, labels, dem, n, d) matches Some(l) ==> l != NOT_FILLED,
    decreases d,
{
    if d > 0 {
        lemma_low_nbr_label(m, labels, dem, n, d - 1);
    }
}

/// A neighbour list whose filter no neighbour passes is empty.
proof fn lemma_nbrs_none(m: GridMeta, i: int, p: spec_fn(usize) -> bool)
    requires
        m.wf(),
        0 <= i < m.spec_size(),
        forall|j: int| 0 <= j < m.spec_size() && is_nbr(m, i, j) ==> !p(j as usize),
    ensures
        nbrs_where(m, i, p).len() == 0,
{
    lemma_nbrs_upto(m, i, p, 8);
    if nbrs_where(m, i, p).len() > 0 {
        let j = nbrs_where(m, i, p)[0];
        assert(p(j) && nbr_below(m, i, j as int, 8));
        assert(is_nbr(m, i, j as int));
    }
}

/// The unprocessed cells form a finite set, no larger than the grid.
proof fn lemma_unfilled_finite(labels: Seq<TLabel>)
    ensures
        unfilled_set(labels).finite(),
        unfilled_set(labels).len() <= labels.len(),
{
    vstd::set_lib::lemma_int_range(0, labels.len() as int);
    assert(unfilled_set(labels).subset_of(vstd::set_lib::set_int_range(0, labels.len() as int)));
    vstd::set_lib::lemma_len_subset(unfilled_set(labels), vstd::set_lib::set_int_range(0, labels.len() as int));
}

/// Removing a member makes a finite set smaller.
proof fn lemma_unfilled_shrinks(labels: Seq<TLabel>, labels2: Seq<TLabel>)
    requires
        unfilled_set(labels2).subset_of(unfilled_set(labels)),
        unfilled_set(labels2) != unfilled_set(labels),
    ensures
        unfilled_set(labels2).len() < unfilled_set(labels).len(),
{
    vstd::set_lib::lemma_int_range(0, labels.len() as int);
    assert(unfilled_set(labels).subset_of(vstd::set_lib::set_int_range(0, labels.len() as int)));
    vstd::set_lib::lemma_len_subset(unfilled_set(labels), vstd::set_lib::set_int_range(0, labels.len() as int));
    assert(exists|a: int| unfilled_set(labels).contains(a) && !unfilled_set(labels2).contains(a))
        by {
        if !(exists|a: int| unfilled_set(labels).contains(a) && !unfilled_set(labels2).contains(a)) {
            assert(unfilled_set(labels2) =~= unfilled_set(labels));
        }
    }
    let a = choose|a: int| unfilled_set(labels).contains(a) && !unfilled_set(labels2).contains(a);
    assert(unfilled_set(labels2).subset_of(unfilled_set(labels).remove(a)));
    vstd::set_lib::lemma_len_subset(unfilled_set(labels2), unfilled_set(labels).remove(a));
}

/// The cells processed by flooding from a processed cell `i`.
proof fn lemma_flood_labels(m: GridMeta, labels: Seq<TLabel>, i: int)
    requires
        m.wf(),
        labels.len() == m.spec_size(),
        0 <= i < m.spec_size(),
        labels[i] != NOT_FILLED,
    ensures
        flooded_labels(m, labels, i).len() == labels.len(),
        unfilled_set(flooded_labels(m, labels, i)).subset_of(unfilled_set(labels)),
        unfilled_set(flooded_labels(m, labels, i)) == unfilled_set(labels) ==> forall|j: int|
            0 <= j < m.spec_size() && is_nbr(m, i, j) ==> labels[j] != NOT_FILLED,
{
    let l2 = flooded_labels(m, labels, i);
    if unfilled_set(l2) == unfilled_set(labels) {
        assert forall|j: int| 0 <= j < m.spec_size() && is_nbr(m, i, j) implies labels[j]
            != NOT_FILLED by {
            if labels[j] == NOT_FILLED {
                assert(unfilled_set(labels).contains(j));
                assert(!unfilled_set(l2).contains(j));
            }
        }
    }
}

/// A step from the depression queue keeps what `step_keeps` says.
proof fn lemma_depression_keeps(
    m: GridMeta,
    pre: ZhouFillState,
    post: ZhouFillState,
    dem: Seq<u64>,
    dem2: Seq<u64>,
    labels: Seq<TLabel>,
    labels2: Seq<TLabel>,
    ridges: Seq<RidgePoint>,
    ridges2: Seq<RidgePoint>,
)
    requires
        m.wf(),
        dem.len() == m.spec_size(),
        labels.len() == m.spec_size(),
        pre.wf(m),
        queued_filled(pre, labels),
        pre.spec_depression().len() > 0,
        depression_step(m, pre, post, dem, dem2, labels, labels2, ridges, ridges2),
    ensures
        step_keeps(pre, post, dem, dem2, labels, labels2),
        queued_filled(post, labels2),
{
    let di = pre.spec_depression()[0] as int;
    assert(labels[di] != NOT_FILLED);
    lemma_flood_labels(m, labels, di);
    let pa = unfilled_not_above(labels, dem, dem[di]);
    let pb = unfilled_above(labels, dem, dem[di]);
    lemma_nbrs_upto(m, di, pa, 8);
    lemma_nbrs_upto(m, di, pb, 8);
    if unfilled_set(labels2) == unfilled_set(labels) {
        lemma_nbrs_none(m, di, pa);
        lemma_nbrs_none(m, di, pb);
    }
    assert forall|k: int| 0 <= k < post.spec_depression().len() implies labels2[
        #[trigger] post.spec_depression()[k] as int] != NOT_FILLED by {
        let q = pre.spec_depression().drop_first();
        if k < q.len() {
            assert(post.spec_depression()[k] == pre.spec_depression()[k + 1]);
        } else {
            let j = nbrs_where(m, di, pa)[k - q.len()];
            assert(post.spec_depression()[k] == j);
        }
    }
    assert forall|k: int| 0 <= k < post.spec_slope().len() implies labels2[
        #[trigger] post.spec_slope()[k] as int] != NOT_FILLED by {
        let q = pre.spec_slope();
        if k < q.len() {
            assert(post.spec_slope()[k] == pre.spec_slope()[k]);
        } else {
            let j = nbrs_where(m, di, pb)[k - q.len()];
            assert(post.spec_slope()[k] == j);
        }
    }
}

/// A step from the slope queue keeps what `step_keeps` says.
proof fn lemma_slope_keeps(
    m: GridMeta,
    pre: ZhouFillState,
    post: ZhouFillState,
    dem: Seq<u64>,
    dem2: Seq<u64>,
    labels: Seq<TLabel>,
    labels2: Seq<TLabel>,
    ridges: Seq<RidgePoint>,
    ridges2: Seq<RidgePoint>,
)
    requires
        m.wf(),
        dem.len() == m.spec_size(),
        labels.len() == m.spec_size(),
        pre.wf(m),
        queued_filled(pre, labels),
        pre.spec_depression().len() == 0,
        pre.spec_slope().len() > 0,
        slope_step(m, pre, post, dem, dem2, labels, labels2, ridges, ridges2),
    ensures
        step_keeps(pre, post, dem, dem2, labels, labels2),
        queued_filled(post, labels2),
{
    let si = pre.spec_slope()[0] as int;
    assert(labels[si] != NOT_FILLED);
    let pb = unfilled_above(labels, dem, dem[si]);
    lemma_nbrs_upto(m, si, pb, 8);
    assert(unfilled_set(labels2).subset_of(unfilled_set(labels)));
    if unfilled_set(labels2) == unfilled_set(labels) {
        assert forall|j: int| 0 <= j < m.spec_size() && is_nbr(m, si, j) implies !pb(j as usize) by {
            if pb(j as usize) {
                assert(unfilled_set(labels).contains(j));
                assert(!unfilled_set(labels2).contains(j));
            }
        }
        lemma_nbrs_none(m, si, pb);
        assert(post.spec_slope().len() == pre.spec_slope().len() - 1);
    }
    assert forall|k: int| 0 <= k < post.spec_slope().len() implies labels2[
        #[trigger] post.spec_slope()[k] as int] != NOT_FILLED by {
        let q = pre.spec_slope().drop_first();
        if k < q.len() {
            assert(post.spec_slope()[k] == pre.spec_slope()[k + 1]);
        } else {
            let j = nbrs_where(m, si, pb)[k - q.len()];
            assert(post.spec_slope()[k] == j);
        }
    }
}

/// A step from the priority queue keeps what `step_keeps` says.
proof fn lemma_boundary_keeps(
    m: GridMeta,
    pre: ZhouFillState,
    post: ZhouFillState,
    dem: Seq<u64>,
    dem2: Seq<u64>,
    labels: Seq<TLabel>,
    labels2: Seq<TLabel>,
    ridges: Seq<RidgePoint>,
    ridges2: Seq<RidgePoint>,
    c: Cell,
)
    requires
        m.wf(),
        dem.len() == m.spec_size(),
        labels.len() == m.spec_size(),
        pre.wf(m),
        queued_filled(pre, labels),
        pre.spec_label() != NOT_FILLED,
        pre.spec_pq().count(c) > 0,
        boundary_step(m, pre, post, dem, dem2, labels, labels2, ridges, ridges2, c),
    ensures
        step_keeps(pre, post, dem, dem2, labels, labels2),
        queued_filled(post, labels2),
{
    let n = c.x + c.y * m.spec_width();
    crate::grid::lemma_cell_index_bound(
        m.spec_width() as int,
        m.spec_height() as int,
        c.x as int,
        c.y as int,
    );
    lemma_low_nbr_label(m, labels, dem, n, 8);
    let bl = boundary_label(m, labels, dem, n, pre.spec_label());
    assert(bl != NOT_FILLED);
    let labels1 = labels.update(n, bl);
    lemma_flood_labels(m, labels1, n);
    assert(unfilled_set(labels1).subset_of(unfilled_set(labels)));
    let pa = unfilled_below(labels1, dem, dem[n]);
    let pb = unfilled_not_below(labels1, dem, dem[n]);
    lemma_nbrs_upto(m, n, pa, 8);
    lemma_nbrs_upto(m, n, pb, 8);
    if unfilled_set(labels2) == unfilled_set(labels) {
        assert(labels[n] != NOT_FILLED) by {
            if labels[n] == NOT_FILLED {
                assert(unfilled_set(labels).contains(n));
                assert(!unfilled_set(labels1).contains(n));
            }
        }
        assert(unfilled_set(labels1) =~= unfilled_set(labels));
        lemma_nbrs_none(m, n, pa);
        lemma_nbrs_none(m, n, pb);
    }
    assert forall|j: int| 0 <= j < labels.len() implies {
        &&& #[trigger] dem2[j] >= dem[j]
        &&& labels[j] != NOT_FILLED ==> labels2[j] == labels[j] && dem2[j] == dem[j]
        &&& labels2[j] == NOT_FILLED ==> labels[j] == NOT_FILLED && dem2[j] == dem[j]
    } by {
        if j == n {
            crate::depfill::zhou::lemma_not_own_nbr(m, n, 8);
        }
    }
    assert forall|k: int| 0 <= k < post.spec_depression().len() implies labels2[
        #[trigger] post.spec_depression()[k] as int] != NOT_FILLED by {
        let q = pre.spec_depression();
        if k < q.len() {
            assert(post.spec_depression()[k] == pre.spec_depression()[k]);
        } else {
            let j = nbrs_where(m, n, pa)[k - q.len()];
            assert(post.spec_depression()[k] == j);
        }
    }
    assert forall|k: int| 0 <= k < post.spec_slope().len() implies labels2[
        #[trigger] post.spec_slope()[k] as int] != NOT_FILLED by {
        let q = pre.spec_slope();
        if k < q.len() {
            assert(post.spec_slope()[k] == pre.spec_slope()[k]);
        } else {
            let j = nbrs_where(m, n, pb)[k - q.len()];
            assert(post.spec_slope()[k] == j);
        }
    }
}

/// Whatever branch a step of the flood takes, it keeps what `step_keeps`
/// says: no elevation falls, processed cells keep their label and
/// elevation, no cell goes back to unprocessed, and the flood makes
/// progress; it starts a new watershed only by processing a new cell.
pub proof fn lemma_step_keeps(
    m: GridMeta,
    pre: ZhouFillState,
    post: ZhouFillState,
    dem: Seq<u64>,
    dem2: Seq<u64>,
    labels: Seq<TLabel>,
    labels2: Seq<TLabel>,
    ridges: Seq<RidgePoint>,
    ridges2: Seq<RidgePoint>,
)
    requires
        m.wf(),
        dem.len() == m.spec_size(),
        labels.len() == m.spec_size(),
        pre.wf(m),
        queued_filled(pre, labels),
        pre.spec_label() != NOT_FILLED,
        pre.spec_label() < u32::MAX,
                pre.spec_depression().len() > 0 || pre.spec_slope().len() > 0 || pre.spec_pq().len() > 0,
        zhou_step(m, pre, post, dem, dem2, labels, labels2, ridges, ridges2),
    ensures
        step_keeps(pre, post, dem, dem2, labels, labels2),
        queued_filled(post, labels2),
        post.spec_label() == pre.spec_label() || (post.spec_label() == pre.spec_label() + 1
            && unfilled_set(labels2).len() < unfilled_set(labels).len()),
{
    if pre.spec_depression().len() > 0 {
        lemma_depression_keeps(m, pre, post, dem, dem2, labels, labels2, ridges, ridges2);
    } else if pre.spec_slope().len() > 0 {
        lemma_slope_keeps(m, pre, post, dem, dem2, labels, labels2, ridges, ridges2);
    } else {
        let c = choose|c: Cell|
            {
                &&& #[trigger] pre.spec_pq().count(c) > 0
                &&& forall|y: Cell| #[trigger]
                    pre.spec_pq().count(y) > 0 ==> !crate::queue::rank_gt(
                        crate::queue::Ranked::rank(&y),
                        crate::queue::Ranked::rank(&c),
                    )
                &&& boundary_step(m, pre, post, dem, dem2, labels, labels2, ridges, ridges2, c)
            };
        lemma_boundary_keeps(m, pre, post, dem, dem2, labels, labels2, ridges, ridges2, c);
        let n = c.x + c.y * m.spec_width();
        if takes_fresh_label(m, labels, dem, n) {
            crate::grid::lemma_cell_index_bound(
                m.spec_width() as int,
                m.spec_height() as int,
                c.x as int,
                c.y as int,
            );
            assert(unfilled_set(labels).contains(n));
            assert(!unfilled_set(labels2).contains(n));
            lemma_unfilled_shrinks(labels, labels2);
        }
    }
}

/// No cell is labelled yet.
pub open spec fn all_unfilled(labels: Seq<TLabel>) -> bool {
    forall|j: int| 0 <= j < labels.len() ==> #[trigger] labels[j] == NOT_FILLED
}

/// Fills the depressions of `dem` with Zhou's priority flood from the edges
/// of the grid, labelling the watershed of every cell it processes.
///
/// Cells that are already labelled keep their label and elevation; no
/// elevation is lowered. Started on unlabelled cells, the flood labels
/// every cell, and afterwards every cell drains off the grid: a chain of
/// neighbouring cells leads to it from the edge along which the filled
/// elevation never falls, so no depression is left; and no cell is raised
/// above its spill level, the lowest of the highest original elevations
/// along the chains from the edge to it. Those two facts fix every filled
/// elevation (`lemma_fill_unique`). The labels and elevations are those of
/// a run of the flood, step by step as `ZhouFillState::step` takes them,
/// from the edges until nothing is queued (`zhou_flooded`).
#[verifier::spinoff_prover]
pub fn fill_zhou2016(meta: &GridMeta, dem: &mut [u64], labels: &mut [TLabel])
    requires
        old(dem)@.len() == meta.spec_size(),
        old(labels)@.len() == meta.spec_size(),
        meta.spec_height() >= 1,
        meta.spec_width() >= 1 || meta.spec_height() <= 2,
        meta.spec_size() < NOT_FILLED,
    ensures
        zhou_flooded(*meta, old(dem)@, old(labels)@, final(dem)@, final(labels)@),
        final(dem)@.len() == old(dem)@.len(),
        final(labels)@.len() == old(labels)@.len(),
        forall|j: int|
            0 <= j < old(dem)@.len() ==> {
                &&& #[trigger] final(dem)@[j] >= old(dem)@[j]
                &&& old(labels)@[j] != NOT_FILLED ==> final(labels)@[j] == old(labels)@[j]
                    && final(dem)@[j] == old(dem)@[j]
            },
        all_unfilled(old(labels)@) ==> forall|j: int|
            0 <= j < meta.spec_size() ==> #[trigger] final(labels)@[j] != NOT_FILLED && drains(
                *meta,
                final(dem)@,
                final(labels)@,
                j,
            ),
        all_unfilled(old(labels)@) ==> below_spill(*meta, old(dem)@, final(dem)@),
{
    proof {
        use_type_invariant(meta);
    }
    let ghost m = *meta;
    let ghost d0 = dem@;
    let ghost l0 = labels@;
    let mut state = ZhouFillState::new(0);
    state.add_edges(meta, dem);
    proof {
        vstd::set_lib::lemma_int_range(0, l0.len() as int);
        assert(unfilled_set(l0).subset_of(vstd::set_lib::set_int_range(0, l0.len() as int)));
        vstd::set_lib::lemma_len_subset(unfilled_set(l0), vstd::set_lib::set_int_range(0, l0.len() as int));
        assert(state.wf(m)) by {
            assert forall|c: Cell| #[trigger] state.spec_pq().count(c) > 0 implies c.x < m.spec_width()
                && c.y < m.spec_height() by {
                lemma_edge_cells(m, d0, c);
            }
        }
        if all_unfilled(l0) {
            lemma_flood_start(m, state, d0, l0);
            lemma_least_start(m, state, d0, l0);
        }
    }
    let ghost mut lv: u64 = 0;
    let mut ridges: Vec<RidgePoint> = Vec::new();
    let ghost mut sts: Seq<ZhouFillState> = seq![state];
    let ghost mut dems: Seq<Seq<u64>> = seq![dem@];
    let ghost mut labs: Seq<Seq<TLabel>> = seq![labels@];
    let ghost mut rids: Seq<Seq<RidgePoint>> = seq![Seq::empty()];
    proof {
        assert(start_state(m, d0, sts[0]));
        assert(flood_run(m, sts, dems, labs, rids));
    }
    loop
        invariant_except_break
            sts.last() == state,
        invariant
            ridges@.len() == 0,
            flood_run(m, sts, dems, labs, rids),
            start_state(m, d0, sts[0]),
            dems[0] == d0,
            labs[0] == l0,
            dems.last() == dem@,
            labs.last() == labels@,
            all_unfilled(l0) ==> run_inv(m, state, labels@) && drain_inv(m, state, dem@, labels@)
                && least_inv(m, state, d0, dem@, labels@, lv),
            m == *meta,
            m.wf(),
            m.spec_size() < NOT_FILLED,
            dem@.len() == m.spec_size(),
            labels@.len() == m.spec_size(),
            l0.len() == m.spec_size(),
            d0.len() == m.spec_size(),
            state.wf(m),
            queued_filled(state, labels@),
            state.spec_label() + unfilled_set(labels@).len() <= unfilled_set(l0).len(),
            unfilled_set(labels@).len() <= m.spec_size(),
            forall|j: int|
                0 <= j < d0.len() ==> {
                    &&& #[trigger] dem@[j] >= d0[j]
                    &&& l0[j] != NOT_FILLED ==> labels@[j] == l0[j] && dem@[j] == d0[j]
                },
        ensures
            dem@.len() == m.spec_size(),
            labels@.len() == m.spec_size(),
            forall|j: int|
                0 <= j < d0.len() ==> {
                    &&& #[trigger] dem@[j] >= d0[j]
                    &&& l0[j] != NOT_FILLED ==> labels@[j] == l0[j] && dem@[j] == d0[j]
                },
            all_unfilled(l0) ==> forall|j: int|
                0 <= j < m.spec_size() ==> #[trigger] labels@[j] != NOT_FILLED && drains(
                    m,
                    dem@,
                    labels@,
                    j,
                ),
            all_unfilled(l0) ==> below_spill(m, d0, dem@),
            zhou_flooded(m, d0, l0, dem@, labels@),
        decreases unfilled_set(labels@).len(), queue_weight(state),
    {
        let ghost pre = state;
        let ghost dem1 = dem@;
        let ghost labels1 = labels@;
        let ghost ridges1 = ridges@;
        proof {
            vstd::set_lib::lemma_int_range(0, l0.len() as int);
            assert(unfilled_set(l0).subset_of(vstd::set_lib::set_int_range(0, l0.len() as int)));
            vstd::set_lib::lemma_len_subset(unfilled_set(l0), vstd::set_lib::set_int_range(0, l0.len() as int));
        }
        proof {
            crate::depfill::zhou::lemma_label_room(m, state, dem@, labels@);
        }
        let more = state.step(meta, dem, labels, &mut ridges);
        if !more {
            proof {
                assert(sts.last() == pre);
                assert(flood_done(pre));
                assert(flood_run(m, sts, dems, labs, rids));
                reveal(zhou_flooded);
                assert(zhou_flooded(m, d0, l0, dem@, labels@));
                if all_unfilled(l0) {
                    lemma_flood_done(m, state, dem@, labels@);
                    assert forall|p: Seq<int>| #[trigger] edge_walk(m, p) implies dem@[p.last()] <= walk_top(
                        d0,
                        p,
                    ) by {
                        lemma_walk_below(m, d0, dem@, labels@, p);
                    }
                }
            }
            break;
        }
        proof {
            assert(ridges1 == Seq::<RidgePoint>::empty());
            lemma_run_push(m, sts, dems, labs, rids, state, dem@, labels@, ridges@);
            sts = sts.push(state);
            dems = dems.push(dem@);
            labs = labs.push(labels@);
            rids = rids.push(ridges@);
            lemma_step_keeps(m, pre, state, dem1, dem@, labels1, labels@, ridges1, ridges@);
            if all_unfilled(l0) {
                lv = lemma_least_step(m, pre, state, d0, dem1, dem@, labels1, labels@, ridges1, ridges@, lv);
                lemma_run_step(m, pre, state, dem1, dem@, labels1, labels@, ridges1, ridges@);
                lemma_drain_step(m, pre, state, dem1, dem@, labels1, labels@, ridges1, ridges@);
            }
            lemma_unfilled_finite(labels1);
            vstd::set_lib::lemma_len_subset(unfilled_set(labels@), unfilled_set(labels1));
            if unfilled_set(labels@) != unfilled_set(labels1) {
                lemma_unfilled_shrinks(labels1, labels@);
            }
        }
        ridges.clear();
    }
    proof {
        assert(d0 == old(dem)@ && l0 == old(labels)@);
        assert(zhou_flooded(*meta, old(dem)@, old(labels)@, dem@, labels@));
        assert forall|j: int| 0 <= j < old(dem)@.len() implies {
            &&& #[trigger] dem@[j] >= old(dem)@[j]
            &&& old(labels)@[j] != NOT_FILLED ==> labels@[j] == old(labels)@[j] && dem@[j] == old(
                dem,
            )@[j]
        } by {
            assert(dem@[j] >= d0[j]);
            assert(l0[j] != NOT_FILLED ==> labels@[j] == l0[j] && dem@[j] == d0[j]);
        }
    }
}

/// The cells queued by `add_edges` lie on the grid.
proof fn lemma_edge_cells(m: GridMeta, dem: Seq<u64>, c: Cell)
    requires
        m.wf(),
        m.spec_height() >= 1,
        m.spec_width() >= 1 || m.spec_height() <= 2,
        edge_cells(m, dem).to_multiset().count(c) > 0,
    ensures
        c.x < m.spec_width(),
        c.y < m.spec_height(),
{
    broadcast use vstd::seq_lib::group_to_multiset_ensures;

    let s = edge_cells(m, dem);
    assert(s.contains(c));
    let k = choose|k: int| 0 <= k < s.len() && s[k] == c;
    let w = m.spec_width() as int;
    if k < 2 * w {
        assert(c.x == k / 2);
    } else {
        assert(c.y == 1 + (k - 2 * w) / 2);
    }
}

/// The spill graph after noting that watersheds `my_label` and `n_label`
/// meet at cells of elevations `my_elev` and `n_elev`: the pair is entered
/// under the smaller label at the higher of the two elevations, unless a
/// lower level between them was noted before. Nothing is noted for an
/// unprocessed neighbour or within one watershed.
pub open spec fn note_ridge(
    g: Seq<Map<TLabel, u64>>,
    my_label: TLabel,
    n_label: TLabel,
    my_elev: u64,
    n_elev: u64,
) -> Seq<Map<TLabel, u64>> {
    if n_label == NOT_FILLED || my_label == n_label {
        g
    } else {
        let lo = if my_label < n_label {
            my_label
        } else {
            n_label
        };
        let hi = if my_label < n_label {
            n_label
        } else {
            my_label
        };
        let e = max_key(my_elev, n_elev);
        let m = g[lo as int];
        g.update(
            lo as int,
            m.insert(
                hi,
                if m.contains_key(hi) && m[hi] <= e {
                    m[hi]
                } else {
                    e
                },
            ),
        )
    }
}

/// Notes in the spill graph where two watersheds meet: the lowest ridge
/// between each pair of watersheds is kept, under the smaller label.
pub fn watersheds_meet(
    my_label: TLabel,
    n_label: TLabel,
    my_elev: u64,
    n_elev: u64,
    spill_graph: &mut SpillGraph,
)
    requires
        n_label == NOT_FILLED || my_label == n_label || (if my_label < n_label {
            my_label
        } else {
            n_label
        }) < old(spill_graph)@.len(),
    ensures
        final(spill_graph)@.len() == old(spill_graph)@.len(),
        graph_view(final(spill_graph)@) == note_ridge(
            graph_view(old(spill_graph)@),
            my_label,
            n_label,
            my_elev,
            n_elev,
        ),
{
    if n_label == NOT_FILLED {
        return ;
    }
    if my_label == n_label {
        return ;
    }
    let elev_over = if my_elev > n_elev {
        my_elev
    } else {
        n_elev
    };
    let (lo, hi) = if my_label > n_label {
        (n_label, my_label)
    } else {
        (my_label, n_label)
    };
    let ghost g0 = graph_view(spill_graph@);
    let noted = match spill_graph[lo as usize].get(&hi) {
        Some(e) => if *e > elev_over {
            elev_over
        } else {
            *e
        },
        None => elev_over,
    };
    spill_graph[lo as usize].insert(hi, noted);
    proof {
        assert(graph_view(spill_graph@) =~= note_ridge(g0, my_label, n_label, my_elev, n_elev));
    }
}

/// The elevations after raising every cell to the fill level of its
/// watershed: a cell below its watershed's level is raised to it.
pub open spec fn raised(dem: Seq<u64>, labels: Seq<TLabel>, graph_elevs: Seq<u64>) -> Seq<u64> {
    Seq::new(
        dem.len(),
        |i: int|
            if i < labels.len() && dem[i] < graph_elevs[labels[i] as int] {
                graph_elevs[labels[i] as int]
            } else {
                dem[i]
            },
    )
}

/// Raises each watershed to its fill level: the second step of depression
/// filling on a tiled grid.
///
/// Cells are paired with labels in order; cells beyond the end of `labels`
/// keep their elevation.
pub fn raise_catchments(dem: &mut [u64], labels: &[TLabel], graph_elevs: &[u64])
    requires
        forall|i: int|
            0 <= i < old(dem)@.len() && i < labels@.len() ==> #[trigger] labels@[i]
                < graph_elevs@.len(),
    ensures
        final(dem)@ == raised(old(dem)@, labels@, graph_elevs@),
{
    let ghost d0 = dem@;
    let n = if dem.len() < labels.len() {
        dem.len()
    } else {
        labels.len()
    };
    let mut i: usize = 0;
    while i < n
        invariant
            n <= dem@.len(),
            n <= labels@.len(),
            n == d0.len() || n == labels@.len(),
            dem@.len() == d0.len(),
            i <= n,
            forall|k: int|
                0 <= k < d0.len() && k < labels@.len() ==> #[trigger] labels@[k] < graph_elevs@.len(),
            forall|k: int|
                0 <= k < d0.len() ==> #[trigger] dem@[k] == if k < i {
                    raised(d0, labels@, graph_elevs@)[k]
                } else {
                    d0[k]
                },
        decreases n - i,
    {
        let l = labels[i] as usize;
        if dem[i] < graph_elevs[l] {
            dem[i] = graph_elevs[l];
        }
        i = i + 1;
    }
    proof {
        assert(dem@ =~= raised(d0, labels@, graph_elevs@));
    }
}

/// All data of one tile that is needed to solve the global problem: where
/// the tile is, its spill graph and its edges.
#[derive(Debug)]
pub struct FillData {
    tile_info: TileInfo,
    spill_graph: SpillGraph,
    dem_edges: Vec<u64>,
    label_edges: Vec<TLabel>,
}

impl FillData {
    /// The tile's position and shape.
    pub closed spec fn spec_tile_info(&self) -> TileInfo {
        self.tile_info
    }

    /// The tile's spill graph.
    pub closed spec fn spec_graph(&self) -> Seq<Map<TLabel, u64>> {
        graph_view(self.spill_graph@)
    }

    /// The elevations of the tile's skirt.
    pub closed spec fn spec_dem_edges(&self) -> Seq<u64> {
        self.dem_edges@
    }

    /// The labels of the tile's skirt.
    pub closed spec fn spec_label_edges(&self) -> Seq<TLabel> {
        self.label_edges@
    }

    /// The fill data of the tile at `tile_coord` of shape `meta`.
    pub fn new(
        tile_coord: TileCoord,
        meta: GridMeta,
        spill_graph: SpillGraph,
        dem_edges: Vec<u64>,
        label_edges: Vec<TLabel>,
    ) -> (r: Self)
        ensures
            r.spec_tile_info().tile_coord == tile_coord,
            r.spec_tile_info().meta == meta,
            r.spec_graph() == graph_view(spill_graph@),
            r.spec_dem_edges() == dem_edges@,
            r.spec_label_edges() == label_edges@,
    {
        Self { tile_info: TileInfo::new(tile_coord, meta), spill_graph, dem_edges, label_edges }
    }

    /// The tile's spill graph.
    pub fn spill_graph(&self) -> (r: &SpillGraph)
        ensures
            graph_view(r@) == self.spec_graph(),
    {
        &self.spill_graph
    }

    /// The tile's position and shape.
    pub fn tile_info(&self) -> (r: &TileInfo)
        ensures
            *r == self.spec_tile_info(),
    {
        &self.tile_info
    }

    /// The elevations of the tile's skirt.
    pub fn dem_edges(&self) -> (r: &[u64])
        ensures
            r@ == self.spec_dem_edges(),
    {
        self.dem_edges.as_slice()
    }

    /// The labels of the tile's skirt.
    pub fn label_edges(&self) -> (r: &[TLabel])
        ensures
            r@ == self.spec_label_edges(),
    {
        self.label_edges.as_slice()
    }
}

/// The flat index of queue entry `c`.
pub open spec fn cell_index(m: GridMeta, c: Cell) -> int {
    c.x + c.y * m.spec_width()
}

/// The cells on the outer ring of the grid.
pub open spec fn edge_set(m: GridMeta) -> Set<int> {
    Set::new(
        |i: int|
            0 <= i < m.spec_size() && m.spec_is_edge_cell(
                i % (m.spec_width() as int),
                i / (m.spec_width() as int),
            ),
    )
}

/// What holds throughout a flood that started from the edges of a grid of
/// unlabelled cells: queued cells are processed or on the edge, every
/// label in use is below the next one, and only edge cells start new
/// watersheds.
pub open spec fn run_inv(m: GridMeta, st: ZhouFillState, labels: Seq<TLabel>) -> bool {
    &&& st.wf(m)
    &&& queued_filled(st, labels)
    &&& forall|c: Cell| #[trigger]
        st.spec_pq().count(c) > 0 ==> labels[cell_index(m, c)] != NOT_FILLED || edge_set(
            m,
        ).contains(cell_index(m, c))
    &&& st.spec_label() + unfilled_set(labels).intersect(edge_set(m)).len() <= edge_set(m).len()
    &&& forall|j: int|
        0 <= j < labels.len() && labels[j] != NOT_FILLED ==> #[trigger] labels[j] < st.spec_label()
}

/// A ridge point between neighbouring cells as they are labelled and
/// elevated now, with labels below `bound`.
pub open spec fn ridge_valid(
    m: GridMeta,
    labels: Seq<TLabel>,
    dem: Seq<u64>,
    bound: TLabel,
    r: RidgePoint,
) -> bool {
    &&& r.my_cell < m.spec_size()
    &&& r.n_cell < m.spec_size()
    &&& is_nbr(m, r.my_cell as int, r.n_cell as int)
    &&& r.my_label != NOT_FILLED
    &&& r.my_label < bound
    &&& labels[r.my_cell as int] == r.my_label
    &&& dem[r.my_cell as int] == r.my_elev
    &&& r.n_label != NOT_FILLED ==> r.n_label < bound && labels[r.n_cell as int] == r.n_label
        && dem[r.n_cell as int] == r.n_elev
}

/// The queue entries of `add_edges` lie on the edge of the grid.
proof fn lemma_edge_cells_on_edge(m: GridMeta, dem: Seq<u64>, c: Cell)
    requires
        m.wf(),
        m.spec_height() >= 1,
        m.spec_width() >= 1 || m.spec_height() <= 2,
        edge_cells(m, dem).to_multiset().count(c) > 0,
    ensures
        c.x < m.spec_width(),
        c.y < m.spec_height(),
        edge_set(m).contains(cell_index(m, c)),
{
    lemma_edge_cells(m, dem, c);
    let w = m.spec_width() as int;
    let h = m.spec_height() as int;
    let i = cell_index(m, c);
    crate::grid::lemma_cell_index_bound(w, h, c.x as int, c.y as int);
    lemma_index_split(m, i);
    lemma_split(w, c.x as int, c.y as int, i % w, i / w);
    broadcast use vstd::seq_lib::group_to_multiset_ensures;

    let s = edge_cells(m, dem);
    assert(s.contains(c));
    let k = choose|k: int| 0 <= k < s.len() && s[k] == c;
    if k < 2 * w {
        assert(c.y == 0 || c.y == h - 1);
    } else {
        assert(c.x == 0 || c.x == w - 1);
    }
}

/// A flat index splits into its column and row.
proof fn lemma_index_split(m: GridMeta, i: int)
    requires
        m.wf(),
        0 <= i < m.spec_size(),
    ensures
        m.spec_width() > 0,
        i == i % (m.spec_width() as int) + (i / (m.spec_width() as int)) * m.spec_width(),
        0 <= i % (m.spec_width() as int) < m.spec_width(),
        0 <= i / (m.spec_width() as int) < m.spec_height(),
{
    lemma_nbr(m, i, 0);
    let w = m.spec_width() as int;
    assert(i == i % w + (i / w) * w) by (nonlinear_arith)
        requires
            w > 0,
    ;
}

/// Column and row of a cell are determined by its flat index.
proof fn lemma_split(w: int, x: int, y: int, x2: int, y2: int)
    requires
        0 <= x < w,
        0 <= x2 < w,
        x + y * w == x2 + y2 * w,
    ensures
        x == x2,
        y == y2,
{
    assert((y - y2) * w == x2 - x) by (nonlinear_arith)
        requires
            x + y * w == x2 + y2 * w,
    ;
    if y > y2 {
        assert((y - y2) * w >= w) by (nonlinear_arith)
            requires
                y - y2 >= 1,
                w > 0,
        ;
    } else if y < y2 {
        assert((y2 - y) * w >= w) by (nonlinear_arith)
            requires
                y2 - y >= 1,
                w > 0,
        ;
        assert((y - y2) * w == -((y2 - y) * w)) by (nonlinear_arith);
    }
}

/// The edge set is finite and no larger than the grid, nor than the
/// number of queue entries `add_edges` makes.
proof fn lemma_edge_set_len(m: GridMeta, dem: Seq<u64>)
    requires
        m.wf(),
        m.spec_height() >= 1,
        m.spec_width() >= 1 || m.spec_height() <= 2,
        dem.len() == m.spec_size(),
    ensures
        edge_set(m).finite(),
        edge_set(m).len() <= m.spec_size(),
        edge_set(m).len() <= edge_cells(m, dem).len(),
{
    lemma_edge_set_finite(m);
    let s = edge_cells(m, dem);
    let idx = s.map_values(|c: Cell| cell_index(m, c));
    let w = m.spec_width() as int;
    let h = m.spec_height() as int;
    assert forall|i: int| edge_set(m).contains(i) implies idx.to_set().contains(i) by {
        lemma_index_split(m, i);
        let x = i % w;
        let y = i / w;
        let k = if y == 0 {
            2 * x
        } else if y == h - 1 {
            2 * x + 1
        } else if x == 0 {
            2 * w + 2 * (y - 1)
        } else {
            2 * w + 2 * (y - 1) + 1
        };
        assert(0 <= k < s.len());
        assert(idx[k] == i);
        assert(idx.contains(i));
    }
    idx.lemma_cardinality_of_set();
    vstd::set_lib::lemma_len_subset(edge_set(m), idx.to_set());
}

/// The edge set is finite and no larger than the grid.
proof fn lemma_edge_set_finite(m: GridMeta)
    ensures
        edge_set(m).finite(),
        edge_set(m).len() <= m.spec_size(),
{
    vstd::set_lib::lemma_int_range(0, m.spec_size() as int);
    assert(edge_set(m).subset_of(vstd::set_lib::set_int_range(0, m.spec_size() as int)));
    vstd::set_lib::lemma_len_subset(edge_set(m), vstd::set_lib::set_int_range(0, m.spec_size() as int));
}

/// The ridge points a flood from cell `i` reports are valid afterwards.
proof fn lemma_ridge_points_valid(
    m: GridMeta,
    i: int,
    cells: Seq<usize>,
    labels_x: Seq<TLabel>,
    dem_x: Seq<u64>,
    labels2: Seq<TLabel>,
    dem2: Seq<u64>,
    bound: TLabel,
)
    requires
        m.wf(),
        0 <= i < m.spec_size(),
        labels_x.len() == m.spec_size(),
        dem_x.len() == m.spec_size(),
        labels2.len() == m.spec_size(),
        dem2.len() == m.spec_size(),
        forall|k: int|
            0 <= k < cells.len() ==> #[trigger] cells[k] < m.spec_size() && is_nbr(
                m,
                i,
                cells[k] as int,
            ),
        labels_x[i] != NOT_FILLED,
        forall|j: int|
            0 <= j < m.spec_size() && labels_x[j] != NOT_FILLED ==> #[trigger] labels2[j]
                == labels_x[j] && dem2[j] == dem_x[j] && labels_x[j] < bound,
    ensures
        forall|k: int|
            0 <= k < cells.len() ==> ridge_valid(
                m,
                labels2,
                dem2,
                bound,
                #[trigger] ridge_points(i, labels_x[i], cells, labels_x, dem_x)[k],
            ),
{
    assert forall|k: int| 0 <= k < cells.len() implies ridge_valid(
        m,
        labels2,
        dem2,
        bound,
        #[trigger] ridge_points(i, labels_x[i], cells, labels_x, dem_x)[k],
    ) by {
        let j = cells[k] as int;
        assert(labels2[i] == labels_x[i]);
        if labels_x[j] != NOT_FILLED {
            assert(labels2[j] == labels_x[j]);
        }
    }
}

/// One step of a flood from the edges keeps the run invariant and reports
/// only valid ridge points.
proof fn lemma_run_step(
    m: GridMeta,
    pre: ZhouFillState,
    post: ZhouFillState,
    dem: Seq<u64>,
    dem2: Seq<u64>,
    labels: Seq<TLabel>,
    labels2: Seq<TLabel>,
    ridges: Seq<RidgePoint>,
    ridges2: Seq<RidgePoint>,
)
    requires
        m.wf(),
        dem.len() == m.spec_size(),
        labels.len() == m.spec_size(),
        m.spec_size() < NOT_FILLED,
        run_inv(m, pre, labels),
        post.wf(m),
        pre.spec_depression().len() > 0 || pre.spec_slope().len() > 0 || pre.spec_pq().len() > 0,
        zhou_step(m, pre, post, dem, dem2, labels, labels2, ridges, ridges2),
    ensures
        run_inv(m, post, labels2),
        step_keeps(pre, post, dem, dem2, labels, labels2),
        ridges2.len() >= ridges.len(),
        ridges2.take(ridges.len() as int) == ridges,
        forall|k: int|
            ridges.len() <= k < ridges2.len() ==> ridge_valid(
                m,
                labels2,
                dem2,
                post.spec_label(),
                #[trigger] ridges2[k],
            ),
{
    lemma_edge_set_finite(m);
    lemma_unfilled_finite(labels);
    lemma_unfilled_finite(labels2);
    let edges = edge_set(m);
    vstd::set_lib::lemma_len_intersect(unfilled_set(labels), edges);
    assert(pre.spec_label() < NOT_FILLED);
    lemma_step_keeps(m, pre, post, dem, dem2, labels, labels2, ridges, ridges2);
    let u1 = unfilled_set(labels).intersect(edges);
    let u2 = unfilled_set(labels2).intersect(edges);
    assert(u2.subset_of(u1));
    vstd::set_lib::lemma_len_subset(u2, u1);
    if pre.spec_depression().len() > 0 {
        let di = pre.spec_depression()[0] as int;
        let pf = filled_where(labels);
        lemma_nbrs_upto(m, di, pf, 8);
        lemma_ridge_points_valid(m, di, nbrs_where(m, di, pf), labels, dem, labels2, dem2, post.spec_label());
        assert forall|k: int| ridges.len() <= k < ridges2.len() implies ridge_valid(
            m,
            labels2,
            dem2,
            post.spec_label(),
            #[trigger] ridges2[k],
        ) by {
            assert(ridges2[k] == ridge_points(di, labels[di], nbrs_where(m, di, pf), labels, dem)[k
                - ridges.len()]);
        }
        assert(ridges2.take(ridges.len() as int) =~= ridges);
    } else if pre.spec_slope().len() > 0 {
        let si = pre.spec_slope()[0] as int;
        let pf = filled_where(labels);
        lemma_nbrs_upto(m, si, pf, 8);
        lemma_ridge_points_valid(m, si, nbrs_where(m, si, pf), labels, dem, labels2, dem2, post.spec_label());
        assert forall|k: int| ridges.len() <= k < ridges2.len() implies ridge_valid(
            m,
            labels2,
            dem2,
            post.spec_label(),
            #[trigger] ridges2[k],
        ) by {
            assert(ridges2[k] == ridge_points(si, labels[si], nbrs_where(m, si, pf), labels, dem)[k
                - ridges.len()]);
        }
        assert(ridges2.take(ridges.len() as int) =~= ridges);
        lemma_index_split(m, si);
    } else {
        let c = choose|c: Cell|
            {
                &&& #[trigger] pre.spec_pq().count(c) > 0
                &&& forall|y: Cell| #[trigger]
                    pre.spec_pq().count(y) > 0 ==> !crate::queue::rank_gt(
                        crate::queue::Ranked::rank(&y),
                        crate::queue::Ranked::rank(&c),
                    )
                &&& boundary_step(m, pre, post, dem, dem2, labels, labels2, ridges, ridges2, c)
            };
        let n = cell_index(m, c);
        crate::grid::lemma_cell_index_bound(
            m.spec_width() as int,
            m.spec_height() as int,
            c.x as int,
            c.y as int,
        );
        lemma_low_nbr_label_bound(m, labels, dem, n, 8, pre.spec_label());
        lemma_low_nbr_label(m, labels, dem, n, 8);
        let labels1 = labels.update(n, boundary_label(m, labels, dem, n, pre.spec_label()));
        assert(labels1[n] != NOT_FILLED);
        crate::depfill::zhou::lemma_not_own_nbr(m, n, 8);
        lemma_nbrs_upto(m, n, any_cell(), 8);
        lemma_ridge_points_valid(m, n, nbrs_where(m, n, any_cell()), labels1, dem, labels2, dem2, post.spec_label());
        assert forall|k: int| ridges.len() <= k < ridges2.len() implies ridge_valid(
            m,
            labels2,
            dem2,
            post.spec_label(),
            #[trigger] ridges2[k],
        ) by {
            assert(ridges2[k] == ridge_points(n, labels1[n], nbrs_where(m, n, any_cell()), labels1, dem)[k
                - ridges.len()]);
        }
        assert(ridges2.take(ridges.len() as int) =~= ridges);
        if takes_fresh_label(m, labels, dem, n) {
            assert(u1.contains(n));
            assert(!u2.contains(n));
            assert(u2.subset_of(u1.remove(n)));
            vstd::set_lib::lemma_len_subset(u2, u1.remove(n));
        }
    }
    assert forall|c: Cell| #[trigger] post.spec_pq().count(c) > 0 implies labels2[cell_index(m, c)]
        != NOT_FILLED || edges.contains(cell_index(m, c)) by {
        if pre.spec_pq().count(c) > 0 {
            crate::grid::lemma_cell_index_bound(
                m.spec_width() as int,
                m.spec_height() as int,
                c.x as int,
                c.y as int,
            );
        } else {
            let si = pre.spec_slope()[0] as int;
            assert(c == cell_at(m, si, dem[si]));
            assert(cell_index(m, c) == si);
        }
    }
    assert(queued_filled(post, labels2));
    assert(post.spec_label() + u2.len() <= edges.len());
    assert forall|j: int| 0 <= j < labels2.len() && labels2[j] != NOT_FILLED implies #[trigger] labels2[j]
        < post.spec_label() by {
        if labels[j] == NOT_FILLED {
            if pre.spec_depression().len() > 0 {
            } else if pre.spec_slope().len() > 0 {
            } else {
            }
        }
    }
}

/// The label `low_nbr_label` finds is one in use.
proof fn lemma_low_nbr_label_bound(
    m: GridMeta,
    labels: Seq<TLabel>,
    dem: Seq<u64>,
    n: int,
    d: int,
    bound: TLabel,
)
    requires
        m.wf(),
        0 <= n < m.spec_size(),
        labels.len() == m.spec_size(),
        d <= 8,
        forall|j: int| 0 <= j < labels.len() && labels[j] != NOT_FILLED ==> #[trigger] labels[j] < bound,
    ensures
        low_nbr_label(m, labels, dem, n, d) matches Some(l) ==> l < bound,
    decreases d,
{
    if d > 0 {
        lemma_nbr(m, n, d - 1);
        lemma_low_nbr_label_bound(m, labels, dem, n, d - 1, bound);
    }
}

/// Cells `i` and `j` neighbour each other, belong to watersheds `a` and `b`
/// (either way round), and the higher of the two is at `e`.
pub open spec fn spill_witness(
    m: GridMeta,
    labels: Seq<TLabel>,
    dem: Seq<u64>,
    a: int,
    b: int,
    e: u64,
    i: int,
    j: int,
) -> bool {
    &&& 0 <= i < m.spec_size()
    &&& 0 <= j < m.spec_size()
    &&& is_nbr(m, i, j)
    &&& labels[i] != NOT_FILLED
    &&& labels[j] != NOT_FILLED
    &&& ((labels[i] == a && labels[j] == b) || (labels[i] == b && labels[j] == a))
    &&& e == max_key(dem[i], dem[j])
}

/// Every entry of the spill graph is a ridge between two watersheds: it is
/// noted under the smaller label, both labels are below `bound`, and two
/// neighbouring cells of the two watersheds meet at its elevation.
pub open spec fn graph_sound(
    m: GridMeta,
    g: Seq<Map<TLabel, u64>>,
    labels: Seq<TLabel>,
    dem: Seq<u64>,
    bound: TLabel,
) -> bool {
    forall|a: int, b: TLabel|
        0 <= a < g.len() && #[trigger] g[a].contains_key(b) ==> {
            &&& a < b
            &&& b < bound
            &&& exists|i: int, j: int| #[trigger] spill_witness(m, labels, dem, a, b as int, g[a][b], i, j)
        }
}

/// A step of the flood keeps the spill graph sound.
proof fn lemma_sound_step(
    m: GridMeta,
    g: Seq<Map<TLabel, u64>>,
    pre: ZhouFillState,
    post: ZhouFillState,
    dem: Seq<u64>,
    dem2: Seq<u64>,
    labels: Seq<TLabel>,
    labels2: Seq<TLabel>,
)
    requires
        labels.len() == m.spec_size(),
        dem.len() == m.spec_size(),
        graph_sound(m, g, labels, dem, pre.spec_label()),
        step_keeps(pre, post, dem, dem2, labels, labels2),
        pre.spec_label() <= post.spec_label(),
    ensures
        graph_sound(m, g, labels2, dem2, post.spec_label()),
{
    assert forall|a: int, b: TLabel| 0 <= a < g.len() && #[trigger] g[a].contains_key(b) implies {
        &&& a < b
        &&& b < post.spec_label()
        &&& exists|i: int, j: int| #[trigger] spill_witness(m, labels2, dem2, a, b as int, g[a][b], i, j)
    } by {
        assert(a < b && b < pre.spec_label());
        assert(exists|i: int, j: int| #[trigger] spill_witness(m, labels, dem, a, b as int, g[a][b], i, j));
        let (i, j) = choose|i: int, j: int| #[trigger] spill_witness(m, labels, dem, a, b as int, g[a][b], i, j);
        assert(0 <= i < labels.len() && 0 <= j < labels.len());
        assert(dem2[i] >= dem[i]);
        assert(dem2[j] >= dem[j]);
        assert(labels2[i] == labels[i] && dem2[i] == dem[i]);
        assert(labels2[j] == labels[j] && dem2[j] == dem[j]);
        assert(spill_witness(m, labels2, dem2, a, b as int, g[a][b], i, j));
    }
}

/// Noting a valid ridge point keeps the spill graph sound.
proof fn lemma_sound_note(
    m: GridMeta,
    g: Seq<Map<TLabel, u64>>,
    labels: Seq<TLabel>,
    dem: Seq<u64>,
    bound: TLabel,
    r: RidgePoint,
)
    requires
        graph_sound(m, g, labels, dem, bound),
        ridge_valid(m, labels, dem, bound, r),
        r.n_label == NOT_FILLED || r.my_label == r.n_label || (if r.my_label < r.n_label {
            r.my_label
        } else {
            r.n_label
        }) < g.len(),
    ensures
        graph_sound(
            m,
            note_ridge(g, r.my_label, r.n_label, r.my_elev, r.n_elev),
            labels,
            dem,
            bound,
        ),
{
    let g2 = note_ridge(g, r.my_label, r.n_label, r.my_elev, r.n_elev);
    if r.n_label != NOT_FILLED && r.my_label != r.n_label {
        let lo = if r.my_label < r.n_label {
            r.my_label
        } else {
            r.n_label
        };
        let hi = if r.my_label < r.n_label {
            r.n_label
        } else {
            r.my_label
        };
        assert forall|a: int, b: TLabel| 0 <= a < g2.len() && #[trigger] g2[a].contains_key(b) implies {
            &&& a < b
            &&& b < bound
            &&& exists|i: int, j: int| #[trigger] spill_witness(m, labels, dem, a, b as int, g2[a][b], i, j)
        } by {
            if a == lo && b == hi {
                if g[a].contains_key(b) && g[a][b] <= max_key(r.my_elev, r.n_elev) {
                    let (i, j) = choose|i: int, j: int| #[trigger] spill_witness(m, labels, dem, a, b as int, g[a][b], i, j);
                    assert(spill_witness(m, labels, dem, a, b as int, g2[a][b], i, j));
                } else {
                    assert(spill_witness(m, labels, dem, a, b as int, g2[a][b], r.my_cell as int, r.n_cell as int));
                }
            } else {
                assert(g2[a] == g[a] || (a == lo && g2[a] == g[a].insert(hi, g2[a][hi])));
                assert(g[a].contains_key(b));
                assert(g2[a][b] == g[a][b]);
                let (i, j) = choose|i: int, j: int| #[trigger] spill_witness(m, labels, dem, a, b as int, g[a][b], i, j);
                assert(spill_witness(m, labels, dem, a, b as int, g2[a][b], i, j));
            }
        }
    }
}

/// Fills the depressions of `dem` with the priority flood from the edges of
/// the grid while building the spill graph: for each pair of watersheds
/// that meet, the lowest elevation at which they do, noted under the
/// smaller label. The graph has one entry per watershed.
///
/// The elevations end as with `fill_zhou2016`. Every entry is met by two
/// neighbouring cells of its two watersheds at exactly its elevation, and
/// every two neighbouring cells of different watersheds have an entry no
/// higher than the higher of the two: each entry is the lowest meeting
/// level of its pair, and no meeting pair is left out. The labels in use
/// are exactly those below the graph's length, and each cell carries the
/// watershed a run of the flood gives it (`zhou_flooded`), as with
/// `fill_zhou2016`.
#[verifier::spinoff_prover]
pub fn fill_zhou_watersheds(meta: &GridMeta, dem: &mut [u64], labels: &mut [TLabel]) -> (g: SpillGraph)
    requires
        old(dem)@.len() == meta.spec_size(),
        old(labels)@.len() == meta.spec_size(),
        meta.spec_height() >= 1,
        meta.spec_width() >= 1 || meta.spec_height() <= 2,
        meta.spec_size() < NOT_FILLED,
        2 * meta.spec_width() + 2 * meta.spec_height() <= usize::MAX,
        forall|j: int| 0 <= j < old(labels)@.len() ==> #[trigger] old(labels)@[j] == NOT_FILLED,
    ensures
        final(dem)@.len() == old(dem)@.len(),
        final(labels)@.len() == old(labels)@.len(),
        forall|j: int| 0 <= j < old(dem)@.len() ==> #[trigger] final(dem)@[j] >= old(dem)@[j],
        forall|j: int|
            0 <= j < final(labels)@.len() ==> #[trigger] final(labels)@[j] != NOT_FILLED
                && final(labels)@[j] < g@.len() && drains(*meta, final(dem)@, final(labels)@, j),
        g@.len() <= 2 * meta.spec_width() + 2 * meta.spec_height(),
        graph_sound(*meta, graph_view(g@), final(labels)@, final(dem)@, g@.len() as TLabel),
        below_spill(*meta, old(dem)@, final(dem)@),
        zhou_flooded(*meta, old(dem)@, old(labels)@, final(dem)@, final(labels)@),
        labels_cover(final(labels)@, g@.len() as int),
        forall|i: int, j: int|
            0 <= i < meta.spec_size() && 0 <= j < meta.spec_size() && #[trigger] is_nbr(*meta, i, j) ==> pair_noted(
                graph_view(g@),
                final(labels)@,
                final(dem)@,
                i,
                j,
            ),
{
    proof {
        use_type_invariant(meta);
    }
    let ghost m = *meta;
    let ghost d0 = dem@;
    let ghost l0 = labels@;
    let glen = 2 * meta.width() + 2 * meta.height();
    let mut spill_graph: SpillGraph = Vec::new();
    let mut k: usize = 0;
    while k < glen
        invariant
            k <= glen,
            spill_graph@.len() == k,
            forall|a: int| 0 <= a < k ==> #[trigger] spill_graph@[a]@ == Map::<TLabel, u64>::empty(),
        decreases glen - k,
    {
        spill_graph.push(HashMap::new());
        k = k + 1;
    }
    let mut state = ZhouFillState::new(0);
    state.add_edges(meta, dem);
    proof {
        lemma_edge_set_len(m, d0);
        assert(unfilled_set(l0).intersect(edge_set(m)) =~= edge_set(m));
        assert forall|c: Cell| #[trigger] state.spec_pq().count(c) > 0 implies c.x < m.spec_width()
            && c.y < m.spec_height() && (l0[cell_index(m, c)] != NOT_FILLED || edge_set(m).contains(
            cell_index(m, c))) by {
            lemma_edge_cells_on_edge(m, d0, c);
        }
        assert(run_inv(m, state, l0));
        assert(graph_sound(m, graph_view(spill_graph@), l0, d0, 0));
        lemma_flood_start(m, state, d0, l0);
        lemma_least_start(m, state, d0, l0);
        reveal(labels_cover);
    }
    let ghost mut lv: u64 = 0;
    let mut ridges: Vec<RidgePoint> = Vec::new();
    let ghost mut sts: Seq<ZhouFillState> = seq![state];
    let ghost mut dems: Seq<Seq<u64>> = seq![dem@];
    let ghost mut labs: Seq<Seq<TLabel>> = seq![labels@];
    let ghost mut rids: Seq<Seq<RidgePoint>> = seq![Seq::empty()];
    proof {
        assert(start_state(m, d0, sts[0]));
        assert(flood_run(m, sts, dems, labs, rids));
    }
    loop
        invariant_except_break
            sts.last() == state,
        invariant
            flood_run(m, sts, dems, labs, rids),
            start_state(m, d0, sts[0]),
            dems[0] == d0,
            labs[0] == l0,
            dems.last() == dem@,
            labs.last() == labels@,
            m == *meta,
            m.wf(),
            m.spec_size() < NOT_FILLED,
            dem@.len() == m.spec_size(),
            labels@.len() == m.spec_size(),
            d0.len() == m.spec_size(),
            glen == 2 * m.spec_width() + 2 * m.spec_height(),
            edge_set(m).len() <= glen,
            edge_set(m).finite(),
            spill_graph@.len() == glen,
            run_inv(m, state, labels@),
            drain_inv(m, state, dem@, labels@),
            least_inv(m, state, d0, dem@, labels@, lv),
            graph_complete(m, graph_view(spill_graph@), state, labels@, dem@),
            labels_cover(labels@, state.spec_label() as int),
            ridges@.len() == 0,
            graph_sound(m, graph_view(spill_graph@), labels@, dem@, state.spec_label()),
            forall|j: int| 0 <= j < d0.len() ==> #[trigger] dem@[j] >= d0[j],
        ensures
            dem@.len() == m.spec_size(),
            labels@.len() == m.spec_size(),
            edge_set(m).len() <= glen,
            spill_graph@.len() == glen,
            run_inv(m, state, labels@),
            graph_sound(m, graph_view(spill_graph@), labels@, dem@, state.spec_label()),
            forall|j: int| 0 <= j < d0.len() ==> #[trigger] dem@[j] >= d0[j],
            forall|j: int|
                0 <= j < m.spec_size() ==> #[trigger] labels@[j] != NOT_FILLED && drains(
                    m,
                    dem@,
                    labels@,
                    j,
                ),
            below_spill(m, d0, dem@),
            zhou_flooded(m, d0, l0, dem@, labels@),
            graph_complete(m, graph_view(spill_graph@), state, labels@, dem@),
            labels_cover(labels@, state.spec_label() as int),
            state.spec_depression().len() == 0 && state.spec_slope().len() == 0,
        decreases unfilled_set(labels@).len(), queue_weight(state),
    {
        let ghost pre = state;
        let ghost dem1 = dem@;
        let ghost labels1 = labels@;
        proof {
            lemma_unfilled_finite(labels@);
            vstd::set_lib::lemma_len_intersect(unfilled_set(labels@), edge_set(m));
            lemma_edge_set_finite(m);
        }
        proof {
            crate::depfill::zhou::lemma_label_room(m, state, dem@, labels@);
        }
        let more = state.step(meta, dem, labels, &mut ridges);
        if !more {
            proof {
                assert(sts.last() == pre);
                assert(flood_done(pre));
                assert(flood_run(m, sts, dems, labs, rids));
                reveal(zhou_flooded);
                assert(zhou_flooded(m, d0, l0, dem@, labels@));
                lemma_flood_done(m, state, dem@, labels@);
                assert forall|p: Seq<int>| #[trigger] edge_walk(m, p) implies dem@[p.last()] <= walk_top(
                    d0,
                    p,
                ) by {
                    lemma_walk_below(m, d0, dem@, labels@, p);
                }
            }
            break;
        }
        proof {
            lemma_run_push(m, sts, dems, labs, rids, state, dem@, labels@, ridges@);
            sts = sts.push(state);
            dems = dems.push(dem@);
            labs = labs.push(labels@);
            rids = rids.push(ridges@);
            lv = lemma_least_step(m, pre, state, d0, dem1, dem@, labels1, labels@, Seq::empty(), ridges@, lv);
            lemma_run_step(m, pre, state, dem1, dem@, labels1, labels@, Seq::empty(), ridges@);
            lemma_complete_step(m, graph_view(spill_graph@), pre, state, dem1, dem@, labels1, labels@, ridges@);
            lemma_labels_used(m, pre, state, dem1, dem@, labels1, labels@, Seq::empty(), ridges@);
            lemma_drain_step(m, pre, state, dem1, dem@, labels1, labels@, Seq::empty(), ridges@);
            lemma_sound_step(m, graph_view(spill_graph@), pre, state, dem1, dem@, labels1, labels@);
            lemma_unfilled_finite(labels1);
            vstd::set_lib::lemma_len_subset(unfilled_set(labels@), unfilled_set(labels1));
            if unfilled_set(labels@) != unfilled_set(labels1) {
                lemma_unfilled_shrinks(labels1, labels@);
            }
            lemma_edge_set_finite(m);
            lemma_unfilled_finite(labels@);
            vstd::set_lib::lemma_len_intersect(unfilled_set(labels@), edge_set(m));
        }
        let ghost g0 = graph_view(spill_graph@);
        let mut r: usize = 0;
        while r < ridges.len()
            invariant
                m.spec_size() == labels@.len(),
                m.spec_size() == dem@.len(),
                forall|i: int, j: int|
                    0 <= i < m.spec_size() && 0 <= j < m.spec_size() && #[trigger] is_nbr(m, i, j)
                        && pair_noted(g0, labels@, dem@, i, j) ==> pair_noted(
                        graph_view(spill_graph@),
                        labels@,
                        dem@,
                        i,
                        j,
                    ),
                forall|q: int|
                    0 <= q < r && (#[trigger] ridges@[q]).n_label != NOT_FILLED ==> pair_noted(
                        graph_view(spill_graph@),
                        labels@,
                        dem@,
                        ridges@[q].my_cell as int,
                        ridges@[q].n_cell as int,
                    ) && pair_noted(
                        graph_view(spill_graph@),
                        labels@,
                        dem@,
                        ridges@[q].n_cell as int,
                        ridges@[q].my_cell as int,
                    ),
                m.wf(),
                r <= ridges@.len(),
                spill_graph@.len() == glen,
                state.spec_label() <= glen,
                forall|q: int|
                    0 <= q < ridges@.len() ==> ridge_valid(
                        m,
                        labels@,
                        dem@,
                        state.spec_label(),
                        #[trigger] ridges@[q],
                    ),
                graph_sound(m, graph_view(spill_graph@), labels@, dem@, state.spec_label()),
            decreases ridges@.len() - r,
        {
            let p = ridges[r];
            proof {
                assert(ridge_valid(m, labels@, dem@, state.spec_label(), ridges@[r as int]));
                lemma_sound_note(m, graph_view(spill_graph@), labels@, dem@, state.spec_label(), p);
                let gv = graph_view(spill_graph@);
                assert forall|i: int, j: int|
                    0 <= i < m.spec_size() && 0 <= j < m.spec_size() && #[trigger] is_nbr(m, i, j)
                        && pair_noted(g0, labels@, dem@, i, j) implies pair_noted(
                        note_ridge(gv, p.my_label, p.n_label, p.my_elev, p.n_elev),
                        labels@,
                        dem@,
                        i,
                        j,
                    ) by {
                    lemma_note_keeps(gv, p.my_label, p.n_label, p.my_elev, p.n_elev, labels@, dem@, i, j);
                }
                assert forall|q: int| 0 <= q < r + 1 && (#[trigger] ridges@[q]).n_label != NOT_FILLED implies pair_noted(
                    note_ridge(gv, p.my_label, p.n_label, p.my_elev, p.n_elev),
                    labels@,
                    dem@,
                    ridges@[q].my_cell as int,
                    ridges@[q].n_cell as int,
                ) && pair_noted(
                    note_ridge(gv, p.my_label, p.n_label, p.my_elev, p.n_elev),
                    labels@,
                    dem@,
                    ridges@[q].n_cell as int,
                    ridges@[q].my_cell as int,
                ) by {
                    if q < r {
                        let rq = ridges@[q];
                        lemma_note_keeps(gv, p.my_label, p.n_label, p.my_elev, p.n_elev, labels@, dem@, rq.my_cell as int, rq.n_cell as int);
                        lemma_note_keeps(gv, p.my_label, p.n_label, p.my_elev, p.n_elev, labels@, dem@, rq.n_cell as int, rq.my_cell as int);
                    } else {
                        lemma_note_ridge(m, gv, labels@, dem@, state.spec_label(), p);
                    }
                }
            }
            watersheds_meet(p.my_label, p.n_label, p.my_elev, p.n_elev, &mut spill_graph);
            r = r + 1;
        }
        proof {
            let gv = graph_view(spill_graph@);
            assert forall|i: int, j: int|
                0 <= i < m.spec_size() && 0 <= j < m.spec_size() && labels@[i] != NOT_FILLED && labels@[j]
                    != NOT_FILLED && !queued(state, i) && !queued(state, j) && #[trigger] is_nbr(m, i, j)
                    implies pair_noted(gv, labels@, dem@, i, j) by {
                if !pair_noted(g0, labels@, dem@, i, j) {
                    assert(ridge_has(ridges@, i, j));
                    let q = choose|q: int|
                        0 <= q < ridges@.len() && (#[trigger] ridges@[q]).n_label != NOT_FILLED && ((
                        ridges@[q].my_cell == i && ridges@[q].n_cell == j) || (ridges@[q].my_cell == j
                            && ridges@[q].n_cell == i));
                    assert(ridges@[q].n_label != NOT_FILLED);
                }
            }
        }
        ridges.clear();
    }
    let count = *state.current_label();
    proof {
        lemma_edge_set_finite(m);
        lemma_unfilled_finite(labels@);
        vstd::set_lib::lemma_len_intersect(unfilled_set(labels@), edge_set(m));
    }
    let ghost full = graph_view(spill_graph@);
    spill_graph.truncate(count as usize);
    proof {
        let g = graph_view(spill_graph@);
        assert(g =~= full.take(count as int));
        assert forall|i: int, j: int|
            0 <= i < m.spec_size() && 0 <= j < m.spec_size() && #[trigger] is_nbr(m, i, j) implies pair_noted(
            g,
            labels@,
            dem@,
            i,
            j,
        ) by {
            assert(!queued(state, i) && !queued(state, j));
            assert(pair_noted(full, labels@, dem@, i, j));
            assert(labels@[i] < count && labels@[j] < count);
        }
        assert forall|a: int, b: TLabel| 0 <= a < g.len() && #[trigger] g[a].contains_key(b) implies {
            &&& a < b
            &&& b < count
            &&& exists|i: int, j: int| #[trigger] spill_witness(m, labels@, dem@, a, b as int, g[a][b], i, j)
        } by {
            assert(g[a] == full[a]);
            assert(full[a].contains_key(b));
        }
    }
    spill_graph
}

/// Fills a tile on its own, labelling the watershed of every cell, and
/// gathers what the tiles around it need: the spill graph of its
/// watersheds, and the elevations and labels along its skirt. Returns the
/// fill data and the labels. The fill and the spill graph are those of
/// `fill_zhou_watersheds`.
pub fn initial_fill(info: TileInfo, dem: &mut [u64]) -> (r: (FillData, Vec<TLabel>))
    requires
        old(dem)@.len() == info.meta.spec_size(),
        info.meta.spec_width() >= 2,
        info.meta.spec_height() >= 2,
        info.meta.spec_size() < NOT_FILLED,
        2 * info.meta.spec_width() + 2 * info.meta.spec_height() + 4 <= usize::MAX,
    ensures
        final(dem)@.len() == old(dem)@.len(),
        r.1@.len() == old(dem)@.len(),
        forall|j: int| 0 <= j < old(dem)@.len() ==> #[trigger] final(dem)@[j] >= old(dem)@[j],
        forall|j: int|
            0 <= j < r.1@.len() ==> #[trigger] r.1@[j] != NOT_FILLED
                && r.1@[j] < r.0.spec_graph().len() && drains(info.meta, final(dem)@, r.1@, j),
        r.0.spec_graph().len() <= 2 * info.meta.spec_width() + 2 * info.meta.spec_height(),
        graph_sound(info.meta, r.0.spec_graph(), r.1@, final(dem)@, r.0.spec_graph().len() as TLabel),
        below_spill(info.meta, old(dem)@, final(dem)@),
        zhou_flooded(
            info.meta,
            old(dem)@,
            Seq::new(old(dem)@.len(), |i: int| NOT_FILLED),
            final(dem)@,
            r.1@,
        ),
        labels_cover(r.1@, r.0.spec_graph().len() as int),
        forall|i: int, j: int|
            0 <= i < info.meta.spec_size() && 0 <= j < info.meta.spec_size() && #[trigger] is_nbr(info.meta, i, j)
                ==> pair_noted(r.0.spec_graph(), r.1@, final(dem)@, i, j),
        r.0.spec_tile_info() == info,
        r.0.spec_dem_edges() == skirt_values(info.meta, final(dem)@),
        r.0.spec_label_edges() == skirt_values(info.meta, r.1@),
{
    let meta = info.meta;
    proof {
        use_type_invariant(meta);
    }
    let mut labels: Vec<TLabel> = vec![NOT_FILLED; meta.size()];
    proof {
        assert(labels@ =~= Seq::new(dem@.len(), |i: int| NOT_FILLED));
    }
    let graph = fill_zhou_watersheds(&meta, dem, &mut labels);
    proof {
        assert forall|d: crate::grid::Dir| edge_ok(meta, dem@.len() as int, d) by {
            assert(meta.spec_size() >= 2 * meta.spec_width()) by (nonlinear_arith)
                requires
                    meta.spec_size() == meta.spec_width() * meta.spec_height(),
                    meta.spec_height() >= 2,
            ;
        }
    }
    let dem_edges = meta.edges(dem);
    let label_edges = meta.edges(labels.as_slice());
    let data = FillData::new(info.tile_coord, meta, graph, dem_edges, label_edges);
    (data, labels)
}

/// The neighbour relation is symmetric.
pub proof fn lemma_nbr_symmetric(m: GridMeta, i: int, j: int)
    requires
        m.wf(),
        0 <= i < m.spec_size(),
        0 <= j < m.spec_size(),
        is_nbr(m, i, j),
    ensures
        is_nbr(m, j, i),
{
    let e = choose|e: int| 0 <= e < 8 && #[trigger] nbr(m, i, e) == Some(j as usize);
    lemma_nbr(m, i, e);
    lemma_index_split(m, i);
    let w = m.spec_width() as int;
    let x = i % w;
    let y = i / w;
    let nx = x + crate::grid::xshift(e);
    let ny = y + crate::grid::yshift(e);
    lemma_index_split(m, j);
    assert(0 <= nx < w && 0 <= ny < m.spec_height());
    crate::grid::lemma_cell_index_bound(w, m.spec_height() as int, nx, ny);
    assert(nx + ny * w == j);
    lemma_split(w, nx, ny, j % w, j / w);
    let r = (e + 4) % 8;
    assert(crate::grid::xshift(r) == -crate::grid::xshift(e) && crate::grid::yshift(r)
        == -crate::grid::yshift(e));
    assert(nbr(m, j, r) == Some(i as usize));
}

/// A label found by `low_nbr_label` is that of a processed neighbour not
/// above the cell.
proof fn lemma_low_nbr_witness(m: GridMeta, labels: Seq<TLabel>, dem: Seq<u64>, n: int, d: int)
    requires
        low_nbr_label(m, labels, dem, n, d) is Some,
    ensures
        exists|e: int|
            0 <= e < d && (#[trigger] nbr(m, n, e) matches Some(k) && labels[k as int] != NOT_FILLED
                && dem[k as int] <= dem[n]),
    decreases d,
{
    if d > 0 {
        match nbr(m, n, d - 1) {
            Some(k) => {
                if labels[k as int] != NOT_FILLED && dem[k as int] <= dem[n] {
                    assert(nbr(m, n, d - 1) matches Some(k) && labels[k as int] != NOT_FILLED
                        && dem[k as int] <= dem[n]);
                } else {
                    lemma_low_nbr_witness(m, labels, dem, n, d - 1);
                }
            },
            None => {
                lemma_low_nbr_witness(m, labels, dem, n, d - 1);
            },
        }
    }
}

/// `p` is a chain of neighbouring processed cells that starts on the edge of
/// the grid and along which the elevation never falls.
pub open spec fn rising_path(m: GridMeta, dem: Seq<u64>, labels: Seq<TLabel>, p: Seq<int>) -> bool {
    &&& p.len() > 0
    &&& edge_set(m).contains(p[0])
    &&& forall|k: int| 0 <= k < p.len() ==> 0 <= #[trigger] p[k] < m.spec_size() && labels[p[k]] != NOT_FILLED
    &&& forall|k: int|
        0 <= k < p.len() - 1 ==> is_nbr(m, #[trigger] p[k], p[k + 1]) && dem[p[k]] <= dem[p[k + 1]]
}

/// Water on cell `i` runs off the grid: a rising chain from the edge ends at `i`.
pub open spec fn drains(m: GridMeta, dem: Seq<u64>, labels: Seq<TLabel>, i: int) -> bool {
    exists|p: Seq<int>| #[trigger] rising_path(m, dem, labels, p) && p.last() == i
}

/// Extending a rising chain by a neighbour that is not lower.
proof fn lemma_path_push(m: GridMeta, dem: Seq<u64>, labels: Seq<TLabel>, p: Seq<int>, j: int)
    requires
        rising_path(m, dem, labels, p),
        is_nbr(m, p.last(), j),
        0 <= j < m.spec_size(),
        labels[j] != NOT_FILLED,
        dem[p.last()] <= dem[j],
    ensures
        rising_path(m, dem, labels, p.push(j)),
        p.push(j).last() == j,
{
    let q = p.push(j);
    assert forall|k: int| 0 <= k < q.len() - 1 implies is_nbr(m, #[trigger] q[k], q[k + 1]) && dem[q[k]]
        <= dem[q[k + 1]] by {
        if k < p.len() - 1 {
            assert(q[k] == p[k] && q[k + 1] == p[k + 1]);
        }
    }
}

/// A rising chain stays one when the cells on it keep label and elevation.
proof fn lemma_path_keep(
    m: GridMeta,
    dem: Seq<u64>,
    labels: Seq<TLabel>,
    dem2: Seq<u64>,
    labels2: Seq<TLabel>,
    p: Seq<int>,
)
    requires
        rising_path(m, dem, labels, p),
        forall|j: int|
            0 <= j < m.spec_size() && labels[j] != NOT_FILLED ==> #[trigger] labels2[j] == labels[j]
                && dem2[j] == dem[j],
    ensures
        rising_path(m, dem2, labels2, p),
{
    assert forall|k: int| 0 <= k < p.len() implies 0 <= #[trigger] p[k] < m.spec_size() && labels2[p[k]]
        != NOT_FILLED by {
        assert(labels2[p[k]] == labels[p[k]]);
    }
    assert forall|k: int| 0 <= k < p.len() - 1 implies is_nbr(m, #[trigger] p[k], p[k + 1])
        && dem2[p[k]] <= dem2[p[k + 1]] by {
        assert(labels2[p[k]] == labels[p[k]]);
        assert(labels2[p[k + 1]] == labels[p[k + 1]]);
    }
}

/// Cell `j` waits in one of the queues of the flood.
pub open spec fn pending(m: GridMeta, st: ZhouFillState, j: int) -> bool {
    ||| st.spec_depression().contains(j as usize)
    ||| st.spec_slope().contains(j as usize)
    ||| exists|c: Cell| #[trigger] st.spec_pq().count(c) > 0 && cell_index(m, c) == j
}

/// Unprocessed cell `u` has a lower processed neighbour that still waits
/// in a queue, and so will be reached.
pub open spec fn covered(m: GridMeta, st: ZhouFillState, dem: Seq<u64>, labels: Seq<TLabel>, u: int) -> bool {
    exists|k: int|
        0 <= k < m.spec_size() && #[trigger] pending(m, st, k) && labels[k] != NOT_FILLED && dem[k]
            < dem[u] && is_nbr(m, k, u)
}

/// What holds throughout a flood from the edges: every processed cell
/// drains off the grid, every edge cell is processed or queued, and every
/// unprocessed neighbour of a processed cell that no longer waits will be
/// reached from a lower waiting cell.
pub open spec fn drain_inv(m: GridMeta, st: ZhouFillState, dem: Seq<u64>, labels: Seq<TLabel>) -> bool {
    &&& forall|j: int|
        0 <= j < m.spec_size() && labels[j] != NOT_FILLED ==> #[trigger] drains(m, dem, labels, j)
    &&& forall|i: int| #[trigger]
        edge_set(m).contains(i) ==> labels[i] != NOT_FILLED || exists|c: Cell|
            #[trigger] st.spec_pq().count(c) > 0 && cell_index(m, c) == i
    &&& forall|j: int, u: int|
        0 <= j < m.spec_size() && 0 <= u < m.spec_size() && labels[j] != NOT_FILLED && labels[u]
            == NOT_FILLED && !pending(m, st, j) && #[trigger] is_nbr(m, j, u) ==> covered(
            m,
            st,
            dem,
            labels,
            u,
        )
}

/// Every neighbour that passes the filter is in the neighbour list.
proof fn lemma_nbrs_upto_complete(m: GridMeta, i: int, p: spec_fn(usize) -> bool, d: int, e: int, k: usize)
    requires
        0 <= e < d,
        nbr(m, i, e) == Some(k),
        p(k),
    ensures
        nbrs_upto(m, i, p, d).contains(k),
    decreases d,
{
    if e == d - 1 {
        assert(nbrs_upto(m, i, p, d) == nbrs_upto(m, i, p, d - 1).push(k));
        assert(nbrs_upto(m, i, p, d).last() == k);
    } else {
        lemma_nbrs_upto_complete(m, i, p, d - 1, e, k);
        let prev = nbrs_upto(m, i, p, d - 1);
        let idx = choose|idx: int| 0 <= idx < prev.len() && prev[idx] == k;
        assert(nbrs_upto(m, i, p, d)[idx] == k);
    }
}

/// A neighbour `u` of `i` that passes the filter is in `nbrs_where`.
proof fn lemma_nbrs_where_has(m: GridMeta, i: int, p: spec_fn(usize) -> bool, u: int)
    requires
        is_nbr(m, i, u),
        p(u as usize),
    ensures
        nbrs_where(m, i, p).contains(u as usize),
{
    let e = choose|e: int| 0 <= e < 8 && #[trigger] nbr(m, i, e) == Some(u as usize);
    lemma_nbrs_upto_complete(m, i, p, 8, e, u as usize);
}


/// Cells processed before a step keep draining after it.
proof fn lemma_drains_keep(
    m: GridMeta,
    dem: Seq<u64>,
    labels: Seq<TLabel>,
    dem2: Seq<u64>,
    labels2: Seq<TLabel>,
    j: int,
)
    requires
        drains(m, dem, labels, j),
        forall|i: int|
            0 <= i < m.spec_size() && labels[i] != NOT_FILLED ==> #[trigger] labels2[i] == labels[i]
                && dem2[i] == dem[i],
    ensures
        drains(m, dem2, labels2, j),
{
    let p = choose|p: Seq<int>| #[trigger] rising_path(m, dem, labels, p) && p.last() == j;
    lemma_path_keep(m, dem, labels, dem2, labels2, p);
}

/// A cell processed from a draining neighbour not above it drains too.
proof fn lemma_drains_push(m: GridMeta, dem: Seq<u64>, labels: Seq<TLabel>, i: int, j: int)
    requires
        drains(m, dem, labels, i),
        is_nbr(m, i, j),
        0 <= j < m.spec_size(),
        labels[j] != NOT_FILLED,
        dem[i] <= dem[j],
    ensures
        drains(m, dem, labels, j),
{
    let p = choose|p: Seq<int>| #[trigger] rising_path(m, dem, labels, p) && p.last() == i;
    lemma_path_push(m, dem, labels, p, j);
}

/// A processed edge cell drains.
proof fn lemma_drains_edge(m: GridMeta, dem: Seq<u64>, labels: Seq<TLabel>, i: int)
    requires
        edge_set(m).contains(i),
        labels[i] != NOT_FILLED,
    ensures
        drains(m, dem, labels, i),
{
    let p = seq![i];
    assert(rising_path(m, dem, labels, p));
}

/// A step from the depression queue keeps the drainage invariant.
proof fn lemma_drain_depression(
    m: GridMeta,
    pre: ZhouFillState,
    post: ZhouFillState,
    dem: Seq<u64>,
    dem2: Seq<u64>,
    labels: Seq<TLabel>,
    labels2: Seq<TLabel>,
    ridges: Seq<RidgePoint>,
    ridges2: Seq<RidgePoint>,
)
    requires
        m.wf(),
        dem.len() == m.spec_size(),
        labels.len() == m.spec_size(),
        run_inv(m, pre, labels),
        drain_inv(m, pre, dem, labels),
        pre.spec_depression().len() > 0,
        depression_step(m, pre, post, dem, dem2, labels, labels2, ridges, ridges2),
    ensures
        drain_inv(m, post, dem2, labels2),
{
    let di = pre.spec_depression()[0] as int;
    lemma_depression_keeps(m, pre, post, dem, dem2, labels, labels2, ridges, ridges2);
    assert(labels[di] != NOT_FILLED);
    assert(0 <= di < m.spec_size());
    let pa = unfilled_not_above(labels, dem, dem[di]);
    let pb = unfilled_above(labels, dem, dem[di]);
    // what waits before and is not `di` still waits
    assert forall|k: int| 0 <= k < m.spec_size() && pending(m, pre, k) && k != di implies #[trigger] pending(m, post, k) by {
        if pre.spec_depression().contains(k as usize) {
            let idx = choose|idx: int|
                0 <= idx < pre.spec_depression().len() && pre.spec_depression()[idx] == k as usize;
            assert(idx != 0);
            assert(post.spec_depression()[idx - 1] == k as usize);
        } else if pre.spec_slope().contains(k as usize) {
            let idx = choose|idx: int|
                0 <= idx < pre.spec_slope().len() && pre.spec_slope()[idx] == k as usize;
            assert(post.spec_slope()[idx] == k as usize);
        } else {
            let c = choose|c: Cell| #[trigger] pre.spec_pq().count(c) > 0 && cell_index(m, c) == k;
            assert(post.spec_pq().count(c) > 0);
        }
    }
    assert forall|j: int| 0 <= j < m.spec_size() && labels2[j] != NOT_FILLED implies #[trigger] drains(
        m,
        dem2,
        labels2,
        j,
    ) by {
        assert(drains(m, dem, labels, di));
        lemma_drains_keep(m, dem, labels, dem2, labels2, di);
        if labels[j] != NOT_FILLED {
            assert(drains(m, dem, labels, j));
            lemma_drains_keep(m, dem, labels, dem2, labels2, j);
        } else {
            assert(is_nbr(m, di, j));
            lemma_drains_push(m, dem2, labels2, di, j);
        }
    }
    assert forall|i: int| #[trigger] edge_set(m).contains(i) implies labels2[i] != NOT_FILLED || exists|
        c: Cell,
    | #[trigger] post.spec_pq().count(c) > 0 && cell_index(m, c) == i by {
        if labels[i] != NOT_FILLED {
            assert(labels2[i] == labels[i]);
        }
    }
    assert forall|j: int, u: int|
        0 <= j < m.spec_size() && 0 <= u < m.spec_size() && labels2[j] != NOT_FILLED && labels2[u]
            == NOT_FILLED && !pending(m, post, j) && #[trigger] is_nbr(m, j, u) implies covered(
        m,
        post,
        dem2,
        labels2,
        u,
    ) by {
        assert(labels[u] == NOT_FILLED && dem2[u] == dem[u]);
        if labels[j] == NOT_FILLED {
            assert(is_nbr(m, di, j));
            if dem[j] <= dem[di] {
                lemma_nbrs_where_has(m, di, pa, j);
                let idx = choose|idx: int|
                    0 <= idx < nbrs_where(m, di, pa).len() && nbrs_where(m, di, pa)[idx] == j as usize;
                assert(post.spec_depression()[pre.spec_depression().len() - 1 + idx] == j as usize);
            } else {
                lemma_nbrs_where_has(m, di, pb, j);
                let idx = choose|idx: int|
                    0 <= idx < nbrs_where(m, di, pb).len() && nbrs_where(m, di, pb)[idx] == j as usize;
                assert(post.spec_slope()[pre.spec_slope().len() + idx] == j as usize);
            }
            assert(false);
        } else if j == di {
            assert(false);
        } else {
            assert(!pending(m, pre, j));
            assert(covered(m, pre, dem, labels, u));
            let k = choose|k: int|
                0 <= k < m.spec_size() && #[trigger] pending(m, pre, k) && labels[k] != NOT_FILLED
                    && dem[k] < dem[u] && is_nbr(m, k, u);
            if k == di {
                assert(false);
            }
            assert(pending(m, post, k));
            assert(labels2[k] == labels[k] && dem2[k] == dem[k]);
        }
    }
}

/// A step from the slope queue keeps the drainage invariant.
proof fn lemma_drain_slope(
    m: GridMeta,
    pre: ZhouFillState,
    post: ZhouFillState,
    dem: Seq<u64>,
    dem2: Seq<u64>,
    labels: Seq<TLabel>,
    labels2: Seq<TLabel>,
    ridges: Seq<RidgePoint>,
    ridges2: Seq<RidgePoint>,
)
    requires
        m.wf(),
        dem.len() == m.spec_size(),
        labels.len() == m.spec_size(),
        run_inv(m, pre, labels),
        drain_inv(m, pre, dem, labels),
        pre.spec_depression().len() == 0,
        pre.spec_slope().len() > 0,
        slope_step(m, pre, post, dem, dem2, labels, labels2, ridges, ridges2),
    ensures
        drain_inv(m, post, dem2, labels2),
{
    let si = pre.spec_slope()[0] as int;
    lemma_slope_keeps(m, pre, post, dem, dem2, labels, labels2, ridges, ridges2);
    assert(labels[si] != NOT_FILLED);
    assert(0 <= si < m.spec_size());
    lemma_index_split(m, si);
    let pb = unfilled_above(labels, dem, dem[si]);
    assert forall|c: Cell| pre.spec_pq().count(c) > 0 implies #[trigger] post.spec_pq().count(c) > 0 by {
    }
    assert forall|k: int| 0 <= k < m.spec_size() && pending(m, pre, k) && k != si implies #[trigger] pending(m, post, k) by {
        if pre.spec_depression().contains(k as usize) {
        } else if pre.spec_slope().contains(k as usize) {
            let idx = choose|idx: int|
                0 <= idx < pre.spec_slope().len() && pre.spec_slope()[idx] == k as usize;
            assert(idx != 0);
            assert(post.spec_slope()[idx - 1] == k as usize);
        } else {
            let c = choose|c: Cell| #[trigger] pre.spec_pq().count(c) > 0 && cell_index(m, c) == k;
            assert(post.spec_pq().count(c) > 0);
        }
    }
    assert forall|j: int| 0 <= j < m.spec_size() && labels2[j] != NOT_FILLED implies #[trigger] drains(
        m,
        dem2,
        labels2,
        j,
    ) by {
        assert(drains(m, dem, labels, si));
        lemma_drains_keep(m, dem, labels, dem2, labels2, si);
        if labels[j] != NOT_FILLED {
            assert(drains(m, dem, labels, j));
            lemma_drains_keep(m, dem, labels, dem2, labels2, j);
        } else {
            assert(nbr_below(m, si, j, 8));
            assert(is_nbr(m, si, j));
            lemma_drains_push(m, dem2, labels2, si, j);
        }
    }
    assert forall|i: int| #[trigger] edge_set(m).contains(i) implies labels2[i] != NOT_FILLED || exists|
        c: Cell,
    | #[trigger] post.spec_pq().count(c) > 0 && cell_index(m, c) == i by {
        if labels[i] != NOT_FILLED {
            assert(labels2[i] == labels[i]);
        } else {
            let c = choose|c: Cell| #[trigger] pre.spec_pq().count(c) > 0 && cell_index(m, c) == i;
            assert(post.spec_pq().count(c) > 0);
        }
    }
    assert forall|j: int, u: int|
        0 <= j < m.spec_size() && 0 <= u < m.spec_size() && labels2[j] != NOT_FILLED && labels2[u]
            == NOT_FILLED && !pending(m, post, j) && #[trigger] is_nbr(m, j, u) implies covered(
        m,
        post,
        dem2,
        labels2,
        u,
    ) by {
        assert(labels[u] == NOT_FILLED && dem2[u] == dem[u]);
        if labels[j] == NOT_FILLED {
            assert(nbr_below(m, si, j, 8) && dem[j] > dem[si]);
            lemma_nbrs_where_has(m, si, pb, j);
            let idx = choose|idx: int|
                0 <= idx < nbrs_where(m, si, pb).len() && nbrs_where(m, si, pb)[idx] == j as usize;
            assert(post.spec_slope()[pre.spec_slope().len() - 1 + idx] == j as usize);
            assert(false);
        } else if j != si {
            assert(!pending(m, pre, j));
            assert(covered(m, pre, dem, labels, u));
            let k = choose|k: int|
                0 <= k < m.spec_size() && #[trigger] pending(m, pre, k) && labels[k] != NOT_FILLED
                    && dem[k] < dem[u] && is_nbr(m, k, u);
            if k == si {
                assert(nbr_below(m, si, u, 8));
                assert(labels2[u] == labels[si]);
                assert(false);
            }
            assert(pending(m, post, k));
            assert(labels2[k] == labels[k] && dem2[k] == dem[k]);
        } else {
            // the slope cell no longer waits, so it found no boundary
            assert(!slope_boundary_below(m, labels, dem, si, 8)) by {
                if slope_boundary_below(m, labels, dem, si, 8) {
                    let c = cell_at(m, si, dem[si]);
                    assert(post.spec_pq().count(c) > 0);
                    assert(cell_index(m, c) == si);
                }
            }
            assert(dem[u] <= dem[si]) by {
                if dem[u] > dem[si] {
                    assert(nbr_below(m, si, u, 8));
                    assert(labels2[u] == labels[si]);
                }
            }
            let d = choose|d: int| 0 <= d < 8 && #[trigger] nbr(m, si, d) == Some(u as usize);
            assert(!slope_boundary_at(m, labels, dem, si, d));
            let sl = slope_labels(m, labels, dem, si, d + 1);
            assert(has_lower_filled_nbr(m, sl, dem, u));
            let e = choose|e: int| 0 <= e < 8 && #[trigger] lower_filled_at(m, sl, dem, u, e);
            lemma_nbr(m, u, e);
            let k = nbr(m, u, e)->0 as int;
            assert(is_nbr(m, u, k));
            lemma_nbr_symmetric(m, u, k);
            if labels[k] == NOT_FILLED {
                assert(nbr_below(m, si, k, d + 1) && dem[k] > dem[si]);
                let e2 = choose|e2: int| 0 <= e2 < d + 1 && #[trigger] nbr(m, si, e2) == Some(k as usize);
                assert(nbr_below(m, si, k, 8));
                assert(labels2[k] == labels[si]);
                lemma_nbrs_where_has(m, si, pb, k);
                let idx = choose|idx: int|
                    0 <= idx < nbrs_where(m, si, pb).len() && nbrs_where(m, si, pb)[idx] == k as usize;
                assert(post.spec_slope()[pre.spec_slope().len() - 1 + idx] == k as usize);
                assert(pending(m, post, k));
            } else {
                assert(k != si);
                if pending(m, pre, k) {
                    assert(pending(m, post, k));
                    assert(labels2[k] == labels[k]);
                } else {
                    assert(covered(m, pre, dem, labels, u));
                    let k2 = choose|k2: int|
                        0 <= k2 < m.spec_size() && #[trigger] pending(m, pre, k2) && labels[k2]
                            != NOT_FILLED && dem[k2] < dem[u] && is_nbr(m, k2, u);
                    assert(k2 != si);
                    assert(pending(m, post, k2));
                    assert(labels2[k2] == labels[k2]);
                }
            }
        }
    }
}

/// A step from the priority queue keeps the drainage invariant.
proof fn lemma_drain_boundary(
    m: GridMeta,
    pre: ZhouFillState,
    post: ZhouFillState,
    dem: Seq<u64>,
    dem2: Seq<u64>,
    labels: Seq<TLabel>,
    labels2: Seq<TLabel>,
    ridges: Seq<RidgePoint>,
    ridges2: Seq<RidgePoint>,
    c: Cell,
)
    requires
        m.wf(),
        dem.len() == m.spec_size(),
        labels.len() == m.spec_size(),
        m.spec_size() < NOT_FILLED,
        run_inv(m, pre, labels),
        drain_inv(m, pre, dem, labels),
        pre.spec_pq().count(c) > 0,
        boundary_step(m, pre, post, dem, dem2, labels, labels2, ridges, ridges2, c),
    ensures
        drain_inv(m, post, dem2, labels2),
{
    lemma_edge_set_finite(m);
    lemma_unfilled_finite(labels);
    vstd::set_lib::lemma_len_intersect(unfilled_set(labels), edge_set(m));
    lemma_boundary_keeps(m, pre, post, dem, dem2, labels, labels2, ridges, ridges2, c);
    let n = cell_index(m, c);
    crate::grid::lemma_cell_index_bound(
        m.spec_width() as int,
        m.spec_height() as int,
        c.x as int,
        c.y as int,
    );
    lemma_low_nbr_label(m, labels, dem, n, 8);
    let labels1 = labels.update(n, boundary_label(m, labels, dem, n, pre.spec_label()));
    assert(labels1[n] != NOT_FILLED);
    crate::depfill::zhou::lemma_not_own_nbr(m, n, 8);
    assert(labels2[n] == labels1[n]);
    assert(dem2[n] == dem[n]);
    let pa = unfilled_below(labels1, dem, dem[n]);
    let pb = unfilled_not_below(labels1, dem, dem[n]);
    assert forall|k: int| 0 <= k < m.spec_size() && pending(m, pre, k) && k != n implies #[trigger] pending(m, post, k) by {
        if pre.spec_depression().contains(k as usize) {
            let idx = choose|idx: int|
                0 <= idx < pre.spec_depression().len() && pre.spec_depression()[idx] == k as usize;
            assert(post.spec_depression()[idx] == k as usize);
        } else if pre.spec_slope().contains(k as usize) {
            let idx = choose|idx: int|
                0 <= idx < pre.spec_slope().len() && pre.spec_slope()[idx] == k as usize;
            assert(post.spec_slope()[idx] == k as usize);
        } else {
            let c2 = choose|c2: Cell| #[trigger] pre.spec_pq().count(c2) > 0 && cell_index(m, c2) == k;
            assert(c2 != c);
            assert(post.spec_pq().count(c2) > 0);
        }
    }
    // the popped cell drains
    assert(drains(m, dem2, labels2, n)) by {
        if labels[n] != NOT_FILLED {
            assert(drains(m, dem, labels, n));
            lemma_drains_keep(m, dem, labels, dem2, labels2, n);
        } else if low_nbr_label(m, labels, dem, n, 8) is Some {
            lemma_low_nbr_witness(m, labels, dem, n, 8);
            let e = choose|e: int|
                0 <= e < 8 && (#[trigger] nbr(m, n, e) matches Some(k) && labels[k as int]
                    != NOT_FILLED && dem[k as int] <= dem[n]);
            lemma_nbr(m, n, e);
            let k = nbr(m, n, e)->0 as int;
            assert(is_nbr(m, n, k));
            lemma_nbr_symmetric(m, n, k);
            assert(drains(m, dem, labels, k));
            lemma_drains_keep(m, dem, labels, dem2, labels2, k);
            assert(labels2[k] == labels[k] && dem2[k] == dem[k]);
            lemma_drains_push(m, dem2, labels2, k, n);
        } else {
            assert(edge_set(m).contains(n));
            lemma_drains_edge(m, dem2, labels2, n);
        }
    }
    assert forall|j: int| 0 <= j < m.spec_size() && labels2[j] != NOT_FILLED implies #[trigger] drains(
        m,
        dem2,
        labels2,
        j,
    ) by {
        if j == n {
        } else if labels[j] != NOT_FILLED {
            assert(drains(m, dem, labels, j));
            lemma_drains_keep(m, dem, labels, dem2, labels2, j);
        } else {
            assert(labels1[j] == labels[j]);
            assert(is_nbr(m, n, j));
            lemma_drains_push(m, dem2, labels2, n, j);
        }
    }
    assert forall|i: int| #[trigger] edge_set(m).contains(i) implies labels2[i] != NOT_FILLED || exists|
        c2: Cell,
    | #[trigger] post.spec_pq().count(c2) > 0 && cell_index(m, c2) == i by {
        if labels[i] != NOT_FILLED {
            assert(labels2[i] == labels[i]);
        } else if i != n {
            let c2 = choose|c2: Cell| #[trigger] pre.spec_pq().count(c2) > 0 && cell_index(m, c2) == i;
            assert(c2 != c);
            assert(post.spec_pq().count(c2) > 0);
        }
    }
    assert forall|j: int, u: int|
        0 <= j < m.spec_size() && 0 <= u < m.spec_size() && labels2[j] != NOT_FILLED && labels2[u]
            == NOT_FILLED && !pending(m, post, j) && #[trigger] is_nbr(m, j, u) implies covered(
        m,
        post,
        dem2,
        labels2,
        u,
    ) by {
        assert(labels[u] == NOT_FILLED && dem2[u] == dem[u]);
        assert(u != n);
        assert(labels1[u] == NOT_FILLED);
        if j == n {
            assert(labels2[u] == labels1[n]);
            assert(false);
        } else if labels[j] == NOT_FILLED {
            assert(labels1[j] == NOT_FILLED);
            assert(is_nbr(m, n, j));
            if dem[j] < dem[n] {
                lemma_nbrs_where_has(m, n, pa, j);
                let idx = choose|idx: int|
                    0 <= idx < nbrs_where(m, n, pa).len() && nbrs_where(m, n, pa)[idx] == j as usize;
                assert(post.spec_depression()[pre.spec_depression().len() + idx] == j as usize);
            } else {
                lemma_nbrs_where_has(m, n, pb, j);
                let idx = choose|idx: int|
                    0 <= idx < nbrs_where(m, n, pb).len() && nbrs_where(m, n, pb)[idx] == j as usize;
                assert(post.spec_slope()[pre.spec_slope().len() + idx] == j as usize);
            }
            assert(false);
        } else {
            assert(!pending(m, pre, j));
            assert(covered(m, pre, dem, labels, u));
            let k = choose|k: int|
                0 <= k < m.spec_size() && #[trigger] pending(m, pre, k) && labels[k] != NOT_FILLED
                    && dem[k] < dem[u] && is_nbr(m, k, u);
            if k == n {
                assert(labels2[u] == labels1[n]);
                assert(false);
            }
            assert(pending(m, post, k));
            assert(labels2[k] == labels[k] && dem2[k] == dem[k]);
        }
    }
}

/// One step of a flood from the edges keeps the drainage invariant.
proof fn lemma_drain_step(
    m: GridMeta,
    pre: ZhouFillState,
    post: ZhouFillState,
    dem: Seq<u64>,
    dem2: Seq<u64>,
    labels: Seq<TLabel>,
    labels2: Seq<TLabel>,
    ridges: Seq<RidgePoint>,
    ridges2: Seq<RidgePoint>,
)
    requires
        m.wf(),
        dem.len() == m.spec_size(),
        labels.len() == m.spec_size(),
        m.spec_size() < NOT_FILLED,
        run_inv(m, pre, labels),
        drain_inv(m, pre, dem, labels),
        pre.spec_depression().len() > 0 || pre.spec_slope().len() > 0 || pre.spec_pq().len() > 0,
        zhou_step(m, pre, post, dem, dem2, labels, labels2, ridges, ridges2),
    ensures
        drain_inv(m, post, dem2, labels2),
{
    if pre.spec_depression().len() > 0 {
        lemma_drain_depression(m, pre, post, dem, dem2, labels, labels2, ridges, ridges2);
    } else if pre.spec_slope().len() > 0 {
        lemma_drain_slope(m, pre, post, dem, dem2, labels, labels2, ridges, ridges2);
    } else {
        let c = choose|c: Cell|
            {
                &&& #[trigger] pre.spec_pq().count(c) > 0
                &&& forall|y: Cell| #[trigger]
                    pre.spec_pq().count(y) > 0 ==> !crate::queue::rank_gt(
                        crate::queue::Ranked::rank(&y),
                        crate::queue::Ranked::rank(&c),
                    )
                &&& boundary_step(m, pre, post, dem, dem2, labels, labels2, ridges, ridges2, c)
            };
        lemma_drain_boundary(m, pre, post, dem, dem2, labels, labels2, ridges, ridges2, c);
    }
}

/// Every edge cell has an entry among those `add_edges` queues.
proof fn lemma_edge_cells_cover(m: GridMeta, dem: Seq<u64>, i: int)
    requires
        m.wf(),
        m.spec_height() >= 1,
        m.spec_width() >= 1 || m.spec_height() <= 2,
        dem.len() == m.spec_size(),
        edge_set(m).contains(i),
    ensures
        exists|c: Cell| #[trigger] edge_cells(m, dem).to_multiset().count(c) > 0 && cell_index(m, c) == i,
{
    broadcast use vstd::seq_lib::group_to_multiset_ensures;

    let s = edge_cells(m, dem);
    let w = m.spec_width() as int;
    let h = m.spec_height() as int;
    lemma_index_split(m, i);
    let x = i % w;
    let y = i / w;
    let k = if y == 0 {
        2 * x
    } else if y == h - 1 {
        2 * x + 1
    } else if x == 0 {
        2 * w + 2 * (y - 1)
    } else {
        2 * w + 2 * (y - 1) + 1
    };
    assert(0 <= k < s.len());
    assert(cell_index(m, s[k]) == i);
    assert(s.contains(s[k]));
    assert(s.to_multiset().count(s[k]) > 0);
}

/// After `add_edges` on a grid of unlabelled cells, the flood starts in its
/// invariants.
proof fn lemma_flood_start(m: GridMeta, st: ZhouFillState, dem: Seq<u64>, labels: Seq<TLabel>)
    requires
        m.wf(),
        m.spec_height() >= 1,
        m.spec_width() >= 1 || m.spec_height() <= 2,
        dem.len() == m.spec_size(),
        labels.len() == m.spec_size(),
        forall|j: int| 0 <= j < labels.len() ==> #[trigger] labels[j] == NOT_FILLED,
        st.spec_pq() =~= Multiset::<Cell>::empty().add(edge_cells(m, dem).to_multiset()),
        st.spec_slope().len() == 0,
        st.spec_depression().len() == 0,
        st.spec_label() == 0,
    ensures
        run_inv(m, st, labels),
        drain_inv(m, st, dem, labels),
{
    lemma_edge_set_len(m, dem);
    assert(unfilled_set(labels).intersect(edge_set(m)) =~= edge_set(m));
    assert forall|c: Cell| #[trigger] st.spec_pq().count(c) > 0 implies c.x < m.spec_width() && c.y
        < m.spec_height() && (labels[cell_index(m, c)] != NOT_FILLED || edge_set(m).contains(
        cell_index(m, c),
    )) by {
        lemma_edge_cells_on_edge(m, dem, c);
    }
    assert forall|i: int| #[trigger] edge_set(m).contains(i) implies labels[i] != NOT_FILLED || exists|
        c: Cell,
    | #[trigger] st.spec_pq().count(c) > 0 && cell_index(m, c) == i by {
        lemma_edge_cells_cover(m, dem, i);
        let c = choose|c: Cell|
            #[trigger] edge_cells(m, dem).to_multiset().count(c) > 0 && cell_index(m, c) == i;
        assert(st.spec_pq().count(c) > 0);
    }
}

/// When the flood from the edges has run out of work, every cell is
/// processed.
proof fn lemma_flood_done(m: GridMeta, st: ZhouFillState, dem: Seq<u64>, labels: Seq<TLabel>)
    requires
        m.wf(),
        labels.len() == m.spec_size(),
        drain_inv(m, st, dem, labels),
        st.spec_depression().len() == 0,
        st.spec_slope().len() == 0,
        st.spec_pq().len() == 0,
    ensures
        forall|j: int| 0 <= j < m.spec_size() ==> #[trigger] labels[j] != NOT_FILLED,
{
    assert forall|j: int| 0 <= j < m.spec_size() implies #[trigger] labels[j] != NOT_FILLED by {
        lemma_index_split(m, j);
        let w = m.spec_width() as int;
        lemma_row_filled(m, st, dem, labels, j / w, j % w);
    }
}

/// Row `y` of a finished flood is processed up to column `x`.
proof fn lemma_row_filled(
    m: GridMeta,
    st: ZhouFillState,
    dem: Seq<u64>,
    labels: Seq<TLabel>,
    y: int,
    x: int,
)
    requires
        m.wf(),
        labels.len() == m.spec_size(),
        drain_inv(m, st, dem, labels),
        st.spec_depression().len() == 0,
        st.spec_slope().len() == 0,
        st.spec_pq().len() == 0,
        0 <= y < m.spec_height(),
        0 <= x < m.spec_width(),
    ensures
        labels[x + y * m.spec_width()] != NOT_FILLED,
    decreases x,
{
    let w = m.spec_width() as int;
    let i = x + y * w;
    crate::grid::lemma_cell_index_bound(w, m.spec_height() as int, x, y);
    lemma_index_split(m, i);
    lemma_split(w, x, y, i % w, i / w);
    if x == 0 {
        assert(edge_set(m).contains(i));
        if labels[i] == NOT_FILLED {
            let c = choose|c: Cell| #[trigger] st.spec_pq().count(c) > 0 && cell_index(m, c) == i;
            assert(false);
        }
    } else {
        lemma_row_filled(m, st, dem, labels, y, x - 1);
        let j = (x - 1) + y * w;
        crate::grid::lemma_cell_index_bound(w, m.spec_height() as int, x - 1, y);
        lemma_index_split(m, j);
        lemma_split(w, x - 1, y, j % w, j / w);
        assert(nbr(m, j, 4) == Some(i as usize));
        assert(is_nbr(m, j, i));
        if labels[i] == NOT_FILLED {
            assert(!pending(m, st, j));
            assert(covered(m, st, dem, labels, i));
            let k = choose|k: int|
                0 <= k < m.spec_size() && #[trigger] pending(m, st, k) && labels[k] != NOT_FILLED
                    && dem[k] < dem[i] && is_nbr(m, k, i);
            if st.spec_pq().len() == 0 {
                assert forall|c2: Cell| #[trigger] st.spec_pq().count(c2) == 0 by {}
            }
            assert(false);
        }
    }
}

/// No processed cell stands above both its original elevation in `d0` and a
/// processed neighbour.
pub open spec fn not_above_nbrs(m: GridMeta, d0: Seq<u64>, dem: Seq<u64>, labels: Seq<TLabel>) -> bool {
    forall|a: int, b: int|
        0 <= a < m.spec_size() && 0 <= b < m.spec_size() && labels[a] != NOT_FILLED && labels[b]
            != NOT_FILLED && #[trigger] is_nbr(m, a, b) ==> dem[b] <= d0[b] || dem[b] <= dem[a]
}

/// What a flood from the edges keeps on its way to the least fill of the
/// original elevations `d0`, where `lv` is the level of the flood, the
/// elevation of the last cell taken from the priority queue: queued
/// boundary cells lie at their queued elevation, not below the level;
/// depression cells lie at the level and slope cells not below it;
/// unprocessed cells keep their original elevation; a processed cell was
/// raised to no more than the level, and to no more than a processed
/// neighbour; processed edge cells were not raised.
pub open spec fn least_inv(
    m: GridMeta,
    st: ZhouFillState,
    d0: Seq<u64>,
    dem: Seq<u64>,
    labels: Seq<TLabel>,
    lv: u64,
) -> bool {
    &&& forall|c: Cell| #[trigger] st.spec_pq().count(c) > 0 ==> lv <= c.z && dem[cell_index(m, c)] == c.z
    &&& forall|k: int|
        0 <= k < st.spec_depression().len() ==> dem[#[trigger] st.spec_depression()[k] as int] == lv
    &&& forall|k: int| 0 <= k < st.spec_slope().len() ==> lv <= dem[#[trigger] st.spec_slope()[k] as int]
    &&& forall|j: int| 0 <= j < labels.len() && labels[j] == NOT_FILLED ==> #[trigger] dem[j] == d0[j]
    &&& forall|j: int|
        0 <= j < labels.len() && labels[j] != NOT_FILLED ==> #[trigger] dem[j] == d0[j] || dem[j] <= lv
    &&& not_above_nbrs(m, d0, dem, labels)
    &&& forall|e: int| #[trigger] edge_set(m).contains(e) && labels[e] != NOT_FILLED ==> dem[e] == d0[e]
}

/// Every processed cell that waits in a queue lies at level `lv` or above.
pub open spec fn pending_at_least(m: GridMeta, st: ZhouFillState, dem: Seq<u64>, labels: Seq<TLabel>, lv: u64) -> bool {
    forall|k: int|
        0 <= k < m.spec_size() && #[trigger] pending(m, st, k) && labels[k] != NOT_FILLED ==> lv <= dem[k]
}

/// Waiting cells lie at the level of the flood or above.
proof fn lemma_pending_level(
    m: GridMeta,
    st: ZhouFillState,
    d0: Seq<u64>,
    dem: Seq<u64>,
    labels: Seq<TLabel>,
    lv: u64,
)
    requires
        least_inv(m, st, d0, dem, labels, lv),
    ensures
        pending_at_least(m, st, dem, labels, lv),
{
    assert forall|k: int|
        0 <= k < m.spec_size() && #[trigger] pending(m, st, k) && labels[k] != NOT_FILLED implies lv
        <= dem[k] by {
        if st.spec_depression().contains(k as usize) {
            let idx = choose|idx: int|
                0 <= idx < st.spec_depression().len() && st.spec_depression()[idx] == k as usize;
            assert(dem[st.spec_depression()[idx] as int] == lv);
        } else if st.spec_slope().contains(k as usize) {
            let idx = choose|idx: int| 0 <= idx < st.spec_slope().len() && st.spec_slope()[idx] == k as usize;
            assert(lv <= dem[st.spec_slope()[idx] as int]);
        } else {
            let c = choose|c: Cell| #[trigger] st.spec_pq().count(c) > 0 && cell_index(m, c) == k;
        }
    }
}

/// A processed cell next to an unprocessed one at or below a level that
/// every waiting cell reaches lies at that level or above: if it no longer
/// waits, a lower waiting cell next to the unprocessed one would lie below
/// the level.
proof fn lemma_pending_high(
    m: GridMeta,
    st: ZhouFillState,
    dem: Seq<u64>,
    labels: Seq<TLabel>,
    lv: u64,
    a: int,
    b: int,
)
    requires
        drain_inv(m, st, dem, labels),
        pending_at_least(m, st, dem, labels, lv),
        0 <= a < m.spec_size(),
        0 <= b < m.spec_size(),
        labels[a] != NOT_FILLED,
        labels[b] == NOT_FILLED,
        is_nbr(m, a, b),
        dem[b] <= lv,
    ensures
        lv <= dem[a],
{
    if !pending(m, st, a) {
        assert(covered(m, st, dem, labels, b));
        let k = choose|k: int|
            0 <= k < m.spec_size() && #[trigger] pending(m, st, k) && labels[k] != NOT_FILLED && dem[k]
                < dem[b] && is_nbr(m, k, b);
        assert(lv <= dem[k]);
    }
}

/// Newly processed cells that lie at level `lv2` or above, each at its
/// original elevation or raised to `lv2` and then next to no lower cell
/// processed before, keep processed cells from standing above their
/// neighbours, and keep raised cells at or below the level.
proof fn lemma_least_pairs(
    m: GridMeta,
    d0: Seq<u64>,
    dem: Seq<u64>,
    dem2: Seq<u64>,
    labels: Seq<TLabel>,
    labels2: Seq<TLabel>,
    lv: u64,
    lv2: u64,
)
    requires
        dem.len() == m.spec_size(),
        labels.len() == m.spec_size(),
        dem2.len() == m.spec_size(),
        labels2.len() == m.spec_size(),
        not_above_nbrs(m, d0, dem, labels),
        forall|j: int|
            0 <= j < labels.len() && labels[j] != NOT_FILLED ==> #[trigger] dem[j] == d0[j] || dem[j] <= lv,
        lv <= lv2,
        forall|j: int|
            0 <= j < labels.len() && labels[j] != NOT_FILLED ==> #[trigger] labels2[j] != NOT_FILLED
                && dem2[j] == dem[j],
        forall|j: int|
            0 <= j < labels.len() && labels[j] == NOT_FILLED && #[trigger] labels2[j] != NOT_FILLED ==> lv2
                <= dem2[j] && (dem2[j] == d0[j] || dem2[j] == lv2),
        forall|a: int, j: int|
            0 <= a < m.spec_size() && 0 <= j < m.spec_size() && labels[a] != NOT_FILLED && labels[j]
                == NOT_FILLED && labels2[j] != NOT_FILLED && dem2[j] != d0[j] && #[trigger] is_nbr(m, a, j)
                ==> lv2 <= dem[a],
    ensures
        not_above_nbrs(m, d0, dem2, labels2),
        forall|j: int|
            0 <= j < labels2.len() && labels2[j] != NOT_FILLED ==> #[trigger] dem2[j] == d0[j] || dem2[j]
                <= lv2,
{
    assert forall|a: int, b: int|
        0 <= a < m.spec_size() && 0 <= b < m.spec_size() && labels2[a] != NOT_FILLED && labels2[b]
            != NOT_FILLED && #[trigger] is_nbr(m, a, b) implies dem2[b] <= d0[b] || dem2[b] <= dem2[a] by {
        if labels[b] != NOT_FILLED {
            assert(dem2[b] == dem[b]);
            if labels[a] != NOT_FILLED {
                assert(dem2[a] == dem[a]);
                assert(dem[b] <= d0[b] || dem[b] <= dem[a]);
            } else {
                assert(lv2 <= dem2[a]);
                assert(dem[b] == d0[b] || dem[b] <= lv);
            }
        } else if dem2[b] != d0[b] {
            assert(dem2[b] == lv2);
            if labels[a] != NOT_FILLED {
                assert(lv2 <= dem[a]);
                assert(dem2[a] == dem[a]);
            } else {
                assert(lv2 <= dem2[a]);
            }
        }
    }
    assert forall|j: int| 0 <= j < labels2.len() && labels2[j] != NOT_FILLED implies #[trigger] dem2[j]
        == d0[j] || dem2[j] <= lv2 by {
        if labels[j] != NOT_FILLED {
            assert(dem2[j] == dem[j]);
            assert(dem[j] == d0[j] || dem[j] <= lv);
        }
    }
}

/// A step from the depression queue keeps the least-fill invariant.
proof fn lemma_least_depression(
    m: GridMeta,
    pre: ZhouFillState,
    post: ZhouFillState,
    d0: Seq<u64>,
    dem: Seq<u64>,
    dem2: Seq<u64>,
    labels: Seq<TLabel>,
    labels2: Seq<TLabel>,
    ridges: Seq<RidgePoint>,
    ridges2: Seq<RidgePoint>,
    lv: u64,
)
    requires
        m.wf(),
        dem.len() == m.spec_size(),
        labels.len() == m.spec_size(),
        run_inv(m, pre, labels),
        drain_inv(m, pre, dem, labels),
        least_inv(m, pre, d0, dem, labels, lv),
        pre.spec_depression().len() > 0,
        depression_step(m, pre, post, dem, dem2, labels, labels2, ridges, ridges2),
    ensures
        least_inv(m, post, d0, dem2, labels2, lv),
{
    let di = pre.spec_depression()[0] as int;
    lemma_depression_keeps(m, pre, post, dem, dem2, labels, labels2, ridges, ridges2);
    assert(labels[di] != NOT_FILLED);
    assert(0 <= di < m.spec_size());
    assert(dem[di] == lv);
    lemma_pending_level(m, pre, d0, dem, labels, lv);
    let pa = unfilled_not_above(labels, dem, dem[di]);
    let pb = unfilled_above(labels, dem, dem[di]);
    lemma_nbrs_upto(m, di, pa, 8);
    lemma_nbrs_upto(m, di, pb, 8);
    assert forall|c: Cell| #[trigger] post.spec_pq().count(c) > 0 implies lv <= c.z && dem2[cell_index(
        m,
        c,
    )] == c.z by {
        assert(pre.spec_pq().count(c) > 0);
        let i = cell_index(m, c);
        crate::grid::lemma_cell_index_bound(
            m.spec_width() as int,
            m.spec_height() as int,
            c.x as int,
            c.y as int,
        );
        assert(dem[i] == c.z);
    }
    assert forall|k: int| 0 <= k < post.spec_depression().len() implies dem2[#[trigger] post.spec_depression()[k] as int]
        == lv by {
        let n1 = pre.spec_depression().len() - 1;
        if k < n1 {
            assert(post.spec_depression()[k] == pre.spec_depression()[k + 1]);
            assert(labels[pre.spec_depression()[k + 1] as int] != NOT_FILLED);
        } else {
            let j = nbrs_where(m, di, pa)[k - n1];
            assert(post.spec_depression()[k] == j);
            assert(pa(j) && nbr_below(m, di, j as int, 8));
        }
    }
    assert forall|k: int| 0 <= k < post.spec_slope().len() implies lv <= dem2[#[trigger] post.spec_slope()[k] as int] by {
        let n1 = pre.spec_slope().len();
        if k < n1 {
            assert(post.spec_slope()[k] == pre.spec_slope()[k]);
            assert(labels[pre.spec_slope()[k] as int] != NOT_FILLED);
        } else {
            let j = nbrs_where(m, di, pb)[k - n1];
            assert(post.spec_slope()[k] == j);
            assert(pb(j) && nbr_below(m, di, j as int, 8));
        }
    }
    assert forall|j: int| 0 <= j < labels2.len() && labels2[j] == NOT_FILLED implies #[trigger] dem2[j]
        == d0[j] by {
        assert(labels[j] == NOT_FILLED && dem2[j] == dem[j]);
    }
    assert forall|j: int|
        0 <= j < labels.len() && labels[j] == NOT_FILLED && #[trigger] labels2[j] != NOT_FILLED implies lv
        <= dem2[j] && (dem2[j] == d0[j] || dem2[j] == lv) by {
        assert(is_nbr(m, di, j));
        assert(dem[j] == d0[j]);
    }
    assert forall|a: int, j: int|
        0 <= a < m.spec_size() && 0 <= j < m.spec_size() && labels[a] != NOT_FILLED && labels[j]
            == NOT_FILLED && labels2[j] != NOT_FILLED && dem2[j] != d0[j] && #[trigger] is_nbr(m, a, j)
            implies lv <= dem[a] by {
        assert(is_nbr(m, di, j));
        assert(dem[j] == d0[j]);
        assert(dem[j] <= lv);
        lemma_pending_high(m, pre, dem, labels, lv, a, j);
    }
    lemma_least_pairs(m, d0, dem, dem2, labels, labels2, lv, lv);
    assert forall|e: int| #[trigger] edge_set(m).contains(e) && labels2[e] != NOT_FILLED implies dem2[e]
        == d0[e] by {
        if labels[e] != NOT_FILLED {
            assert(dem2[e] == dem[e]);
        } else {
            assert(0 <= e < m.spec_size());
            let ce = choose|ce: Cell| #[trigger] pre.spec_pq().count(ce) > 0 && cell_index(m, ce) == e;
            assert(dem[e] == ce.z);
            assert(dem[e] == d0[e]);
        }
    }
}

/// A step from the slope queue keeps the least-fill invariant.
proof fn lemma_least_slope(
    m: GridMeta,
    pre: ZhouFillState,
    post: ZhouFillState,
    d0: Seq<u64>,
    dem: Seq<u64>,
    dem2: Seq<u64>,
    labels: Seq<TLabel>,
    labels2: Seq<TLabel>,
    ridges: Seq<RidgePoint>,
    ridges2: Seq<RidgePoint>,
    lv: u64,
)
    requires
        m.wf(),
        dem.len() == m.spec_size(),
        labels.len() == m.spec_size(),
        run_inv(m, pre, labels),
        least_inv(m, pre, d0, dem, labels, lv),
        pre.spec_depression().len() == 0,
        pre.spec_slope().len() > 0,
        slope_step(m, pre, post, dem, dem2, labels, labels2, ridges, ridges2),
    ensures
        least_inv(m, post, d0, dem2, labels2, lv),
{
    let si = pre.spec_slope()[0] as int;
    lemma_slope_keeps(m, pre, post, dem, dem2, labels, labels2, ridges, ridges2);
    assert(labels[si] != NOT_FILLED);
    assert(0 <= si < m.spec_size());
    assert(lv <= dem[si]);
    lemma_index_split(m, si);
    let pb = unfilled_above(labels, dem, dem[si]);
    lemma_nbrs_upto(m, si, pb, 8);
    assert forall|c: Cell| #[trigger] post.spec_pq().count(c) > 0 implies lv <= c.z && dem2[cell_index(
        m,
        c,
    )] == c.z by {
        if pre.spec_pq().count(c) == 0 {
            assert(c == cell_at(m, si, dem[si]));
            assert(cell_index(m, c) == si);
        }
    }
    assert forall|k: int| 0 <= k < post.spec_slope().len() implies lv <= dem2[#[trigger] post.spec_slope()[k] as int] by {
        let n1 = pre.spec_slope().len() - 1;
        if k < n1 {
            assert(post.spec_slope()[k] == pre.spec_slope()[k + 1]);
        } else {
            let j = nbrs_where(m, si, pb)[k - n1];
            assert(post.spec_slope()[k] == j);
            assert(pb(j));
        }
    }
    assert forall|j: int|
        0 <= j < labels.len() && labels[j] == NOT_FILLED && #[trigger] labels2[j] != NOT_FILLED implies lv
        <= dem2[j] && (dem2[j] == d0[j] || dem2[j] == lv) by {
        assert(dem[j] > dem[si]);
    }
    lemma_least_pairs(m, d0, dem, dem2, labels, labels2, lv, lv);
    assert forall|e: int| #[trigger] edge_set(m).contains(e) && labels2[e] != NOT_FILLED implies dem2[e]
        == d0[e] by {
        if labels[e] != NOT_FILLED {
        } else {
            assert(0 <= e < m.spec_size());
        }
    }
}

/// A step from the priority queue, which takes its lowest cell `c`, keeps
/// the least-fill invariant at the level of `c`.
proof fn lemma_least_boundary(
    m: GridMeta,
    pre: ZhouFillState,
    post: ZhouFillState,
    d0: Seq<u64>,
    dem: Seq<u64>,
    dem2: Seq<u64>,
    labels: Seq<TLabel>,
    labels2: Seq<TLabel>,
    ridges: Seq<RidgePoint>,
    ridges2: Seq<RidgePoint>,
    lv: u64,
    c: Cell,
)
    requires
        m.wf(),
        dem.len() == m.spec_size(),
        labels.len() == m.spec_size(),
        run_inv(m, pre, labels),
        drain_inv(m, pre, dem, labels),
        least_inv(m, pre, d0, dem, labels, lv),
        pre.spec_label() != NOT_FILLED,
        pre.spec_depression().len() == 0,
        pre.spec_slope().len() == 0,
        pre.spec_pq().count(c) > 0,
        forall|y: Cell| #[trigger]
            pre.spec_pq().count(y) > 0 ==> !crate::queue::rank_gt(
                crate::queue::Ranked::rank(&y),
                crate::queue::Ranked::rank(&c),
            ),
        boundary_step(m, pre, post, dem, dem2, labels, labels2, ridges, ridges2, c),
    ensures
        lv <= c.z,
        least_inv(m, post, d0, dem2, labels2, c.z),
{
    lemma_boundary_keeps(m, pre, post, dem, dem2, labels, labels2, ridges, ridges2, c);
    let n = cell_index(m, c);
    crate::grid::lemma_cell_index_bound(
        m.spec_width() as int,
        m.spec_height() as int,
        c.x as int,
        c.y as int,
    );
    let lv2 = c.z;
    assert(dem[n] == lv2);
    assert forall|y: Cell| #[trigger] pre.spec_pq().count(y) > 0 implies lv2 <= y.z by {
        assert(!crate::queue::rank_gt(crate::queue::Ranked::rank(&y), crate::queue::Ranked::rank(&c)));
    }
    lemma_low_nbr_label(m, labels, dem, n, 8);
    let labels1 = labels.update(n, boundary_label(m, labels, dem, n, pre.spec_label()));
    assert(labels1[n] != NOT_FILLED);
    crate::depfill::zhou::lemma_not_own_nbr(m, n, 8);
    assert(labels2[n] == labels1[n]);
    assert(dem2[n] == dem[n]);
    assert(pending_at_least(m, pre, dem, labels, lv2)) by {
        assert forall|k: int|
            0 <= k < m.spec_size() && #[trigger] pending(m, pre, k) && labels[k] != NOT_FILLED implies lv2
            <= dem[k] by {
            if pre.spec_depression().contains(k as usize) {
            } else if pre.spec_slope().contains(k as usize) {
            } else {
                let c2 = choose|c2: Cell| #[trigger] pre.spec_pq().count(c2) > 0 && cell_index(m, c2) == k;
                assert(dem[k] == c2.z);
            }
        }
    }
    let pa = unfilled_below(labels1, dem, dem[n]);
    let pb = unfilled_not_below(labels1, dem, dem[n]);
    lemma_nbrs_upto(m, n, pa, 8);
    lemma_nbrs_upto(m, n, pb, 8);
    assert forall|c2: Cell| #[trigger] post.spec_pq().count(c2) > 0 implies lv2 <= c2.z && dem2[cell_index(
        m,
        c2,
    )] == c2.z by {
        assert(pre.spec_pq().count(c2) > 0);
        let i = cell_index(m, c2);
        crate::grid::lemma_cell_index_bound(
            m.spec_width() as int,
            m.spec_height() as int,
            c2.x as int,
            c2.y as int,
        );
        assert(dem[i] == c2.z);
        assert(lv2 <= c2.z);
    }
    assert forall|k: int| 0 <= k < post.spec_depression().len() implies dem2[#[trigger] post.spec_depression()[k] as int]
        == lv2 by {
        let j = nbrs_where(m, n, pa)[k];
        assert(post.spec_depression()[k] == j);
        assert(pa(j) && nbr_below(m, n, j as int, 8));
    }
    assert forall|k: int| 0 <= k < post.spec_slope().len() implies lv2 <= dem2[#[trigger] post.spec_slope()[k] as int] by {
        let j = nbrs_where(m, n, pb)[k];
        assert(post.spec_slope()[k] == j);
        assert(pb(j) && nbr_below(m, n, j as int, 8));
    }
    assert forall|j: int| 0 <= j < labels2.len() && labels2[j] == NOT_FILLED implies #[trigger] dem2[j]
        == d0[j] by {
        assert(labels[j] == NOT_FILLED && dem2[j] == dem[j]);
    }
    assert forall|j: int|
        0 <= j < labels.len() && labels[j] == NOT_FILLED && #[trigger] labels2[j] != NOT_FILLED implies lv2
        <= dem2[j] && (dem2[j] == d0[j] || dem2[j] == lv2) by {
        assert(dem[j] == d0[j]);
        if j != n {
            assert(labels1[j] == NOT_FILLED);
            assert(is_nbr(m, n, j));
        }
    }
    assert forall|a: int, j: int|
        0 <= a < m.spec_size() && 0 <= j < m.spec_size() && labels[a] != NOT_FILLED && labels[j]
            == NOT_FILLED && labels2[j] != NOT_FILLED && dem2[j] != d0[j] && #[trigger] is_nbr(m, a, j)
            implies lv2 <= dem[a] by {
        assert(dem[j] == d0[j]);
        assert(j != n);
        assert(labels1[j] == NOT_FILLED);
        assert(is_nbr(m, n, j));
        assert(dem[j] < lv2);
        lemma_pending_high(m, pre, dem, labels, lv2, a, j);
    }
    lemma_least_pairs(m, d0, dem, dem2, labels, labels2, lv, lv2);
    assert forall|e: int| #[trigger] edge_set(m).contains(e) && labels2[e] != NOT_FILLED implies dem2[e]
        == d0[e] by {
        if labels[e] != NOT_FILLED {
            assert(dem2[e] == dem[e]);
        } else if e != n {
            assert(0 <= e < m.spec_size());
            let ce = choose|ce: Cell| #[trigger] pre.spec_pq().count(ce) > 0 && cell_index(m, ce) == e;
            assert(dem[e] == ce.z);
            assert(lv2 <= ce.z);
            assert(dem[e] == d0[e]);
            assert(labels1[e] == NOT_FILLED);
        } else {
            assert(dem[e] == d0[e]);
        }
    }
}

/// One step of a flood from the edges keeps the least-fill invariant, at a
/// level that does not fall.
proof fn lemma_least_step(
    m: GridMeta,
    pre: ZhouFillState,
    post: ZhouFillState,
    d0: Seq<u64>,
    dem: Seq<u64>,
    dem2: Seq<u64>,
    labels: Seq<TLabel>,
    labels2: Seq<TLabel>,
    ridges: Seq<RidgePoint>,
    ridges2: Seq<RidgePoint>,
    lv: u64,
) -> (lv2: u64)
    requires
        m.wf(),
        dem.len() == m.spec_size(),
        labels.len() == m.spec_size(),
        run_inv(m, pre, labels),
        drain_inv(m, pre, dem, labels),
        least_inv(m, pre, d0, dem, labels, lv),
        pre.spec_label() != NOT_FILLED,
        pre.spec_depression().len() > 0 || pre.spec_slope().len() > 0 || pre.spec_pq().len() > 0,
        zhou_step(m, pre, post, dem, dem2, labels, labels2, ridges, ridges2),
    ensures
        lv <= lv2,
        least_inv(m, post, d0, dem2, labels2, lv2),
{
    if pre.spec_depression().len() > 0 {
        lemma_least_depression(m, pre, post, d0, dem, dem2, labels, labels2, ridges, ridges2, lv);
        lv
    } else if pre.spec_slope().len() > 0 {
        lemma_least_slope(m, pre, post, d0, dem, dem2, labels, labels2, ridges, ridges2, lv);
        lv
    } else {
        let c = choose|c: Cell|
            {
                &&& #[trigger] pre.spec_pq().count(c) > 0
                &&& forall|y: Cell| #[trigger]
                    pre.spec_pq().count(y) > 0 ==> !crate::queue::rank_gt(
                        crate::queue::Ranked::rank(&y),
                        crate::queue::Ranked::rank(&c),
                    )
                &&& boundary_step(m, pre, post, dem, dem2, labels, labels2, ridges, ridges2, c)
            };
        lemma_least_boundary(m, pre, post, d0, dem, dem2, labels, labels2, ridges, ridges2, lv, c);
        c.z
    }
}

/// The cells `add_edges` queues carry their own elevation.
proof fn lemma_edge_cells_z(m: GridMeta, dem: Seq<u64>, c: Cell)
    requires
        m.wf(),
        m.spec_height() >= 1,
        m.spec_width() >= 1 || m.spec_height() <= 2,
        edge_cells(m, dem).to_multiset().count(c) > 0,
    ensures
        dem[cell_index(m, c)] == c.z,
{
    broadcast use vstd::seq_lib::group_to_multiset_ensures;

    let s = edge_cells(m, dem);
    assert(s.contains(c));
    let k = choose|k: int| 0 <= k < s.len() && s[k] == c;
    assert(s[k] == c);
}

/// A flood from the edges of a grid of unprocessed cells starts in the
/// least-fill invariant at level zero.
proof fn lemma_least_start(m: GridMeta, st: ZhouFillState, dem: Seq<u64>, labels: Seq<TLabel>)
    requires
        m.wf(),
        m.spec_height() >= 1,
        m.spec_width() >= 1 || m.spec_height() <= 2,
        dem.len() == m.spec_size(),
        labels.len() == m.spec_size(),
        forall|j: int| 0 <= j < labels.len() ==> #[trigger] labels[j] == NOT_FILLED,
        st.spec_pq() =~= Multiset::<Cell>::empty().add(edge_cells(m, dem).to_multiset()),
        st.spec_slope().len() == 0,
        st.spec_depression().len() == 0,
    ensures
        least_inv(m, st, dem, dem, labels, 0),
{
    assert forall|c: Cell| #[trigger] st.spec_pq().count(c) > 0 implies 0 <= c.z && dem[cell_index(m, c)]
        == c.z by {
        lemma_edge_cells_z(m, dem, c);
    }
}

/// `p` is a chain of neighbouring cells of the grid that starts on its edge.
pub open spec fn edge_walk(m: GridMeta, p: Seq<int>) -> bool {
    &&& p.len() > 0
    &&& edge_set(m).contains(p[0])
    &&& forall|k: int| 0 <= k < p.len() ==> 0 <= #[trigger] p[k] < m.spec_size()
    &&& forall|k: int| 0 <= k < p.len() - 1 ==> is_nbr(m, #[trigger] p[k], p[k + 1])
}

/// The highest of the elevations `dem` along `p`, or zero for no cell.
pub open spec fn walk_top(dem: Seq<u64>, p: Seq<int>) -> u64
    decreases p.len(),
{
    if p.len() == 0 {
        0
    } else {
        max_key(walk_top(dem, p.drop_last()), dem[p.last()])
    }
}

/// The elevations `dem` raise no cell above its spill level over the
/// original elevations `d0`: along every chain from the edge of the grid to
/// a cell, some original elevation is at least the cell's.
pub open spec fn below_spill(m: GridMeta, d0: Seq<u64>, dem: Seq<u64>) -> bool {
    forall|p: Seq<int>| #[trigger] edge_walk(m, p) ==> dem[p.last()] <= walk_top(d0, p)
}

/// A chain from the edge stays one without its last cell.
proof fn lemma_walk_drop(m: GridMeta, p: Seq<int>)
    requires
        edge_walk(m, p),
        p.len() > 1,
    ensures
        edge_walk(m, p.drop_last()),
{
    let q = p.drop_last();
    assert forall|k: int| 0 <= k < q.len() implies 0 <= #[trigger] q[k] < m.spec_size() by {
        assert(q[k] == p[k]);
    }
    assert forall|k: int| 0 <= k < q.len() - 1 implies is_nbr(m, #[trigger] q[k], q[k + 1]) by {
        assert(q[k] == p[k] && q[k + 1] == p[k + 1]);
    }
}

/// Processed cells that stand above no processed neighbour and edge cells
/// that were not raised leave every cell at or below the top of every chain
/// from the edge to it.
proof fn lemma_walk_below(m: GridMeta, d0: Seq<u64>, dem: Seq<u64>, labels: Seq<TLabel>, p: Seq<int>)
    requires
        labels.len() == m.spec_size(),
        forall|j: int| 0 <= j < m.spec_size() ==> #[trigger] labels[j] != NOT_FILLED,
        not_above_nbrs(m, d0, dem, labels),
        forall|e: int| #[trigger] edge_set(m).contains(e) && labels[e] != NOT_FILLED ==> dem[e] == d0[e],
        edge_walk(m, p),
    ensures
        dem[p.last()] <= walk_top(d0, p),
    decreases p.len(),
{
    if p.len() == 1 {
        assert(p.last() == p[0]);
        assert(labels[p[0]] != NOT_FILLED);
        assert(walk_top(d0, p.drop_last()) == 0);
    } else {
        let q = p.drop_last();
        lemma_walk_drop(m, p);
        lemma_walk_below(m, d0, dem, labels, q);
        let a = p[p.len() - 2];
        let b = p.last();
        assert(q.last() == a);
        assert(is_nbr(m, a, b));
        assert(labels[a] != NOT_FILLED && labels[b] != NOT_FILLED);
        assert(dem[b] <= d0[b] || dem[b] <= dem[a]);
    }
}

/// A rising chain from the edge reaches the top of the original elevations
/// on it at its last cell, when no elevation lies below the original.
proof fn lemma_rising_top(m: GridMeta, d0: Seq<u64>, dem: Seq<u64>, labels: Seq<TLabel>, p: Seq<int>)
    requires
        rising_path(m, dem, labels, p),
        d0.len() == dem.len(),
        forall|j: int| 0 <= j < dem.len() ==> #[trigger] d0[j] <= dem[j],
        dem.len() == m.spec_size(),
    ensures
        walk_top(d0, p) <= dem[p.last()],
        edge_walk(m, p),
    decreases p.len(),
{
    if p.len() > 1 {
        let q = p.drop_last();
        assert(rising_path(m, dem, labels, q)) by {
            assert forall|k: int| 0 <= k < q.len() implies 0 <= #[trigger] q[k] < m.spec_size() && labels[q[k]]
                != NOT_FILLED by {
                assert(q[k] == p[k]);
                assert(0 <= p[k] < m.spec_size() && labels[p[k]] != NOT_FILLED);
            }
            assert forall|k: int| 0 <= k < q.len() - 1 implies is_nbr(m, #[trigger] q[k], q[k + 1])
                && dem[q[k]] <= dem[q[k + 1]] by {
                assert(q[k] == p[k] && q[k + 1] == p[k + 1]);
            }
        }
        lemma_rising_top(m, d0, dem, labels, q);
        assert(q.last() == p[p.len() - 2]);
        assert(dem[p[p.len() - 2]] <= dem[p[p.len() - 1]]);
    } else {
        assert(walk_top(d0, p.drop_last()) == 0);
    }
    assert(p.last() == p[p.len() - 1]);
    assert(0 <= p.last() < m.spec_size());
    assert(d0[p.last()] <= dem[p.last()]);
    assert(walk_top(d0, p) == max_key(walk_top(d0, p.drop_last()), d0[p.last()]));
}

/// The fill is unique: two surfaces over the same original elevations, each
/// raising no cell, draining every cell and raising none above its spill
/// level, are the same. So draining and staying below the spill levels pin
/// every filled elevation down to its spill level.
pub proof fn lemma_fill_unique(
    m: GridMeta,
    d0: Seq<u64>,
    f: Seq<u64>,
    fl: Seq<TLabel>,
    g: Seq<u64>,
    gl: Seq<TLabel>,
)
    requires
        d0.len() == m.spec_size(),
        f.len() == m.spec_size(),
        g.len() == m.spec_size(),
        forall|j: int| 0 <= j < m.spec_size() ==> #[trigger] d0[j] <= f[j] && d0[j] <= g[j],
        forall|j: int| 0 <= j < m.spec_size() ==> #[trigger] drains(m, f, fl, j),
        forall|j: int| 0 <= j < m.spec_size() ==> #[trigger] drains(m, g, gl, j),
        below_spill(m, d0, f),
        below_spill(m, d0, g),
    ensures
        f == g,
{
    assert forall|j: int| 0 <= j < m.spec_size() implies #[trigger] f[j] == g[j] by {
        assert(drains(m, f, fl, j) && drains(m, g, gl, j));
        let p = choose|p: Seq<int>| #[trigger] rising_path(m, f, fl, p) && p.last() == j;
        let q = choose|q: Seq<int>| #[trigger] rising_path(m, g, gl, q) && q.last() == j;
        assert forall|i: int| 0 <= i < f.len() implies #[trigger] d0[i] <= f[i] by {}
        assert forall|i: int| 0 <= i < g.len() implies #[trigger] d0[i] <= g[i] by {}
        lemma_rising_top(m, d0, f, fl, p);
        lemma_rising_top(m, d0, g, gl, q);
        assert(edge_walk(m, p) && edge_walk(m, q));
    }
    assert(f =~= g);
}

/// Neighbouring processed cells `i` and `j` of two different watersheds
/// have an entry under the smaller label for the larger one, no higher
/// than the higher of the two cells.
pub open spec fn pair_noted(g: Seq<Map<TLabel, u64>>, labels: Seq<TLabel>, dem: Seq<u64>, i: int, j: int) -> bool {
    let a = labels[i];
    let b = labels[j];
    let lo = if a < b {
        a
    } else {
        b
    };
    let hi = if a < b {
        b
    } else {
        a
    };
    a != b ==> lo < g.len() && g[lo as int].contains_key(hi) && g[lo as int][hi] <= max_key(dem[i], dem[j])
}

/// Cell `i` waits in the depression or the slope queue.
pub open spec fn queued(st: ZhouFillState, i: int) -> bool {
    st.spec_depression().contains(i as usize) || st.spec_slope().contains(i as usize)
}

/// Every two neighbouring processed cells of different watersheds that no
/// longer wait in the depression or slope queue are noted in the spill
/// graph.
pub open spec fn graph_complete(
    m: GridMeta,
    g: Seq<Map<TLabel, u64>>,
    st: ZhouFillState,
    labels: Seq<TLabel>,
    dem: Seq<u64>,
) -> bool {
    forall|i: int, j: int|
        0 <= i < m.spec_size() && 0 <= j < m.spec_size() && labels[i] != NOT_FILLED && labels[j]
            != NOT_FILLED && !queued(st, i) && !queued(st, j) && #[trigger] is_nbr(m, i, j) ==> pair_noted(
            g,
            labels,
            dem,
            i,
            j,
        )
}

/// A ridge point between cells `i` and `j` is among `rs`.
pub open spec fn ridge_has(rs: Seq<RidgePoint>, i: int, j: int) -> bool {
    exists|q: int|
        0 <= q < rs.len() && (#[trigger] rs[q]).n_label != NOT_FILLED && ((rs[q].my_cell == i
            && rs[q].n_cell == j) || (rs[q].my_cell == j && rs[q].n_cell == i))
}

/// Noting a ridge keeps every noted pair noted: entries are only added or lowered.
proof fn lemma_note_keeps(
    g: Seq<Map<TLabel, u64>>,
    la: TLabel,
    lb: TLabel,
    ea: u64,
    eb: u64,
    labels: Seq<TLabel>,
    dem: Seq<u64>,
    i: int,
    j: int,
)
    requires
        lb == NOT_FILLED || la == lb || (if la < lb {
            la
        } else {
            lb
        }) < g.len(),
        pair_noted(g, labels, dem, i, j),
    ensures
        pair_noted(note_ridge(g, la, lb, ea, eb), labels, dem, i, j),
{
}

/// Noting a valid ridge point between two watersheds notes its pair of cells.
proof fn lemma_note_ridge(
    m: GridMeta,
    g: Seq<Map<TLabel, u64>>,
    labels: Seq<TLabel>,
    dem: Seq<u64>,
    bound: TLabel,
    r: RidgePoint,
)
    requires
        ridge_valid(m, labels, dem, bound, r),
        r.n_label != NOT_FILLED,
        r.my_label == r.n_label || (if r.my_label < r.n_label {
            r.my_label
        } else {
            r.n_label
        }) < g.len(),
    ensures
        pair_noted(note_ridge(g, r.my_label, r.n_label, r.my_elev, r.n_elev), labels, dem, r.my_cell as int, r.n_cell as int),
        pair_noted(note_ridge(g, r.my_label, r.n_label, r.my_elev, r.n_elev), labels, dem, r.n_cell as int, r.my_cell as int),
{
}

/// After one step, every two neighbouring processed cells of different
/// watersheds that no longer wait were noted before the step, or meet in a
/// ridge point the step found.
proof fn lemma_complete_step(
    m: GridMeta,
    g: Seq<Map<TLabel, u64>>,
    pre: ZhouFillState,
    post: ZhouFillState,
    dem: Seq<u64>,
    dem2: Seq<u64>,
    labels: Seq<TLabel>,
    labels2: Seq<TLabel>,
    ridges2: Seq<RidgePoint>,
)
    requires
        m.wf(),
        dem.len() == m.spec_size(),
        labels.len() == m.spec_size(),
        run_inv(m, pre, labels),
        graph_complete(m, g, pre, labels, dem),
        pre.spec_label() != NOT_FILLED,
        pre.spec_depression().len() > 0 || pre.spec_slope().len() > 0 || pre.spec_pq().len() > 0,
        zhou_step(m, pre, post, dem, dem2, labels, labels2, Seq::empty(), ridges2),
    ensures
        forall|i: int, j: int|
            0 <= i < m.spec_size() && 0 <= j < m.spec_size() && labels2[i] != NOT_FILLED && labels2[j]
                != NOT_FILLED && !queued(post, i) && !queued(post, j) && #[trigger] is_nbr(m, i, j)
                ==> pair_noted(g, labels2, dem2, i, j) || ridge_has(ridges2, i, j),
{
    let ridges: Seq<RidgePoint> = Seq::empty();
    if pre.spec_depression().len() > 0 {
        let x = pre.spec_depression()[0] as int;
        lemma_depression_keeps(m, pre, post, dem, dem2, labels, labels2, ridges, ridges2);
        assert(labels[x] != NOT_FILLED && 0 <= x < m.spec_size());
        let pa = unfilled_not_above(labels, dem, dem[x]);
        let pb = unfilled_above(labels, dem, dem[x]);
        let pf = filled_where(labels);
        lemma_nbrs_upto(m, x, pf, 8);
        assert forall|i: int| 0 <= i < m.spec_size() && queued(pre, i) && i != x implies #[trigger] queued(post, i) by {
            if pre.spec_depression().contains(i as usize) {
                let idx = choose|idx: int|
                    0 <= idx < pre.spec_depression().len() && pre.spec_depression()[idx] == i as usize;
                assert(post.spec_depression()[idx - 1] == i as usize);
            } else {
                let idx = choose|idx: int| 0 <= idx < pre.spec_slope().len() && pre.spec_slope()[idx] == i as usize;
                assert(post.spec_slope()[idx] == i as usize);
            }
        }
        assert forall|i: int| 0 <= i < m.spec_size() && labels[i] == NOT_FILLED && labels2[i] != NOT_FILLED implies #[trigger] queued(post, i) by {
            assert(is_nbr(m, x, i));
            if dem[i] <= dem[x] {
                lemma_nbrs_where_has(m, x, pa, i);
                let idx = choose|idx: int| 0 <= idx < nbrs_where(m, x, pa).len() && nbrs_where(m, x, pa)[idx] == i as usize;
                assert(post.spec_depression()[pre.spec_depression().len() - 1 + idx] == i as usize);
            } else {
                lemma_nbrs_where_has(m, x, pb, i);
                let idx = choose|idx: int| 0 <= idx < nbrs_where(m, x, pb).len() && nbrs_where(m, x, pb)[idx] == i as usize;
                assert(post.spec_slope()[pre.spec_slope().len() + idx] == i as usize);
            }
        }
        assert forall|i: int, j: int|
            0 <= i < m.spec_size() && 0 <= j < m.spec_size() && labels2[i] != NOT_FILLED && labels2[j]
                != NOT_FILLED && !queued(post, i) && !queued(post, j) && #[trigger] is_nbr(m, i, j)
                implies pair_noted(g, labels2, dem2, i, j) || ridge_has(ridges2, i, j) by {
            assert(labels[i] != NOT_FILLED && labels[j] != NOT_FILLED);
            assert(labels2[i] == labels[i] && dem2[i] == dem[i] && labels2[j] == labels[j] && dem2[j] == dem[j]);
            if i == x {
                lemma_nbrs_where_has(m, x, pf, j);
                let idx = choose|idx: int| 0 <= idx < nbrs_where(m, x, pf).len() && nbrs_where(m, x, pf)[idx] == j as usize;
                assert(ridges2[idx].my_cell == x && ridges2[idx].n_cell == j);
                assert(ridges2[idx].n_label != NOT_FILLED);
            } else if j == x {
                lemma_nbr_symmetric(m, i, j);
                lemma_nbrs_where_has(m, x, pf, i);
                let idx = choose|idx: int| 0 <= idx < nbrs_where(m, x, pf).len() && nbrs_where(m, x, pf)[idx] == i as usize;
                assert(ridges2[idx].my_cell == x && ridges2[idx].n_cell == i);
                assert(ridges2[idx].n_label != NOT_FILLED);
            } else {
                assert(!queued(pre, i) && !queued(pre, j));
                assert(pair_noted(g, labels, dem, i, j));
            }
        }
    } else if pre.spec_slope().len() > 0 {
        let x = pre.spec_slope()[0] as int;
        lemma_slope_keeps(m, pre, post, dem, dem2, labels, labels2, ridges, ridges2);
        assert(labels[x] != NOT_FILLED && 0 <= x < m.spec_size());
        let pb = unfilled_above(labels, dem, dem[x]);
        let pf = filled_where(labels);
        lemma_nbrs_upto(m, x, pf, 8);
        assert forall|i: int| 0 <= i < m.spec_size() && queued(pre, i) && i != x implies #[trigger] queued(post, i) by {
            let idx = choose|idx: int| 0 <= idx < pre.spec_slope().len() && pre.spec_slope()[idx] == i as usize;
            assert(post.spec_slope()[idx - 1] == i as usize);
        }
        assert forall|i: int| 0 <= i < m.spec_size() && labels[i] == NOT_FILLED && labels2[i] != NOT_FILLED implies #[trigger] queued(post, i) by {
            assert(nbr_below(m, x, i, 8) && dem[i] > dem[x]);
            lemma_nbrs_where_has(m, x, pb, i);
            let idx = choose|idx: int| 0 <= idx < nbrs_where(m, x, pb).len() && nbrs_where(m, x, pb)[idx] == i as usize;
            assert(post.spec_slope()[pre.spec_slope().len() - 1 + idx] == i as usize);
        }
        assert forall|i: int, j: int|
            0 <= i < m.spec_size() && 0 <= j < m.spec_size() && labels2[i] != NOT_FILLED && labels2[j]
                != NOT_FILLED && !queued(post, i) && !queued(post, j) && #[trigger] is_nbr(m, i, j)
                implies pair_noted(g, labels2, dem2, i, j) || ridge_has(ridges2, i, j) by {
            assert(labels[i] != NOT_FILLED && labels[j] != NOT_FILLED);
            assert(labels2[i] == labels[i] && labels2[j] == labels[j]);
            if i == x {
                lemma_nbrs_where_has(m, x, pf, j);
                let idx = choose|idx: int| 0 <= idx < nbrs_where(m, x, pf).len() && nbrs_where(m, x, pf)[idx] == j as usize;
                assert(ridges2[idx].my_cell == x && ridges2[idx].n_cell == j);
                assert(ridges2[idx].n_label != NOT_FILLED);
            } else if j == x {
                lemma_nbr_symmetric(m, i, j);
                lemma_nbrs_where_has(m, x, pf, i);
                let idx = choose|idx: int| 0 <= idx < nbrs_where(m, x, pf).len() && nbrs_where(m, x, pf)[idx] == i as usize;
                assert(ridges2[idx].my_cell == x && ridges2[idx].n_cell == i);
                assert(ridges2[idx].n_label != NOT_FILLED);
            } else {
                assert(!queued(pre, i) && !queued(pre, j));
                assert(pair_noted(g, labels, dem, i, j));
            }
        }
    } else {
        let c = choose|c: Cell|
            {
                &&& #[trigger] pre.spec_pq().count(c) > 0
                &&& forall|y: Cell| #[trigger]
                    pre.spec_pq().count(y) > 0 ==> !crate::queue::rank_gt(
                        crate::queue::Ranked::rank(&y),
                        crate::queue::Ranked::rank(&c),
                    )
                &&& boundary_step(m, pre, post, dem, dem2, labels, labels2, ridges, ridges2, c)
            };
        lemma_boundary_keeps(m, pre, post, dem, dem2, labels, labels2, ridges, ridges2, c);
        let n = cell_index(m, c);
        crate::grid::lemma_cell_index_bound(
            m.spec_width() as int,
            m.spec_height() as int,
            c.x as int,
            c.y as int,
        );
        lemma_low_nbr_label(m, labels, dem, n, 8);
        let labels1 = labels.update(n, boundary_label(m, labels, dem, n, pre.spec_label()));
        assert(labels1[n] != NOT_FILLED);
        crate::depfill::zhou::lemma_not_own_nbr(m, n, 8);
        assert(labels2[n] == labels1[n]);
        assert(dem2[n] == dem[n]);
        let pa = unfilled_below(labels1, dem, dem[n]);
        let pb = unfilled_not_below(labels1, dem, dem[n]);
        let pf = any_cell();
        lemma_nbrs_upto(m, n, pf, 8);
        assert forall|i: int| 0 <= i < m.spec_size() && labels[i] == NOT_FILLED && labels2[i] != NOT_FILLED && i != n implies #[trigger] queued(post, i) by {
            assert(labels1[i] == NOT_FILLED);
            assert(is_nbr(m, n, i));
            if dem[i] < dem[n] {
                lemma_nbrs_where_has(m, n, pa, i);
                let idx = choose|idx: int| 0 <= idx < nbrs_where(m, n, pa).len() && nbrs_where(m, n, pa)[idx] == i as usize;
                assert(post.spec_depression()[idx] == i as usize);
            } else {
                lemma_nbrs_where_has(m, n, pb, i);
                let idx = choose|idx: int| 0 <= idx < nbrs_where(m, n, pb).len() && nbrs_where(m, n, pb)[idx] == i as usize;
                assert(post.spec_slope()[idx] == i as usize);
            }
        }
        assert forall|i: int, j: int|
            0 <= i < m.spec_size() && 0 <= j < m.spec_size() && labels2[i] != NOT_FILLED && labels2[j]
                != NOT_FILLED && !queued(post, i) && !queued(post, j) && #[trigger] is_nbr(m, i, j)
                implies pair_noted(g, labels2, dem2, i, j) || ridge_has(ridges2, i, j) by {
            if i == n {
                assert(j != n);
                assert(labels[j] != NOT_FILLED);
                assert(labels1[j] == labels[j] && labels2[j] == labels[j]);
                lemma_nbrs_where_has(m, n, pf, j);
                let idx = choose|idx: int| 0 <= idx < nbrs_where(m, n, pf).len() && nbrs_where(m, n, pf)[idx] == j as usize;
                assert(ridges2[idx].my_cell == n && ridges2[idx].n_cell == j);
                assert(ridges2[idx].n_label != NOT_FILLED);
            } else if j == n {
                assert(labels[i] != NOT_FILLED);
                assert(labels1[i] == labels[i] && labels2[i] == labels[i]);
                lemma_nbr_symmetric(m, i, j);
                lemma_nbrs_where_has(m, n, pf, i);
                let idx = choose|idx: int| 0 <= idx < nbrs_where(m, n, pf).len() && nbrs_where(m, n, pf)[idx] == i as usize;
                assert(ridges2[idx].my_cell == n && ridges2[idx].n_cell == i);
                assert(ridges2[idx].n_label != NOT_FILLED);
            } else {
                assert(labels[i] != NOT_FILLED && labels[j] != NOT_FILLED);
                assert(labels2[i] == labels[i] && dem2[i] == dem[i] && labels2[j] == labels[j] && dem2[j] == dem[j]);
                assert(!queued(pre, i) && !queued(pre, j));
                assert(pair_noted(g, labels, dem, i, j));
            }
        }
    }
}

/// A step of the flood never relabels a processed cell and never lowers a
/// cell; a cell whose elevation changes was unprocessed, and is raised to
/// the elevation of one of its neighbours, the cell the step flooded from.
pub proof fn lemma_step_raises_to_nbr(
    m: GridMeta,
    pre: ZhouFillState,
    post: ZhouFillState,
    dem: Seq<u64>,
    dem2: Seq<u64>,
    labels: Seq<TLabel>,
    labels2: Seq<TLabel>,
    ridges: Seq<RidgePoint>,
    ridges2: Seq<RidgePoint>,
)
    requires
        m.wf(),
        dem.len() == m.spec_size(),
        labels.len() == m.spec_size(),
        pre.wf(m),
        queued_filled(pre, labels),
        pre.spec_label() != NOT_FILLED,
        pre.spec_depression().len() > 0 || pre.spec_slope().len() > 0 || pre.spec_pq().len() > 0,
        zhou_step(m, pre, post, dem, dem2, labels, labels2, ridges, ridges2),
    ensures
        dem2.len() == dem.len(),
        labels2.len() == labels.len(),
        forall|i: int|
            0 <= i < dem.len() ==> {
                &&& #[trigger] dem2[i] >= dem[i]
                &&& labels[i] != NOT_FILLED ==> labels2[i] == labels[i]
                &&& dem2[i] != dem[i] ==> labels[i] == NOT_FILLED && exists|j: int|
                    0 <= j < dem.len() && is_nbr(m, i, j) && #[trigger] dem2[j] == dem2[i]
            },
{
    if pre.spec_depression().len() > 0 {
        lemma_depression_keeps(m, pre, post, dem, dem2, labels, labels2, ridges, ridges2);
        let di = pre.spec_depression()[0] as int;
        assert(labels[di] != NOT_FILLED && 0 <= di < m.spec_size());
        assert forall|i: int| 0 <= i < dem.len() && dem2[i] != dem[i] implies exists|j: int|
            0 <= j < dem.len() && is_nbr(m, i, j) && #[trigger] dem2[j] == dem2[i] by {
            assert(is_nbr(m, di, i));
            lemma_nbr_symmetric(m, di, i);
            assert(dem2[di] == dem[di]);
        }
    } else if pre.spec_slope().len() > 0 {
        lemma_slope_keeps(m, pre, post, dem, dem2, labels, labels2, ridges, ridges2);
    } else {
        let c = choose|c: Cell|
            {
                &&& #[trigger] pre.spec_pq().count(c) > 0
                &&& forall|y: Cell| #[trigger]
                    pre.spec_pq().count(y) > 0 ==> !crate::queue::rank_gt(
                        crate::queue::Ranked::rank(&y),
                        crate::queue::Ranked::rank(&c),
                    )
                &&& boundary_step(m, pre, post, dem, dem2, labels, labels2, ridges, ridges2, c)
            };
        lemma_boundary_keeps(m, pre, post, dem, dem2, labels, labels2, ridges, ridges2, c);
        let n = cell_index(m, c);
        crate::grid::lemma_cell_index_bound(
            m.spec_width() as int,
            m.spec_height() as int,
            c.x as int,
            c.y as int,
        );
        lemma_low_nbr_label(m, labels, dem, n, 8);
        let labels1 = labels.update(n, boundary_label(m, labels, dem, n, pre.spec_label()));
        crate::depfill::zhou::lemma_not_own_nbr(m, n, 8);
        assert(dem2[n] == dem[n]);
        assert forall|i: int| 0 <= i < dem.len() && dem2[i] != dem[i] implies exists|j: int|
            0 <= j < dem.len() && is_nbr(m, i, j) && #[trigger] dem2[j] == dem2[i] by {
            assert(is_nbr(m, n, i));
            lemma_nbr_symmetric(m, n, i);
        }
    }
}

/// Some cell carries label `t`.
pub open spec fn label_used(labels: Seq<TLabel>, t: int) -> bool {
    exists|i: int| 0 <= i < labels.len() && labels[i] == t
}

/// Every label below `n` is carried by some cell.
#[verifier::opaque]
pub open spec fn labels_cover(labels: Seq<TLabel>, n: int) -> bool {
    forall|t: int| 0 <= t < n ==> #[trigger] label_used(labels, t)
}

/// A step keeps every label below the counter in use: processed cells keep
/// their labels, and a new label goes to the cell that starts its watershed.
proof fn lemma_labels_used(
    m: GridMeta,
    pre: ZhouFillState,
    post: ZhouFillState,
    dem: Seq<u64>,
    dem2: Seq<u64>,
    labels: Seq<TLabel>,
    labels2: Seq<TLabel>,
    ridges: Seq<RidgePoint>,
    ridges2: Seq<RidgePoint>,
)
    requires
        m.wf(),
        dem.len() == m.spec_size(),
        labels.len() == m.spec_size(),
        pre.wf(m),
        queued_filled(pre, labels),
        pre.spec_label() != NOT_FILLED,
        pre.spec_label() < u32::MAX,
        pre.spec_depression().len() > 0 || pre.spec_slope().len() > 0 || pre.spec_pq().len() > 0,
        zhou_step(m, pre, post, dem, dem2, labels, labels2, ridges, ridges2),
        pre.spec_label() <= NOT_FILLED,
        labels_cover(labels, pre.spec_label() as int),
    ensures
        labels_cover(labels2, post.spec_label() as int),
{
    reveal(labels_cover);
    lemma_step_keeps(m, pre, post, dem, dem2, labels, labels2, ridges, ridges2);
    assert forall|t: int| 0 <= t < pre.spec_label() implies #[trigger] label_used(labels2, t) by {
        assert(label_used(labels, t));
        let i = choose|i: int| 0 <= i < labels.len() && labels[i] == t;
        assert(dem2[i] >= dem[i]);
        assert(labels2[i] == labels[i]);
    }
    if pre.spec_depression().len() == 0 && pre.spec_slope().len() == 0 {
        let c = choose|c: Cell|
            {
                &&& #[trigger] pre.spec_pq().count(c) > 0
                &&& forall|y: Cell| #[trigger]
                    pre.spec_pq().count(y) > 0 ==> !crate::queue::rank_gt(
                        crate::queue::Ranked::rank(&y),
                        crate::queue::Ranked::rank(&c),
                    )
                &&& boundary_step(m, pre, post, dem, dem2, labels, labels2, ridges, ridges2, c)
            };
        let n = cell_index(m, c);
        crate::grid::lemma_cell_index_bound(
            m.spec_width() as int,
            m.spec_height() as int,
            c.x as int,
            c.y as int,
        );
        if takes_fresh_label(m, labels, dem, n) {
            let labels1 = labels.update(n, boundary_label(m, labels, dem, n, pre.spec_label()));
            crate::depfill::zhou::lemma_not_own_nbr(m, n, 8);
            assert(labels2[n] == labels1[n]);
            assert(labels1[n] == pre.spec_label());
            assert(label_used(labels2, pre.spec_label() as int));
        }
    }
}

/// Step `k` of a run of the flood: from state `sts[k]`, elevations
/// `dems[k]` and labels `labs[k]` to those at `k + 1`, meeting the ridge
/// points `rids[k + 1]` on the way.
pub open spec fn run_step(
    m: GridMeta,
    sts: Seq<ZhouFillState>,
    dems: Seq<Seq<u64>>,
    labs: Seq<Seq<TLabel>>,
    rids: Seq<Seq<RidgePoint>>,
    k: int,
) -> bool {
    zhou_step(m, sts[k], sts[k + 1], dems[k], dems[k + 1], labs[k], labs[k + 1], Seq::empty(), rids[k + 1])
}

/// A run of the flood: states, elevations, labels and ridge points, one
/// after each step, every step as `ZhouFillState::step` takes it.
pub open spec fn flood_run(
    m: GridMeta,
    sts: Seq<ZhouFillState>,
    dems: Seq<Seq<u64>>,
    labs: Seq<Seq<TLabel>>,
    rids: Seq<Seq<RidgePoint>>,
) -> bool {
    &&& sts.len() >= 1
    &&& dems.len() == sts.len()
    &&& labs.len() == sts.len()
    &&& rids.len() == sts.len()
    &&& forall|k: int| 0 <= k < sts.len() - 1 ==> #[trigger] run_step(m, sts, dems, labs, rids, k)
}

/// The state a flood from the edges of a grid of elevations `d0` starts
/// in: every edge cell queued at its own elevation, nothing else queued,
/// and label 0 for the first watershed.
pub open spec fn start_state(m: GridMeta, d0: Seq<u64>, st: ZhouFillState) -> bool {
    &&& st.spec_pq() =~= Multiset::<Cell>::empty().add(edge_cells(m, d0).to_multiset())
    &&& st.spec_slope().len() == 0
    &&& st.spec_depression().len() == 0
    &&& st.spec_label() == 0
}

/// Nothing is left in any queue of the flood.
pub open spec fn flood_done(st: ZhouFillState) -> bool {
    &&& st.spec_pq().len() == 0
    &&& st.spec_slope().len() == 0
    &&& st.spec_depression().len() == 0
}

/// Elevations `dem` and labels `labels` are what the flood from the edges
/// leaves when started on elevations `d0` and labels `l0` and run step by
/// step until nothing is queued: each cell is labelled with the watershed
/// the flood assigns it, among equally low boundary cells in whichever
/// order the priority queue gives them.
#[verifier::opaque]
pub open spec fn zhou_flooded(m: GridMeta, d0: Seq<u64>, l0: Seq<TLabel>, dem: Seq<u64>, labels: Seq<TLabel>) -> bool {
    exists|sts: Seq<ZhouFillState>, dems: Seq<Seq<u64>>, labs: Seq<Seq<TLabel>>, rids: Seq<Seq<RidgePoint>>|
        {
            &&& #[trigger] flood_run(m, sts, dems, labs, rids)
            &&& start_state(m, d0, sts[0])
            &&& dems[0] == d0
            &&& labs[0] == l0
            &&& flood_done(sts.last())
            &&& dems.last() == dem
            &&& labs.last() == labels
        }
}

/// A run extended by one more step is a run.
proof fn lemma_run_push(
    m: GridMeta,
    sts: Seq<ZhouFillState>,
    dems: Seq<Seq<u64>>,
    labs: Seq<Seq<TLabel>>,
    rids: Seq<Seq<RidgePoint>>,
    st: ZhouFillState,
    dem: Seq<u64>,
    lab: Seq<TLabel>,
    rid: Seq<RidgePoint>,
)
    requires
        flood_run(m, sts, dems, labs, rids),
        zhou_step(m, sts.last(), st, dems.last(), dem, labs.last(), lab, Seq::empty(), rid),
    ensures
        flood_run(m, sts.push(st), dems.push(dem), labs.push(lab), rids.push(rid)),
{
    let sts2 = sts.push(st);
    let dems2 = dems.push(dem);
    let labs2 = labs.push(lab);
    let rids2 = rids.push(rid);
    assert forall|k: int| 0 <= k < sts2.len() - 1 implies #[trigger] run_step(m, sts2, dems2, labs2, rids2, k) by {
        if k < sts.len() - 1 {
            assert(run_step(m, sts, dems, labs, rids, k));
            assert(sts2[k] == sts[k] && sts2[k + 1] == sts[k + 1]);
            assert(dems2[k] == dems[k] && dems2[k + 1] == dems[k + 1]);
            assert(labs2[k] == labs[k] && labs2[k + 1] == labs[k + 1]);
            assert(rids2[k + 1] == rids[k + 1]);
        } else {
            assert(sts2[k] == sts.last() && sts2[k + 1] == st);
            assert(dems2[k] == dems.last() && dems2[k + 1] == dem);
            assert(labs2[k] == labs.last() && labs2[k + 1] == lab);
            assert(rids2[k + 1] == rid);
        }
    }
}

} // verus!
