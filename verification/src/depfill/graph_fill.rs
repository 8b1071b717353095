//! Priority-flood filling of a spill graph: the graph of watersheds whose
//! edges carry the elevation at which water spills from one into the other.
use vstd::prelude::*;
use vstd::multiset::Multiset;
use std::collections::HashMap;

use crate::depfill::cell::GraphCell;
use crate::queue::{rank_gt, MaxQueue, Ranked};
use crate::TLabel;
use vstd::std_specs::iter::IteratorSpec;

verus! {

broadcast use vstd::std_specs::hash::group_hash_axioms;

/// Counter for catchments in graph filling: the order in which watersheds are
/// reached from the outlet.
pub type CatchmentCounter = u32;

/// Marker value for an unprocessed graph node.
pub const UNPROCESSED: u32 = 0xFFFF_FFFF;

/// For each watershed, the watersheds it touches and the lowest elevation
/// (key) at which water passes between them.
pub type SpillGraph = Vec<HashMap<TLabel, u64>>;

/// The larger of two elevation keys.
pub open spec fn max_key(a: u64, b: u64) -> u64 {
    if a >= b {
        a
    } else {
        b
    }
}

/// The adjacency maps of a spill graph.
pub open spec fn graph_view(g: Seq<HashMap<TLabel, u64>>) -> Seq<Map<TLabel, u64>> {
    Seq::new(g.len(), |i: int| g[i]@)
}

/// Every edge of the graph points at a node of the graph, and every node
/// has a label that fits in a `TLabel` below [`UNPROCESSED`].
pub open spec fn graph_wf(g: Seq<Map<TLabel, u64>>) -> bool {
    &&& g.len() < UNPROCESSED
    &&& forall|u: int, k: TLabel| 0 <= u < g.len() && #[trigger] g[u].contains_key(k) ==> k < g.len()
}

/// The queue entry that processing node `v` at `s` adds for `c`'s label:
/// a neighbour that is still unprocessed, entered at the higher of `s` and
/// the spill elevation between them.
pub open spec fn fill_push(gv: Map<TLabel, u64>, processed: Seq<u32>, s: u64, c: GraphCell) -> bool {
    &&& gv.contains_key(c.spec_label())
    &&& processed[c.spec_label() as int] == UNPROCESSED
    &&& c.spec_spill_elev() == max_key(s, gv[c.spec_label()])
}

/// The nodes that have been processed.
pub open spec fn processed_set(p: Seq<u32>) -> Set<int> {
    Set::new(|v: int| 0 <= v < p.len() && p[v] != UNPROCESSED)
}

proof fn lemma_processed_set(p: Seq<u32>)
    ensures
        processed_set(p).finite(),
        processed_set(p).len() <= p.len(),
        forall|v: int| 0 <= v < p.len() && p[v] == UNPROCESSED ==> processed_set(p).len() < p.len(),
{
    vstd::set_lib::lemma_int_range(0, p.len() as int);
    vstd::set_lib::lemma_len_subset(processed_set(p), vstd::set_lib::set_int_range(0, p.len() as int));
    assert forall|v: int| 0 <= v < p.len() && p[v] == UNPROCESSED implies processed_set(p).len()
        < p.len() by {
        let r = vstd::set_lib::set_int_range(0, p.len() as int);
        vstd::set_lib::lemma_len_subset(processed_set(p), r.remove(v));
    }
}

proof fn lemma_processed_set_insert(p: Seq<u32>, v: int, c: u32)
    requires
        0 <= v < p.len(),
        p[v] == UNPROCESSED,
        c != UNPROCESSED,
    ensures
        processed_set(p.update(v, c)) == processed_set(p).insert(v),
        processed_set(p.update(v, c)).len() == processed_set(p).len() + 1,
{
    lemma_processed_set(p);
    assert(processed_set(p.update(v, c)) =~= processed_set(p).insert(v));
}

/// Fill state of a graph filling process.
///
/// Mostly useful for introspection; [`fill_graph`] runs it to completion.
#[derive(Debug)]
pub struct GraphFillState {
    processed: Vec<CatchmentCounter>,
    priority_queue: MaxQueue<GraphCell>,
    current_count: CatchmentCounter,
}

impl GraphFillState {
    /// For each node, the order in which it was processed, or [`UNPROCESSED`].
    pub closed spec fn spec_processed(&self) -> Seq<u32> {
        self.processed@
    }

    /// The nodes waiting to be processed, with their spill elevations.
    pub closed spec fn spec_queue(&self) -> Multiset<GraphCell> {
        self.priority_queue@
    }

    /// The number of nodes processed so far.
    pub closed spec fn spec_count(&self) -> u32 {
        self.current_count
    }

    /// The count is the number of processed nodes, and each processed node
    /// holds its own number below the count.
    pub open spec fn wf(&self) -> bool {
        let p = self.spec_processed();
        &&& p.len() < UNPROCESSED
        &&& self.spec_count() == processed_set(p).len()
        &&& forall|v: int| 0 <= v < p.len() && p[v] != UNPROCESSED ==> #[trigger] p[v] < self.spec_count()
        &&& forall|u: int, v: int|
            0 <= u < p.len() && 0 <= v < p.len() && u != v && p[u] != UNPROCESSED ==> #[trigger] p[u]
                != #[trigger] p[v]
    }

    /// Create a new state for a graph of `size` nodes: nothing processed,
    /// nothing queued.
    pub fn new(size: usize) -> (r: Self)
        requires
            size < UNPROCESSED,
        ensures
            r.wf(),
            r.spec_processed() == Seq::new(size as nat, |i: int| UNPROCESSED),
            r.spec_queue() =~= Multiset::<GraphCell>::empty(),
            r.spec_count() == 0,
    {
        let mut processed = Vec::with_capacity(size);
        let mut i: usize = 0;
        while i < size
            invariant
                i <= size,
                processed@ =~= Seq::new(i as nat, |j: int| UNPROCESSED),
            decreases size - i,
        {
            processed.push(UNPROCESSED);
            i = i + 1;
        }
        proof {
            assert(processed_set(processed@) =~= Set::empty());
        }
        Self { processed, priority_queue: MaxQueue::new(), current_count: 0 }
    }

    /// Consume self and return the order in which the nodes were processed.
    pub fn into_processed(self) -> (r: Vec<CatchmentCounter>)
        ensures
            r@ == self.spec_processed(),
    {
        self.processed
    }

    /// Get immutable access to the priority queue for debugging/visualizing.
    pub fn priority_queue(&self) -> (r: &MaxQueue<GraphCell>)
        ensures
            r@ == self.spec_queue(),
    {
        &self.priority_queue
    }

    /// Seed the graph with the given label and spill elevation.
    ///
    /// To properly fill, a graph should be seeded with all draining nodes.
    pub fn seed(&mut self, label: TLabel, spill_elev: u64)
        ensures
            old(self).wf() ==> final(self).wf(),
            final(self).spec_processed() == old(self).spec_processed(),
            final(self).spec_count() == old(self).spec_count(),
            final(self).spec_queue().count(GraphCell::new_spec(label, spill_elev)) == old(
                self,
            ).spec_queue().count(GraphCell::new_spec(label, spill_elev)) + 1,
            final(self).spec_queue() == old(self).spec_queue().insert(
                GraphCell::new_spec(label, spill_elev),
            ),
    {
        let c = GraphCell::new(label, spill_elev);
        self.priority_queue.push(c);
    }

    /// Single step of depression filling on the graph.
    ///
    /// Pops the lowest node; if it is unprocessed, its spill elevation becomes
    /// its fill elevation in `graph_elevs`, it gets the next count, and all
    /// its unprocessed neighbours are queued at the higher of its elevation
    /// and the spill elevation between them. Returns `false` when the queue
    /// was empty.
    pub fn step(&mut self, spill_graph: &[HashMap<TLabel, u64>], graph_elevs: &mut [u64]) -> (r: bool)
        requires
            graph_wf(graph_view(spill_graph@)),
            old(self).spec_processed().len() == spill_graph@.len(),
            old(graph_elevs)@.len() >= spill_graph@.len(),
            old(self).wf(),
            forall|c: GraphCell| #[trigger]
                old(self).spec_queue().count(c) > 0 ==> c.spec_label() < spill_graph@.len(),
        ensures
            final(self).wf(),
            r <==> old(self).spec_queue().len() > 0,
            !r ==> *final(self) == *old(self) && final(graph_elevs)@ == old(graph_elevs)@,
            r ==> exists|c: GraphCell|
                {
                    &&& #[trigger] old(self).spec_queue().count(c) > 0
                    &&& forall|y: GraphCell| #[trigger]
                        old(self).spec_queue().count(y) > 0 ==> !rank_gt(y.rank(), c.rank())
                    &&& step_effect(
                        *old(self),
                        *final(self),
                        graph_view(spill_graph@),
                        old(graph_elevs)@,
                        final(graph_elevs)@,
                        c,
                    )
                },
    {
        let ghost pre = *self;
        let popped = self.priority_queue.pop();
        match popped {
            None => false,
            Some(cell) => {
                let ghost q1 = self.priority_queue@;
                proof {
                    assert(pre.spec_queue().count(cell) > 0);
                }
                let v = cell.label() as usize;
                if self.processed[v] != UNPROCESSED {
                    proof {
                        assert(step_effect(
                            pre,
                            *self,
                            graph_view(spill_graph@),
                            old(graph_elevs)@,
                            graph_elevs@,
                            cell,
                        ));
                    }
                    return true;
                }
                let s = *cell.spill_elev();
                graph_elevs[v] = s;
                self.processed[v] = self.current_count;
                proof {
                    lemma_processed_set(pre.spec_processed());
                    lemma_processed_set_insert(pre.spec_processed(), v as int, pre.spec_count());
                    assert(self.current_count < UNPROCESSED);
                }
                self.current_count = self.current_count + 1;
                let ghost gv = spill_graph@[v as int]@;
                let ghost processed2 = self.processed@;
                let neighbours: &HashMap<TLabel, u64> = &spill_graph[v];
                let ghost pairs = vstd::std_specs::hash::spec_hash_map_iter(neighbours).remaining();
                proof {
                    assert(graph_view(spill_graph@)[v as int] == gv);
                }
                for (label, n_elev) in it: neighbours.iter()
                    invariant
                        graph_wf(graph_view(spill_graph@)),
                        self.processed@ == processed2,
                        self.current_count == pre.spec_count() + 1,
                        self.processed@.len() == spill_graph@.len(),
                        v < spill_graph@.len(),
                        gv == spill_graph@[v as int]@,
                        gv == neighbours@,
                        graph_view(spill_graph@)[v as int] == gv,
                        it.seq() == pairs,
                        it.seq().no_duplicates(),
                        forall|x: GraphCell| #[trigger]
                            self.priority_queue@.count(x) == q1.count(x) + (if pushed_before(
                                it.seq(),
                                it.index(),
                                processed2,
                                s,
                                x,
                            ) {
                                1nat
                            } else {
                                0nat
                            }),
                {
                    let ghost j = it.index();
                    let ghost q_before = self.priority_queue@;
                    proof {
                        assert(gv.contains_key(*it.seq()[j].0));
                        assert(*label == *it.seq()[j].0);
                        assert(*label < spill_graph@.len());
                    }
                    let l = *label as usize;
                    // a neighbour that is already processed has drained before
                    if self.processed[l] == UNPROCESSED {
                        // the higher of the two: this fills depressions
                        let e = if *n_elev > s {
                            *n_elev
                        } else {
                            s
                        };
                        let nc = GraphCell::new(*label, e);
                        self.priority_queue.push(nc);
                        proof {
                            assert(!pushed_before(it.seq(), j, processed2, s, nc)) by {
                                if pushed_before(it.seq(), j, processed2, s, nc) {
                                    let j2 = choose|j2: int|
                                        0 <= j2 < j && *(#[trigger] it.seq()[j2]).0 == nc.spec_label()
                                            && processed2[nc.spec_label() as int] == UNPROCESSED
                                            && nc.spec_spill_elev() == max_key(s, *it.seq()[j2].1);
                                    assert(gv.contains_key(*it.seq()[j2].0));
                                    assert(*it.seq()[j2].1 == gv[*it.seq()[j2].0]);
                                    assert(*it.seq()[j].1 == gv[*it.seq()[j].0]);
                                    assert(it.seq()[j2] == it.seq()[j]);
                                }
                            }
                            assert forall|x: GraphCell| #[trigger]
                                self.priority_queue@.count(x) == q1.count(x) + (if pushed_before(
                                    it.seq(),
                                    j + 1,
                                    processed2,
                                    s,
                                    x,
                                ) {
                                    1nat
                                } else {
                                    0nat
                                }) by {
                                if x == nc {
                                    assert(pushed_before(it.seq(), j + 1, processed2, s, x));
                                } else {
                                    if pushed_before(it.seq(), j + 1, processed2, s, x) {
                                        let j2 = choose|j2: int|
                                            0 <= j2 < j + 1 && *(#[trigger] it.seq()[j2]).0
                                                == x.spec_label() && processed2[x.spec_label() as int]
                                                == UNPROCESSED && x.spec_spill_elev() == max_key(
                                                s,
                                                *it.seq()[j2].1,
                                            );
                                        if j2 == j {
                                            GraphCell::lemma_ext(x, nc);
                                        }
                                        assert(pushed_before(it.seq(), j, processed2, s, x));
                                    }
                                }
                            }
                        }
                    } else {
                        proof {
                            assert forall|x: GraphCell| #[trigger]
                                self.priority_queue@.count(x) == q1.count(x) + (if pushed_before(
                                    it.seq(),
                                    j + 1,
                                    processed2,
                                    s,
                                    x,
                                ) {
                                    1nat
                                } else {
                                    0nat
                                }) by {
                                if pushed_before(it.seq(), j + 1, processed2, s, x) {
                                    let j2 = choose|j2: int|
                                        0 <= j2 < j + 1 && *(#[trigger] it.seq()[j2]).0
                                            == x.spec_label() && processed2[x.spec_label() as int]
                                            == UNPROCESSED && x.spec_spill_elev() == max_key(
                                            s,
                                            *it.seq()[j2].1,
                                        );
                                    assert(j2 != j);
                                    assert(pushed_before(it.seq(), j, processed2, s, x));
                                }
                            }
                        }
                    }
                }
                proof {
                    assert(forall|x: GraphCell| #[trigger]
                        self.priority_queue@.count(x) == q1.count(x) + (if pushed_before(
                            pairs,
                            pairs.len() as int,
                            processed2,
                            s,
                            x,
                        ) {
                            1nat
                        } else {
                            0nat
                        }));
                    assert forall|x: GraphCell| #[trigger]
                        pushed_before(pairs, pairs.len() as int, processed2, s, x) == fill_push(
                            gv,
                            processed2,
                            s,
                            x,
                        ) by {
                        if fill_push(gv, processed2, s, x) {
                            let k = x.spec_label();
                            assert(gv.contains_key(k));
                            assert(pairs.contains((&k, &gv[k])));
                            let j = choose|j: int| 0 <= j < pairs.len() && pairs[j] == (&k, &gv[k]);
                            assert(*pairs[j].0 == k);
                        }
                        if pushed_before(pairs, pairs.len() as int, processed2, s, x) {
                            let j = choose|j: int|
                                0 <= j < pairs.len() && *(#[trigger] pairs[j]).0 == x.spec_label()
                                    && processed2[x.spec_label() as int] == UNPROCESSED
                                    && x.spec_spill_elev() == max_key(s, *pairs[j].1);
                            assert(gv.contains_key(*pairs[j].0));
                        }
                    }
                    assert(step_effect(
                        pre,
                        *self,
                        graph_view(spill_graph@),
                        old(graph_elevs)@,
                        graph_elevs@,
                        cell,
                    ));
                }
                true
            },
        }
    }
}

/// The pair `j < k` of a neighbour walk enters `x` into the queue.
pub open spec fn pushed_before(
    pairs: Seq<(&TLabel, &u64)>,
    k: int,
    processed: Seq<u32>,
    s: u64,
    x: GraphCell,
) -> bool {
    exists|j: int|
        0 <= j < k && *(#[trigger] pairs[j]).0 == x.spec_label() && processed[x.spec_label() as int]
            == UNPROCESSED && x.spec_spill_elev() == max_key(s, *pairs[j].1)
}

/// The effect of one step that popped `c`: a node popped a second time is
/// dropped; a new node is processed and queues its unprocessed neighbours.
pub open spec fn step_effect(
    pre: GraphFillState,
    post: GraphFillState,
    g: Seq<Map<TLabel, u64>>,
    elevs: Seq<u64>,
    elevs2: Seq<u64>,
    c: GraphCell,
) -> bool {
    let v = c.spec_label() as int;
    if pre.spec_processed()[v] != UNPROCESSED {
        &&& post.spec_processed() == pre.spec_processed()
        &&& post.spec_count() == pre.spec_count()
        &&& post.spec_queue() == pre.spec_queue().remove(c)
        &&& elevs2 == elevs
    } else {
        let p2 = pre.spec_processed().update(v, pre.spec_count());
        &&& post.spec_processed() == p2
        &&& post.spec_count() == pre.spec_count() + 1
        &&& elevs2 == elevs.update(v, c.spec_spill_elev())
        &&& forall|x: GraphCell| #[trigger]
            post.spec_queue().count(x) == pre.spec_queue().remove(c).count(x) + (if fill_push(
                g[v],
                p2,
                c.spec_spill_elev(),
                x,
            ) {
                1nat
            } else {
                0nat
            })
    }
}


/// Some node holds counter `t`.
pub open spec fn counter_used(pr: Seq<u32>, t: int) -> bool {
    exists|u: int| 0 <= u < pr.len() && pr[u] == t
}

/// `p` is a walk through the graph that starts at node 0, the outlet.
pub open spec fn is_path(g: Seq<Map<TLabel, u64>>, p: Seq<TLabel>) -> bool {
    &&& p.len() >= 1
    &&& p[0] == 0
    &&& forall|i: int| 0 <= i < p.len() ==> #[trigger] p[i] < g.len()
    &&& forall|i: int| 0 <= i < p.len() - 1 ==> g[p[i] as int].contains_key(#[trigger] p[i + 1])
}

/// The elevation water must reach to flow along `p` from its end to the
/// outlet: the highest spill elevation on the way, and at least `floor`.
pub open spec fn path_cost(g: Seq<Map<TLabel, u64>>, floor: u64, p: Seq<TLabel>) -> u64
    decreases p.len(),
{
    if p.len() <= 1 {
        floor
    } else {
        max_key(
            path_cost(g, floor, p.drop_last()),
            g[p[p.len() - 2] as int][p[p.len() - 1]],
        )
    }
}

/// Node `v` is connected to the outlet.
pub open spec fn reachable(g: Seq<Map<TLabel, u64>>, v: int) -> bool {
    exists|p: Seq<TLabel>| #[trigger] is_path(g, p) && p.last() == v
}

/// Some walk from the outlet to `v` costs exactly `e`.
pub open spec fn achievable(g: Seq<Map<TLabel, u64>>, floor: u64, v: int, e: u64) -> bool {
    exists|p: Seq<TLabel>| #[trigger] is_path(g, p) && p.last() == v && path_cost(g, floor, p) == e
}

/// The fill elevation of `v`: no walk from the outlet to `v` costs less than
/// `e`, and some walk costs exactly `e`.
pub open spec fn is_fill_elev(g: Seq<Map<TLabel, u64>>, floor: u64, v: int, e: u64) -> bool {
    &&& achievable(g, floor, v, e)
    &&& forall|p: Seq<TLabel>| #[trigger] is_path(g, p) && p.last() == v ==> path_cost(g, floor, p) >= e
}

proof fn lemma_path_cost_floor(g: Seq<Map<TLabel, u64>>, floor: u64, p: Seq<TLabel>)
    ensures
        path_cost(g, floor, p) >= floor,
    decreases p.len(),
{
    if p.len() > 1 {
        lemma_path_cost_floor(g, floor, p.drop_last());
    }
}

proof fn lemma_path_prefix(g: Seq<Map<TLabel, u64>>, floor: u64, p: Seq<TLabel>, k: int)
    requires
        is_path(g, p),
        1 <= k <= p.len(),
    ensures
        is_path(g, p.take(k)),
        path_cost(g, floor, p) >= path_cost(g, floor, p.take(k)),
    decreases p.len() - k,
{
    assert forall|i: int| 0 <= i < k - 1 implies g[p.take(k)[i] as int].contains_key(
        #[trigger] p.take(k)[i + 1],
    ) by {
        assert(p.take(k)[i] == p[i]);
        assert(p.take(k)[i + 1] == p[i + 1]);
    }
    if k < p.len() {
        lemma_path_prefix(g, floor, p, k + 1);
        assert(p.take(k + 1).drop_last() =~= p.take(k));
    } else {
        assert(p.take(k) =~= p);
    }
}

proof fn lemma_path_extend(g: Seq<Map<TLabel, u64>>, floor: u64, p: Seq<TLabel>, x: TLabel)
    requires
        is_path(g, p),
        g[p.last() as int].contains_key(x),
        x < g.len(),
    ensures
        is_path(g, p.push(x)),
        path_cost(g, floor, p.push(x)) == max_key(path_cost(g, floor, p), g[p.last() as int][x]),
{
    let q = p.push(x);
    assert(q.drop_last() =~= p);
    assert forall|i: int| 0 <= i < q.len() - 1 implies g[q[i] as int].contains_key(#[trigger] q[i + 1]) by {
        if i < p.len() - 1 {
            assert(q[i] == p[i] && q[i + 1] == p[i + 1]);
        }
    }
}

proof fn lemma_path_exit(g: Seq<Map<TLabel, u64>>, p: Seq<TLabel>, pr: Seq<u32>) -> (i: int)
    requires
        is_path(g, p),
        pr.len() == g.len(),
        pr[p[0] as int] != UNPROCESSED,
        pr[p.last() as int] == UNPROCESSED,
    ensures
        0 <= i < p.len() - 1,
        pr[p[i] as int] != UNPROCESSED,
        pr[p[i + 1] as int] == UNPROCESSED,
    decreases p.len(),
{
    let n = p.len();
    if pr[p[n - 2] as int] != UNPROCESSED {
        n - 2
    } else {
        let q = p.drop_last();
        assert forall|i: int| 0 <= i < q.len() - 1 implies g[q[i] as int].contains_key(#[trigger] q[i + 1]) by {
            assert(q[i] == p[i] && q[i + 1] == p[i + 1]);
        }
        assert(q.last() == p[n - 2]);
        lemma_path_exit(g, q, pr)
    }
}

/// The invariant of graph filling: the priority-flood front.
pub open spec fn flood_inv(
    st: GraphFillState,
    g: Seq<Map<TLabel, u64>>,
    floor: u64,
    elevs: Seq<u64>,
    elevs0: Seq<u64>,
) -> bool {
    let pr = st.spec_processed();
    let q = st.spec_queue();
    &&& st.wf()
    &&& graph_wf(g)
    &&& g.len() >= 1
    &&& pr.len() == g.len()
    &&& elevs.len() >= g.len()
    &&& elevs0.len() == elevs.len()
    &&& forall|v: int| g.len() <= v < elevs.len() ==> #[trigger] elevs[v] == elevs0[v]
    &&& forall|c: GraphCell| #[trigger] q.count(c) > 0 ==> c.spec_label() < g.len()
    // every queued entry is the cost of some walk
    &&& forall|c: GraphCell| #[trigger]
        q.count(c) > 0 ==> achievable(g, floor, c.spec_label() as int, c.spec_spill_elev())
    // processed nodes have their fill elevation
    &&& forall|v: int| 0 <= v < g.len() && pr[v] != UNPROCESSED ==> #[trigger] is_fill_elev(g, floor, v, elevs[v])
    // every edge out of the processed region has a queue entry no higher than its cost
    &&& forall|u: int, x: TLabel|
        0 <= u < g.len() && pr[u] != UNPROCESSED && #[trigger] g[u].contains_key(x) && pr[x as int]
            == UNPROCESSED ==> exists|c: GraphCell| #[trigger]
            q.count(c) > 0 && c.spec_label() == x && c.spec_spill_elev() <= max_key(elevs[u], g[u][x])
    // nothing queued is lower than what was processed
    &&& forall|u: int, c: GraphCell|
        0 <= u < g.len() && pr[u] != UNPROCESSED && #[trigger] q.count(c) > 0 ==> #[trigger] elevs[u]
            <= c.spec_spill_elev()
    // before the outlet is processed, only the outlet is queued
    &&& pr[0] == UNPROCESSED ==> (processed_set(pr) =~= Set::<int>::empty() && q
        =~= Multiset::singleton(GraphCell::new_spec(0, floor)))
    &&& pr[0] != UNPROCESSED ==> pr[0] == 0
    // unprocessed nodes keep their elevation
    &&& forall|v: int| 0 <= v < g.len() && pr[v] == UNPROCESSED ==> #[trigger] elevs[v] == elevs0[v]
    // nodes are processed in order of elevation
    &&& forall|u: int, v: int|
        0 <= u < g.len() && 0 <= v < g.len() && pr[u] != UNPROCESSED && pr[v] != UNPROCESSED
            && #[trigger] pr[u] < #[trigger] pr[v] ==> elevs[u] <= elevs[v]
}

proof fn lemma_flood_step(
    st: GraphFillState,
    st2: GraphFillState,
    g: Seq<Map<TLabel, u64>>,
    floor: u64,
    elevs: Seq<u64>,
    elevs2: Seq<u64>,
    elevs0: Seq<u64>,
    c: GraphCell,
)
    requires
        flood_inv(st, g, floor, elevs, elevs0),
        st2.wf(),
        st.spec_queue().count(c) > 0,
        forall|y: GraphCell| #[trigger] st.spec_queue().count(y) > 0 ==> !rank_gt(y.rank(), c.rank()),
        step_effect(st, st2, g, elevs, elevs2, c),
    ensures
        flood_inv(st2, g, floor, elevs2, elevs0),
{
    let pr = st.spec_processed();
    let q = st.spec_queue();
    let v = c.spec_label() as int;
    let s = c.spec_spill_elev();
    let pr2 = st2.spec_processed();
    let q2 = st2.spec_queue();
    assert(v < g.len());
    if pr[v] != UNPROCESSED {
        assert forall|u: int, x: TLabel|
            0 <= u < g.len() && pr2[u] != UNPROCESSED && #[trigger] g[u].contains_key(x)
                && pr2[x as int] == UNPROCESSED implies exists|c2: GraphCell| #[trigger]
            q2.count(c2) > 0 && c2.spec_label() == x && c2.spec_spill_elev() <= max_key(elevs2[u], g[u][x]) by {
            let w = choose|w: GraphCell| #[trigger]
                q.count(w) > 0 && w.spec_label() == x && w.spec_spill_elev() <= max_key(elevs[u], g[u][x]);
            assert(w != c);
            assert(q2.count(w) > 0);
        }
        if pr[0] == UNPROCESSED {
            assert(processed_set(pr).contains(v));
        }
    } else {
        let gv = g[v];
        // the popped entry is the lowest in the queue
        assert forall|y: GraphCell| #[trigger] q.count(y) > 0 implies s <= y.spec_spill_elev() by {
            assert(!rank_gt(y.rank(), c.rank()));
        }
        // the outlet is processed first, at `floor`
        if pr[0] == UNPROCESSED {
            assert(q.count(c) > 0);
            GraphCell::lemma_new_spec(0, floor);
            assert(c == GraphCell::new_spec(0, floor));
            assert(v == 0);
            assert(st.spec_count() == 0) by {
                assert(processed_set(pr).len() == 0);
            }
        }
        // the new node's elevation is its fill elevation
        assert(is_fill_elev(g, floor, v, s)) by {
            assert(achievable(g, floor, v, s));
            assert forall|p: Seq<TLabel>| #[trigger] is_path(g, p) && p.last() == v implies path_cost(
                g,
                floor,
                p,
            ) >= s by {
                if pr[0] == UNPROCESSED {
                    lemma_path_cost_floor(g, floor, p);
                    GraphCell::lemma_new_spec(0, floor);
                } else {
                    let i = lemma_path_exit(g, p, pr);
                    let u = p[i] as int;
                    let x = p[i + 1];
                    assert(g[u].contains_key(x));
                    lemma_path_prefix(g, floor, p, i + 2);
                    lemma_path_prefix(g, floor, p, i + 1);
                    let pu = p.take(i + 1);
                    let px = p.take(i + 2);
                    assert(px.drop_last() =~= pu);
                    assert(px[px.len() - 2] == u && px[px.len() - 1] == x);
                    assert(pu.last() == u);
                    assert(is_fill_elev(g, floor, u, elevs[u]));
                    assert(path_cost(g, floor, pu) >= elevs[u]);
                    let w = choose|w: GraphCell| #[trigger]
                        q.count(w) > 0 && w.spec_label() == x && w.spec_spill_elev() <= max_key(
                            elevs[u],
                            g[u][x],
                        );
                    assert(s <= w.spec_spill_elev());
                }
            }
        }
        assert forall|x: GraphCell| #[trigger] q2.count(x) > 0 implies achievable(
            g,
            floor,
            x.spec_label() as int,
            x.spec_spill_elev(),
        ) && x.spec_label() < g.len() && s <= x.spec_spill_elev() by {
            if fill_push(gv, pr2, s, x) {
                let p = choose|p: Seq<TLabel>| #[trigger]
                    is_path(g, p) && p.last() == v && path_cost(g, floor, p) == s;
                lemma_path_extend(g, floor, p, x.spec_label());
                assert(is_path(g, p.push(x.spec_label())) && p.push(x.spec_label()).last()
                    == x.spec_label() && path_cost(g, floor, p.push(x.spec_label()))
                    == x.spec_spill_elev());
            } else {
                assert(q.count(x) > 0);
            }
        }
        assert forall|u: int, x: TLabel|
            0 <= u < g.len() && pr2[u] != UNPROCESSED && #[trigger] g[u].contains_key(x)
                && pr2[x as int] == UNPROCESSED implies exists|c2: GraphCell| #[trigger]
            q2.count(c2) > 0 && c2.spec_label() == x && c2.spec_spill_elev() <= max_key(elevs2[u], g[u][x]) by {
            if u == v {
                let nc = GraphCell::new_spec(x, max_key(s, g[u][x]));
                GraphCell::lemma_new_spec(x, max_key(s, g[u][x]));
                assert(fill_push(gv, pr2, s, nc));
                assert(q2.count(nc) > 0);
            } else {
                let w = choose|w: GraphCell| #[trigger]
                    q.count(w) > 0 && w.spec_label() == x && w.spec_spill_elev() <= max_key(elevs[u], g[u][x]);
                assert(w != c);
                assert(q2.count(w) > 0);
            }
        }
        assert forall|u: int, y: GraphCell|
            0 <= u < g.len() && pr2[u] != UNPROCESSED && #[trigger] q2.count(y) > 0 implies #[trigger] elevs2[u]
            <= y.spec_spill_elev() by {
            if u != v {
                assert(q.count(c) > 0);
                assert(elevs[u] <= s);
            }
        }
        assert forall|v1: int| 0 <= v1 < g.len() && pr2[v1] != UNPROCESSED implies #[trigger] is_fill_elev(
            g,
            floor,
            v1,
            elevs2[v1],
        ) by {
            if v1 != v {
                assert(pr[v1] != UNPROCESSED);
            }
        }
        assert forall|a: int, b: int|
            0 <= a < g.len() && 0 <= b < g.len() && pr2[a] != UNPROCESSED && pr2[b] != UNPROCESSED
                && #[trigger] pr2[a] < #[trigger] pr2[b] implies elevs2[a] <= elevs2[b] by {
            if b == v && a != v {
                assert(q.count(c) > 0);
                assert(elevs[a] <= s);
            } else if a == v && b != v {
                assert(pr[b] < st.spec_count());
            }
        }
    }
}

/// Depression-fill the graph.
///
/// Node 0 is the outlet that everything flows to; it is seeded at `floor`,
/// the lowest elevation. Afterwards, every node connected to the outlet holds
/// in `graph_elevs` the lowest elevation its water must rise to before it
/// drains: the least, over all walks to the outlet, of the highest spill
/// elevation on the walk (and at least `floor`). The returned vector gives
/// the order in which the nodes were reached, [`UNPROCESSED`] for the nodes
/// that are not connected; their elevations are left as they were. The
/// reached nodes hold the counters `0` to `k - 1`, one each, in order of
/// their elevations.
pub fn fill_graph(
    spill_graph: &[HashMap<TLabel, u64>],
    graph_elevs: &mut [u64],
    floor: u64,
) -> (order: Vec<CatchmentCounter>)
    requires
        graph_wf(graph_view(spill_graph@)),
        spill_graph@.len() >= 1,
        old(graph_elevs)@.len() >= spill_graph@.len(),
    ensures
        order@.len() == spill_graph@.len(),
        final(graph_elevs)@.len() == old(graph_elevs)@.len(),
        forall|v: int|
            spill_graph@.len() <= v < old(graph_elevs)@.len() ==> #[trigger] final(graph_elevs)@[v]
                == old(graph_elevs)@[v],
        order@[0] == 0,
        forall|v: int|
            0 <= v < spill_graph@.len() ==> (#[trigger] order@[v] != UNPROCESSED <==> reachable(
                graph_view(spill_graph@),
                v,
            )),
        forall|v: int|
            0 <= v < spill_graph@.len() && order@[v] != UNPROCESSED ==> #[trigger] is_fill_elev(
                graph_view(spill_graph@),
                floor,
                v,
                final(graph_elevs)@[v],
            ),
        forall|v: int|
            0 <= v < spill_graph@.len() && order@[v] == UNPROCESSED ==> #[trigger] final(graph_elevs)@[v]
                == old(graph_elevs)@[v],
        forall|u: int, v: int|
            0 <= u < spill_graph@.len() && 0 <= v < spill_graph@.len() && order@[u] != UNPROCESSED
                && order@[v] != UNPROCESSED && #[trigger] order@[u] < #[trigger] order@[v]
                ==> final(graph_elevs)@[u] <= final(graph_elevs)@[v],
        forall|u: int, v: int|
            0 <= u < spill_graph@.len() && 0 <= v < spill_graph@.len() && u != v && order@[u]
                != UNPROCESSED ==> #[trigger] order@[u] != #[trigger] order@[v],
        forall|v: int, t: int|
            #![trigger order@[v], counter_used(order@, t)]
            0 <= v < spill_graph@.len() && order@[v] != UNPROCESSED && 0 <= t < order@[v] ==> counter_used(
                order@,
                t,
            ),
{
    let ghost g = graph_view(spill_graph@);
    let ghost elevs0 = graph_elevs@;
    let mut state = GraphFillState::new(spill_graph.len());
    state.seed(0, floor);
    proof {
        GraphCell::lemma_new_spec(0, floor);
        assert(state.spec_queue() =~= Multiset::singleton(GraphCell::new_spec(0, floor)));
        assert forall|c: GraphCell| #[trigger] state.spec_queue().count(c) > 0 implies achievable(
            g,
            floor,
            c.spec_label() as int,
            c.spec_spill_elev(),
        ) by {
            assert(c == GraphCell::new_spec(0, floor));
            let p = seq![0u32];
            assert(is_path(g, p) && p.last() == 0 && path_cost(g, floor, p) == floor);
        }
        assert(processed_set(state.spec_processed()) =~= Set::<int>::empty());
    }
    loop
        invariant
            flood_inv(state, g, floor, graph_elevs@, elevs0),
            g == graph_view(spill_graph@),
            forall|t: int| 0 <= t < state.spec_count() ==> #[trigger] counter_used(state.spec_processed(), t),
        ensures
            flood_inv(state, g, floor, graph_elevs@, elevs0),
            forall|t: int| 0 <= t < state.spec_count() ==> #[trigger] counter_used(state.spec_processed(), t),
            state.spec_queue().len() == 0,
        decreases spill_graph@.len() - state.spec_count(), state.spec_queue().len(),
    {
        let ghost pre = state;
        let ghost elevs_pre = graph_elevs@;
        proof {
            lemma_processed_set(pre.spec_processed());
        }
        let more = state.step(spill_graph, graph_elevs);
        if !more {
            break;
        }
        proof {
            let c = choose|c: GraphCell|
                {
                    &&& #[trigger] pre.spec_queue().count(c) > 0
                    &&& forall|y: GraphCell| #[trigger]
                        pre.spec_queue().count(y) > 0 ==> !rank_gt(y.rank(), c.rank())
                    &&& step_effect(pre, state, g, elevs_pre, graph_elevs@, c)
                };
            lemma_flood_step(pre, state, g, floor, elevs_pre, graph_elevs@, elevs0, c);
            let v = c.spec_label() as int;
            assert forall|t: int| 0 <= t < state.spec_count() implies #[trigger] counter_used(state.spec_processed(), t) by {
                if pre.spec_processed()[v] == UNPROCESSED {
                    if t < pre.spec_count() {
                        assert(counter_used(pre.spec_processed(), t));
                        let u = choose|u: int| 0 <= u < pre.spec_processed().len() && pre.spec_processed()[u] == t;
                        assert(u != v);
                        assert(state.spec_processed()[u] == t);
                    } else {
                        assert(state.spec_processed()[v] == t);
                    }
                } else {
                    assert(counter_used(pre.spec_processed(), t));
                }
            }
            lemma_processed_set(state.spec_processed());
        }
    }
    proof {
        let pr = state.spec_processed();
        assert(state.spec_queue().len() == 0);
        assert forall|v: int, t: int|
            #![trigger pr[v], counter_used(pr, t)]
            0 <= v < spill_graph@.len() && pr[v] != UNPROCESSED && 0 <= t < pr[v] implies counter_used(pr, t) by {
            assert(pr[v] < state.spec_count());
        }
        assert forall|v: int| 0 <= v < g.len() implies (#[trigger] pr[v] != UNPROCESSED <==> reachable(
            g,
            v,
        )) by {
            if pr[v] != UNPROCESSED {
                assert(is_fill_elev(g, floor, v, graph_elevs@[v]));
                let p = choose|p: Seq<TLabel>| #[trigger]
                    is_path(g, p) && p.last() == v && path_cost(g, floor, p) == graph_elevs@[v];
                assert(reachable(g, v));
            }
            if reachable(g, v) && pr[v] == UNPROCESSED {
                let p = choose|p: Seq<TLabel>| #[trigger] is_path(g, p) && p.last() == v;
                if pr[0] == UNPROCESSED {
                    assert(state.spec_queue().count(GraphCell::new_spec(0, floor)) > 0);
                } else {
                    let i = lemma_path_exit(g, p, pr);
                    let u = p[i] as int;
                    let x = p[i + 1];
                    assert(g[u].contains_key(x));
                    let w = choose|w: GraphCell| #[trigger]
                        state.spec_queue().count(w) > 0 && w.spec_label() == x
                            && w.spec_spill_elev() <= max_key(graph_elevs@[u], g[u][x]);
                }
            }
        }
        if pr[0] == UNPROCESSED {
            assert(state.spec_queue().count(GraphCell::new_spec(0, floor)) > 0);
        }
    }
    state.into_processed()
}

} // verus!
