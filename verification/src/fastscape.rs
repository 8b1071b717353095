//! The stepping order of the single-grid FastScape model: every cell names
//! the neighbour it drains to as a direction (or [`NO_FLOW`]), every cell
//! keeps a count of its donors and their list, and the cells are stacked
//! level by level, from the cells that drain off the model upwards.
use vstd::prelude::*;

use crate::grid::{nshift_of, rev_dir, GridMeta, NOT_A_DONOR};
use crate::mflow::{
    contour_order, counts_settled, donations, exhausted_at, lemma_donations_prefix, lemma_slot_count_step, slot_count,
};

verus! {

/// The receiver of a cell that passes its flow nowhere.
pub const NO_FLOW: i8 = -1;

/// Every receiver is [`NO_FLOW`] or a direction whose neighbour, by flat
/// offset, is a cell of the grid.
pub open spec fn receivers_ok(m: GridMeta, rec: Seq<i8>) -> bool {
    &&& rec.len() == m.spec_size()
    &&& m.spec_size() <= isize::MAX
    &&& forall|c: int|
        0 <= c < rec.len() ==> #[trigger] rec[c] == NO_FLOW || (0 <= rec[c] < 8 && 0 <= c
            + nshift_of(m.spec_width() as int, rec[c] as int) < m.spec_size())
}

/// Cell `c` passes its flow to cell `n`.
pub open spec fn drains_to(m: GridMeta, rec: Seq<i8>, c: int, n: int) -> bool {
    rec[c] != NO_FLOW && c + nshift_of(m.spec_width() as int, rec[c] as int) == n
}

/// The cells below `i` that pass their flow to `n`, in index order.
pub open spec fn donors_upto(m: GridMeta, rec: Seq<i8>, n: int, i: int) -> Seq<usize>
    decreases i,
{
    if i <= 0 {
        seq![]
    } else if drains_to(m, rec, i - 1, n) {
        donors_upto(m, rec, n, i - 1).push((i - 1) as usize)
    } else {
        donors_upto(m, rec, n, i - 1)
    }
}

/// The donors of `n`: the cells that pass their flow to it, in index order.
pub open spec fn donors_of(m: GridMeta, rec: Seq<i8>, n: int) -> Seq<usize> {
    donors_upto(m, rec, n, rec.len() as int)
}

/// The cells in `donors_upto` are below `i`, ascending, and drain to `n`.
proof fn lemma_donors_upto(m: GridMeta, rec: Seq<i8>, n: int, i: int)
    requires
        0 <= i <= rec.len(),
        rec.len() <= usize::MAX,
    ensures
        forall|k: int|
            0 <= k < donors_upto(m, rec, n, i).len() ==> #[trigger] donors_upto(m, rec, n, i)[k] < i
                && drains_to(m, rec, donors_upto(m, rec, n, i)[k] as int, n),
        forall|k: int, l: int|
            0 <= k < l < donors_upto(m, rec, n, i).len() ==> #[trigger] donors_upto(m, rec, n, i)[k]
                < #[trigger] donors_upto(m, rec, n, i)[l],
    decreases i,
{
    if i > 0 {
        lemma_donors_upto(m, rec, n, i - 1);
        let p = donors_upto(m, rec, n, i - 1);
        if drains_to(m, rec, i - 1, n) {
            let s = p.push((i - 1) as usize);
            assert(s == donors_upto(m, rec, n, i));
            assert forall|k: int| 0 <= k < s.len() implies #[trigger] s[k] < i && drains_to(
                m,
                rec,
                s[k] as int,
                n,
            ) by {
                if k < p.len() {
                    assert(s[k] == p[k]);
                }
            }
            assert forall|k: int, l: int| 0 <= k < l < s.len() implies #[trigger] s[k] < #[trigger] s[l] by {
                assert(s[k] == p[k]);
                if l < p.len() {
                    assert(s[l] == p[l]);
                }
            }
        }
    }
}

/// Every cell below `i` that passes its flow to `n` is among `donors_upto`.
proof fn lemma_donors_upto_complete(m: GridMeta, rec: Seq<i8>, n: int, i: int, c: int)
    requires
        0 <= c < i <= rec.len(),
        drains_to(m, rec, c, n),
    ensures
        exists|k: int| 0 <= k < donors_upto(m, rec, n, i).len() && donors_upto(m, rec, n, i)[k] == c as usize,
    decreases i,
{
    let p = donors_upto(m, rec, n, i - 1);
    let q = donors_upto(m, rec, n, i);
    if c == i - 1 {
        assert(q == p.push(c as usize));
        assert(q[p.len() as int] == c as usize);
    } else {
        lemma_donors_upto_complete(m, rec, n, i - 1, c);
        let k = choose|k: int| 0 <= k < p.len() && p[k] == c as usize;
        if drains_to(m, rec, i - 1, n) {
            assert(q == p.push((i - 1) as usize));
            assert(q[k] == p[k]);
        }
    }
}

/// A cell has at most eight donors: two donors in one direction would be
/// one cell.
proof fn lemma_donor_count(m: GridMeta, rec: Seq<i8>, n: int, i: int)
    requires
        0 <= i <= rec.len(),
        receivers_ok(m, rec),
    ensures
        donors_upto(m, rec, n, i).len() <= 8,
{
    let s = donors_upto(m, rec, n, i);
    lemma_donors_upto(m, rec, n, i);
    let dirs = s.map_values(|c: usize| rec[c as int] as usize);
    assert forall|k: int, l: int| 0 <= k < dirs.len() && 0 <= l < dirs.len() && k != l implies dirs[k]
        != dirs[l] by {
        if k < l {
            assert(s[k] < s[l]);
        } else {
            assert(s[l] < s[k]);
        }
        assert(drains_to(m, rec, s[k] as int, n));
        assert(drains_to(m, rec, s[l] as int, n));
    }
    assert forall|k: int| 0 <= k < dirs.len() implies #[trigger] dirs[k] < 8 by {
        assert(drains_to(m, rec, s[k] as int, n));
    }
    crate::sflow::lemma_distinct_len(dirs, 8);
}

/// Counts and lists the donors of every cell: `ndon[n]` becomes the number
/// of cells that pass their flow to `n`, and the first `ndon[n]` slots of
/// `donor[n]` list them in index order. The other slots are left as they
/// were.
pub fn compute_donors(meta: &GridMeta, rec: &[i8], ndon: &mut [u8], donor: &mut [[usize; 8]])
    requires
        receivers_ok(*meta, rec@),
        old(ndon)@.len() == meta.spec_size(),
        old(donor)@.len() == meta.spec_size(),
    ensures
        final(ndon)@.len() == meta.spec_size(),
        final(donor)@.len() == meta.spec_size(),
        forall|n: int|
            0 <= n < meta.spec_size() ==> #[trigger] final(ndon)@[n] == donors_of(*meta, rec@, n).len(),
        forall|n: int, k: int|
            0 <= n < meta.spec_size() && 0 <= k < 8 ==> #[trigger] final(donor)@[n]@[k] == if k
                < donors_of(*meta, rec@, n).len() {
                donors_of(*meta, rec@, n)[k]
            } else {
                old(donor)@[n]@[k]
            },
        forall|c: int|
            0 <= c < rec@.len() && #[trigger] rec@[c] != NO_FLOW ==> {
                let n = c + nshift_of(meta.spec_width() as int, rec@[c] as int);
                exists|k: int| 0 <= k < final(ndon)@[n] && #[trigger] final(donor)@[n]@[k] == c
            },
        forall|n: int, k: int|
            #![trigger final(donor)@[n]@[k]]
            0 <= n < meta.spec_size() && 0 <= k < final(ndon)@[n] ==> {
                let c = final(donor)@[n]@[k] as int;
                &&& c < rec@.len()
                &&& rec@[c] != NO_FLOW
                &&& c + nshift_of(meta.spec_width() as int, rec@[c] as int) == n
            },
{
    proof {
        use_type_invariant(meta);
    }
    let size = meta.size();
    let ghost d0 = donor@;
    let mut i: usize = 0;
    while i < size
        invariant
            i <= size,
            size == meta.spec_size(),
            ndon@.len() == size,
            forall|n: int| 0 <= n < i ==> #[trigger] ndon@[n] == 0,
        decreases size - i,
    {
        ndon[i] = 0;
        i = i + 1;
    }
    let mut c: usize = 0;
    while c < size
        invariant
            c <= size,
            size == meta.spec_size(),
            receivers_ok(*meta, rec@),
            meta.wf(),
            ndon@.len() == size,
            donor@.len() == size,
            d0.len() == size,
            forall|n: int|
                0 <= n < size ==> #[trigger] ndon@[n] == donors_upto(*meta, rec@, n, c as int).len(),
            forall|n: int, k: int|
                0 <= n < size && 0 <= k < 8 ==> #[trigger] donor@[n]@[k] == if k < donors_upto(
                    *meta,
                    rec@,
                    n,
                    c as int,
                ).len() {
                    donors_upto(*meta, rec@, n, c as int)[k]
                } else {
                    d0[n]@[k]
                },
        decreases size - c,
    {
        let r = rec[c];
        if r != NO_FLOW {
            proof {
                assert(rec@[c as int] == r);
            }
            let n = meta.shift(c, r as u8);
            proof {
                lemma_donor_count(*meta, rec@, n as int, c as int + 1);
                assert(drains_to(*meta, rec@, c as int, n as int));
            }
            let cnt = ndon[n];
            let mut a = donor[n];
            a[cnt as usize] = c;
            donor[n] = a;
            ndon[n] = cnt + 1;
            proof {
                assert forall|n2: int| 0 <= n2 < size implies #[trigger] ndon@[n2] == donors_upto(
                    *meta,
                    rec@,
                    n2,
                    c as int + 1,
                ).len() by {
                    if n2 != n {
                        assert(!drains_to(*meta, rec@, c as int, n2));
                    }
                }
                assert forall|n2: int, k: int| 0 <= n2 < size && 0 <= k < 8 implies #[trigger] donor@[n2]@[k]
                    == if k < donors_upto(*meta, rec@, n2, c as int + 1).len() {
                    donors_upto(*meta, rec@, n2, c as int + 1)[k]
                } else {
                    d0[n2]@[k]
                } by {
                    if n2 != n {
                        assert(!drains_to(*meta, rec@, c as int, n2));
                    }
                }
            }
        } else {
            proof {
                assert forall|n2: int| 0 <= n2 < size implies !drains_to(*meta, rec@, c as int, n2) by {}
            }
        }
        c = c + 1;
    }
    proof {
        let w = meta.spec_width() as int;
        assert forall|c2: int| 0 <= c2 < rec@.len() && #[trigger] rec@[c2] != NO_FLOW implies {
            let n = c2 + nshift_of(w, rec@[c2] as int);
            exists|k: int| 0 <= k < ndon@[n] && #[trigger] donor@[n]@[k] == c2
        } by {
            let n = c2 + nshift_of(w, rec@[c2] as int);
            lemma_donors_upto_complete(*meta, rec@, n, size as int, c2);
            let k = choose|k: int| 0 <= k < donors_of(*meta, rec@, n).len() && donors_of(*meta, rec@, n)[k]
                == c2 as usize;
            lemma_donor_count(*meta, rec@, n, size as int);
            assert(donor@[n]@[k] == c2);
        }
        assert forall|n: int, k: int| 0 <= n < size && 0 <= k < ndon@[n] implies {
            let c2 = #[trigger] donor@[n]@[k] as int;
            &&& c2 < rec@.len()
            &&& rec@[c2] != NO_FLOW
            &&& c2 + nshift_of(w, rec@[c2] as int) == n
        } by {
            lemma_donors_upto(*meta, rec@, n, size as int);
            lemma_donor_count(*meta, rec@, n, size as int);
        }
    }
}


/// The cells below `i` that pass no flow, in index order.
pub open spec fn outlets_upto(rec: Seq<i8>, i: int) -> Seq<usize>
    decreases i,
{
    if i <= 0 {
        seq![]
    } else if rec[i - 1] == NO_FLOW {
        outlets_upto(rec, i - 1).push((i - 1) as usize)
    } else {
        outlets_upto(rec, i - 1)
    }
}

/// The donor lists of the cells of `level`, one after the other: the first
/// `ndon[c]` slots of `donor[c]` for every cell `c` of the level.
pub open spec fn level_donors(donor: Seq<[usize; 8]>, ndon: Seq<u8>, level: Seq<usize>) -> Seq<usize>
    decreases level.len(),
{
    if level.len() == 0 {
        seq![]
    } else {
        let c = level.last() as int;
        level_donors(donor, ndon, level.drop_last()) + donor[c]@.subrange(0, ndon[c] as int)
    }
}

/// The levels from `level` on: each holds the donors of the one before, up
/// to the first empty one or to `fuel` levels.
pub open spec fn bfs_levels(donor: Seq<[usize; 8]>, ndon: Seq<u8>, level: Seq<usize>, fuel: nat) -> Seq<
    Seq<usize>,
>
    decreases fuel,
{
    if fuel == 0 || level.len() == 0 {
        seq![]
    } else {
        seq![level] + bfs_levels(donor, ndon, level_donors(donor, ndon, level), (fuel - 1) as nat)
    }
}

/// The levels that `generate_order` stacks into a stack of `cap` slots:
/// first the cells that pass no flow, in index order, then level by level
/// the donors of the level before. A stack that holds them all has room for
/// fewer than `cap + 1` non-empty levels, so the list is complete then.
pub open spec fn stack_levels(rec: Seq<i8>, donor: Seq<[usize; 8]>, ndon: Seq<u8>, cap: nat) -> Seq<
    Seq<usize>,
> {
    bfs_levels(donor, ndon, outlets_upto(rec, rec.len() as int), cap + 1)
}

/// Every cell has at most eight donors, and they are cells of the grid.
pub open spec fn donor_lists_ok(size: int, donor: Seq<[usize; 8]>, ndon: Seq<u8>) -> bool {
    &&& donor.len() == size
    &&& ndon.len() == size
    &&& forall|c: int|
        0 <= c < size ==> #[trigger] ndon[c] <= 8 && forall|k: int|
            0 <= k < ndon[c] ==> #[trigger] donor[c]@[k] < size
}

proof fn lemma_outlets_upto(rec: Seq<i8>, i: int, j: int)
    requires
        0 <= i <= j <= rec.len(),
        rec.len() <= usize::MAX,
    ensures
        outlets_upto(rec, i).len() <= outlets_upto(rec, j).len(),
        forall|k: int| 0 <= k < outlets_upto(rec, j).len() ==> #[trigger] outlets_upto(rec, j)[k] < j,
    decreases j,
{
    if j > 0 {
        if i < j {
            lemma_outlets_upto(rec, i, j - 1);
        } else {
            lemma_outlets_upto(rec, j - 1, j - 1);
        }
        let p = outlets_upto(rec, j - 1);
        if rec[j - 1] == NO_FLOW {
            assert forall|k: int| 0 <= k < outlets_upto(rec, j).len() implies #[trigger] outlets_upto(
                rec,
                j,
            )[k] < j by {
                if k < p.len() {
                    assert(outlets_upto(rec, j)[k] == p[k]);
                }
            }
        }
    }
}

/// The donors of a prefix of a level come first among the donors of the
/// whole level.
proof fn lemma_level_donors_prefix(donor: Seq<[usize; 8]>, ndon: Seq<u8>, level: Seq<usize>, a: int)
    requires
        0 <= a <= level.len(),
        forall|k: int| 0 <= k < level.len() ==> 0 <= #[trigger] level[k] < donor.len() && level[k] < ndon.len()
            && ndon[level[k] as int] <= 8,
    ensures
        level_donors(donor, ndon, level.take(a)).len() <= level_donors(donor, ndon, level).len(),
        a < level.len() ==> level_donors(donor, ndon, level.take(a + 1)) == level_donors(
            donor,
            ndon,
            level.take(a),
        ) + donor[level[a] as int]@.subrange(0, ndon[level[a] as int] as int),
    decreases level.len(),
{
    if a < level.len() {
        assert(level.take(a + 1).drop_last() =~= level.take(a));
    }
    if level.len() > 0 && a < level.len() {
        let l2 = level.drop_last();
        if a < level.len() {
            assert(level.take(a) =~= l2.take(a) || a == level.len());
            if a <= l2.len() {
                lemma_level_donors_prefix(donor, ndon, l2, a);
                assert(l2.take(a) =~= level.take(a));
                assert(l2.take(l2.len() as int) =~= l2);
            }
        }
    } else {
        assert(level.take(a) =~= level);
    }
}


/// Stacks the cells so that every cell comes after the cell it passes its
/// flow to: first the cells that pass no flow, in index order, then level
/// by level the donors of the cells of the level before, in stack order and
/// list order. `levels` receives where each level starts in `stack`, after
/// a leading `0`, and `nlevels` the number of those entries; the entry after
/// them repeats the end of the stack. Cells of one level are neither upstream
/// nor downstream of each other.
pub fn generate_order(
    meta: &GridMeta,
    rec: &[i8],
    donor: &[[usize; 8]],
    ndon: &[u8],
    levels: &mut [usize],
    nlevels: &mut usize,
    stack: &mut [usize],
)
    requires
        rec@.len() == meta.spec_size(),
        donor_lists_ok(meta.spec_size() as int, donor@, ndon@),
        stack_levels(rec@, donor@, ndon@, old(stack)@.len()).flatten().len() <= old(stack)@.len(),
        stack_levels(rec@, donor@, ndon@, old(stack)@.len()).len() + 2 <= old(levels)@.len(),
    ensures
        ({
            let lv = stack_levels(rec@, donor@, ndon@, old(stack)@.len());
            &&& final(stack)@.len() == old(stack)@.len()
            &&& final(stack)@.subrange(0, lv.flatten().len() as int) == lv.flatten()
            &&& forall|j: int|
                lv.flatten().len() <= j < old(stack)@.len() ==> #[trigger] final(stack)@[j] == old(
                    stack,
                )@[j]
            &&& *final(nlevels) == lv.len() + 1
            &&& final(levels)@.len() == old(levels)@.len()
            &&& forall|j: int| 0 <= j <= lv.len() ==> #[trigger] final(levels)@[j] == lv.take(j).flatten().len()
            &&& final(levels)@[lv.len() + 1int] == lv.flatten().len()
            &&& forall|j: int|
                lv.len() + 1 < j < old(levels)@.len() ==> #[trigger] final(levels)@[j] == old(levels)@[j]
        }),
{
    let ghost rs = rec@;
    let ghost ds = donor@;
    let ghost ns = ndon@;
    let ghost s0 = stack@;
    let ghost l0 = levels@;
    let ghost fuel0: nat = (stack@.len() + 1) as nat;
    let ghost outs = outlets_upto(rs, rs.len() as int);
    let ghost big = stack_levels(rs, ds, ns, stack@.len());
    let size = meta.size();
    proof {
        lemma_outlets_upto(rs, size as int, size as int);
        if outs.len() > 0 {
            assert(big == seq![outs] + bfs_levels(ds, ns, level_donors(ds, ns, outs), (fuel0 - 1) as nat));
            vstd::seq_lib::lemma_flatten_concat(seq![outs], bfs_levels(ds, ns, level_donors(ds, ns, outs), (fuel0 - 1) as nat));
            assert(seq![outs].flatten() == outs) by {
                seq![outs].lemma_flatten_one_element();
            }
        }
    }
    let mut nstack: usize = 0;
    levels[0] = 0;
    *nlevels = 1;
    let mut c: usize = 0;
    while c < size
        invariant
            c <= size,
            size == meta.spec_size(),
            rec@ == rs,
            rs.len() == size,
            outs == outlets_upto(rs, size as int),
            outs.len() <= stack@.len(),
            stack@.len() == s0.len(),
            nstack == outlets_upto(rs, c as int).len(),
            stack@.subrange(0, nstack as int) == outlets_upto(rs, c as int),
            forall|j: int| nstack <= j < s0.len() ==> #[trigger] stack@[j] == s0[j],
        decreases size - c,
    {
        proof {
            lemma_outlets_upto(rs, c as int, c as int + 1);
            lemma_outlets_upto(rs, c as int + 1, size as int);
        }
        if rec[c] == NO_FLOW {
            let ghost before = stack@;
            stack[nstack] = c;
            proof {
                assert(stack@.subrange(0, nstack as int + 1) =~= before.subrange(0, nstack as int).push(
                    c,
                ));
            }
            nstack = nstack + 1;
        }
        c = c + 1;
    }
    levels[*nlevels] = nstack;
    *nlevels = *nlevels + 1;
    let mut level_bottom: usize = 0;
    let mut level_top: usize = nstack;
    let ghost mut done: Seq<Seq<usize>> = seq![];
    proof {
        assert(stack@.subrange(0, level_bottom as int) =~= done.flatten());
        assert(big =~= done + bfs_levels(ds, ns, stack@.subrange(level_bottom as int, level_top as int), (fuel0 - done.len()) as nat));
        assert(done.take(0) =~= done);
        lemma_outlets_upto(rs, size as int, size as int);
        assert forall|j: int| 0 <= j < nstack implies #[trigger] stack@[j] < size by {
            assert(stack@[j] == stack@.subrange(0, nstack as int)[j]);
        }
    }
    while level_bottom < level_top
        invariant
            size == meta.spec_size(),
            rec@ == rs,
            donor@ == ds,
            ndon@ == ns,
            donor_lists_ok(size as int, ds, ns),
            fuel0 == s0.len() + 1,
            big.flatten().len() <= s0.len(),
            big.len() + 2 <= l0.len(),
            stack@.len() == s0.len(),
            levels@.len() == l0.len(),
            level_bottom <= level_top,
            level_top == nstack,
            nstack <= s0.len(),
            done.len() <= level_bottom,
            forall|i: int| 0 <= i < done.len() ==> #[trigger] done[i].len() > 0,
            stack@.subrange(0, level_bottom as int) == done.flatten(),
            big == done + bfs_levels(
                ds,
                ns,
                stack@.subrange(level_bottom as int, level_top as int),
                (fuel0 - done.len()) as nat,
            ),
            forall|j: int| 0 <= j < nstack ==> #[trigger] stack@[j] < size,
            forall|j: int| nstack <= j < s0.len() ==> #[trigger] stack@[j] == s0[j],
            *nlevels == done.len() + 2,
            forall|j: int| 0 <= j <= done.len() ==> #[trigger] levels@[j] == done.take(j).flatten().len(),
            levels@[done.len() + 1int] == level_top,
            forall|j: int| done.len() + 1 < j < l0.len() ==> #[trigger] levels@[j] == l0[j],
        decreases s0.len() + 1 - done.len(),
    {
        let ghost cur = stack@.subrange(level_bottom as int, level_top as int);
        let ghost fuel: nat = (fuel0 - done.len()) as nat;
        let ghost next = level_donors(ds, ns, cur);
        let ghost pre = stack@.subrange(0, level_top as int);
        proof {
            assert(fuel >= 2);
            assert(bfs_levels(ds, ns, cur, fuel) == seq![cur] + bfs_levels(ds, ns, next, (fuel - 1) as nat));
            assert(big =~= done.push(cur) + bfs_levels(ds, ns, next, (fuel - 1) as nat));
            vstd::seq_lib::lemma_flatten_concat(done.push(cur), bfs_levels(ds, ns, next, (fuel - 1) as nat));
            done.lemma_flatten_push(cur);
            if next.len() > 0 {
                assert(bfs_levels(ds, ns, next, (fuel - 1) as nat) == seq![next] + bfs_levels(
                    ds,
                    ns,
                    level_donors(ds, ns, next),
                    (fuel - 2) as nat,
                ));
                vstd::seq_lib::lemma_flatten_concat(seq![next], bfs_levels(ds, ns, level_donors(ds, ns, next), (fuel - 2) as nat));
                seq![next].lemma_flatten_one_element();
            }
            assert(level_top + next.len() <= s0.len());
            assert forall|k: int| 0 <= k < cur.len() implies 0 <= #[trigger] cur[k] < ds.len() && cur[k] < ns.len()
                && ns[cur[k] as int] <= 8 by {
                assert(cur[k] == stack@[level_bottom + k]);
            }
        }
        let mut si: usize = level_bottom;
        while si < level_top
            invariant
                size == meta.spec_size(),
                rec@ == rs,
                donor@ == ds,
                ndon@ == ns,
                donor_lists_ok(size as int, ds, ns),
                stack@.len() == s0.len(),
                level_bottom <= si <= level_top,
                level_top <= nstack,
                level_top + next.len() <= s0.len(),
                nstack <= s0.len(),
                level_bottom <= level_top,
                cur == pre.subrange(level_bottom as int, level_top as int),
                pre.len() == level_top,
                next == level_donors(ds, ns, cur),
                forall|k: int| 0 <= k < cur.len() ==> 0 <= #[trigger] cur[k] < ds.len() && cur[k] < ns.len()
                    && ns[cur[k] as int] <= 8,
                stack@.subrange(level_top as int, nstack as int) == level_donors(
                    ds,
                    ns,
                    cur.take(si - level_bottom),
                ),
                forall|j: int| 0 <= j < nstack ==> #[trigger] stack@[j] < size,
                forall|j: int| nstack <= j < s0.len() ==> #[trigger] stack@[j] == s0[j],
                stack@.subrange(0, level_top as int) == pre,
            decreases level_top - si,
        {
            proof {
                lemma_level_donors_prefix(ds, ns, cur, si - level_bottom);
                lemma_level_donors_prefix(ds, ns, cur, si - level_bottom + 1);
            }
            let c = stack[si];
            proof {
                assert(stack@[si as int] == stack@.subrange(0, level_top as int)[si as int]);
                assert(c == cur[si - level_bottom]);
            }
            let cnt = ndon[c];
            let mut k: u8 = 0;
            while k < cnt
                invariant
                    size == meta.spec_size(),
                    donor@ == ds,
                    ndon@ == ns,
                    donor_lists_ok(size as int, ds, ns),
                    c < size,
                    cnt == ns[c as int],
                    cnt <= 8,
                    k <= cnt,
                    stack@.len() == s0.len(),
                    level_top <= nstack,
                    nstack <= s0.len(),
                    nstack + cnt - k <= level_top + level_donors(ds, ns, cur.take(si + 1 - level_bottom)).len(),
                    level_top + level_donors(ds, ns, cur.take(si + 1 - level_bottom)).len() <= s0.len(),
                    stack@.subrange(level_top as int, nstack as int) == level_donors(
                        ds,
                        ns,
                        cur.take(si - level_bottom),
                    ) + ds[c as int]@.subrange(0, k as int),
                    forall|j: int| 0 <= j < nstack ==> #[trigger] stack@[j] < size,
                    forall|j: int| nstack <= j < s0.len() ==> #[trigger] stack@[j] == s0[j],
                    stack@.subrange(0, level_top as int) == pre,
                decreases cnt - k,
            {
                let n = donor[c][k as usize];
                let ghost before = stack@;
                stack[nstack] = n;
                proof {
                    assert(stack@.subrange(level_top as int, nstack as int + 1) =~= before.subrange(
                        level_top as int,
                        nstack as int,
                    ).push(n));
                    assert(ds[c as int]@.subrange(0, k as int + 1) =~= ds[c as int]@.subrange(0, k as int).push(n));
                    assert(stack@.subrange(0, level_top as int) =~= before.subrange(0, level_top as int));
                }
                nstack = nstack + 1;
                k = k + 1;
            }
            si = si + 1;
        }
        proof {
            assert(cur.take(cur.len() as int) =~= cur);
            assert(stack@.subrange(level_top as int, nstack as int) == next);
            assert(pre =~= pre.subrange(0, level_bottom as int) + cur);
            assert(stack@.subrange(0, level_bottom as int) =~= pre.subrange(0, level_bottom as int));
            assert(stack@.subrange(0, nstack as int) =~= stack@.subrange(0, level_top as int) + stack@.subrange(
                level_top as int,
                nstack as int,
            ));
            assert(stack@.subrange(0, nstack as int) =~= stack@.subrange(0, level_bottom as int) + cur + next);
            let ghost d_old = done;
            done = done.push(cur);
            assert forall|j: int| 0 <= j <= done.len() implies #[trigger] levels@[j] == done.take(j).flatten().len() by {
                if j < done.len() {
                    assert(done.take(j) =~= d_old.take(j));
                } else {
                    assert(done.take(j) =~= done);
                }
            }
        }
        level_bottom = level_top;
        level_top = nstack;
        levels[*nlevels] = nstack;
        *nlevels = *nlevels + 1;
    }
    *nlevels = *nlevels - 1;
}


/// The cell that cell `c` passes its flow to.
pub open spec fn target(m: GridMeta, rec: Seq<i8>, c: int) -> int {
    c + nshift_of(m.spec_width() as int, rec[c] as int)
}

/// `ndon` and `donor` hold the donors of every cell as `compute_donors`
/// lists them.
pub open spec fn donors_listed(m: GridMeta, rec: Seq<i8>, donor: Seq<[usize; 8]>, ndon: Seq<u8>) -> bool {
    &&& donor.len() == m.spec_size()
    &&& ndon.len() == m.spec_size()
    &&& forall|n: int|
        0 <= n < m.spec_size() ==> #[trigger] ndon[n] == donors_of(m, rec, n).len() && forall|k: int|
            0 <= k < ndon[n] ==> #[trigger] donor[n]@[k] == donors_of(m, rec, n)[k]
}

/// The cells that pass no flow come in index order.
proof fn lemma_outlets_sorted(rec: Seq<i8>, i: int)
    requires
        0 <= i <= rec.len(),
        rec.len() <= usize::MAX,
    ensures
        outlets_upto(rec, i).no_duplicates(),
        forall|k: int| 0 <= k < outlets_upto(rec, i).len() ==> #[trigger] outlets_upto(rec, i)[k] < i
            && rec[outlets_upto(rec, i)[k] as int] == NO_FLOW,
    decreases i,
{
    if i > 0 {
        lemma_outlets_sorted(rec, i - 1);
        let p = outlets_upto(rec, i - 1);
        if rec[i - 1] == NO_FLOW {
            let q = p.push((i - 1) as usize);
            assert(q == outlets_upto(rec, i));
            assert forall|k: int| 0 <= k < q.len() implies #[trigger] q[k] < i && rec[q[k] as int] == NO_FLOW by {
                if k < p.len() {
                    assert(q[k] == p[k]);
                }
            }
            assert forall|k: int, l: int| 0 <= k < q.len() && 0 <= l < q.len() && k != l implies q[k] != q[l] by {
                if k < p.len() && l < p.len() {
                    assert(q[k] == p[k] && q[l] == p[l]);
                } else if k < p.len() {
                    assert(q[k] == p[k]);
                } else if l < p.len() {
                    assert(q[l] == p[l]);
                }
            }
        }
    }
}

/// The donors of the cells of a level are cells that drain into the level,
/// and a level without repeats has donors without repeats.
proof fn lemma_level_donors_drain(m: GridMeta, rec: Seq<i8>, donor: Seq<[usize; 8]>, ndon: Seq<u8>, level: Seq<usize>)
    requires
        receivers_ok(m, rec),
        donors_listed(m, rec, donor, ndon),
        forall|k: int| 0 <= k < level.len() ==> #[trigger] level[k] < m.spec_size(),
    ensures
        forall|j: int|
            0 <= j < level_donors(donor, ndon, level).len() ==> {
                let x = #[trigger] level_donors(donor, ndon, level)[j] as int;
                &&& 0 <= x < m.spec_size()
                &&& rec[x] != NO_FLOW
                &&& level.contains(target(m, rec, x) as usize)
                &&& 0 <= target(m, rec, x) < m.spec_size()
            },
        level.no_duplicates() ==> level_donors(donor, ndon, level).no_duplicates(),
    decreases level.len(),
{
    if level.len() > 0 {
        let l2 = level.drop_last();
        let c = level.last() as int;
        lemma_level_donors_drain(m, rec, donor, ndon, l2);
        let a = level_donors(donor, ndon, l2);
        let b = donor[c]@.subrange(0, ndon[c] as int);
        let d = donors_of(m, rec, c);
        lemma_donors_upto(m, rec, c, rec.len() as int);
        lemma_donor_count(m, rec, c, rec.len() as int);
        assert(b =~= d);
        assert(level_donors(donor, ndon, level) == a + b);
        assert forall|j: int| 0 <= j < (a + b).len() implies {
            let x = #[trigger] (a + b)[j] as int;
            &&& 0 <= x < m.spec_size()
            &&& rec[x] != NO_FLOW
            &&& level.contains(target(m, rec, x) as usize)
            &&& 0 <= target(m, rec, x) < m.spec_size()
        } by {
            if j < a.len() {
                assert((a + b)[j] == a[j]);
                let x = a[j] as int;
                let t = target(m, rec, x) as usize;
                let k = choose|k: int| 0 <= k < l2.len() && l2[k] == t;
                assert(level[k] == t);
            } else {
                assert((a + b)[j] == d[j - a.len()]);
                assert(drains_to(m, rec, d[j - a.len()] as int, c));
                assert(level[level.len() - 1] == c);
            }
        }
        if level.no_duplicates() {
            assert forall|i: int, j: int| 0 <= i < (a + b).len() && 0 <= j < (a + b).len() && i != j implies (a
                + b)[i] != (a + b)[j] by {
                if i < a.len() && j < a.len() {
                    assert((a + b)[i] == a[i] && (a + b)[j] == a[j]);
                } else if i >= a.len() && j >= a.len() {
                    let i2 = i - a.len();
                    let j2 = j - a.len();
                    if i2 < j2 {
                        assert(d[i2] < d[j2]);
                    } else {
                        assert(d[j2] < d[i2]);
                    }
                } else {
                    let (p, q) = if i < a.len() { (i, j) } else { (j, i) };
                    assert((a + b)[p] == a[p]);
                    assert((a + b)[q] == d[q - a.len()]);
                    assert(drains_to(m, rec, d[q - a.len()] as int, c));
                    let t = target(m, rec, a[p] as int) as usize;
                    if a[p] == d[q - a.len()] {
                        let k = choose|k: int| 0 <= k < l2.len() && l2[k] == t;
                        assert(level[k] == t && level[level.len() - 1] == t);
                    }
                }
            }
        }
    } else {
        assert(level_donors(donor, ndon, level) =~= Seq::<usize>::empty());
    }
}

/// From a level whose cells are all new, and whose cells, like all seen
/// ones, drain nowhere or into a seen cell, the levels that follow repeat
/// no cell and bring no seen cell back.
proof fn lemma_bfs_distinct(
    m: GridMeta,
    rec: Seq<i8>,
    donor: Seq<[usize; 8]>,
    ndon: Seq<u8>,
    seen: Set<usize>,
    level: Seq<usize>,
    fuel: nat,
)
    requires
        receivers_ok(m, rec),
        donors_listed(m, rec, donor, ndon),
        level.no_duplicates(),
        forall|k: int| 0 <= k < level.len() ==> #[trigger] level[k] < m.spec_size() && !seen.contains(level[k])
            && (rec[level[k] as int] == NO_FLOW || seen.contains(target(m, rec, level[k] as int) as usize)),
        forall|x: usize| #[trigger] seen.contains(x) ==> x < m.spec_size() && (rec[x as int] == NO_FLOW || seen.contains(
            target(m, rec, x as int) as usize,
        )),
    ensures
        bfs_levels(donor, ndon, level, fuel).flatten().no_duplicates(),
        forall|j: int|
            0 <= j < bfs_levels(donor, ndon, level, fuel).flatten().len() ==> #[trigger] bfs_levels(
                donor,
                ndon,
                level,
                fuel,
            ).flatten()[j] < m.spec_size() && !seen.contains(bfs_levels(donor, ndon, level, fuel).flatten()[j]),
        forall|i: int|
            0 <= i < bfs_levels(donor, ndon, level, fuel).len() ==> #[trigger] bfs_levels(donor, ndon, level, fuel)[i].len()
                > 0,
    decreases fuel,
{
    if fuel == 0 || level.len() == 0 {
        assert(bfs_levels(donor, ndon, level, fuel) =~= Seq::<Seq<usize>>::empty());
    } else {
        let next = level_donors(donor, ndon, level);
        let seen2 = seen + level.to_set();
        lemma_level_donors_drain(m, rec, donor, ndon, level);
        assert forall|k: int| 0 <= k < next.len() implies #[trigger] next[k] < m.spec_size() && !seen2.contains(
            next[k],
        ) && (rec[next[k] as int] == NO_FLOW || seen2.contains(target(m, rec, next[k] as int) as usize)) by {
            let x = next[k];
            let t = target(m, rec, x as int) as usize;
            assert(level.contains(t));
            let kt = choose|kt: int| 0 <= kt < level.len() && level[kt] == t;
            assert(!seen.contains(level[kt]));
            if seen.contains(x) {
                assert(seen.contains(t));
            }
            if level.contains(x) {
                let kx = choose|kx: int| 0 <= kx < level.len() && level[kx] == x;
                assert(rec[level[kx] as int] == NO_FLOW || seen.contains(target(m, rec, level[kx] as int) as usize));
            }
        }
        assert forall|x: usize| #[trigger] seen2.contains(x) implies x < m.spec_size() && (rec[x as int] == NO_FLOW
            || seen2.contains(target(m, rec, x as int) as usize)) by {
            if !seen.contains(x) {
                let kx = choose|kx: int| 0 <= kx < level.len() && level[kx] == x;
                assert(level[kx] < m.spec_size());
            }
        }
        lemma_bfs_distinct(m, rec, donor, ndon, seen2, next, (fuel - 1) as nat);
        let rest = bfs_levels(donor, ndon, next, (fuel - 1) as nat);
        assert(bfs_levels(donor, ndon, level, fuel) == seq![level] + rest);
        vstd::seq_lib::lemma_flatten_concat(seq![level], rest);
        seq![level].lemma_flatten_one_element();
        let f = bfs_levels(donor, ndon, level, fuel).flatten();
        assert(f == level + rest.flatten());
        assert forall|i: int, j: int| 0 <= i < f.len() && 0 <= j < f.len() && i != j implies f[i] != f[j] by {
            if i < level.len() && j < level.len() {
            } else if i >= level.len() && j >= level.len() {
                assert(f[i] == rest.flatten()[i - level.len()]);
                assert(f[j] == rest.flatten()[j - level.len()]);
            } else if i < level.len() {
                assert(f[j] == rest.flatten()[j - level.len()]);
                assert(seen2.contains(level[i]));
            } else {
                assert(f[i] == rest.flatten()[i - level.len()]);
                assert(seen2.contains(level[j]));
            }
        }
        assert forall|j: int| 0 <= j < f.len() implies #[trigger] f[j] < m.spec_size() && !seen.contains(f[j]) by {
            if j >= level.len() {
                assert(f[j] == rest.flatten()[j - level.len()]);
            }
        }
        assert forall|i: int| 0 <= i < bfs_levels(donor, ndon, level, fuel).len() implies #[trigger] bfs_levels(
            donor,
            ndon,
            level,
            fuel,
        )[i].len() > 0 by {
            if i > 0 {
                assert(bfs_levels(donor, ndon, level, fuel)[i] == rest[i - 1]);
            }
        }
    }
}

/// There are no more non-empty sequences than elements in all of them.
proof fn lemma_flatten_count(s: Seq<Seq<usize>>)
    requires
        forall|i: int| 0 <= i < s.len() ==> #[trigger] s[i].len() > 0,
    ensures
        s.len() <= s.flatten().len(),
    decreases s.len(),
{
    if s.len() > 0 {
        assert forall|i: int| 0 <= i < s.drop_first().len() implies #[trigger] s.drop_first()[i].len() > 0 by {
            assert(s.drop_first()[i] == s[i + 1]);
        }
        lemma_flatten_count(s.drop_first());
        assert(s[0].len() > 0);
    }
}

/// Donor lists that `compute_donors` makes from valid receivers give an
/// order without repeats: no cell is stacked twice, so a stack with a slot
/// per cell holds the whole order, there are no more levels than cells,
/// and `generate_order` can take the lists.
pub proof fn lemma_order_fits(m: GridMeta, rec: Seq<i8>, donor: Seq<[usize; 8]>, ndon: Seq<u8>, cap: nat)
    requires
        receivers_ok(m, rec),
        donors_listed(m, rec, donor, ndon),
    ensures
        stack_levels(rec, donor, ndon, cap).flatten().no_duplicates(),
        stack_levels(rec, donor, ndon, cap).flatten().len() <= m.spec_size(),
        stack_levels(rec, donor, ndon, cap).len() <= m.spec_size(),
        donor_lists_ok(m.spec_size() as int, donor, ndon),
{
    let outs = outlets_upto(rec, rec.len() as int);
    lemma_outlets_sorted(rec, rec.len() as int);
    lemma_bfs_distinct(m, rec, donor, ndon, Set::empty(), outs, cap + 1);
    let lv = stack_levels(rec, donor, ndon, cap);
    crate::sflow::lemma_distinct_len(lv.flatten(), m.spec_size() as int);
    lemma_flatten_count(lv);
    assert forall|c: int| 0 <= c < m.spec_size() implies #[trigger] ndon[c] <= 8 && forall|k: int|
        0 <= k < ndon[c] ==> #[trigger] donor[c]@[k] < m.spec_size() by {
        lemma_donor_count(m, rec, c, rec.len() as int);
        lemma_donors_upto(m, rec, c, rec.len() as int);
        assert forall|k: int| 0 <= k < ndon[c] implies #[trigger] donor[c]@[k] < m.spec_size() by {
            assert(donor[c]@[k] == donors_of(m, rec, c)[k]);
        }
    }
}


proof fn lemma_bfs_drain(m: GridMeta, rec: Seq<i8>, donor: Seq<[usize; 8]>, ndon: Seq<u8>, level: Seq<usize>, fuel: nat)
    requires
        receivers_ok(m, rec),
        donors_listed(m, rec, donor, ndon),
        forall|k: int| 0 <= k < level.len() ==> #[trigger] level[k] < m.spec_size(),
    ensures
        bfs_levels(donor, ndon, level, fuel).len() > 0 ==> bfs_levels(donor, ndon, level, fuel)[0] == level,
        forall|i: int, k: int|
            1 <= i < bfs_levels(donor, ndon, level, fuel).len() && 0 <= k < bfs_levels(donor, ndon, level, fuel)[i].len()
                ==> {
                let x = #[trigger] bfs_levels(donor, ndon, level, fuel)[i][k] as int;
                &&& rec[x] != NO_FLOW
                &&& bfs_levels(donor, ndon, level, fuel)[i - 1].contains(target(m, rec, x) as usize)
            },
    decreases fuel,
{
    if fuel > 0 && level.len() > 0 {
        let next = level_donors(donor, ndon, level);
        lemma_level_donors_drain(m, rec, donor, ndon, level);
        lemma_bfs_drain(m, rec, donor, ndon, next, (fuel - 1) as nat);
        let rest = bfs_levels(donor, ndon, next, (fuel - 1) as nat);
        let b = bfs_levels(donor, ndon, level, fuel);
        assert(b == seq![level] + rest);
        assert forall|i: int, k: int| 1 <= i < b.len() && 0 <= k < b[i].len() implies {
            let x = #[trigger] b[i][k] as int;
            &&& rec[x] != NO_FLOW
            &&& b[i - 1].contains(target(m, rec, x) as usize)
        } by {
            assert(b[i] == rest[i - 1]);
            if i == 1 {
                assert(rest[0] == next);
                assert(b[0] == level);
            } else {
                assert(b[i - 1] == rest[i - 2]);
            }
        }
    }
}

/// The order stacks the cells that pass no flow first, and every later
/// level holds only cells that pass their flow into the level before: a
/// cell comes after the cell it drains to, and cells of one level are
/// neither upstream nor downstream of each other.
pub proof fn lemma_levels_drain(m: GridMeta, rec: Seq<i8>, donor: Seq<[usize; 8]>, ndon: Seq<u8>, cap: nat)
    requires
        receivers_ok(m, rec),
        donors_listed(m, rec, donor, ndon),
    ensures
        forall|k: int|
            0 < stack_levels(rec, donor, ndon, cap).len() && 0 <= k < stack_levels(rec, donor, ndon, cap)[0].len()
                ==> rec[#[trigger] stack_levels(rec, donor, ndon, cap)[0][k] as int] == NO_FLOW,
        forall|i: int, k: int|
            1 <= i < stack_levels(rec, donor, ndon, cap).len() && 0 <= k < stack_levels(rec, donor, ndon, cap)[i].len()
                ==> {
                let x = #[trigger] stack_levels(rec, donor, ndon, cap)[i][k] as int;
                &&& rec[x] != NO_FLOW
                &&& stack_levels(rec, donor, ndon, cap)[i - 1].contains(target(m, rec, x) as usize)
            },
{
    let outs = outlets_upto(rec, rec.len() as int);
    lemma_outlets_sorted(rec, rec.len() as int);
    lemma_bfs_drain(m, rec, donor, ndon, outs, cap + 1);
}


/// A donor slot as the multiple-flow order reads it: `0` stands for no donor.
pub open spec fn slot_of(v: usize) -> usize {
    if v == 0 {
        NOT_A_DONOR
    } else {
        v
    }
}

/// The donor slots of a cell with `0` read as no donor.
pub open spec fn marked_slots(d: [usize; 8]) -> [usize; 8] {
    [
        slot_of(d@[0]),
        slot_of(d@[1]),
        slot_of(d@[2]),
        slot_of(d@[3]),
        slot_of(d@[4]),
        slot_of(d@[5]),
        slot_of(d@[6]),
        slot_of(d@[7]),
    ]
}

proof fn lemma_marked_slots(d: [usize; 8])
    ensures
        forall|k: int| 0 <= k < 8 ==> #[trigger] marked_slots(d)@[k] == slot_of(d@[k]),
{
}


/// The donor lists of all cells with `0` read as no donor.
pub open spec fn marked_donors(donor: Seq<[usize; 8]>) -> Seq<[usize; 8]> {
    donor.map_values(|d: [usize; 8]| marked_slots(d))
}

/// How often `x` is named in the slots of the cells below `m`.
pub open spec fn named_upto(donor: Seq<[usize; 8]>, x: usize, m: int) -> nat
    decreases m,
{
    if m <= 0 {
        0
    } else {
        named_upto(donor, x, m - 1) + slot_count(donor[m - 1], x, 8)
    }
}


proof fn lemma_slot_count_mono(d: [usize; 8], x: usize, k: int)
    requires
        0 <= k <= 8,
    ensures
        slot_count(d, x, k) <= slot_count(d, x, 8),
    decreases 8 - k,
{
    if k < 8 {
        lemma_slot_count_mono(d, x, k + 1);
    }
}

/// Taking a cell out of a list takes its slots out of the count.
proof fn lemma_donations_remove(donor: Seq<[usize; 8]>, s: Seq<usize>, x: usize, p: int)
    requires
        0 <= p < s.len(),
    ensures
        donations(donor, s, x, s.len() as int) == donations(donor, s.remove(p), x, s.len() - 1) + slot_count(
            donor[s[p] as int],
            x,
            8,
        ),
    decreases s.len(),
{
    let n = s.len() as int;
    let t = s.drop_last();
    assert(s.take(n - 1) =~= t.take(n - 1));
    lemma_donations_prefix(donor, s, t, n - 1);
    assert(donations(donor, s, x, n) == donations(donor, s, x, n - 1) + slot_count(donor[s[n - 1] as int], x, 8));
    assert(donations(donor, s, x, n - 1) == donations(donor, t, x, n - 1));
    if p == n - 1 {
        assert(s.remove(p) =~= t);
    } else {
        lemma_donations_remove(donor, t, x, p);
        let r = s.remove(p);
        assert(r.take(n - 2) =~= t.remove(p).take(n - 2));
        lemma_donations_prefix(donor, r, t.remove(p), n - 2);
        assert(r[n - 2] == s[n - 1]);
        assert(donations(donor, r, x, n - 1) == donations(donor, r, x, n - 2) + slot_count(donor[r[n - 2] as int], x, 8));
        assert(donations(donor, r, x, n - 2) == donations(donor, t.remove(p), x, n - 2));
        assert(t[p] == s[p]);
    }
}

/// Cells named in no list twice name `x` no more often than all cells
/// below `m` do.
proof fn lemma_donations_le_named(donor: Seq<[usize; 8]>, s: Seq<usize>, x: usize, m: int)
    requires
        0 <= m <= usize::MAX,
        s.no_duplicates(),
        forall|j: int| 0 <= j < s.len() ==> #[trigger] s[j] < m,
        donor.len() >= m,
    ensures
        donations(donor, s, x, s.len() as int) <= named_upto(donor, x, m),
    decreases m,
{
    if m == 0 {
        if s.len() > 0 {
            assert(s[0] < 0);
        }
    } else {
        let top = (m - 1) as usize;
        if s.contains(top) {
            let p = choose|p: int| 0 <= p < s.len() && s[p] == top;
            lemma_donations_remove(donor, s, x, p);
            let r = s.remove(p);
            assert forall|j: int| 0 <= j < r.len() implies #[trigger] r[j] < m - 1 by {
                if j < p {
                    assert(r[j] == s[j]);
                    assert(s[j] != s[p]);
                } else {
                    assert(r[j] == s[j + 1]);
                    assert(s[j + 1] != s[p]);
                }
            }
            assert(r.no_duplicates()) by {
                assert forall|i: int, j: int| 0 <= i < r.len() && 0 <= j < r.len() && i != j implies r[i] != r[j] by {
                    let i2 = if i < p { i } else { i + 1 };
                    let j2 = if j < p { j } else { j + 1 };
                    assert(r[i] == s[i2] && r[j] == s[j2]);
                }
            }
            lemma_donations_le_named(donor, r, x, m - 1);
        } else {
            assert forall|j: int| 0 <= j < s.len() implies #[trigger] s[j] < m - 1 by {
                assert(s[j] != top);
            }
            lemma_donations_le_named(donor, s, x, m - 1);
        }
    }
}

/// The cell in `donor` that passes flow into it, with `0` read as no donor.
fn mark_slot(v: usize) -> (r: usize)
    ensures
        r == slot_of(v),
{
    if v == 0 {
        NOT_A_DONOR
    } else {
        v
    }
}

///Orders the cells so that each comes after all cells it passes flow to:
///first the cells with no receiver, in index order, then level by level
///the donors of the cells of the previous level, each once its last
///receiver is ordered, in stack order and slot order. `nrec` counts each
///cell's receivers not yet ordered, and a donor slot holding `0` names no
///donor. The order goes to the front of `stack`; the result holds where
///each level starts in it, and where the last one ends.
pub fn generate_order_mflow(meta: &GridMeta, nrec: &mut [u8], donor: &[[usize; 8]], stack: &mut [usize]) -> (levels: Vec<
    usize,
>)
    requires
        old(nrec)@.len() == meta.spec_size(),
        donor@.len() == meta.spec_size(),
        old(stack)@.len() >= meta.spec_size(),
        forall|c: int, k: int|
            0 <= c < meta.spec_size() && 0 <= k < 8 ==> #[trigger] donor@[c]@[k] < meta.spec_size(),
        forall|x: usize|
            x < meta.spec_size() ==> #[trigger] named_upto(marked_donors(donor@), x, meta.spec_size() as int)
                <= old(nrec)@[x as int],
    ensures
        levels@.len() >= 1,
        levels@.last() <= old(stack)@.len(),
        contour_order(old(nrec)@, marked_donors(donor@), final(stack)@.take(levels@.last() as int), levels@),
        counts_settled(
            old(nrec)@,
            marked_donors(donor@),
            final(stack)@.take(levels@.last() as int),
            final(nrec)@,
        ),
        final(stack)@.len() == old(stack)@.len(),
        forall|j: int| levels@.last() <= j < old(stack)@.len() ==> #[trigger] final(stack)@[j] == old(stack)@[j],
{
    let ghost nrec0 = nrec@;
    let ghost s0 = stack@;
    let size = meta.size();
    let mut d2: Vec<[usize; 8]> = Vec::new();
    let mut c: usize = 0;
    while c < donor.len()
        invariant
            c <= donor@.len(),
            d2@ == marked_donors(donor@).take(c as int),
        decreases donor@.len() - c,
    {
        let d = donor[c];
        let a: [usize; 8] = [
            mark_slot(d[0]),
            mark_slot(d[1]),
            mark_slot(d[2]),
            mark_slot(d[3]),
            mark_slot(d[4]),
            mark_slot(d[5]),
            mark_slot(d[6]),
            mark_slot(d[7]),
        ];
        proof {
            lemma_marked_slots(d);
            assert(a =~= marked_slots(d));
        }
        d2.push(a);
        proof {
            assert(d2@ =~= marked_donors(donor@).take(c + 1));
        }
        c = c + 1;
    }
    let ghost dm = marked_donors(donor@);
    proof {
        assert(d2@ =~= dm);
        assert forall|c2: int, s: int| 0 <= c2 < size && 0 <= s < 8 && #[trigger] dm[c2]@[s] != NOT_A_DONOR implies dm[c2]@[s]
            < size by {
            lemma_marked_slots(donor@[c2]);
        }
    }
    let mut st: Vec<usize> = Vec::new();
    let mut lv: Vec<usize> = Vec::new();
    let r = crate::mflow::generate_order(nrec, &d2, &mut st, &mut lv);
    if r.is_err() {
        proof {
            let (i, k) = choose|i: int, k: int| exhausted_at(nrec0, dm, st@, nrec@, i, k);
            let sv = st@;
            let dd = dm[sv[i] as int];
            let x = dd@[k];
            let s = sv.take(i + 1);
            assert(s.take(i) =~= sv.take(i));
            lemma_donations_prefix(dm, s, sv, i);
            assert(s[i] == sv[i]);
            lemma_slot_count_step(dd, x, k);
            lemma_slot_count_mono(dd, x, k + 1);
            assert(s.no_duplicates()) by {
                assert forall|a: int, b: int| 0 <= a < s.len() && 0 <= b < s.len() && a != b implies s[a] != s[b] by {
                    assert(s[a] == sv[a] && s[b] == sv[b]);
                }
            }
            assert forall|j: int| 0 <= j < s.len() implies #[trigger] s[j] < size by {
                assert(s[j] == sv[j]);
            }
            lemma_donations_le_named(dm, s, x, size as int);
            lemma_marked_slots(donor@[sv[i] as int]);
            assert(sv[i] < size);
            assert(dd == marked_slots(donor@[sv[i] as int]));
            assert(x == slot_of(donor@[sv[i] as int]@[k]));
            assert(donor@[sv[i] as int]@[k] < size);
            assert(x < size);
            assert(named_upto(dm, x, size as int) <= nrec0[x as int]);
            assert(s.len() == i + 1);
            assert(donations(dm, s, x, i + 1) == donations(dm, s, x, i) + slot_count(dm[s[i] as int], x, 8));
            assert(donations(dm, s, x, i) == donations(dm, sv, x, i));
            assert(dm[s[i] as int] == dd);
            assert(slot_count(dd, x, k + 1) == slot_count(dd, x, k) + 1);
            assert(donations(dm, sv, x, i) + slot_count(dd, x, k) >= nrec0[x as int]);
            assert(false);
        }
        return lv;
    }
    proof {
        crate::sflow::lemma_distinct_len(st@, size as int);
    }
    let mut i: usize = 0;
    while i < st.len()
        invariant
            i <= st@.len(),
            st@.len() <= size,
            size <= s0.len(),
            stack@.len() == s0.len(),
            forall|j: int| 0 <= j < i ==> #[trigger] stack@[j] == st@[j],
            forall|j: int| i <= j < s0.len() ==> #[trigger] stack@[j] == s0[j],
        decreases st@.len() - i,
    {
        stack[i] = st[i];
        i = i + 1;
    }
    proof {
        assert(stack@.take(st@.len() as int) =~= st@);
    }
    lv
}


/// Slot `s` of cell `n` after `compute_donors_mflow`: the neighbour in
/// direction `s`, on the grid, if it passes flow back towards `n`, and the
/// slot as it was otherwise.
pub open spec fn flow_donor_kept(m: GridMeta, flows: Seq<[bool; 8]>, old_slots: [usize; 8], n: int, s: int) -> usize {
    let w = m.spec_width() as int;
    match m.spec_try_shift(n % w, n / w, s) {
        Some(k) => if flows[k as int]@[rev_dir(s)] {
            k
        } else {
            old_slots@[s]
        },
        None => old_slots@[s],
    }
}

/// Notes for every cell which neighbours pass flow into it: slot `d` of
/// cell `n` becomes its neighbour in direction `d` if that neighbour is on
/// the grid and passes flow back towards `n`; other slots keep their value.
/// `flows[c][d]` tells whether cell `c` passes flow in direction `d`.
pub fn compute_donors_mflow(meta: &GridMeta, flows: &[[bool; 8]], donor: &mut [[usize; 8]])
    requires
        flows@.len() == meta.spec_size(),
        old(donor)@.len() == meta.spec_size(),
    ensures
        final(donor)@.len() == meta.spec_size(),
        forall|n: int, s: int|
            0 <= n < meta.spec_size() && 0 <= s < 8 ==> #[trigger] final(donor)@[n]@[s] == flow_donor_kept(
                *meta,
                flows@,
                old(donor)@[n],
                n,
                s,
            ),
        forall|n: int, s: int|
            0 <= n < meta.spec_size() && 0 <= s < 8 ==> #[trigger] final(donor)@[n]@[s]
                == match meta.spec_try_shift(
                n % (meta.spec_width() as int),
                n / (meta.spec_width() as int),
                s,
            ) {
                Some(k) => if flows@[k as int]@[(s + 4) % 8] {
                    k
                } else {
                    old(donor)@[n]@[s]
                },
                None => old(donor)@[n]@[s],
            },
{
    proof {
        use_type_invariant(meta);
    }
    let ghost d0 = donor@;
    let size = meta.size();
    let mut i: usize = 0;
    while i < size
        invariant
            i <= size,
            size == meta.spec_size(),
            meta.wf(),
            flows@.len() == size,
            donor@.len() == size,
            d0.len() == size,
            forall|n: int, s: int|
                0 <= n < i && 0 <= s < 8 ==> #[trigger] donor@[n]@[s] == flow_donor_kept(*meta, flows@, d0[n], n, s),
            forall|n: int| i <= n < size ==> #[trigger] donor@[n] == d0[n],
        decreases size - i,
    {
        proof {
            assert(meta.spec_width() > 0) by (nonlinear_arith)
                requires
                    size == meta.spec_width() * meta.spec_height(),
                    i < size,
            ;
        }
        let (x, y) = meta.i_to_xy(i);
        proof {
            assert(y < meta.spec_height()) by (nonlinear_arith)
                requires
                    y == i / meta.spec_width(),
                    meta.spec_width() > 0,
                    i < meta.spec_width() * meta.spec_height(),
            ;
        }
        let mut don: [usize; 8] = donor[i];
        let mut dir: usize = 0;
        while dir < 8
            invariant
                dir <= 8,
                i < size,
                size == meta.spec_size(),
                meta.wf(),
                meta.spec_width() > 0,
                x == i % meta.spec_width(),
                y == i / meta.spec_width(),
                x < meta.spec_width(),
                y < meta.spec_height(),
                flows@.len() == size,
                d0.len() == size,
                forall|s: int| 0 <= s < dir ==> #[trigger] don@[s] == flow_donor_kept(*meta, flows@, d0[i as int], i as int, s),
                forall|s: int| dir <= s < 8 ==> #[trigger] don@[s] == d0[i as int]@[s],
            decreases 8 - dir,
        {
            let t = meta.try_shift(x, y, dir as u8);
            match t {
                Some(i_rec) => {
                    proof {
                        let nx = x + crate::grid::xshift(dir as int);
                        let ny = y + crate::grid::yshift(dir as int);
                        crate::grid::lemma_cell_index_bound(
                            meta.spec_width() as int,
                            meta.spec_height() as int,
                            nx,
                            ny,
                        );
                    }
                    if flows[i_rec][GridMeta::rev(dir)] {
                        don[dir] = i_rec;
                    }
                },
                None => {},
            }
            dir = dir + 1;
        }
        donor[i] = don;
        i = i + 1;
    }
}

} // verus!
