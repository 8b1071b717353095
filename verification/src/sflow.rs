//! Single flow directions: donors and a topological order in levels.
//!
//! Every cell passes its flow to at most one neighbour, its receiver, given
//! as a direction number. The cells that pass flow to a cell are its donors.
//! Cells are ordered so that a cell comes after the cell it passes flow to,
//! in levels of cells that are neither upstream nor downstream of each other.
use vstd::prelude::*;

use crate::grid::{lemma_rev_walks_back, nshift_of, rev_dir, xshift, yshift, GridMeta, NOT_A_DONOR};

verus! {

/// Receiver value of a cell that passes no flow.
pub const NO_FLOW: u8 = 9;

/// Every cell passes no flow or passes it in a direction to a cell of the
/// grid, counted in flat indices.
pub open spec fn receivers_ok(m: GridMeta, rec: Seq<u8>) -> bool {
    &&& rec.len() == m.spec_size()
    &&& m.spec_size() <= isize::MAX
    &&& forall|i: int|
        0 <= i < rec.len() ==> #[trigger] rec[i] == NO_FLOW || (rec[i] < 8 && 0 <= i + nshift_of(
            m.spec_width() as int,
            rec[i] as int,
        ) < m.spec_size())
}

/// The donor of cell `n` in slot `s`, as `compute_donors_par` notes it: the
/// neighbour in direction `s` if it passes its flow to `n`.
pub open spec fn donor_par(m: GridMeta, rec: Seq<u8>, n: int, s: int) -> usize {
    let k = n + nshift_of(m.spec_width() as int, s);
    if 0 <= k < rec.len() && rec[k] != NO_FLOW && rec[k] == rev_dir(s) {
        k as usize
    } else {
        NOT_A_DONOR
    }
}

/// The donor of cell `n` in slot `s`, as `compute_donors` notes it: the cell
/// that passes its flow to `n` in direction `s`.
pub open spec fn donor_fwd(m: GridMeta, rec: Seq<u8>, n: int, s: int) -> usize {
    let k = n - nshift_of(m.spec_width() as int, s);
    if 0 <= k < rec.len() && rec[k] != NO_FLOW && rec[k] == s {
        k as usize
    } else {
        NOT_A_DONOR
    }
}

/// Notes for every cell which neighbour passes flow into it in which
/// direction: slot `d` of cell `n` holds the cell that passes its flow to
/// `n` in direction `d`, or [`NOT_A_DONOR`].
pub fn compute_donors(meta: &GridMeta, rec: &[u8], donor: &mut [[usize; 8]])
    requires
        receivers_ok(*meta, rec@),
        old(donor)@.len() == meta.spec_size(),
    ensures
        final(donor)@.len() == meta.spec_size(),
        forall|n: int, s: int|
            0 <= n < meta.spec_size() && 0 <= s < 8 ==> #[trigger] final(donor)@[n]@[s] == donor_fwd(
                *meta,
                rec@,
                n,
                s,
            ),
        forall|c: int|
            0 <= c < rec@.len() && #[trigger] rec@[c] != NO_FLOW ==> final(donor)@[c + nshift_of(
                meta.spec_width() as int,
                rec@[c] as int,
            )]@[rec@[c] as int] == c,
        forall|n: int, s: int|
            0 <= n < meta.spec_size() && 0 <= s < 8 && #[trigger] final(donor)@[n]@[s] != NOT_A_DONOR ==> {
                let c = final(donor)@[n]@[s] as int;
                &&& c < rec@.len()
                &&& rec@[c] == s
                &&& c + nshift_of(meta.spec_width() as int, s) == n
            },
{
    proof {
        use_type_invariant(meta);
    }
    let size = meta.size();
    let mut i: usize = 0;
    while i < size
        invariant
            i <= size,
            size == meta.spec_size(),
            donor@.len() == size,
            forall|n: int, s: int|
                0 <= n < i && 0 <= s < 8 ==> #[trigger] donor@[n]@[s] == NOT_A_DONOR,
        decreases size - i,
    {
        donor[i] = [NOT_A_DONOR; 8];
        i = i + 1;
    }
    let mut c: usize = 0;
    while c < size
        invariant
            c <= size,
            size == meta.spec_size(),
            receivers_ok(*meta, rec@),
            donor@.len() == size,
            forall|n: int, s: int|
                0 <= n < size && 0 <= s < 8 ==> #[trigger] donor@[n]@[s] == {
                    let k = n - nshift_of(meta.spec_width() as int, s);
                    if 0 <= k < c && rec@[k] != NO_FLOW && rec@[k] == s {
                        k as usize
                    } else {
                        NOT_A_DONOR
                    }
                },
        decreases size - c,
    {
        let receiver = rec[c];
        if receiver != NO_FLOW {
            proof {
                assert(rec@[c as int] == receiver);
            }
            let n = meta.shift(c, receiver);
            let mut a = donor[n];
            a[receiver as usize] = c;
            donor[n] = a;
            proof {
                assert forall|n2: int, s: int| 0 <= n2 < size && 0 <= s < 8 implies #[trigger] donor@[n2]@[s]
                    == {
                    let k = n2 - nshift_of(meta.spec_width() as int, s);
                    if 0 <= k < c + 1 && rec@[k] != NO_FLOW && rec@[k] == s {
                        k as usize
                    } else {
                        NOT_A_DONOR
                    }
                } by {
                    if n2 == n && s == receiver {
                    } else {
                        let k = n2 - nshift_of(meta.spec_width() as int, s);
                        if k == c {
                            assert(rec@[k] == receiver);
                        }
                    }
                }
            }
        }
        c = c + 1;
    }
    proof {
        let w = meta.spec_width() as int;
        assert forall|c: int| 0 <= c < rec@.len() && #[trigger] rec@[c] != NO_FLOW implies donor@[c
            + nshift_of(w, rec@[c] as int)]@[rec@[c] as int] == c by {}
    }
}

/// Notes for every cell which neighbour passes flow into it: slot `d` of
/// cell `n` holds its neighbour in direction `d` if that neighbour passes
/// its flow to `n`, or [`NOT_A_DONOR`]. `rec` may be shorter than the
/// grid: the cells past its end pass no flow.
pub fn compute_donors_par(meta: &GridMeta, rec: &[u8], donors: &mut [[usize; 8]])
    requires
        rec@.len() <= meta.spec_size(),
        meta.spec_size() <= isize::MAX,
        forall|i: int|
            0 <= i < rec@.len() ==> #[trigger] rec@[i] == NO_FLOW || (rec@[i] < 8 && 0 <= i + nshift_of(
                meta.spec_width() as int,
                rec@[i] as int,
            ) < meta.spec_size()),
        old(donors)@.len() == meta.spec_size(),
    ensures
        final(donors)@.len() == meta.spec_size(),
        forall|n: int, s: int|
            0 <= n < meta.spec_size() && 0 <= s < 8 ==> #[trigger] final(donors)@[n]@[s] == donor_par(
                *meta,
                rec@,
                n,
                s,
            ),
        forall|c: int|
            0 <= c < rec@.len() && #[trigger] rec@[c] != NO_FLOW ==> final(donors)@[c + nshift_of(
                meta.spec_width() as int,
                rec@[c] as int,
            )]@[(rec@[c] + 4) % 8] == c,
        forall|n: int, s: int|
            0 <= n < meta.spec_size() && 0 <= s < 8 && #[trigger] final(donors)@[n]@[s] != NOT_A_DONOR ==> {
                let c = final(donors)@[n]@[s] as int;
                &&& c < rec@.len()
                &&& rec@[c] == (s + 4) % 8
                &&& c + nshift_of(meta.spec_width() as int, rec@[c] as int) == n
            },
{
    proof {
        use_type_invariant(meta);
    }
    let size = meta.size();
    let mut i: usize = 0;
    while i < size
        invariant
            i <= size,
            size == meta.spec_size(),
            donors@.len() == size,
            forall|n: int, s: int|
                0 <= n < i && 0 <= s < 8 ==> #[trigger] donors@[n]@[s] == NOT_A_DONOR,
        decreases size - i,
    {
        donors[i] = [NOT_A_DONOR; 8];
        i = i + 1;
    }
    let mut idx: usize = 0;
    while idx < rec.len()
        invariant
            idx <= rec@.len(),
            size == meta.spec_size(),
            rec@.len() <= meta.spec_size(),
            meta.spec_size() <= isize::MAX,
            forall|i: int|
                0 <= i < rec@.len() ==> #[trigger] rec@[i] == NO_FLOW || (rec@[i] < 8 && 0 <= i + nshift_of(
                    meta.spec_width() as int,
                    rec@[i] as int,
                ) < meta.spec_size()),
            donors@.len() == size,
            forall|n: int, s: int|
                0 <= n < size && 0 <= s < 8 ==> #[trigger] donors@[n]@[s] == {
                    let k = n + nshift_of(meta.spec_width() as int, s);
                    if 0 <= k < idx && rec@[k] != NO_FLOW && rec@[k] == rev_dir(s) {
                        k as usize
                    } else {
                        NOT_A_DONOR
                    }
                },
        decreases rec@.len() - idx,
    {
        let dir = rec[idx];
        if dir != NO_FLOW {
            proof {
                assert(rec@[idx as int] == dir);
                lemma_rev_walks_back(meta.spec_width() as int, dir as int);
            }
            let n = meta.shift(idx, dir);
            let r = GridMeta::rev(dir as usize);
            let mut a = donors[n];
            a[r] = idx;
            donors[n] = a;
            proof {
                assert forall|n2: int, s: int| 0 <= n2 < size && 0 <= s < 8 implies #[trigger] donors@[n2]@[s]
                    == {
                    let k = n2 + nshift_of(meta.spec_width() as int, s);
                    if 0 <= k < idx + 1 && rec@[k] != NO_FLOW && rec@[k] == rev_dir(s) {
                        k as usize
                    } else {
                        NOT_A_DONOR
                    }
                } by {
                    lemma_rev_walks_back(meta.spec_width() as int, s);
                    if n2 == n && s == r {
                    } else {
                        let k = n2 + nshift_of(meta.spec_width() as int, s);
                        if k == idx {
                            assert(rec@[k] == dir);
                        }
                    }
                }
            }
        }
        idx = idx + 1;
    }
    proof {
        let w = meta.spec_width() as int;
        assert forall|c: int| 0 <= c < rec@.len() && #[trigger] rec@[c] != NO_FLOW implies donors@[c
            + nshift_of(w, rec@[c] as int)]@[(rec@[c] + 4) % 8] == c by {
            lemma_rev_walks_back(w, rec@[c] as int);
        }
        assert forall|n: int, s: int|
            0 <= n < size && 0 <= s < 8 && #[trigger] donors@[n]@[s] != NOT_A_DONOR implies {
            let c = donors@[n]@[s] as int;
            &&& c < rec@.len()
            &&& rec@[c] == (s + 4) % 8
            &&& c + nshift_of(w, rec@[c] as int) == n
        } by {
            lemma_rev_walks_back(w, s);
        }
    }
}

/// The cells among the first `k` that pass no flow, in index order.
pub open spec fn outlets_upto(rec: Seq<u8>, k: int) -> Seq<usize>
    decreases k,
{
    if k <= 0 {
        Seq::empty()
    } else {
        let p = outlets_upto(rec, k - 1);
        if rec[k - 1] == NO_FLOW {
            p.push((k - 1) as usize)
        } else {
            p
        }
    }
}

/// The donors noted in the first `s` slots, in slot order.
pub open spec fn slot_donors(d: [usize; 8], s: int) -> Seq<usize>
    decreases s,
{
    if s <= 0 {
        Seq::empty()
    } else {
        let p = slot_donors(d, s - 1);
        if d@[s - 1] != NOT_A_DONOR {
            p.push(d@[s - 1])
        } else {
            p
        }
    }
}

/// The donors of the first `k` of `cells`, one cell after the other.
pub open spec fn donors_of_cells(donor: Seq<[usize; 8]>, cells: Seq<usize>, k: int) -> Seq<usize>
    decreases k,
{
    if k <= 0 {
        Seq::empty()
    } else {
        donors_of_cells(donor, cells, k - 1) + slot_donors(donor[cells[k - 1] as int], 8)
    }
}

/// Every noted donor is a cell that passes flow, and no cell is noted twice.
pub open spec fn donors_ok(rec: Seq<u8>, donor: Seq<[usize; 8]>) -> bool {
    &&& donor.len() == rec.len()
    &&& forall|c: int, s: int|
        0 <= c < donor.len() && 0 <= s < 8 && #[trigger] donor[c]@[s] != NOT_A_DONOR ==> donor[c]@[s]
            < rec.len() && rec[donor[c]@[s] as int] != NO_FLOW
    &&& forall|c1: int, s1: int, c2: int, s2: int|
        0 <= c1 < donor.len() && 0 <= s1 < 8 && 0 <= c2 < donor.len() && 0 <= s2 < 8 && (c1 != c2
            || s1 != s2) && #[trigger] donor[c1]@[s1] != NOT_A_DONOR ==> donor[c1]@[s1]
            != #[trigger] donor[c2]@[s2]
}

/// The donors of a cell's slots are the noted ones.
proof fn lemma_slot_donors(d: [usize; 8], s: int, x: usize)
    requires
        0 <= s <= 8,
        slot_donors(d, s).contains(x),
    ensures
        exists|t: int| 0 <= t < s && #[trigger] d@[t] == x && x != NOT_A_DONOR,
    decreases s,
{
    if s > 0 {
        let p = slot_donors(d, s - 1);
        if p.contains(x) {
            lemma_slot_donors(d, s - 1, x);
        } else {
            assert(d@[s - 1] == x);
        }
    }
}

/// A donor of a cell list is a noted donor of one of the cells.
proof fn lemma_donors_of_cells(donor: Seq<[usize; 8]>, cells: Seq<usize>, k: int, x: usize)
    requires
        0 <= k <= cells.len(),
        donors_of_cells(donor, cells, k).contains(x),
    ensures
        exists|i: int, t: int|
            0 <= i < k && 0 <= t < 8 && #[trigger] donor[cells[i] as int]@[t] == x && x != NOT_A_DONOR,
    decreases k,
{
    if k > 0 {
        let p = donors_of_cells(donor, cells, k - 1);
        let q = slot_donors(donor[cells[k - 1] as int], 8);
        let idx = choose|idx: int| 0 <= idx < (p + q).len() && (p + q)[idx] == x;
        if idx < p.len() {
            assert(p.contains(x));
            lemma_donors_of_cells(donor, cells, k - 1, x);
            let (i, t) = choose|i: int, t: int|
                0 <= i < k - 1 && 0 <= t < 8 && #[trigger] donor[cells[i] as int]@[t] == x && x != NOT_A_DONOR;
        } else {
            assert(q[idx - p.len()] == x);
            assert(q.contains(x));
            lemma_slot_donors(donor[cells[k - 1] as int], 8, x);
            let t = choose|t: int| 0 <= t < 8 && #[trigger] donor[cells[k - 1] as int]@[t] == x && x != NOT_A_DONOR;
            assert(donor[cells[k - 1] as int]@[t] == x);
        }
    }
}

/// The cells passing no flow are such cells.
proof fn lemma_outlets(rec: Seq<u8>, k: int, x: usize)
    requires
        0 <= k <= rec.len(),
        rec.len() <= usize::MAX,
        outlets_upto(rec, k).contains(x),
    ensures
        x < k,
        rec[x as int] == NO_FLOW,
    decreases k,
{
    if k > 0 {
        let p = outlets_upto(rec, k - 1);
        if p.contains(x) {
            lemma_outlets(rec, k - 1, x);
        } else {
            let i = choose|i: int| 0 <= i < outlets_upto(rec, k).len() && outlets_upto(rec, k)[i] == x;
            assert(rec[k - 1] == NO_FLOW);
            assert(i == p.len());
            assert(x == (k - 1) as usize);
        }
    }
}

/// The outlets are in increasing order.
proof fn lemma_outlets_sorted(rec: Seq<u8>, k: int)
    requires
        0 <= k <= rec.len(),
        rec.len() <= usize::MAX,
    ensures
        forall|i: int, j: int|
            0 <= i < j < outlets_upto(rec, k).len() ==> outlets_upto(rec, k)[i] < outlets_upto(
                rec,
                k,
            )[j],
        forall|i: int| 0 <= i < outlets_upto(rec, k).len() ==> outlets_upto(rec, k)[i] < k,
    decreases k,
{
    if k > 0 {
        lemma_outlets_sorted(rec, k - 1);
        let p = outlets_upto(rec, k - 1);
        let q = outlets_upto(rec, k);
        if rec[k - 1] == NO_FLOW {
            assert(q =~= p.push((k - 1) as usize));
            assert forall|i: int, j: int| 0 <= i < j < q.len() implies q[i] < q[j] by {
                if j == q.len() - 1 {
                    assert(q[i] == p[i]);
                }
            }
        }
    }
}

/// `donors_of_cells` only reads the first `k` cells.
proof fn lemma_donors_prefix(donor: Seq<[usize; 8]>, a: Seq<usize>, b: Seq<usize>, k: int)
    requires
        0 <= k <= a.len(),
        k <= b.len(),
        a.take(k) == b.take(k),
    ensures
        donors_of_cells(donor, a, k) == donors_of_cells(donor, b, k),
    decreases k,
{
    if k > 0 {
        assert(a.take(k - 1) =~= a.take(k).take(k - 1));
        assert(b.take(k - 1) =~= b.take(k).take(k - 1));
        lemma_donors_prefix(donor, a, b, k - 1);
        assert(a[k - 1] == a.take(k)[k - 1]);
        assert(b[k - 1] == b.take(k)[k - 1]);
    }
}

/// A list of distinct cells of the grid is no longer than the grid.
pub proof fn lemma_distinct_len(s: Seq<usize>, n: int)
    requires
        n >= 0,
        s.no_duplicates(),
        forall|i: int| 0 <= i < s.len() ==> #[trigger] s[i] < n,
    ensures
        s.len() <= n,
{
    let t = s.map_values(|x: usize| x as int);
    assert(t.no_duplicates()) by {
        assert forall|i: int, j: int| 0 <= i < t.len() && 0 <= j < t.len() && i != j implies t[i]
            != t[j] by {
            assert(s[i] != s[j]);
        }
    }
    t.unique_seq_to_set();
    vstd::set_lib::lemma_int_range(0, n);
    assert forall|x: int| t.to_set().contains(x) implies vstd::set_lib::set_int_range(0, n).contains(x) by {
        let i = choose|i: int| 0 <= i < t.len() && t[i] == x;
        assert(s[i] < n);
    }
    vstd::set_lib::lemma_len_subset(t.to_set(), vstd::set_lib::set_int_range(0, n));
}

/// `stack` and `levels` are the order `generate_order` makes: the cells
/// that pass no flow, then the donors of the cells before, cell after cell;
/// `levels` holds where each level starts and where the last one ends, a
/// level being the donors of the cells of the level before.
pub open spec fn level_order(rec: Seq<u8>, donor: Seq<[usize; 8]>, stack: Seq<usize>, levels: Seq<usize>) -> bool {
    let outs = outlets_upto(rec, rec.len() as int);
    &&& stack == outs + donors_of_cells(donor, stack, stack.len() as int)
    &&& stack.no_duplicates()
    &&& levels.len() >= 1
    &&& levels[0] == 0
    &&& levels.last() == stack.len()
    &&& (levels.len() >= 2 <==> outs.len() > 0)
    &&& levels.len() >= 2 ==> levels[1] == outs.len()
    &&& forall|j: int|
        1 <= j < levels.len() - 1 ==> #[trigger] levels[j + 1] == outs.len() + donors_of_cells(
            donor,
            stack,
            levels[j] as int,
        ).len()
    &&& forall|j: int| 0 <= j < levels.len() - 1 ==> #[trigger] levels[j] < levels[j + 1]
}

///Orders the cells so that each comes after the cell it passes flow to:
///first all cells that pass no flow, in index order, then level by level
///the donors of the cells of the previous level, in stack order and slot
///order. `levels` receives where each level starts in `stack`, and where
///the last one ends. Cells of one level are neither upstream nor downstream
///of each other, so they can be processed at the same time.
pub fn generate_order(rec: &[u8], donor: &[[usize; 8]], stack: &mut Vec<usize>, levels: &mut Vec<usize>)
    requires
        donors_ok(rec@, donor@),
    ensures
        level_order(rec@, donor@, final(stack)@, final(levels)@),
{
    let ghost outs = outlets_upto(rec@, rec@.len() as int);
    let n = rec.len();
    levels.clear();
    stack.clear();
    levels.push(0);
    let mut i: usize = 0;
    while i < n
        invariant
            i <= n,
            n == rec@.len(),
            stack@ == outlets_upto(rec@, i as int),
            levels@ == seq![0usize],
        decreases n - i,
    {
        if rec[i] == NO_FLOW {
            stack.push(i);
        }
        i = i + 1;
    }
    proof {
        lemma_outlets_sorted(rec@, n as int);
        assert(stack@.no_duplicates());
    }
    levels.push(stack.len());
    let mut level_bottom: usize = 0;
    let mut level_top: usize = stack.len();
    while level_bottom < level_top
        invariant
            n == rec@.len(),
            donors_ok(rec@, donor@),
            outs == outlets_upto(rec@, n as int),
            level_bottom <= level_top,
            level_top == stack@.len(),
            stack@ == outs + donors_of_cells(donor@, stack@, level_bottom as int),
            stack@.no_duplicates(),
            forall|q: int| 0 <= q < stack@.len() ==> #[trigger] stack@[q] < n,
            levels@.len() >= 2,
            levels@[0] == 0,
            levels@[1] == outs.len(),
            levels@.last() == level_top,
            levels@[levels@.len() - 2] == level_bottom,
            forall|j: int|
                1 <= j < levels@.len() - 1 ==> #[trigger] levels@[j + 1] == outs.len()
                    + donors_of_cells(donor@, stack@, levels@[j] as int).len(),
            forall|j: int| 0 <= j < levels@.len() - 2 ==> #[trigger] levels@[j] < levels@[j + 1],
            forall|j: int| 0 <= j < levels@.len() ==> #[trigger] levels@[j] <= stack@.len(),
        decreases n - level_bottom,
    {
        proof {
            lemma_distinct_len(stack@, n as int);
        }
        let ghost old_stack = stack@;
        let mut si: usize = level_bottom;
        while si < level_top
            invariant
                n == rec@.len(),
                donors_ok(rec@, donor@),
                outs == outlets_upto(rec@, n as int),
                level_bottom <= si <= level_top,
                level_top <= stack@.len(),
                stack@.take(level_top as int) == old_stack.take(level_top as int),
                old_stack.len() == level_top,
                stack@ == outs + donors_of_cells(donor@, stack@, si as int),
                stack@.no_duplicates(),
                forall|q: int| 0 <= q < stack@.len() ==> #[trigger] stack@[q] < n,
            decreases level_top - si,
        {
            let c = stack[si];
            let d = donor[c];
            let ghost base = stack@;
            let mut k: usize = 0;
            while k < 8
                invariant
                    n == rec@.len(),
                    donors_ok(rec@, donor@),
                    outs == outlets_upto(rec@, n as int),
                    level_bottom <= si < level_top,
                    level_top <= base.len(),
                    base.take(level_top as int) == old_stack.take(level_top as int),
                    base == outs + donors_of_cells(donor@, base, si as int),
                    base.no_duplicates(),
                    forall|q: int| 0 <= q < base.len() ==> #[trigger] base[q] < n,
                    c == base[si as int],
                    c < n,
                    d == donor@[c as int],
                    k <= 8,
                    stack@ == base + slot_donors(d, k as int),
                    stack@.no_duplicates(),
                    forall|q: int| 0 <= q < stack@.len() ==> #[trigger] stack@[q] < n,
                decreases 8 - k,
            {
                let x = d[k];
                if x != NOT_A_DONOR {
                    proof {
                        assert(donor@[c as int]@[k as int] == x);
                        assert(!stack@.contains(x)) by {
                            if stack@.contains(x) {
                                let q = choose|q: int| 0 <= q < stack@.len() && stack@[q] == x;
                                if q < outs.len() {
                                    assert(outs.contains(x));
                                    lemma_outlets(rec@, n as int, x);
                                } else if q < base.len() {
                                    let dd = donors_of_cells(donor@, base, si as int);
                                    assert(dd[q - outs.len()] == x);
                                    assert(dd.contains(x));
                                    lemma_donors_of_cells(donor@, base, si as int, x);
                                    let (i2, t2) = choose|i2: int, t2: int|
                                        0 <= i2 < si && 0 <= t2 < 8 && #[trigger] donor@[base[i2] as int]@[t2] == x
                                            && x != NOT_A_DONOR;
                                    assert(base[i2] < n);
                                    assert(base[i2] == c);
                                } else {
                                    let sd = slot_donors(d, k as int);
                                    assert(sd[q - base.len()] == x);
                                    assert(sd.contains(x));
                                    lemma_slot_donors(d, k as int, x);
                                }
                            }
                        }
                    }
                    stack.push(x);
                }
                proof {
                    assert(stack@ =~= base + slot_donors(d, k + 1));
                }
                k = k + 1;
            }
            proof {
                assert(stack@.take(si + 1) =~= base.take(si + 1));
                assert(stack@.take(si as int) =~= base.take(si as int));
                lemma_donors_prefix(donor@, stack@, base, si as int);
                lemma_donors_prefix(donor@, stack@, base, si + 1);
                assert(donors_of_cells(donor@, base, si + 1) =~= donors_of_cells(donor@, base, si as int)
                    + slot_donors(d, 8));
                assert(stack@ =~= outs + donors_of_cells(donor@, stack@, si + 1));
                assert(stack@.take(level_top as int) =~= base.take(level_top as int));
            }
            si = si + 1;
        }
        proof {
            assert forall|j: int| 1 <= j < levels@.len() - 1 implies #[trigger] levels@[j + 1] == outs.len()
                + donors_of_cells(donor@, stack@, levels@[j] as int).len() by {
                assert(levels@[j] <= level_top);
                assert(stack@.take(levels@[j] as int) =~= old_stack.take(levels@[j] as int)) by {
                    assert(stack@.take(level_top as int).take(levels@[j] as int) =~= stack@.take(levels@[j] as int));
                    assert(old_stack.take(level_top as int).take(levels@[j] as int) =~= old_stack.take(levels@[j] as int));
                }
                lemma_donors_prefix(donor@, stack@, old_stack, levels@[j] as int);
            }
        }
        level_bottom = level_top;
        level_top = stack.len();
        levels.push(level_top);
    }
    levels.pop();
}

/// The donors of the first `k` cells come first among those of more cells.
proof fn lemma_donors_grow(donor: Seq<[usize; 8]>, cells: Seq<usize>, k1: int, k2: int)
    requires
        0 <= k1 <= k2,
    ensures
        donors_of_cells(donor, cells, k1).len() <= donors_of_cells(donor, cells, k2).len(),
        donors_of_cells(donor, cells, k2).take(donors_of_cells(donor, cells, k1).len() as int)
            == donors_of_cells(donor, cells, k1),
    decreases k2 - k1,
{
    if k1 < k2 {
        lemma_donors_grow(donor, cells, k1, k2 - 1);
        let a = donors_of_cells(donor, cells, k1);
        let b = donors_of_cells(donor, cells, k2 - 1);
        let c = donors_of_cells(donor, cells, k2);
        assert(c.take(b.len() as int) =~= b);
        assert(c.take(a.len() as int) =~= b.take(a.len() as int));
    } else {
        let a = donors_of_cells(donor, cells, k1);
        assert(a.take(a.len() as int) =~= a);
    }
}

/// A noted donor has a place among the donors of its slots.
proof fn lemma_slot_place(d: [usize; 8], s: int, t: int)
    requires
        0 <= t < s <= 8,
        d@[t] != NOT_A_DONOR,
    ensures
        exists|i: int| 0 <= i < slot_donors(d, s).len() && #[trigger] slot_donors(d, s)[i] == d@[t],
    decreases s,
{
    if t < s - 1 {
        lemma_slot_place(d, s - 1, t);
        let i = choose|i: int| 0 <= i < slot_donors(d, s - 1).len() && #[trigger] slot_donors(d, s - 1)[i] == d@[t];
        assert(slot_donors(d, s)[i] == d@[t]);
    } else {
        assert(slot_donors(d, s).last() == d@[t]);
    }
}

/// The noted donor of a cell of the stack stands in the stack among the
/// donors of that cell.
proof fn lemma_donor_in_stack(
    outs: Seq<usize>,
    donor: Seq<[usize; 8]>,
    stack: Seq<usize>,
    p: int,
    t: int,
) -> (q: int)
    requires
        stack == outs + donors_of_cells(donor, stack, stack.len() as int),
        0 <= p < stack.len(),
        0 <= t < 8,
        donor[stack[p] as int]@[t] != NOT_A_DONOR,
    ensures
        outs.len() + donors_of_cells(donor, stack, p).len() <= q,
        q < outs.len() + donors_of_cells(donor, stack, p + 1).len(),
        q < stack.len(),
        stack[q] == donor[stack[p] as int]@[t],
{
    let n = stack.len() as int;
    let all = donors_of_cells(donor, stack, n);
    let d = donor[stack[p] as int];
    lemma_slot_place(d, 8, t);
    let i = choose|i: int| 0 <= i < slot_donors(d, 8).len() && #[trigger] slot_donors(d, 8)[i] == d@[t];
    lemma_donors_grow(donor, stack, p, p + 1);
    lemma_donors_grow(donor, stack, p + 1, n);
    let before = donors_of_cells(donor, stack, p);
    let upto = donors_of_cells(donor, stack, p + 1);
    assert(upto =~= before + slot_donors(d, 8));
    assert(upto[before.len() + i] == d@[t]);
    assert(all.take(upto.len() as int) == upto);
    assert(all[before.len() + i] == d@[t]);
    outs.len() + before.len() + i
}

/// Cells of one level are neither upstream nor downstream of each other:
/// every noted donor of a cell of level `j` lies in level `j + 1`.
#[verifier::spinoff_prover]
pub proof fn lemma_donors_next_level(
    rec: Seq<u8>,
    donor: Seq<[usize; 8]>,
    stack: Seq<usize>,
    levels: Seq<usize>,
    j: int,
    p: int,
    t: int,
)
    requires
        level_order(rec, donor, stack, levels),
        0 <= j < levels.len() - 1,
        levels[j] <= p < levels[j + 1],
        0 <= t < 8,
        donor[stack[p] as int]@[t] != NOT_A_DONOR,
    ensures
        j + 2 < levels.len(),
        exists|q: int|
            levels[j + 1] <= q < levels[j + 2] && #[trigger] stack[q] == donor[stack[p] as int]@[t],
{
    let outs = outlets_upto(rec, rec.len() as int);
    lemma_levels_mono(levels, j + 1, levels.len() - 1);
    assert(p < stack.len());
    let q = lemma_donor_in_stack(outs, donor, stack, p, t);
    let lo = if j == 0 {
        0
    } else {
        donors_of_cells(donor, stack, levels[j] as int).len() as int
    };
    lemma_donors_grow(donor, stack, levels[j] as int, p);
    assert(levels[j + 1] == outs.len() + lo);
    if j + 2 >= levels.len() {
        assert(levels[j + 1] == stack.len());
        assert(false);
    }
    lemma_donors_grow(donor, stack, p + 1, levels[j + 1] as int);
    assert(levels[j + 2] == outs.len() + donors_of_cells(donor, stack, levels[j + 1] as int).len());
}

/// Level boundaries grow.
proof fn lemma_levels_mono(levels: Seq<usize>, a: int, b: int)
    requires
        0 <= a <= b < levels.len(),
        forall|j: int| 0 <= j < levels.len() - 1 ==> #[trigger] levels[j] < levels[j + 1],
    ensures
        levels[a] <= levels[b],
    decreases b - a,
{
    if a < b {
        lemma_levels_mono(levels, a, b - 1);
        assert(levels[b - 1] < levels[b]);
    }
}
/// The donors `compute_donors_par` notes are each noted once, and pass flow.
pub proof fn lemma_donor_par_ok(m: GridMeta, rec: Seq<u8>, donor: Seq<[usize; 8]>)
    requires
        receivers_ok(m, rec),
        donor.len() == rec.len(),
        forall|n: int, s: int|
            0 <= n < rec.len() && 0 <= s < 8 ==> #[trigger] donor[n]@[s] == donor_par(m, rec, n, s),
    ensures
        donors_ok(rec, donor),
{
    let w = m.spec_width() as int;
    assert forall|c1: int, s1: int, c2: int, s2: int|
        0 <= c1 < donor.len() && 0 <= s1 < 8 && 0 <= c2 < donor.len() && 0 <= s2 < 8 && (c1 != c2
            || s1 != s2) && #[trigger] donor[c1]@[s1] != NOT_A_DONOR implies donor[c1]@[s1]
        != #[trigger] donor[c2]@[s2] by {
        if donor[c1]@[s1] == donor[c2]@[s2] {
            let k = c1 + nshift_of(w, s1);
            assert(rec[k] == rev_dir(s1));
            assert(rec[k] == rev_dir(s2));
            lemma_rev_walks_back(w, s1);
            lemma_rev_walks_back(w, s2);
            assert(s1 == s2);
        }
    }
}

/// D8 flow routing: passes all flow to the lowest neighbour.
#[derive(Debug)]
pub struct D8;

/// A single-flow order: receivers, donors, and the cells in levels.
#[derive(Debug)]
pub struct Order {
    meta: GridMeta,
    donors: Vec<[usize; 8]>,
    receivers: Vec<u8>,
    stack: Vec<usize>,
    levels: Vec<usize>,
}

impl Order {
    /// The shape of the grid.
    pub closed spec fn spec_meta(&self) -> GridMeta {
        self.meta
    }

    /// The receiver direction of each cell.
    pub closed spec fn spec_receivers(&self) -> Seq<u8> {
        self.receivers@
    }

    /// The donors of each cell, by slot.
    pub closed spec fn spec_donors(&self) -> Seq<[usize; 8]> {
        self.donors@
    }

    /// The cells in order.
    pub closed spec fn spec_stack(&self) -> Seq<usize> {
        self.stack@
    }

    /// Where each level starts in the stack, and where the last one ends.
    pub closed spec fn spec_levels(&self) -> Seq<usize> {
        self.levels@
    }

    /// Where each level starts in the stack, and where the last one ends.
    pub fn levels(&self) -> (r: &[usize])
        ensures
            r@ == self.spec_levels(),
    {
        self.levels.as_slice()
    }

    /// The cells in order.
    pub fn stack(&self) -> (r: &[usize])
        ensures
            r@ == self.spec_stack(),
    {
        self.stack.as_slice()
    }

    /// The receiver direction of each cell.
    pub fn receivers(&self) -> (r: &[u8])
        ensures
            r@ == self.spec_receivers(),
    {
        self.receivers.as_slice()
    }

    /// The donors of each cell, by slot.
    pub fn donors(&self) -> (r: &[[usize; 8]])
        ensures
            r@ == self.spec_donors(),
    {
        self.donors.as_slice()
    }

    /// The number of levels.
    pub fn n_levels(&self) -> (r: usize)
        requires
            self.spec_levels().len() >= 1,
        ensures
            r == self.spec_levels().len() - 1,
    {
        self.levels.len() - 1
    }

    /// The shape of the grid.
    pub fn meta(&self) -> (r: &GridMeta)
        ensures
            *r == self.spec_meta(),
    {
        &self.meta
    }

    /// An order with no cells to traverse: every receiver is direction 0,
    /// every donor slot 0, and stack and levels are empty.
    pub fn empty(meta: GridMeta) -> (r: Self)
        ensures
            r.spec_meta() == meta,
            r.spec_receivers() == Seq::new(meta.spec_size() as nat, |i: int| 0u8),
            r.spec_donors().len() == meta.spec_size(),
            forall|i: int, s: int| 0 <= i < meta.spec_size() && 0 <= s < 8 ==> #[trigger] r.spec_donors()[i]@[s] == 0,
            r.spec_stack().len() == 0,
            r.spec_levels().len() == 0,
    {
        let size = meta.size();
        let mut receivers: Vec<u8> = Vec::new();
        let mut donors: Vec<[usize; 8]> = Vec::new();
        let mut i: usize = 0;
        while i < size
            invariant
                i <= size,
                receivers@ == Seq::new(i as nat, |k: int| 0u8),
                donors@.len() == i,
                forall|k: int, t: int| 0 <= k < i && 0 <= t < 8 ==> #[trigger] donors@[k]@[t] == 0,
            decreases size - i,
        {
            receivers.push(0);
            let zero: [usize; 8] = [0, 0, 0, 0, 0, 0, 0, 0];
            donors.push(zero);
            proof {
                assert(receivers@ =~= Seq::new((i + 1) as nat, |k: int| 0u8));
            }
            i = i + 1;
        }
        Self { meta, donors, receivers, stack: Vec::new(), levels: Vec::new() }
    }

    /// Recomputes the order for new receiver directions: the donors are
    /// noted as `compute_donors_par` does and the order made as
    /// `generate_order` does.
    pub fn reorder_receivers(&mut self, receivers: &[u8])
        requires
            receivers_ok(old(self).spec_meta(), receivers@),
            old(self).spec_donors().len() == old(self).spec_meta().spec_size(),
        ensures
            final(self).spec_meta() == old(self).spec_meta(),
            final(self).spec_receivers() == receivers@,
            final(self).spec_donors().len() == receivers@.len(),
            forall|n: int, s: int|
                0 <= n < receivers@.len() && 0 <= s < 8 ==> #[trigger] final(self).spec_donors()[n]@[s]
                    == donor_par(final(self).spec_meta(), receivers@, n, s),
            forall|c: int|
                0 <= c < receivers@.len() && #[trigger] receivers@[c] != NO_FLOW ==> final(self).spec_donors()[c
                    + nshift_of(final(self).spec_meta().spec_width() as int, receivers@[c] as int)]@[(
                receivers@[c] + 4) % 8] == c,
            forall|n: int, s: int|
                0 <= n < receivers@.len() && 0 <= s < 8 && #[trigger] final(self).spec_donors()[n]@[s]
                    != NOT_A_DONOR ==> {
                    let c = final(self).spec_donors()[n]@[s] as int;
                    &&& c < receivers@.len()
                    &&& receivers@[c] == (s + 4) % 8
                    &&& c + nshift_of(final(self).spec_meta().spec_width() as int, receivers@[c] as int) == n
                },
            level_order(
                receivers@,
                final(self).spec_donors(),
                final(self).spec_stack(),
                final(self).spec_levels(),
            ),
    {
        let mut k: usize = 0;
        let mut rec: Vec<u8> = Vec::new();
        while k < receivers.len()
            invariant
                k <= receivers@.len(),
                rec@ == receivers@.take(k as int),
            decreases receivers@.len() - k,
        {
            rec.push(receivers[k]);
            proof {
                assert(rec@ =~= receivers@.take(k + 1));
            }
            k = k + 1;
        }
        proof {
            assert(rec@ =~= receivers@);
        }
        self.receivers = rec;
        compute_donors_par(&self.meta, self.receivers.as_slice(), self.donors.as_mut_slice());
        proof {
            lemma_donor_par_ok(self.meta, self.receivers@, self.donors@);
        }
        generate_order(self.receivers.as_slice(), self.donors.as_slice(), &mut self.stack, &mut self.levels);
    }
}

/// The cells of levels `0..k` of a level order, level after level: level
/// `l` is `stack[levels[l]..levels[l + 1]]`, and only the cells that pass
/// their flow on are kept.
pub open spec fn visit_up(stack: Seq<usize>, levels: Seq<usize>, rec: Seq<u8>, k: int) -> Seq<usize>
    decreases k,
{
    if k <= 0 {
        Seq::empty()
    } else {
        visit_up(stack, levels, rec, k - 1) + stack.subrange(levels[k - 1] as int, levels[k] as int).filter(
            |v: usize| rec[v as int] != NO_FLOW,
        )
    }
}

/// The cells of levels `0..k` of a level order, the highest level first,
/// each level in stack order.
pub open spec fn visit_down(stack: Seq<usize>, levels: Seq<usize>, k: int) -> Seq<usize>
    decreases k,
{
    if k <= 0 {
        Seq::empty()
    } else {
        stack.subrange(levels[k - 1] as int, levels[k] as int) + visit_down(stack, levels, k - 1)
    }
}

/// Level bounds that run through the stack without going back.
pub open spec fn levels_fit(stack: Seq<usize>, levels: Seq<usize>) -> bool {
    &&& levels.len() >= 1
    &&& forall|i: int, j: int| 0 <= i <= j < levels.len() ==> levels[i] <= levels[j]
    &&& levels.last() <= stack.len()
}

/// The order in which a bottom-up walk over the levels visits the cells:
/// level after level from the outlets, skipping the cells that pass no flow,
/// so every receiver comes before its donors.
pub fn bottom_up_order(stack: &[usize], levels: &[usize], rec: &[u8]) -> (r: Vec<usize>)
    requires
        levels_fit(stack@, levels@),
        forall|q: int| 0 <= q < stack@.len() ==> #[trigger] stack@[q] < rec@.len(),
    ensures
        r@ == visit_up(stack@, levels@, rec@, levels@.len() - 1),
{
    let mut r: Vec<usize> = Vec::new();
    let mut k: usize = 1;
    while k < levels.len()
        invariant
            levels_fit(stack@, levels@),
            forall|q: int| 0 <= q < stack@.len() ==> #[trigger] stack@[q] < rec@.len(),
            1 <= k <= levels@.len(),
            r@ == visit_up(stack@, levels@, rec@, k - 1),
        decreases levels@.len() - k,
    {
        let lo = levels[k - 1];
        let hi = levels[k];
        let ghost r0 = r@;
        let ghost seg = stack@.subrange(lo as int, hi as int);
        let ghost pf = |v: usize| rec@[v as int] != NO_FLOW;
        let mut j: usize = lo;
        while j < hi
            invariant
                levels_fit(stack@, levels@),
                forall|q: int| 0 <= q < stack@.len() ==> #[trigger] stack@[q] < rec@.len(),
                lo <= j <= hi <= stack@.len(),
                seg == stack@.subrange(lo as int, hi as int),
                pf == (|v: usize| rec@[v as int] != NO_FLOW),
                r@ == r0 + seg.subrange(0, j - lo).filter(pf),
            decreases hi - j,
        {
            let v = stack[j];
            let keep = rec[v] != NO_FLOW;
            if keep {
                r.push(v);
            }
            proof {
                let s0 = seg.subrange(0, j - lo);
                let s1 = seg.subrange(0, j + 1 - lo);
                assert(seg[j - lo] == v);
                assert(s1 =~= s0.push(v));
                s0.lemma_filter_push(v, pf);
                assert(pf(v) == keep);
                if keep {
                    assert(r@ =~= r0 + s0.filter(pf).push(v));
                } else {
                    assert(r@ =~= r0 + s0.filter(pf));
                }
                assert(r@ =~= r0 + s1.filter(pf));
            }
            j = j + 1;
        }
        proof {
            assert(seg.subrange(0, hi - lo) =~= seg);
            assert(r@ =~= visit_up(stack@, levels@, rec@, k as int));
        }
        k = k + 1;
    }
    r
}

/// The order in which a top-down walk over the levels visits the cells: the
/// highest level first, each level in stack order, so every donor comes
/// before its receiver.
pub fn top_down_order(stack: &[usize], levels: &[usize]) -> (r: Vec<usize>)
    requires
        levels_fit(stack@, levels@),
    ensures
        r@ == visit_down(stack@, levels@, levels@.len() - 1),
{
    let mut r: Vec<usize> = Vec::new();
    let mut k: usize = levels.len() - 1;
    while k > 0
        invariant
            levels_fit(stack@, levels@),
            k < levels@.len(),
            r@ + visit_down(stack@, levels@, k as int) == visit_down(stack@, levels@, levels@.len() - 1),
        decreases k,
    {
        let lo = levels[k - 1];
        let hi = levels[k];
        let ghost r0 = r@;
        let mut j: usize = lo;
        while j < hi
            invariant
                levels_fit(stack@, levels@),
                lo <= j <= hi <= stack@.len(),
                r@ == r0 + stack@.subrange(lo as int, j as int),
            decreases hi - j,
        {
            r.push(stack[j]);
            proof {
                assert(r@ =~= r0 + stack@.subrange(lo as int, j + 1));
            }
            j = j + 1;
        }
        proof {
            let seg = stack@.subrange(lo as int, hi as int);
            assert(visit_down(stack@, levels@, k as int) == seg + visit_down(stack@, levels@, k - 1));
            assert(r0 + visit_down(stack@, levels@, k as int) =~= r@ + visit_down(stack@, levels@, k - 1));
        }
        k = k - 1;
    }
    proof {
        assert(r@ + Seq::<usize>::empty() =~= r@);
    }
    r
}

/// The cells of levels `0..k` of a level order, level after level, each
/// level in stack order.
pub open spec fn visit_fwd(stack: Seq<usize>, levels: Seq<usize>, k: int) -> Seq<usize>
    decreases k,
{
    if k <= 0 {
        Seq::empty()
    } else {
        visit_fwd(stack, levels, k - 1) + stack.subrange(levels[k - 1] as int, levels[k] as int)
    }
}

/// The order in which a walk over the levels from the first up visits the
/// cells: level after level, each in stack order.
pub fn forward_order(stack: &[usize], levels: &[usize]) -> (r: Vec<usize>)
    requires
        levels_fit(stack@, levels@),
    ensures
        r@ == visit_fwd(stack@, levels@, levels@.len() - 1),
{
    let mut r: Vec<usize> = Vec::new();
    let mut k: usize = 1;
    while k < levels.len()
        invariant
            levels_fit(stack@, levels@),
            1 <= k <= levels@.len(),
            r@ == visit_fwd(stack@, levels@, k - 1),
        decreases levels@.len() - k,
    {
        let lo = levels[k - 1];
        let hi = levels[k];
        let ghost r0 = r@;
        let mut j: usize = lo;
        while j < hi
            invariant
                levels_fit(stack@, levels@),
                lo <= j <= hi <= stack@.len(),
                r@ == r0 + stack@.subrange(lo as int, j as int),
            decreases hi - j,
        {
            r.push(stack[j]);
            proof {
                assert(r@ =~= r0 + stack@.subrange(lo as int, j + 1));
            }
            j = j + 1;
        }
        proof {
            assert(r@ =~= visit_fwd(stack@, levels@, k as int));
        }
        k = k + 1;
    }
    r
}

} // verus!
