//! Multiple flow directions: donors and a topological order in levels.
//!
//! A cell may pass flow to several lower neighbours, its receivers, and it
//! knows how many it has. A cell enters the order once all of its receivers
//! have been ordered, so that every cell comes after all cells it passes flow
//! to, in levels of cells that are neither upstream nor downstream of each
//! other.
use vstd::prelude::*;

use crate::error::{ContourError, ContourErrorKind, ErrorStatus};
use crate::grid::{lemma_cell_index_bound, rev_dir, xshift, yshift, GridMeta, NOT_A_DONOR};
use crate::sflow::lemma_distinct_len;

verus! {

/// How many of the first `k` slots of `d` hold `n`.
pub open spec fn slot_count(d: [usize; 8], n: usize, k: int) -> nat
    decreases k,
{
    if k <= 0 {
        0
    } else {
        slot_count(d, n, k - 1) + if d@[k - 1] == n {
            1nat
        } else {
            0nat
        }
    }
}

/// How often `n` is noted as a donor of the first `i` of `cells`.
pub open spec fn donations(donor: Seq<[usize; 8]>, cells: Seq<usize>, n: usize, i: int) -> nat
    decreases i,
{
    if i <= 0 {
        0
    } else {
        donations(donor, cells, n, i - 1) + slot_count(donor[cells[i - 1] as int], n, 8)
    }
}

/// The cells among the first `k` that have no receiver, in index order.
pub open spec fn sinks_upto(nrec: Seq<u8>, k: int) -> Seq<usize>
    decreases k,
{
    if k <= 0 {
        Seq::empty()
    } else {
        let p = sinks_upto(nrec, k - 1);
        if nrec[k - 1] == 0 {
            p.push((k - 1) as usize)
        } else {
            p
        }
    }
}

/// The donors in the first `k` slots of cell `cells[i]` whose last receiver
/// is reached there: once the first `i` cells have passed on their donations,
/// the donation of that slot is the one that makes their count of ordered
/// receivers equal to their number of receivers.
pub open spec fn slot_arrivals(
    nrec: Seq<u8>,
    donor: Seq<[usize; 8]>,
    cells: Seq<usize>,
    i: int,
    k: int,
) -> Seq<usize>
    decreases k,
{
    if k <= 0 {
        Seq::empty()
    } else {
        let d = donor[cells[i] as int];
        let n = d@[k - 1];
        let p = slot_arrivals(nrec, donor, cells, i, k - 1);
        if n != NOT_A_DONOR && donations(donor, cells, n, i) + slot_count(d, n, k - 1) + 1
            == nrec[n as int] {
            p.push(n)
        } else {
            p
        }
    }
}

/// The cells that enter the order while the first `i` of `cells` pass on
/// their donations, in the order they enter.
pub open spec fn arrivals(nrec: Seq<u8>, donor: Seq<[usize; 8]>, cells: Seq<usize>, i: int) -> Seq<usize>
    decreases i,
{
    if i <= 0 {
        Seq::empty()
    } else {
        arrivals(nrec, donor, cells, i - 1) + slot_arrivals(nrec, donor, cells, i - 1, 8)
    }
}

/// Every noted donor of a cell is a cell of the grid.
pub open spec fn donors_in_grid(n: nat, donor: Seq<[usize; 8]>) -> bool {
    &&& n <= donor.len()
    &&& forall|c: int, s: int|
        0 <= c < n && 0 <= s < 8 && #[trigger] donor[c]@[s] != NOT_A_DONOR ==> donor[c]@[s] < n
}

/// `stack` and `levels` are the order `generate_order` makes from the
/// receiver counts `nrec`: first the cells with no receiver, then, cell
/// after cell of the stack and slot after slot, each donor whose receivers
/// are then all ordered; `levels` holds where each level starts and where
/// the last one ends, a level being the cells that enter while the cells
/// of the level before pass on their donations.
pub open spec fn contour_order(nrec: Seq<u8>, donor: Seq<[usize; 8]>, stack: Seq<usize>, levels: Seq<usize>) -> bool {
    let first = sinks_upto(nrec, nrec.len() as int);
    &&& stack == first + arrivals(nrec, donor, stack, stack.len() as int)
    &&& stack.no_duplicates()
    &&& forall|q: int| 0 <= q < stack.len() ==> #[trigger] stack[q] < nrec.len()
    &&& levels.len() >= 1
    &&& levels[0] == 0
    &&& levels.last() == stack.len()
    &&& (levels.len() >= 2 <==> first.len() > 0)
    &&& levels.len() >= 2 ==> levels[1] == first.len()
    &&& forall|j: int|
        1 <= j < levels.len() - 1 ==> #[trigger] levels[j + 1] == first.len() + arrivals(
            nrec,
            donor,
            stack,
            levels[j] as int,
        ).len()
    &&& forall|j: int| 0 <= j < levels.len() - 1 ==> #[trigger] levels[j] < levels[j + 1]
}

/// No cell is noted as a donor of the stack's cells more often than it has
/// receivers.
pub open spec fn counts_fit(nrec0: Seq<u8>, donor: Seq<[usize; 8]>, stack: Seq<usize>) -> bool {
    forall|m: usize|
        m < nrec0.len() ==> #[trigger] donations(donor, stack, m, stack.len() as int) <= nrec0[m as int]
}

/// After the stack's cells have passed on all their donations, every
/// cell's count of receivers is what remains of it, no count was exceeded,
/// and a cell is in the stack exactly when all its receivers are.
pub open spec fn counts_settled(nrec0: Seq<u8>, donor: Seq<[usize; 8]>, stack: Seq<usize>, nrec: Seq<u8>) -> bool {
    &&& counts_fit(nrec0, donor, stack)
    &&& nrec.len() == nrec0.len()
    &&& forall|m: int|
        0 <= m < nrec0.len() ==> #[trigger] nrec[m] == nrec0[m] - donations(
            donor,
            stack,
            m as usize,
            stack.len() as int,
        )
    &&& forall|m: int|
        0 <= m < nrec0.len() ==> (stack.contains(m as usize) <==> donations(
            donor,
            stack,
            m as usize,
            stack.len() as int,
        ) == nrec0[m])
}

/// The order broke off at slot `k` of the stack's cell `i`: the cells before
/// it and its first `k` slots passed on their donations, and the donor in
/// slot `k` had no receiver left to count.
pub open spec fn exhausted_at(
    nrec0: Seq<u8>,
    donor: Seq<[usize; 8]>,
    stack: Seq<usize>,
    nrec: Seq<u8>,
    i: int,
    k: int,
) -> bool {
    let d = donor[stack[i] as int];
    let x = d@[k];
    &&& 0 <= i < stack.len()
    &&& 0 <= k < 8
    &&& stack == sinks_upto(nrec0, nrec0.len() as int) + arrivals(nrec0, donor, stack, i)
        + slot_arrivals(nrec0, donor, stack, i, k)
    &&& x != NOT_A_DONOR
    &&& donations(donor, stack, x, i) + slot_count(d, x, k) >= nrec0[x as int]
    &&& nrec.len() == nrec0.len()
    &&& forall|m: int|
        0 <= m < nrec0.len() ==> #[trigger] nrec[m] == nrec0[m] - donations(donor, stack, m as usize, i)
            - slot_count(d, m as usize, k)
}


/// The donor of cell `n` in slot `s`, as `compute_donors` notes it: the
/// neighbour in direction `s`, on the grid, if it passes flow back towards
/// `n`. `flows[c][d]` tells whether cell `c` passes flow in direction `d`.
pub open spec fn flow_donor(m: GridMeta, flows: Seq<[bool; 8]>, n: int, s: int) -> usize {
    let w = m.spec_width() as int;
    match m.spec_try_shift(n % w, n / w, s) {
        Some(k) => if flows[k as int]@[rev_dir(s)] {
            k
        } else {
            NOT_A_DONOR
        },
        None => NOT_A_DONOR,
    }
}

/// Notes for every cell which neighbours pass flow into it: slot `d` of
/// cell `n` holds the neighbour in direction `d` if that neighbour passes
/// flow in the reverse direction, or [`NOT_A_DONOR`]. `flows[c][d]` tells
/// whether cell `c` passes flow in direction `d`.
pub fn compute_donors(meta: &GridMeta, flows: &[[bool; 8]], donor: &mut [[usize; 8]])
    requires
        flows@.len() == meta.spec_size(),
        old(donor)@.len() == meta.spec_size(),
    ensures
        final(donor)@.len() == meta.spec_size(),
        forall|n: int, s: int|
            0 <= n < meta.spec_size() && 0 <= s < 8 ==> #[trigger] final(donor)@[n]@[s] == flow_donor(
                *meta,
                flows@,
                n,
                s,
            ),
        forall|n: int, s: int|
            0 <= n < meta.spec_size() && 0 <= s < 8 ==> #[trigger] final(donor)@[n]@[s]
                == match meta.spec_try_shift(
                n % (meta.spec_width() as int),
                n / (meta.spec_width() as int),
                s,
            ) {
                Some(k) => if flows@[k as int]@[(s + 4) % 8] {
                    k
                } else {
                    NOT_A_DONOR
                },
                None => NOT_A_DONOR,
            },
        donors_in_grid(meta.spec_size() as nat, final(donor)@),
{
    proof {
        use_type_invariant(meta);
    }
    let size = meta.size();
    let mut i: usize = 0;
    while i < size
        invariant
            i <= size,
            size == meta.spec_size(),
            meta.wf(),
            flows@.len() == size,
            donor@.len() == size,
            forall|n: int, s: int|
                0 <= n < i && 0 <= s < 8 ==> #[trigger] donor@[n]@[s] == flow_donor(*meta, flows@, n, s),
        decreases size - i,
    {
        proof {
            assert(meta.spec_width() > 0) by (nonlinear_arith)
                requires
                    size == meta.spec_width() * meta.spec_height(),
                    i < size,
            ;
        }
        let (x, y) = meta.i_to_xy(i);
        proof {
            assert(y < meta.spec_height()) by (nonlinear_arith)
                requires
                    y == i / meta.spec_width(),
                    meta.spec_width() > 0,
                    i < meta.spec_width() * meta.spec_height(),
            ;
        }
        let mut don: [usize; 8] = [NOT_A_DONOR; 8];
        let mut dir: usize = 0;
        while dir < 8
            invariant
                dir <= 8,
                i < size,
                size == meta.spec_size(),
                meta.wf(),
                meta.spec_width() > 0,
                x == i % meta.spec_width(),
                y == i / meta.spec_width(),
                x < meta.spec_width(),
                y < meta.spec_height(),
                flows@.len() == size,
                forall|s: int| 0 <= s < dir ==> #[trigger] don@[s] == flow_donor(*meta, flows@, i as int, s),
                forall|s: int| dir <= s < 8 ==> #[trigger] don@[s] == NOT_A_DONOR,
            decreases 8 - dir,
        {
            let t = meta.try_shift(x, y, dir as u8);
            match t {
                Some(i_rec) => {
                    proof {
                        let nx = x + xshift(dir as int);
                        let ny = y + yshift(dir as int);
                        lemma_cell_index_bound(
                            meta.spec_width() as int,
                            meta.spec_height() as int,
                            nx,
                            ny,
                        );
                    }
                    if flows[i_rec][GridMeta::rev(dir)] {
                        don[dir] = i_rec;
                    }
                },
                None => {},
            }
            dir = dir + 1;
        }
        donor[i] = don;
        i = i + 1;
    }
    proof {
        assert forall|c: int, s: int|
            0 <= c < size && 0 <= s < 8 && #[trigger] donor@[c]@[s] != NOT_A_DONOR implies donor@[c]@[s]
            < size by {
            let w = meta.spec_width() as int;
            let nx = c % w + xshift(s);
            let ny = c / w + yshift(s);
            assert(0 <= nx < w && 0 <= ny < meta.spec_height());
            lemma_cell_index_bound(w, meta.spec_height() as int, nx, ny);
        }
    }
}

/// The cells with no receiver are listed once each, in index order.
proof fn lemma_sinks(nrec: Seq<u8>, k: int)
    requires
        0 <= k <= nrec.len(),
        nrec.len() <= usize::MAX,
    ensures
        sinks_upto(nrec, k).no_duplicates(),
        forall|i: int| 0 <= i < sinks_upto(nrec, k).len() ==> #[trigger] sinks_upto(nrec, k)[i] < k,
        forall|m: int| 0 <= m < k ==> (#[trigger] sinks_upto(nrec, k).contains(m as usize) <==> nrec[m] == 0),
    decreases k,
{
    if k > 0 {
        lemma_sinks(nrec, k - 1);
        let p = sinks_upto(nrec, k - 1);
        let q = sinks_upto(nrec, k);
        if nrec[k - 1] == 0 {
            assert(q =~= p.push((k - 1) as usize));
            assert forall|m: int| 0 <= m < k implies (#[trigger] q.contains(m as usize) <==> nrec[m] == 0) by {
                if m < k - 1 {
                    if q.contains(m as usize) {
                        let i = choose|i: int| 0 <= i < q.len() && q[i] == m as usize;
                        if i < p.len() {
                            assert(p[i] == q[i]);
                            assert(p.contains(m as usize));
                        }
                    }
                    if nrec[m] == 0 {
                        assert(p.contains(m as usize));
                        let i = choose|i: int| 0 <= i < p.len() && p[i] == m as usize;
                        assert(q[i] == m as usize);
                    }
                } else {
                    assert(q[q.len() - 1] == m as usize);
                }
            }
        } else {
            assert forall|m: int| 0 <= m < k implies (#[trigger] q.contains(m as usize) <==> nrec[m] == 0) by {
                if m == k - 1 && q.contains(m as usize) {
                    let i = choose|i: int| 0 <= i < q.len() && q[i] == m as usize;
                    assert(p[i] < k - 1);
                }
            }
        }
    }
}

/// `donations` only reads the first `i` cells.
pub proof fn lemma_donations_prefix(donor: Seq<[usize; 8]>, a: Seq<usize>, b: Seq<usize>, i: int)
    requires
        0 <= i <= a.len(),
        i <= b.len(),
        a.take(i) == b.take(i),
    ensures
        forall|n: usize| #[trigger] donations(donor, a, n, i) == donations(donor, b, n, i),
    decreases i,
{
    if i > 0 {
        assert(a.take(i - 1) =~= a.take(i).take(i - 1));
        assert(b.take(i - 1) =~= b.take(i).take(i - 1));
        lemma_donations_prefix(donor, a, b, i - 1);
        assert(a[i - 1] == a.take(i)[i - 1]);
        assert(b[i - 1] == b.take(i)[i - 1]);
        assert forall|n: usize| #[trigger] donations(donor, a, n, i) == donations(donor, b, n, i) by {
            assert(donations(donor, a, n, i - 1) == donations(donor, b, n, i - 1));
        }
    }
}

/// `slot_arrivals` of cell `i` only reads the first `i + 1` cells.
proof fn lemma_slot_arrivals_prefix(
    nrec: Seq<u8>,
    donor: Seq<[usize; 8]>,
    a: Seq<usize>,
    b: Seq<usize>,
    i: int,
    k: int,
)
    requires
        0 <= i < a.len(),
        i < b.len(),
        a.take(i + 1) == b.take(i + 1),
        0 <= k <= 8,
    ensures
        slot_arrivals(nrec, donor, a, i, k) == slot_arrivals(nrec, donor, b, i, k),
    decreases k,
{
    if k > 0 {
        lemma_slot_arrivals_prefix(nrec, donor, a, b, i, k - 1);
        assert(a.take(i) =~= a.take(i + 1).take(i));
        assert(b.take(i) =~= b.take(i + 1).take(i));
        lemma_donations_prefix(donor, a, b, i);
        assert(a[i] == a.take(i + 1)[i]);
        assert(b[i] == b.take(i + 1)[i]);
        let d = donor[a[i] as int];
        assert(donations(donor, a, d@[k - 1], i) == donations(donor, b, d@[k - 1], i));
    }
}

/// `arrivals` only reads the first `i` cells.
proof fn lemma_arrivals_prefix(nrec: Seq<u8>, donor: Seq<[usize; 8]>, a: Seq<usize>, b: Seq<usize>, i: int)
    requires
        0 <= i <= a.len(),
        i <= b.len(),
        a.take(i) == b.take(i),
    ensures
        arrivals(nrec, donor, a, i) == arrivals(nrec, donor, b, i),
    decreases i,
{
    if i > 0 {
        assert(a.take(i - 1) =~= a.take(i).take(i - 1));
        assert(b.take(i - 1) =~= b.take(i).take(i - 1));
        lemma_arrivals_prefix(nrec, donor, a, b, i - 1);
        lemma_slot_arrivals_prefix(nrec, donor, a, b, i - 1, 8);
    }
}

/// Slot counts grow by one where the slot holds the cell.
pub proof fn lemma_slot_count_step(d: [usize; 8], n: usize, k: int)
    requires
        0 <= k < 8,
    ensures
        slot_count(d, n, k + 1) == slot_count(d, n, k) + if d@[k] == n {
            1nat
        } else {
            0nat
        },
{
}

///Orders the cells so that each comes after all cells it passes flow to:
///first the cells with no receiver, in index order, then level by level the
///donors of the cells of the previous level, each once its last receiver
///is ordered, in stack order and slot order. `nrec` counts each cell's
///receivers not yet ordered; `levels` receives where each level starts in
///`stack`, and where the last one ends.
///
///A donation to a cell whose receivers are all counted already breaks the
///order off with an error: the counts did not fit the donors.
#[verifier::spinoff_prover]
pub fn generate_order(
    nrec: &mut [u8],
    donor: &[[usize; 8]],
    stack: &mut Vec<usize>,
    levels: &mut Vec<usize>,
) -> (r: Result<(), ContourError>)
    requires
        donors_in_grid(old(nrec)@.len(), donor@),
    ensures
        r is Ok ==> contour_order(old(nrec)@, donor@, final(stack)@, final(levels)@) && counts_settled(
            old(nrec)@,
            donor@,
            final(stack)@,
            final(nrec)@,
        ),
        r matches Err(e) ==> e.spec_kind() == ContourErrorKind::InvalidMetric && e.spec_status()
            == ErrorStatus::Permanent && e.spec_message() == "metric was invalid: "@
            + "number of receivers exhausted"@ && exists|i: int, k: int|
            exhausted_at(old(nrec)@, donor@, final(stack)@, final(nrec)@, i, k),
        r is Err ==> final(stack)@.no_duplicates() && forall|q: int|
            0 <= q < final(stack)@.len() ==> #[trigger] final(stack)@[q] < old(nrec)@.len(),
{
    let ghost nrec0 = nrec@;
    let ghost first = sinks_upto(nrec0, nrec0.len() as int);
    let n = nrec.len();
    stack.clear();
    levels.clear();
    levels.push(0);
    let mut i: usize = 0;
    while i < n
        invariant
            i <= n,
            n == nrec0.len(),
            nrec@ == nrec0,
            stack@ == sinks_upto(nrec0, i as int),
            levels@ == seq![0usize],
        decreases n - i,
    {
        if nrec[i] == 0 {
            stack.push(i);
        }
        i = i + 1;
    }
    proof {
        lemma_sinks(nrec0, n as int);
        assert(stack@ =~= first + arrivals(nrec0, donor@, stack@, 0));
        assert forall|m: int| 0 <= m < n implies (stack@.contains(m as usize) <==> #[trigger] nrec@[m] == 0) by {
            assert(first.contains(m as usize) <==> nrec0[m] == 0);
        }
    }
    let mut level_bottom: usize = 0;
    let mut level_top: usize = stack.len();
    levels.push(level_top);
    while level_bottom < level_top
        invariant
            n == nrec0.len(),
            nrec0 == old(nrec)@,
            nrec@.len() == n,
            donors_in_grid(n as nat, donor@),
            first == sinks_upto(nrec0, n as int),
            level_bottom <= level_top,
            level_top == stack@.len(),
            stack@ == first + arrivals(nrec0, donor@, stack@, level_bottom as int),
            stack@.no_duplicates(),
            forall|q: int| 0 <= q < stack@.len() ==> #[trigger] stack@[q] < n,
            forall|m: int|
                0 <= m < n ==> #[trigger] nrec@[m] == nrec0[m] - donations(
                    donor@,
                    stack@,
                    m as usize,
                    level_bottom as int,
                ),
            forall|m: int| 0 <= m < n ==> (stack@.contains(m as usize) <==> #[trigger] nrec@[m] == 0),
            levels@.len() >= 2,
            levels@[0] == 0,
            levels@[1] == first.len(),
            levels@.last() == level_top,
            levels@[levels@.len() - 2] == level_bottom,
            forall|j: int|
                1 <= j < levels@.len() - 1 ==> #[trigger] levels@[j + 1] == first.len()
                    + arrivals(nrec0, donor@, stack@, levels@[j] as int).len(),
            forall|j: int| 0 <= j < levels@.len() - 2 ==> #[trigger] levels@[j] < levels@[j + 1],
            forall|j: int| 0 <= j < levels@.len() ==> #[trigger] levels@[j] <= stack@.len(),
        decreases n - level_bottom,
    {
        proof {
            lemma_distinct_len(stack@, n as int);
        }
        let ghost old_stack = stack@;
        let mut si: usize = level_bottom;
        while si < level_top
            invariant
                n == nrec0.len(),
                nrec0 == old(nrec)@,
                nrec@.len() == n,
                donors_in_grid(n as nat, donor@),
                first == sinks_upto(nrec0, n as int),
                level_bottom <= si <= level_top,
                level_top <= stack@.len(),
                stack@.take(level_top as int) == old_stack.take(level_top as int),
                old_stack.len() == level_top,
                stack@ == first + arrivals(nrec0, donor@, stack@, si as int),
                stack@.no_duplicates(),
                forall|q: int| 0 <= q < stack@.len() ==> #[trigger] stack@[q] < n,
                forall|m: int|
                    0 <= m < n ==> #[trigger] nrec@[m] == nrec0[m] - donations(
                        donor@,
                        stack@,
                        m as usize,
                        si as int,
                    ),
                forall|m: int| 0 <= m < n ==> (stack@.contains(m as usize) <==> #[trigger] nrec@[m] == 0),
            decreases level_top - si,
        {
            let c = stack[si];
            let d = donor[c];
            let ghost base = stack@;
            let mut k: usize = 0;
            while k < 8
                invariant
                    n == nrec0.len(),
                    nrec0 == old(nrec)@,
                    nrec@.len() == n,
                    donors_in_grid(n as nat, donor@),
                    first == sinks_upto(nrec0, n as int),
                    level_bottom <= si < level_top,
                    level_top <= base.len(),
                    base.take(level_top as int) == old_stack.take(level_top as int),
                    base == first + arrivals(nrec0, donor@, base, si as int),
                    c == base[si as int],
                    c < n,
                    d == donor@[c as int],
                    k <= 8,
                    stack@ == base + slot_arrivals(nrec0, donor@, base, si as int, k as int),
                    stack@.no_duplicates(),
                    forall|q: int| 0 <= q < stack@.len() ==> #[trigger] stack@[q] < n,
                    forall|m: int|
                        0 <= m < n ==> #[trigger] nrec@[m] == nrec0[m] - donations(
                            donor@,
                            base,
                            m as usize,
                            si as int,
                        ) - slot_count(d, m as usize, k as int),
                    forall|m: int| 0 <= m < n ==> (stack@.contains(m as usize) <==> #[trigger] nrec@[m] == 0),
                decreases 8 - k,
            {
                let x = d[k];
                proof {
                    assert(donor@[c as int]@[k as int] == x);
                    assert forall|m: int| 0 <= m < n implies #[trigger] slot_count(d, m as usize, k + 1) == slot_count(
                        d,
                        m as usize,
                        k as int,
                    ) + if x == m as usize {
                        1nat
                    } else {
                        0nat
                    } by {
                        lemma_slot_count_step(d, m as usize, k as int);
                    }
                }
                if x != NOT_A_DONOR {
                    if nrec[x] == 0 {
                        proof {
                            assert(stack@.take(si + 1) =~= base.take(si + 1));
                            assert(stack@.take(si as int) =~= base.take(si as int));
                            lemma_donations_prefix(donor@, stack@, base, si as int);
                            lemma_arrivals_prefix(nrec0, donor@, stack@, base, si as int);
                            lemma_slot_arrivals_prefix(nrec0, donor@, stack@, base, si as int, k as int);
                            assert(stack@[si as int] == c);
                            assert(nrec@[x as int] == 0);
                            assert(donations(donor@, stack@, x, si as int) == donations(donor@, base, x, si as int));
                            assert forall|m: int| 0 <= m < n implies #[trigger] nrec@[m] == nrec0[m] - donations(
                                donor@,
                                stack@,
                                m as usize,
                                si as int,
                            ) - slot_count(d, m as usize, k as int) by {
                                assert(donations(donor@, stack@, m as usize, si as int) == donations(
                                    donor@,
                                    base,
                                    m as usize,
                                    si as int,
                                ));
                            }
                            assert(exhausted_at(nrec0, donor@, stack@, nrec@, si as int, k as int));
                        }
                        return Err(ContourError::invalid_metric("number of receivers exhausted"));
                    }
                    let ghost before = nrec@;
                    nrec[x] = nrec[x] - 1;
                    proof {
                        assert(before[x as int] == nrec0[x as int] - donations(donor@, base, x, si as int)
                            - slot_count(d, x, k as int));
                        assert forall|m: int| 0 <= m < n implies #[trigger] nrec@[m] == nrec0[m] - donations(
                            donor@,
                            base,
                            m as usize,
                            si as int,
                        ) - slot_count(d, m as usize, k + 1) by {
                            if m != x as int {
                                assert(nrec@[m] == before[m]);
                            }
                        }
                    }
                    if nrec[x] == 0 {
                        proof {
                            assert(!stack@.contains(x));
                        }
                        let ghost pre = stack@;
                        stack.push(x);
                        proof {
                            assert(stack@ =~= pre.push(x));
                            assert forall|m: int| 0 <= m < n implies (stack@.contains(m as usize)
                                <==> #[trigger] nrec@[m] == 0) by {
                                if m != x as int {
                                    assert(nrec@[m] == before[m]);
                                    if stack@.contains(m as usize) {
                                        let q = choose|q: int| 0 <= q < stack@.len() && stack@[q] == m as usize;
                                        assert(q < pre.len());
                                        assert(pre[q] == m as usize);
                                        assert(pre.contains(m as usize));
                                    } else {
                                        if before[m] == 0 {
                                            assert(pre.contains(m as usize));
                                            let q = choose|q: int| 0 <= q < pre.len() && pre[q] == m as usize;
                                            assert(stack@[q] == m as usize);
                                        }
                                    }
                                } else {
                                    assert(stack@[stack@.len() - 1] == x);
                                }
                            }
                        }
                    } else {
                        proof {
                            assert forall|m: int| 0 <= m < n implies (stack@.contains(m as usize)
                                <==> #[trigger] nrec@[m] == 0) by {
                                if m != x as int {
                                    assert(nrec@[m] == before[m]);
                                }
                            }
                        }
                    }
                }
                proof {
                    assert(stack@ =~= base + slot_arrivals(nrec0, donor@, base, si as int, k + 1));
                }
                k = k + 1;
            }
            proof {
                assert(stack@.take(si + 1) =~= base.take(si + 1));
                assert(stack@.take(si as int) =~= base.take(si as int));
                lemma_donations_prefix(donor@, stack@, base, si as int);
                lemma_donations_prefix(donor@, stack@, base, si + 1);
                lemma_arrivals_prefix(nrec0, donor@, stack@, base, si as int);
                lemma_slot_arrivals_prefix(nrec0, donor@, stack@, base, si as int, 8);
                assert(stack@[si as int] == c);
                assert(stack@ =~= first + arrivals(nrec0, donor@, stack@, si + 1));
                assert forall|m: int| 0 <= m < n implies #[trigger] nrec@[m] == nrec0[m] - donations(
                    donor@,
                    stack@,
                    m as usize,
                    si + 1,
                ) by {
                    assert(donations(donor@, stack@, m as usize, si + 1) == donations(
                        donor@,
                        stack@,
                        m as usize,
                        si as int,
                    ) + slot_count(d, m as usize, 8));
                    assert(donations(donor@, stack@, m as usize, si as int) == donations(
                        donor@,
                        base,
                        m as usize,
                        si as int,
                    ));
                }
                assert(stack@.take(level_top as int) =~= base.take(level_top as int));
            }
            si = si + 1;
        }
        proof {
            assert forall|j: int| 1 <= j < levels@.len() - 1 implies #[trigger] levels@[j + 1] == first.len()
                + arrivals(nrec0, donor@, stack@, levels@[j] as int).len() by {
                assert(levels@[j] <= level_top);
                assert(stack@.take(levels@[j] as int) =~= old_stack.take(levels@[j] as int)) by {
                    assert(stack@.take(level_top as int).take(levels@[j] as int) =~= stack@.take(levels@[j] as int));
                    assert(old_stack.take(level_top as int).take(levels@[j] as int) =~= old_stack.take(levels@[j] as int));
                }
                lemma_arrivals_prefix(nrec0, donor@, stack@, old_stack, levels@[j] as int);
            }
        }
        level_bottom = level_top;
        level_top = stack.len();
        levels.push(level_top);
    }
    levels.pop();
    assert forall|m: usize| m < nrec0.len() implies #[trigger] donations(donor@, stack@, m, stack@.len() as int)
        <= nrec0[m as int] by {
        assert(nrec@[m as int] == nrec0[m as int] - donations(donor@, stack@, m, level_bottom as int));
    }
    assert forall|m: int| 0 <= m < nrec0.len() implies (stack@.contains(m as usize) <==> donations(
        donor@,
        stack@,
        m as usize,
        stack@.len() as int,
    ) == nrec0[m]) by {
        assert(nrec@[m] == nrec0[m] - donations(donor@, stack@, m as usize, level_bottom as int));
    }
    Ok(())
}


/// Counts of donations grow with the cells counted.
proof fn lemma_donations_mono(donor: Seq<[usize; 8]>, cells: Seq<usize>, n: usize, i1: int, i2: int)
    requires
        0 <= i1 <= i2,
    ensures
        donations(donor, cells, n, i1) <= donations(donor, cells, n, i2),
    decreases i2 - i1,
{
    if i1 < i2 {
        lemma_donations_mono(donor, cells, n, i1, i2 - 1);
    }
}

/// Slot counts grow with the slots counted, by one at each slot holding the cell.
proof fn lemma_slot_count_mono(d: [usize; 8], n: usize, k1: int, k2: int)
    requires
        0 <= k1 <= k2,
    ensures
        slot_count(d, n, k1) <= slot_count(d, n, k2),
        k1 < k2 && d@[k1] == n ==> slot_count(d, n, k1) + 1 <= slot_count(d, n, k2),
    decreases k2 - k1,
{
    if k1 < k2 {
        lemma_slot_count_mono(d, n, k1, k2 - 1);
        if k1 < k2 - 1 {
            lemma_slot_count_mono(d, n, k1 + 1, k2 - 1);
        }
    }
}

/// The cells that arrive while the first `i1` cells pass on their donations
/// come first among those of more cells.
proof fn lemma_arrivals_grow(nrec: Seq<u8>, donor: Seq<[usize; 8]>, cells: Seq<usize>, i1: int, i2: int)
    requires
        0 <= i1 <= i2,
    ensures
        arrivals(nrec, donor, cells, i1).len() <= arrivals(nrec, donor, cells, i2).len(),
        arrivals(nrec, donor, cells, i2).take(arrivals(nrec, donor, cells, i1).len() as int)
            == arrivals(nrec, donor, cells, i1),
    decreases i2 - i1,
{
    let a = arrivals(nrec, donor, cells, i1);
    if i1 < i2 {
        lemma_arrivals_grow(nrec, donor, cells, i1, i2 - 1);
        let b = arrivals(nrec, donor, cells, i2 - 1);
        let c = arrivals(nrec, donor, cells, i2);
        assert(c.take(b.len() as int) =~= b);
        assert(c.take(a.len() as int) =~= b.take(a.len() as int));
    } else {
        assert(a.take(a.len() as int) =~= a);
    }
}

/// An arrival of a cell's slots comes from one of its slots, at the donation
/// that reaches the donor's last receiver.
proof fn lemma_locate_slot(nrec: Seq<u8>, donor: Seq<[usize; 8]>, cells: Seq<usize>, i: int, k: int, r: int) -> (a: int)
    requires
        0 <= k <= 8,
        0 <= r < slot_arrivals(nrec, donor, cells, i, k).len(),
    ensures
        0 <= a < k,
        slot_arrivals(nrec, donor, cells, i, k)[r] == donor[cells[i] as int]@[a],
        donor[cells[i] as int]@[a] != NOT_A_DONOR,
        donations(donor, cells, donor[cells[i] as int]@[a], i) + slot_count(
            donor[cells[i] as int],
            donor[cells[i] as int]@[a],
            a,
        ) + 1 == nrec[donor[cells[i] as int]@[a] as int],
    decreases k,
{
    let p = slot_arrivals(nrec, donor, cells, i, k - 1);
    if r < p.len() {
        lemma_locate_slot(nrec, donor, cells, i, k - 1, r)
    } else {
        k - 1
    }
}

/// An arrival comes from a slot of one of the cells, at the donation that
/// reaches the donor's last receiver.
proof fn lemma_locate_arrival(nrec: Seq<u8>, donor: Seq<[usize; 8]>, cells: Seq<usize>, i: int, r: int) -> (ia: (
    int,
    int,
))
    requires
        0 <= r < arrivals(nrec, donor, cells, i).len(),
    ensures
        0 <= ia.0 < i,
        0 <= ia.1 < 8,
        arrivals(nrec, donor, cells, ia.0).len() <= r,
        arrivals(nrec, donor, cells, i)[r] == donor[cells[ia.0] as int]@[ia.1],
        donor[cells[ia.0] as int]@[ia.1] != NOT_A_DONOR,
        donations(donor, cells, donor[cells[ia.0] as int]@[ia.1], ia.0) + slot_count(
            donor[cells[ia.0] as int],
            donor[cells[ia.0] as int]@[ia.1],
            ia.1,
        ) + 1 == nrec[donor[cells[ia.0] as int]@[ia.1] as int],
    decreases i,
{
    let p = arrivals(nrec, donor, cells, i - 1);
    if r < p.len() {
        lemma_locate_arrival(nrec, donor, cells, i - 1, r)
    } else {
        let a = lemma_locate_slot(nrec, donor, cells, i - 1, 8, r - p.len());
        (i - 1, a)
    }
}

/// The donation of slot `t` of cell `p` to `n` counts towards `n`'s total.
proof fn lemma_donation_counted(donor: Seq<[usize; 8]>, cells: Seq<usize>, n: usize, p: int, t: int)
    requires
        0 <= p < cells.len(),
        0 <= t < 8,
        donor[cells[p] as int]@[t] == n,
    ensures
        donations(donor, cells, n, p) + slot_count(donor[cells[p] as int], n, t) + 1 <= donations(
            donor,
            cells,
            n,
            cells.len() as int,
        ),
{
    let dp = donor[cells[p] as int];
    lemma_slot_count_mono(dp, n, t, 8);
    lemma_donations_mono(donor, cells, n, p + 1, cells.len() as int);
}

/// When the donation of slot `a` of cell `i` reaches all of `n`'s receivers
/// and no count is exceeded, every donation to `n` comes no later.
proof fn lemma_last_donation(
    nrec: Seq<u8>,
    donor: Seq<[usize; 8]>,
    cells: Seq<usize>,
    n: usize,
    i: int,
    a: int,
    p: int,
    t: int,
)
    requires
        0 <= i < cells.len(),
        0 <= a < 8,
        donor[cells[i] as int]@[a] == n,
        donations(donor, cells, n, i) + slot_count(donor[cells[i] as int], n, a) + 1 == nrec[n as int],
        donations(donor, cells, n, cells.len() as int) <= nrec[n as int],
        0 <= p < cells.len(),
        0 <= t < 8,
        donor[cells[p] as int]@[t] == n,
    ensures
        p <= i,
{
    let di = donor[cells[i] as int];
    let len = cells.len() as int;
    lemma_slot_count_mono(di, n, a, 8);
    lemma_donations_mono(donor, cells, n, i + 1, len);
    if p > i {
        lemma_donation_counted(donor, cells, n, p, t);
        lemma_donations_mono(donor, cells, n, i + 1, p);
        assert(false);
    }
}

/// Cells of one level are neither upstream nor downstream of each other:
/// in a finished order whose counts fit, a noted donor of a cell of level
/// `j` that is in the order lies in a later level.
pub proof fn lemma_donor_later_level(
    nrec: Seq<u8>,
    donor: Seq<[usize; 8]>,
    stack: Seq<usize>,
    levels: Seq<usize>,
    j: int,
    p: int,
    t: int,
    q: int,
)
    requires
        nrec.len() <= usize::MAX,
        contour_order(nrec, donor, stack, levels),
        counts_fit(nrec, donor, stack),
        0 <= j < levels.len() - 1,
        levels[j] <= p < levels[j + 1],
        0 <= t < 8,
        0 <= q < stack.len(),
        stack[q] == donor[stack[p] as int]@[t],
    ensures
        q >= levels[j + 1],
{
    let first = sinks_upto(nrec, nrec.len() as int);
    let len = stack.len() as int;
    let n = stack[q];
    lemma_levels_mono(levels, j + 1, levels.len() - 1);
    assert(p < len);
    assert(n < nrec.len());
    let total = donations(donor, stack, n, len);
    assert(total <= nrec[n as int]);
    lemma_donation_counted(donor, stack, n, p, t);
    lemma_sinks(nrec, nrec.len() as int);
    if q < first.len() {
        assert(first[q] == n);
        assert(first.contains((n as int) as usize));
        assert(nrec[n as int] == 0);
        assert(false);
    }
    let r = q - first.len();
    assert(arrivals(nrec, donor, stack, len)[r] == n);
    let (i, a) = lemma_locate_arrival(nrec, donor, stack, len, r);
    lemma_last_donation(nrec, donor, stack, n, i, a, p, t);
    lemma_arrivals_grow(nrec, donor, stack, levels[j] as int, i);
    if j >= 1 {
        assert(levels[j + 1] == first.len() + arrivals(nrec, donor, stack, levels[j] as int).len());
    }
}

/// Level boundaries grow.
proof fn lemma_levels_mono(levels: Seq<usize>, a: int, b: int)
    requires
        0 <= a <= b < levels.len(),
        forall|j: int| 0 <= j < levels.len() - 1 ==> #[trigger] levels[j] < levels[j + 1],
    ensures
        levels[a] <= levels[b],
    decreases b - a,
{
    if a < b {
        lemma_levels_mono(levels, a, b - 1);
        assert(levels[b - 1] < levels[b]);
    }
}

} // verus!
