//! Level-by-level updates of an array: every cell of a level adds to itself
//! the value of the one cell it reads from. When the cells a level reads
//! lie outside the level, its cells can be updated all at once.
use vstd::prelude::*;

verus! {

/// The array after the cells at stack positions `from..k` have each added
/// the value they read, one after the other.
pub open spec fn added_upto(arr: Seq<i32>, stack: Seq<isize>, reads: Seq<isize>, from: int, k: int) -> Seq<i32>
    decreases k - from,
{
    if k <= from {
        arr
    } else {
        let s = added_upto(arr, stack, reads, from, k - 1);
        let i = stack[k - 1] as int;
        s.update(i, (s[i] + s[reads[i] as int]) as i32)
    }
}

/// Every update from stack position `from` to `k` stays in bounds and
/// does not overflow.
pub open spec fn adds_ok(arr: Seq<i32>, stack: Seq<isize>, reads: Seq<isize>, from: int, k: int) -> bool {
    forall|p: int|
        from <= p < k ==> {
            let s = #[trigger] added_upto(arr, stack, reads, from, p);
            let i = stack[p] as int;
            &&& 0 <= i < arr.len()
            &&& i < reads.len()
            &&& 0 <= reads[i] < arr.len()
            &&& i32::MIN <= s[i] + s[reads[i] as int] <= i32::MAX
        }
}

/// Updating the cells at stack positions `from..k` keeps the array's length
/// and leaves every cell that is not listed there as it was.
pub proof fn lemma_added_upto_keeps(arr: Seq<i32>, stack: Seq<isize>, reads: Seq<isize>, from: int, k: int, i: int)
    requires
        forall|p: int| from <= p < k ==> 0 <= #[trigger] stack[p] < arr.len() && stack[p] != i,
        0 <= i < arr.len(),
    ensures
        added_upto(arr, stack, reads, from, k).len() == arr.len(),
        added_upto(arr, stack, reads, from, k)[i] == arr[i],
    decreases k - from,
{
    if k > from {
        lemma_added_upto_keeps(arr, stack, reads, from, k - 1, i);
        assert(0 <= stack[k - 1] < arr.len());
    }
}

/// The level boundaries are in order and lie in the stack.
pub open spec fn levels_ok(levels: Seq<usize>, stack_len: int) -> bool {
    &&& forall|j: int, l: int| 0 <= j <= l < levels.len() ==> levels[j] <= levels[l]
    &&& levels.len() > 0 ==> levels.last() <= stack_len
}

/// Where the first level starts.
pub open spec fn first_start(levels: Seq<usize>) -> int {
    if levels.len() > 0 {
        levels[0] as int
    } else {
        0
    }
}

/// Where the last level ends.
pub open spec fn last_end(levels: Seq<usize>) -> int {
    if levels.len() > 0 {
        levels.last() as int
    } else {
        0
    }
}

/// Level after level, every cell `c` of the stack adds to itself the value
/// at `reads[c]`, in stack order.
pub fn do_stuff(arr: &mut [i32], levels: &[usize], stack: &[isize], reads: &[isize])
    requires
        levels_ok(levels@, stack@.len() as int),
        adds_ok(old(arr)@, stack@, reads@, first_start(levels@), last_end(levels@)),
    ensures
        final(arr)@ == added_upto(old(arr)@, stack@, reads@, first_start(levels@), last_end(levels@)),
        final(arr)@.len() == old(arr)@.len(),
        forall|i: int|
            #![trigger final(arr)@[i]]
            0 <= i < old(arr)@.len() && (forall|p: int|
                first_start(levels@) <= p < last_end(levels@) ==> #[trigger] stack@[p] != i) ==> final(arr)@[i]
                == old(arr)@[i],
{
    let ghost a0 = arr@;
    let ghost from = first_start(levels@);
    proof {
        assert forall|i: int|
            0 <= i < a0.len() && (forall|p: int| from <= p < last_end(levels@) ==> #[trigger] stack@[p] != i)
            implies #[trigger] added_upto(a0, stack@, reads@, from, last_end(levels@))[i] == a0[i] by {
            assert forall|p: int| from <= p < last_end(levels@) implies 0 <= #[trigger] stack@[p] < a0.len()
                && stack@[p] != i by {
                let s = added_upto(a0, stack@, reads@, from, p);
            }
            lemma_added_upto_keeps(a0, stack@, reads@, from, last_end(levels@), i);
        }
    }
    if levels.len() == 0 {
        return;
    }
    let mut j: usize = 0;
    while j < levels.len() - 1
        invariant
            levels_ok(levels@, stack@.len() as int),
            levels@.len() > 0,
            from == levels@[0],
            j < levels@.len(),
            adds_ok(a0, stack@, reads@, from, last_end(levels@)),
            arr@ == added_upto(a0, stack@, reads@, from, levels@[j as int] as int),
            arr@.len() == a0.len(),
        decreases levels@.len() - j,
    {
        let start = levels[j];
        let end = levels[j + 1];
        let mut p: usize = start;
        while p < end
            invariant
                levels_ok(levels@, stack@.len() as int),
                from <= start <= p <= end <= last_end(levels@) <= stack@.len(),
                adds_ok(a0, stack@, reads@, from, last_end(levels@)),
                arr@ == added_upto(a0, stack@, reads@, from, p as int),
                arr@.len() == a0.len(),
            decreases end - p,
        {
            proof {
                assert(added_upto(a0, stack@, reads@, from, p as int) == arr@);
            }
            let i = stack[p] as usize;
            let r = reads[i] as usize;
            let v = arr[i] + arr[r];
            arr[i] = v;
            p = p + 1;
        }
        j = j + 1;
    }
}

/// The array after level `level` of the stack was updated all at once:
/// every cell of the level gets its own value plus the one it reads, both
/// taken before the level; for a cell listed twice the last listing counts.
pub open spec fn level_added(arr: Seq<i32>, level: Seq<usize>, reads: Seq<usize>, t: int) -> Seq<i32>
    decreases t,
{
    if t <= 0 {
        arr
    } else {
        let c = level[t - 1] as int;
        level_added(arr, level, reads, t - 1).update(c, (arr[c] + arr[reads[c] as int]) as i32)
    }
}

/// The array after levels `0..j` were each updated all at once.
pub open spec fn levels_added(arr: Seq<i32>, levels: Seq<usize>, stack: Seq<usize>, reads: Seq<usize>, j: int) -> Seq<
    i32,
>
    decreases j,
{
    if j <= 0 {
        arr
    } else {
        let prev = levels_added(arr, levels, stack, reads, j - 1);
        let level = stack.subrange(levels[j - 1] as int, levels[j] as int);
        level_added(prev, level, reads, level.len() as int)
    }
}

/// Updating the cells of one level keeps the array's length and leaves every
/// cell that the level does not list as it was.
pub proof fn lemma_level_added_keeps(arr: Seq<i32>, level: Seq<usize>, reads: Seq<usize>, t: int, i: int)
    requires
        0 <= t <= level.len(),
        forall|q: int| 0 <= q < t ==> #[trigger] level[q] < arr.len() && level[q] != i,
        0 <= i < arr.len(),
    ensures
        level_added(arr, level, reads, t).len() == arr.len(),
        level_added(arr, level, reads, t)[i] == arr[i],
    decreases t,
{
    if t > 0 {
        lemma_level_added_keeps(arr, level, reads, t - 1, i);
        assert(level[t - 1] < arr.len());
    }
}

/// Updating levels `0..j` keeps the array's length and leaves every cell
/// that those levels do not list as it was.
pub proof fn lemma_levels_added_keeps(
    arr: Seq<i32>,
    levels: Seq<usize>,
    stack: Seq<usize>,
    reads: Seq<usize>,
    j: int,
    i: int,
)
    requires
        forall|a: int, b: int| 0 <= a <= b < levels.len() ==> levels[a] <= levels[b],
        levels.len() > 0 ==> levels.last() <= stack.len(),
        levels_adds_ok(arr, levels, stack, reads),
        0 <= j < levels.len(),
        0 <= i < arr.len(),
        forall|t: int| levels[0] <= t < levels[j] ==> #[trigger] stack[t] != i,
    ensures
        levels_added(arr, levels, stack, reads, j).len() == arr.len(),
        levels_added(arr, levels, stack, reads, j)[i] == arr[i],
    decreases j,
{
    if j > 0 {
        lemma_levels_added_keeps(arr, levels, stack, reads, j - 1, i);
        let prev = levels_added(arr, levels, stack, reads, j - 1);
        let level = stack.subrange(levels[j - 1] as int, levels[j] as int);
        assert forall|q: int| 0 <= q < level.len() implies #[trigger] level[q] < prev.len() && level[q] != i by {
            let t = levels[j - 1] + q;
            assert(level[q] == stack[t]);
            assert(levels[0] <= levels[j - 1]);
        }
        lemma_level_added_keeps(prev, level, reads, level.len() as int, i);
    }
}

/// Every level's updates stay in bounds and do not overflow.
pub open spec fn levels_adds_ok(arr: Seq<i32>, levels: Seq<usize>, stack: Seq<usize>, reads: Seq<usize>) -> bool {
    forall|j: int, t: int|
        #![trigger levels_added(arr, levels, stack, reads, j), stack[t]]
        0 <= j < levels.len() - 1 && levels[j] <= t < levels[j + 1] ==> {
            let prev = levels_added(arr, levels, stack, reads, j);
            let c = stack[t] as int;
            &&& 0 <= c < arr.len()
            &&& c < reads.len()
            &&& reads[c] < arr.len()
            &&& i32::MIN <= prev[c] + prev[reads[c] as int] <= i32::MAX
        }
}

/// Level after level, every cell `c` of the level gets its own value plus
/// the value at `reads[c]`, both as they were before the level.
pub fn do_slow_stuff(arr: &mut [i32], levels: &[usize], stack: &[usize], reads: &[usize])
    requires
        forall|j: int, l: int| 0 <= j <= l < levels@.len() ==> levels@[j] <= levels@[l],
        levels@.len() > 0 ==> levels@.last() <= stack@.len(),
        levels_adds_ok(old(arr)@, levels@, stack@, reads@),
    ensures
        final(arr)@ == levels_added(old(arr)@, levels@, stack@, reads@, if levels@.len() > 0 {
            levels@.len() - 1
        } else {
            0
        }),
        final(arr)@.len() == old(arr)@.len(),
        forall|i: int|
            #![trigger final(arr)@[i]]
            0 <= i < old(arr)@.len() && (forall|t: int|
                0 < levels@.len() && levels@[0] <= t < levels@[levels@.len() - 1] ==> #[trigger] stack@[t]
                    != i) ==> final(arr)@[i] == old(arr)@[i],
{
    let ghost a0 = arr@;
    if levels.len() == 0 {
        return;
    }
    proof {
        assert forall|i: int|
            0 <= i < a0.len() && (forall|t: int|
                0 < levels@.len() && levels@[0] <= t < levels@[levels@.len() - 1] ==> #[trigger] stack@[t]
                    != i) implies #[trigger] levels_added(a0, levels@, stack@, reads@, levels@.len() - 1)[i]
            == a0[i] by {
            lemma_levels_added_keeps(a0, levels@, stack@, reads@, levels@.len() - 1, i);
        }
    }
    let mut j: usize = 0;
    while j < levels.len() - 1
        invariant
            forall|a: int, b: int| 0 <= a <= b < levels@.len() ==> levels@[a] <= levels@[b],
            levels@.last() <= stack@.len(),
            j < levels@.len(),
            levels_adds_ok(a0, levels@, stack@, reads@),
            arr@ == levels_added(a0, levels@, stack@, reads@, j as int),
            arr@.len() == a0.len(),
        decreases levels@.len() - j,
    {
        let start = levels[j];
        let end = levels[j + 1];
        let ghost prev = arr@;
        let ghost level = stack@.subrange(start as int, end as int);
        let mut v: Vec<i32> = Vec::new();
        let mut t: usize = start;
        while t < end
            invariant
                start <= t <= end <= stack@.len(),
                j + 1 < levels@.len(),
                start == levels@[j as int],
                end == levels@[j + 1],
                arr@ == prev,
                arr@.len() == a0.len(),
                prev == levels_added(a0, levels@, stack@, reads@, j as int),
                levels_adds_ok(a0, levels@, stack@, reads@),
                v@.len() == t - start,
                forall|q: int|
                    0 <= q < t - start ==> #[trigger] v@[q] == prev[stack@[start + q] as int] + prev[reads@[stack@[start
                        + q] as int] as int],
            decreases end - t,
        {
            let c = stack[t];
            let s = arr[c] + arr[reads[c]];
            v.push(s);
            t = t + 1;
        }
        let mut q: usize = 0;
        while q < end - start
            invariant
                start <= end <= stack@.len(),
                j + 1 < levels@.len(),
                start == levels@[j as int],
                end == levels@[j + 1],
                level == stack@.subrange(start as int, end as int),
                prev == levels_added(a0, levels@, stack@, reads@, j as int),
                levels_adds_ok(a0, levels@, stack@, reads@),
                v@.len() == end - start,
                forall|k: int|
                    0 <= k < end - start ==> #[trigger] v@[k] == prev[stack@[start + k] as int] + prev[reads@[stack@[start
                        + k] as int] as int],
                q <= end - start,
                arr@ == level_added(prev, level, reads@, q as int),
                arr@.len() == a0.len(),
                prev.len() == a0.len(),
            decreases end - start - q,
        {
            let c = stack[start + q];
            proof {
                assert(level[q as int] == c);
            }
            arr[c] = v[q];
            q = q + 1;
        }
        j = j + 1;
    }
}

} // verus!
