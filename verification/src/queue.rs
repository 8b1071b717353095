//! A max-priority queue over items that carry a rank, kept as a binary heap.
//!
//! Items are kept in an array in which every item ranks no higher than the
//! item at its parent position `(i - 1) / 2`. Adding an item moves it up
//! from the end while it outranks its parent; taking the top item moves the
//! last item into the root's place, down along the higher children to the
//! bottom (the right child on a tie) and back up while it outranks its
//! parent. Among items of equal rank, which one leaves first is decided by
//! these moves.
use vstd::prelude::*;
use vstd::multiset::Multiset;

verus! {

broadcast use vstd::seq_lib::group_to_multiset_ensures;

/// `a` comes strictly before `b` in lexicographic order.
pub open spec fn rank_gt(a: (int, int), b: (int, int)) -> bool {
    a.0 > b.0 || (a.0 == b.0 && a.1 > b.1)
}

/// Items that a [`MaxQueue`] can hold: the item of greatest rank is served
/// first.
pub trait Ranked: Sized {
    /// The rank; compared lexicographically.
    spec fn rank(&self) -> (int, int);

    /// Whether `self` is served before `other`.
    fn outranks(&self, other: &Self) -> (r: bool)
        ensures
            r == rank_gt(self.rank(), other.rank()),
    ;
}

/// Every item ranks no higher than its parent.
pub open spec fn heap_ok<T: Ranked>(s: Seq<T>) -> bool {
    forall|i: int| 0 < i < s.len() ==> !rank_gt(#[trigger] s[i].rank(), s[(i - 1) / 2].rank())
}

/// The heap order holds except between position `pos` and its parent, and
/// the children of `pos` rank no higher than the parent of `pos`.
pub open spec fn heap_but_up<T: Ranked>(s: Seq<T>, pos: int) -> bool {
    &&& forall|i: int| 0 < i < s.len() && i != pos ==> !rank_gt(#[trigger] s[i].rank(), s[(i - 1) / 2].rank())
    &&& pos > 0 ==> forall|c: int|
        0 < c < s.len() && (c - 1) / 2 == pos ==> !rank_gt(#[trigger] s[c].rank(), s[(pos - 1) / 2].rank())
}

/// The heap order holds except between position `pos` and its children and
/// parent, and the children of `pos` rank no higher than the parent of `pos`.
pub open spec fn heap_but_down<T: Ranked>(s: Seq<T>, pos: int) -> bool {
    &&& forall|i: int|
        0 < i < s.len() && i != pos && (i - 1) / 2 != pos ==> !rank_gt(
            #[trigger] s[i].rank(),
            s[(i - 1) / 2].rank(),
        )
    &&& pos > 0 ==> forall|c: int|
        0 < c < s.len() && (c - 1) / 2 == pos ==> !rank_gt(#[trigger] s[c].rank(), s[(pos - 1) / 2].rank())
}

/// The top of a heap ranks highest.
proof fn lemma_heap_top<T: Ranked>(s: Seq<T>, i: int)
    requires
        heap_ok(s),
        0 <= i < s.len(),
    ensures
        !rank_gt(s[i].rank(), s[0].rank()),
    decreases i,
{
    if i > 0 {
        lemma_heap_top(s, (i - 1) / 2);
        assert(!rank_gt(s[i].rank(), s[(i - 1) / 2].rank()));
    }
}

/// Exchanging two items keeps the multiset of items.
proof fn lemma_swap_multiset<T>(s: Seq<T>, i: int, j: int)
    requires
        0 <= i < s.len(),
        0 <= j < s.len(),
    ensures
        s.update(i, s[j]).update(j, s[i]).to_multiset() == s.to_multiset(),
{
    broadcast use vstd::multiset::group_multiset_axioms;

    let t = s.update(i, s[j]);
    assert(t.to_multiset() == s.to_multiset().insert(s[j]).remove(s[i]));
    assert(t[j] == s[j] || i == j);
    if i == j {
        assert(s.update(i, s[j]).update(j, s[i]) =~= s);
    } else {
        assert(t.update(j, s[i]).to_multiset() == t.to_multiset().insert(s[i]).remove(t[j]));
        assert(t.update(j, s[i]).to_multiset() =~= s.to_multiset());
    }
}

/// Exchanges the items at `i` and `j`.
fn swap_items<T: Copy>(v: &mut Vec<T>, i: usize, j: usize)
    requires
        i < old(v)@.len(),
        j < old(v)@.len(),
    ensures
        final(v)@ == old(v)@.update(i as int, old(v)@[j as int]).update(j as int, old(v)@[i as int]),
        final(v)@.to_multiset() == old(v)@.to_multiset(),
{
    proof {
        lemma_swap_multiset(v@, i as int, j as int);
    }
    let a = v[i];
    let b = v[j];
    v.set(i, b);
    v.set(j, a);
}

/// Moves the item at `pos` up while it outranks its parent.
fn sift_up<T: Ranked + Copy>(v: &mut Vec<T>, pos: usize)
    requires
        pos < old(v)@.len(),
        heap_but_up(old(v)@, pos as int),
    ensures
        final(v)@.len() == old(v)@.len(),
        final(v)@.to_multiset() == old(v)@.to_multiset(),
        heap_ok(final(v)@),
{
    let ghost m0 = v@.to_multiset();
    let ghost len0 = v@.len();
    let mut pos = pos;
    while pos > 0
        invariant_except_break
            pos < v@.len(),
            v@.len() == len0,
            v@.to_multiset() == m0,
            heap_but_up(v@, pos as int),
        ensures
            v@.len() == len0,
            v@.to_multiset() == m0,
            heap_ok(v@),
        decreases pos,
    {
        let parent = (pos - 1) / 2;
        if !v[pos].outranks(&v[parent]) {
            break;
        }
        let ghost s = v@;
        swap_items(v, pos, parent);
        proof {
            let t = v@;
            assert forall|i: int| 0 < i < t.len() && i != parent as int implies !rank_gt(
                #[trigger] t[i].rank(),
                t[(i - 1) / 2].rank(),
            ) by {
                if i == pos as int {
                    assert(t[i] == s[parent as int]);
                } else if (i - 1) / 2 == pos as int {
                    assert(t[i] == s[i]);
                } else if (i - 1) / 2 == parent as int {
                    assert(t[i] == s[i]);
                    assert(!rank_gt(s[i].rank(), s[parent as int].rank()));
                } else {
                    assert(t[i] == s[i]);
                }
            }
            if parent > 0 {
                assert forall|c: int| 0 < c < t.len() && (c - 1) / 2 == parent as int implies !rank_gt(
                    #[trigger] t[c].rank(),
                    t[(parent as int - 1) / 2].rank(),
                ) by {
                    assert(!rank_gt(s[parent as int].rank(), s[(parent as int - 1) / 2].rank()));
                    if c != pos as int {
                        assert(!rank_gt(s[c].rank(), s[parent as int].rank()));
                    }
                }
            }
        }
        pos = parent;
    }
}

/// Moving the item at `p` down to its child `c`, which ranks no lower than
/// its sibling, moves the gap in the heap order down to `c`.
proof fn lemma_down_step<T: Ranked>(s: Seq<T>, p: int, c: int)
    requires
        heap_but_down(s, p),
        0 <= p < c < s.len(),
        (c - 1) / 2 == p,
        forall|k: int| 0 < k < s.len() && (k - 1) / 2 == p ==> !rank_gt(#[trigger] s[k].rank(), s[c].rank()),
    ensures
        heap_but_down(s.update(p, s[c]).update(c, s[p]), c),
{
    let t = s.update(p, s[c]).update(c, s[p]);
    assert forall|i: int| 0 < i < t.len() && i != c && (i - 1) / 2 != c implies !rank_gt(
        #[trigger] t[i].rank(),
        t[(i - 1) / 2].rank(),
    ) by {
        if i == p {
            assert(t[i] == s[c]);
        } else if (i - 1) / 2 == p {
            assert(t[i] == s[i]);
            assert(t[p] == s[c]);
        } else {
            assert(t[i] == s[i]);
        }
    }
    assert forall|k: int| 0 < k < t.len() && (k - 1) / 2 == c implies !rank_gt(
        #[trigger] t[k].rank(),
        t[(c - 1) / 2].rank(),
    ) by {
        assert(t[k] == s[k]);
        assert(!rank_gt(s[k].rank(), s[c].rank()));
    }
}

/// Moves the item at the top down along the higher children to the bottom,
/// then up while it outranks its parent.
fn sift_down_to_bottom<T: Ranked + Copy>(v: &mut Vec<T>)
    requires
        old(v)@.len() > 0,
        heap_but_down(old(v)@, 0),
    ensures
        final(v)@.len() == old(v)@.len(),
        final(v)@.to_multiset() == old(v)@.to_multiset(),
        heap_ok(final(v)@),
{
    let ghost m0 = v@.to_multiset();
    let end = v.len();
    let mut pos: usize = 0;
    let mut child: usize = 1;
    while end >= 2 && child <= end - 2
        invariant
            end == v@.len(),
            pos < end,
            child == 2 * pos + 1 || (child == usize::MAX && 2 * pos + 1 > usize::MAX),
            v@.to_multiset() == m0,
            heap_but_down(v@, pos as int),
        decreases end - pos,
    {
        if !v[child].outranks(&v[child + 1]) {
            child = child + 1;
        }
        let ghost s = v@;
        swap_items(v, pos, child);
        proof {
            lemma_down_step(s, pos as int, child as int);
        }
        pos = child;
        if pos > (usize::MAX - 1) / 2 {
            child = usize::MAX;
        } else {
            child = 2 * pos + 1;
        }
    }
    if end >= 1 && child == end - 1 {
        let ghost s = v@;
        swap_items(v, pos, child);
        proof {
            lemma_down_step(s, pos as int, child as int);
        }
        pos = child;
    }
    proof {
        let t = v@;
        assert(2 * pos + 1 >= end);
        assert forall|i: int| 0 < i < t.len() && i != pos as int implies !rank_gt(
            #[trigger] t[i].rank(),
            t[(i - 1) / 2].rank(),
        ) by {
            assert((i - 1) / 2 != pos as int);
        }
    }
    sift_up(v, pos);
}

/// A priority queue that hands out an item of greatest rank first.
#[derive(Debug)]
pub struct MaxQueue<T: Ranked + Copy> {
    items: Vec<T>,
}

impl<T: Ranked + Copy> Clone for MaxQueue<T> {
    fn clone(&self) -> (r: Self)
        ensures
            r@ == self@,
    {
        proof {
            use_type_invariant(self);
        }
        let mut items: Vec<T> = Vec::new();
        let mut i: usize = 0;
        while i < self.items.len()
            invariant
                i <= self.items@.len(),
                items@ == self.items@.take(i as int),
            decreases self.items@.len() - i,
        {
            items.push(self.items[i]);
            proof {
                assert(items@ =~= self.items@.take(i + 1));
            }
            i = i + 1;
        }
        proof {
            assert(items@ =~= self.items@);
        }
        MaxQueue { items }
    }
}

impl<T: Ranked + Copy> MaxQueue<T> {
    /// The items form a heap.
    #[verifier::type_invariant]
    spec fn inv(&self) -> bool {
        heap_ok(self.items@)
    }

    /// The items held, as a multiset.
    pub closed spec fn view(&self) -> Multiset<T> {
        self.items@.to_multiset()
    }

    /// An empty queue.
    pub fn new() -> (q: Self)
        ensures
            q@ =~= Multiset::<T>::empty(),
    {
        Self { items: Vec::new() }
    }

    /// The number of items held.
    pub fn len(&self) -> (n: usize)
        ensures
            n == self@.len(),
    {
        self.items.len()
    }

    /// Whether the queue is empty.
    pub fn is_empty(&self) -> (b: bool)
        ensures
            b <==> self@.len() == 0,
    {
        self.items.len() == 0
    }

    /// The items held, in no particular order.
    pub fn as_slice(&self) -> (s: &[T])
        ensures
            s@.to_multiset() == self@,
    {
        self.items.as_slice()
    }

    /// Adds an item.
    pub fn push(&mut self, item: T)
        ensures
            final(self)@ == old(self)@.insert(item),
    {
        proof {
            use_type_invariant(&*self);
        }
        let mut items: Vec<T> = Vec::new();
        std::mem::swap(&mut items, &mut self.items);
        let old_len = items.len();
        let ghost before = items@;
        items.push(item);
        proof {
            let s = items@;
            assert forall|i: int| 0 < i < s.len() && i != old_len as int implies !rank_gt(
                #[trigger] s[i].rank(),
                s[(i - 1) / 2].rank(),
            ) by {
                assert(s[i] == before[i]);
                assert(s[(i - 1) / 2] == before[(i - 1) / 2]);
            }
        }
        sift_up(&mut items, old_len);
        self.items = items;
    }

    /// Removes and returns an item of greatest rank, or `None` when empty.
    ///
    /// Among items of equal greatest rank, which one leaves is decided by
    /// the heap's moves.
    pub fn pop(&mut self) -> (r: Option<T>)
        ensures
            r is None <==> old(self)@.len() == 0,
            r is None ==> *final(self) == *old(self),
            r matches Some(x) ==> {
                &&& old(self)@.count(x) > 0
                &&& final(self)@ == old(self)@.remove(x)
                &&& forall|y: T| #[trigger] old(self)@.count(y) > 0 ==> !rank_gt(y.rank(), x.rank())
            },
    {
        proof {
            use_type_invariant(&*self);
        }
        let mut items: Vec<T> = Vec::new();
        std::mem::swap(&mut items, &mut self.items);
        let ghost s0 = items@;
        if items.len() == 0 {
            self.items = items;
            return None;
        }
        let last = items.len() - 1;
        let top = items[0];
        proof {
            assert forall|y: T| #[trigger] s0.to_multiset().count(y) > 0 implies !rank_gt(y.rank(), top.rank()) by {
                assert(s0.contains(y));
                let j = choose|j: int| 0 <= j < s0.len() && s0[j] == y;
                lemma_heap_top(s0, j);
            }
            assert(s0.contains(top));
        }
        if last == 0 {
            items.pop();
            proof {
                assert(s0 =~= seq![top]);
                assert(items@ =~= Seq::<T>::empty());
                assert(s0.to_multiset() =~= Multiset::<T>::empty().insert(top));
            }
            self.items = items;
            return Some(top);
        }
        swap_items(&mut items, 0, last);
        let ghost s1 = items@;
        let popped = items.pop();
        proof {
            assert(items@ =~= s1.drop_last());
            assert(s1.last() == top);
            assert(s1 =~= items@.push(top));
            let s = items@;
            assert forall|i: int| 0 < i < s.len() && i != 0 && (i - 1) / 2 != 0 implies !rank_gt(
                #[trigger] s[i].rank(),
                s[(i - 1) / 2].rank(),
            ) by {
                assert(s[i] == s0[i]);
                assert(s[(i - 1) / 2] == s0[(i - 1) / 2]);
            }
        }
        sift_down_to_bottom(&mut items);
        proof {
            assert(s0.to_multiset() == s1.to_multiset());
            assert(s1.to_multiset() == items@.to_multiset().insert(top));
            assert(s0.to_multiset().remove(top) =~= items@.to_multiset());
        }
        self.items = items;
        Some(top)
    }
}

} // verus!
