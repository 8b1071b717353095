//! A tile together with its skirt: the ring of cells around it, loaded from
//! the edges of neighbouring tiles.
//!
//! In skirted coordinates the tile's own cells run from `(1, 1)` to
//! `(width, height)`; column `0` and row `0` are the left and top skirt, and
//! column `width + 1` and row `height + 1` the right and bottom skirt.
//! ```raw
//! .....
//! .xxx.
//! .xxx.
//! .xxx.
//! .....
//! ```
use vstd::prelude::*;

use crate::grid::{dir_index, edge_ok, skirt_start, Dir, EdgeIterator, GridMeta};

verus! {

/// Which part of the skirt the skirted position `(x, y)` of a tile of
/// `width` by `height` cells lies on, if any.
pub open spec fn skirt_side(width: int, height: int, x: int, y: int) -> Option<Dir> {
    let h = height + 1;
    let w = width + 1;
    if x == 0 && y > 0 && y < h {
        Some(Dir::Left)
    } else if x == 0 && y == 0 {
        Some(Dir::TopLeft)
    } else if y == 0 && x > 0 && x < w {
        Some(Dir::Top)
    } else if y == 0 && x == w {
        Some(Dir::TopRight)
    } else if x == w && y > 0 && y < h {
        Some(Dir::Right)
    } else if x == w && y == h {
        Some(Dir::BotRight)
    } else if y == h && x > 0 && x < w {
        Some(Dir::Bot)
    } else if x == 0 && y == h {
        Some(Dir::BotLeft)
    } else {
        None
    }
}

/// Where in the skirt data the skirt position `(x, y)` on side `d` is kept.
pub open spec fn skirt_slot(m: GridMeta, d: Dir, x: int, y: int) -> int {
    match d {
        Dir::Left => y - 1 + skirt_start(m, dir_index(d)),
        Dir::Right => y - 1 + skirt_start(m, dir_index(d)),
        Dir::Top => x - 1 + skirt_start(m, dir_index(d)),
        Dir::Bot => x - 1 + skirt_start(m, dir_index(d)),
        _ => skirt_start(m, dir_index(d)),
    }
}

/// The value at skirted position `(x, y)` of a tile of shape `m` with skirt
/// and tile data `skirt` and `center`.
pub open spec fn cell_value<T>(m: GridMeta, skirt: Seq<T>, center: Seq<T>, x: int, y: int) -> T {
    match skirt_side(m.spec_width() as int, m.spec_height() as int, x, y) {
        Some(d) => skirt[skirt_slot(m, d, x, y)],
        None => center[(x - 1) + (y - 1) * m.spec_width()],
    }
}

/// Skirt positions are kept within their side's part of the skirt, and
/// the other positions are cells of the tile.
proof fn lemma_slot_bounds(m: GridMeta, x: int, y: int)
    requires
        m.wf(),
        0 <= x <= m.spec_width() + 1,
        0 <= y <= m.spec_height() + 1,
    ensures
        skirt_side(m.spec_width() as int, m.spec_height() as int, x, y) matches Some(d) ==> skirt_start(
            m,
            dir_index(d),
        ) <= skirt_slot(m, d, x, y) < skirt_start(m, dir_index(d) + 1),
        skirt_side(m.spec_width() as int, m.spec_height() as int, x, y) is None ==> 1 <= x <= m.spec_width() && 1
            <= y <= m.spec_height() && 0 <= (x - 1) + (y - 1) * m.spec_width() < m.spec_size(),
{
    if skirt_side(m.spec_width() as int, m.spec_height() as int, x, y) is None {
        crate::grid::lemma_cell_index_bound(m.spec_width() as int, m.spec_height() as int, x - 1, y - 1);
    }
}

/// Two different positions are kept in different places.
proof fn lemma_slots_apart(m: GridMeta, x: int, y: int, a: int, b: int)
    requires
        m.wf(),
        0 <= x <= m.spec_width() + 1,
        0 <= y <= m.spec_height() + 1,
        0 <= a <= m.spec_width() + 1,
        0 <= b <= m.spec_height() + 1,
        a != x || b != y,
    ensures
        ({
            let w = m.spec_width() as int;
            let h = m.spec_height() as int;
            match (skirt_side(w, h, x, y), skirt_side(w, h, a, b)) {
                (Some(d), Some(e)) => skirt_slot(m, d, x, y) != skirt_slot(m, e, a, b),
                (None, None) => (x - 1) + (y - 1) * w != (a - 1) + (b - 1) * w,
                _ => true,
            }
        }),
{
    let w = m.spec_width() as int;
    let h = m.spec_height() as int;
    lemma_slot_bounds(m, x, y);
    lemma_slot_bounds(m, a, b);
    match (skirt_side(w, h, x, y), skirt_side(w, h, a, b)) {
        (None, None) => {
            if (x - 1) + (y - 1) * w == (a - 1) + (b - 1) * w {
                assert(y == b) by (nonlinear_arith)
                    requires
                        0 <= a - 1 < w,
                        0 <= x - 1 < w,
                        (a - 1) + (b - 1) * w == (x - 1) + (y - 1) * w,
                ;
            }
        },
        _ => {},
    }
}

/// A tile and its edges: the tile's cells, and the ring of cells around it,
/// each side kept in the order of [`GridMeta::skirt_range`].
///
/// This allows operations such as flow routing on tiles and their edges.
pub struct SkirtedTile<T> {
    skirt: Vec<T>,
    has_edges: u8,
    center: Vec<T>,
    meta: GridMeta,
    skirted_meta: GridMeta,
}

impl<T: Copy> SkirtedTile<T> {
    /// Skirt and tile data fit the tile's shape.
    pub open spec fn wf(&self) -> bool {
        let m = self.spec_meta();
        &&& 2 * m.spec_width() + 2 * m.spec_height() + 4 <= usize::MAX
        &&& self.spec_skirt().len() == skirt_start(m, 8)
        &&& self.spec_center().len() == m.spec_size()
    }

    /// The value at skirted position `(x, y)`.
    pub open spec fn value_at(&self, x: int, y: int) -> T {
        cell_value(self.spec_meta(), self.spec_skirt(), self.spec_center(), x, y)
    }

    /// A tile holding `data`, with every skirt cell set to `fill`.
    pub fn new(meta: GridMeta, data: Vec<T>, fill: T) -> (r: Self)
        requires
            meta.spec_size() == data@.len(),
            2 * meta.spec_width() + 2 * meta.spec_height() + 4 <= usize::MAX,
            meta.spec_width() + 2 < isize::MAX,
            meta.spec_height() + 2 <= isize::MAX,
            (meta.spec_width() + 2) * (meta.spec_height() + 2) <= usize::MAX,
        ensures
            r.wf(),
            r.spec_meta() == meta,
            r.spec_center() == data@,
            r.spec_skirt() == Seq::new(skirt_start(meta, 8) as nat, |i: int| fill),
            r.spec_has_edges() == 0,
            r.spec_skirted_meta().spec_width() == meta.spec_width() + 2,
            r.spec_skirted_meta().spec_height() == meta.spec_height() + 2,
    {
        proof {
            use_type_invariant(&meta);
        }
        let n = meta.skirt_size();
        let mut skirt: Vec<T> = Vec::new();
        let mut i: usize = 0;
        while i < n
            invariant
                i <= n,
                skirt@ == Seq::new(i as nat, |k: int| fill),
            decreases n - i,
        {
            skirt.push(fill);
            proof {
                assert(skirt@ =~= Seq::new((i + 1) as nat, |k: int| fill));
            }
            i = i + 1;
        }
        let w = meta.width() + 2;
        let h = meta.height() + 2;
        let skirted_meta = GridMeta::new(w, h);
        Self { skirt, has_edges: 0, center: data, skirted_meta, meta }
    }

    /// Loads side `dir` of the skirt from `edge`, as far as both reach, and
    /// notes the side as loaded.
    pub fn add_edge(&mut self, edge: EdgeIterator<T>, dir: Dir)
        requires
            old(self).wf(),
            edge.spec_step() > 0,
            edge.spec_data().len() + edge.spec_step() <= usize::MAX,
        ensures
            final(self).wf(),
            final(self).spec_meta() == old(self).spec_meta(),
            final(self).spec_skirted_meta() == old(self).spec_skirted_meta(),
            final(self).spec_center() == old(self).spec_center(),
            final(self).spec_has_edges() == old(self).spec_has_edges() | ((1u8 << dir_index(dir)) as u8),
            ({
                let m = old(self).spec_meta();
                let start = skirt_start(m, dir_index(dir));
                let end = skirt_start(m, dir_index(dir) + 1);
                let rem = edge.remaining();
                let n = if rem.len() < end - start {
                    rem.len() as int
                } else {
                    end - start
                };
                &&& final(self).spec_skirt().len() == old(self).spec_skirt().len()
                &&& forall|i: int|
                    0 <= i < old(self).spec_skirt().len() ==> #[trigger] final(self).spec_skirt()[i] == if start
                        <= i < start + n {
                        rem[i - start]
                    } else {
                        old(self).spec_skirt()[i]
                    }
            }),
    {
        proof {
            use_type_invariant(&self.meta);
        }
        let d = dir.index();
        proof {
            assert(d < 8);
        }
        self.has_edges = self.has_edges | (1u8 << d);
        let range = self.meta.skirt_range(dir);
        let start = range.start;
        let end = range.end;
        let ghost rem0 = edge.remaining();
        let ghost skirt0 = self.skirt@;
        proof {
            assert(skirt_start(self.meta, dir_index(dir)) <= skirt_start(self.meta, dir_index(dir) + 1));
            assert(skirt_start(self.meta, dir_index(dir) + 1) <= skirt_start(self.meta, 8));
        }
        let ghost meta0 = self.meta;
        let ghost smeta0 = self.skirted_meta;
        let ghost center0 = self.center@;
        let ghost has0 = self.has_edges;
        let mut edge = edge;
        let mut k: usize = 0;
        while k < end - start
            invariant_except_break
                self.meta == meta0,
                self.skirted_meta == smeta0,
                self.center@ == center0,
                self.has_edges == has0,
                start <= end <= skirt0.len(),
                k <= end - start,
                k <= rem0.len(),
                edge.spec_step() > 0,
                edge.spec_data().len() + edge.spec_step() <= usize::MAX,
                edge.remaining() == rem0.skip(k as int),
                self.skirt@.len() == skirt0.len(),
                forall|i: int|
                    0 <= i < skirt0.len() ==> #[trigger] self.skirt@[i] == if start <= i < start + k {
                        rem0[i - start]
                    } else {
                        skirt0[i]
                    },
            ensures
                self.meta == meta0,
                self.skirted_meta == smeta0,
                self.center@ == center0,
                self.has_edges == has0,
                self.skirt@.len() == skirt0.len(),
                forall|i: int|
                    0 <= i < skirt0.len() ==> #[trigger] self.skirt@[i] == if start <= i < start + (if rem0.len()
                        < end - start {
                        rem0.len() as int
                    } else {
                        end - start
                    }) {
                        rem0[i - start]
                    } else {
                        skirt0[i]
                    },
            decreases end - start - k,
        {
            proof {
                if edge.spec_cursor() < edge.spec_data().len() {
                    assert(edge.spec_cursor() + edge.spec_step() <= usize::MAX);
                }
            }
            match edge.next() {
                Some(v) => {
                    proof {
                        assert(rem0.skip(k as int).len() > 0);
                        assert(*v == rem0[k as int]);
                        assert(rem0.skip(k as int).drop_first() =~= rem0.skip(k + 1));
                    }
                    self.skirt.set(start + k, *v);
                    k = k + 1;
                },
                None => {
                    proof {
                        assert(rem0.skip(k as int).len() == 0);
                    }
                    break;
                },
            }
        }
    }

    /// The tile's edge `dir`, walked over the tile's own cells.
    pub fn inner_edge<'a>(&'a self, dir: Dir) -> (r: EdgeIterator<'a, T>)
        requires
            edge_ok(self.spec_meta(), self.spec_center().len() as int, dir),
        ensures
            r.spec_cursor() == 0,
            r.remaining() == crate::grid::edge_raw(self.spec_meta(), self.spec_center(), dir),
    {
        self.meta.edge(self.center.as_slice(), dir)
    }

    /// The skirt side `dir`, one cell after the other.
    pub fn edge<'a>(&'a self, dir: Dir) -> (r: EdgeIterator<'a, T>)
        requires
            self.wf(),
        ensures
            r.spec_cursor() == 0,
            r.spec_step() == 1,
            r.spec_data() == self.spec_skirt().subrange(
                skirt_start(self.spec_meta(), dir_index(dir)),
                skirt_start(self.spec_meta(), dir_index(dir) + 1),
            ),
    {
        proof {
            use_type_invariant(&self.meta);
            assert(skirt_start(self.meta, dir_index(dir)) <= skirt_start(self.meta, dir_index(dir) + 1));
            assert(skirt_start(self.meta, dir_index(dir) + 1) <= skirt_start(self.meta, 8));
        }
        let range = self.meta.skirt_range(dir);
        EdgeIterator::new(slice_range(self.skirt.as_slice(), range.start, range.end), 1)
    }

    /// The shape given for the tile with its skirt.
    pub fn meta(&self) -> (r: &GridMeta)
        ensures
            *r == self.spec_skirted_meta(),
    {
        &self.skirted_meta
    }

    /// The value at skirted position `(x, y)`.
    pub fn index(&self, x: usize, y: usize) -> (r: &T)
        requires
            self.wf(),
            x <= self.spec_meta().spec_width() + 1,
            y <= self.spec_meta().spec_height() + 1,
        ensures
            *r == self.value_at(x as int, y as int),
    {
        proof {
            use_type_invariant(&self.meta);
        }
        let slot = self.slot(x, y);
        match slot {
            Some(k) => &self.skirt[k],
            None => {
                proof {
                    lemma_slot_bounds(self.meta, x as int, y as int);
                }
                &self.center[self.meta.xy_to_i(x - 1, y - 1)]
            },
        }
    }

    /// Sets the value at skirted position `(x, y)`.
    pub fn set(&mut self, x: usize, y: usize, v: T)
        requires
            old(self).wf(),
            x <= old(self).spec_meta().spec_width() + 1,
            y <= old(self).spec_meta().spec_height() + 1,
        ensures
            final(self).wf(),
            final(self).spec_meta() == old(self).spec_meta(),
            final(self).spec_skirted_meta() == old(self).spec_skirted_meta(),
            final(self).spec_has_edges() == old(self).spec_has_edges(),
            final(self).value_at(x as int, y as int) == v,
            forall|a: int, b: int|
                0 <= a <= old(self).spec_meta().spec_width() + 1 && 0 <= b <= old(self).spec_meta().spec_height() + 1
                    && (a != x || b != y) ==> #[trigger] final(self).value_at(a, b) == old(self).value_at(a, b),
    {
        proof {
            use_type_invariant(&self.meta);
        }
        let slot = self.slot(x, y);
        let ghost skirt0 = self.skirt@;
        let ghost center0 = self.center@;
        let ghost m = self.meta;
        proof {
            lemma_slot_bounds(m, x as int, y as int);
        }
        match slot {
            Some(k) => {
                self.skirt.set(k, v);
            },
            None => {
                let i = self.meta.xy_to_i(x - 1, y - 1);
                self.center.set(i, v);
            },
        }
        proof {
            assert forall|a: int, b: int|
                0 <= a <= m.spec_width() + 1 && 0 <= b <= m.spec_height() + 1 && (a != x || b != y) implies #[trigger] cell_value(
                m,
                self.skirt@,
                self.center@,
                a,
                b,
            ) == cell_value(m, skirt0, center0, a, b) by {
                lemma_slots_apart(m, x as int, y as int, a, b);
                lemma_slot_bounds(m, a, b);
                lemma_slot_bounds(m, x as int, y as int);
            }
        }
    }
}

impl<T: Copy> SkirtedTile<T> {
    /// Writing `v` at the storage place of skirted position `(x, y)` sets that
    /// position to `v` and leaves every other position as it was.
    proof fn lemma_write(self, x: int, y: int, skirt2: Seq<T>, center2: Seq<T>, v: T)
        requires
            self.wf(),
            self.spec_meta().wf(),
            0 <= x <= self.spec_meta().spec_width() + 1,
            0 <= y <= self.spec_meta().spec_height() + 1,
            match skirt_side(self.spec_meta().spec_width() as int, self.spec_meta().spec_height() as int, x, y) {
                Some(d) => skirt2 == self.spec_skirt().update(skirt_slot(self.spec_meta(), d, x, y), v)
                    && center2 == self.spec_center(),
                None => skirt2 == self.spec_skirt() && center2 == self.spec_center().update(
                    (x - 1) + (y - 1) * self.spec_meta().spec_width(),
                    v,
                ),
            },
        ensures
            cell_value(self.spec_meta(), skirt2, center2, x, y) == v,
            forall|a: int, b: int|
                0 <= a <= self.spec_meta().spec_width() + 1 && 0 <= b <= self.spec_meta().spec_height() + 1 && (a
                    != x || b != y) ==> #[trigger] cell_value(self.spec_meta(), skirt2, center2, a, b)
                    == self.value_at(a, b),
    {
        let m = self.spec_meta();
        lemma_slot_bounds(m, x, y);
        assert forall|a: int, b: int|
            0 <= a <= m.spec_width() + 1 && 0 <= b <= m.spec_height() + 1 && (a != x || b != y) implies #[trigger] cell_value(
            m,
            skirt2,
            center2,
            a,
            b,
        ) == self.value_at(a, b) by {
            lemma_slots_apart(m, x, y, a, b);
            lemma_slot_bounds(m, a, b);
        }
    }
}

impl<T: Copy> SkirtedTile<T> {
    /// Mutable access to the value at skirted position `(x, y)`.
    pub fn index_mut(&mut self, x: usize, y: usize) -> (r: &mut T)
        requires
            old(self).wf(),
            x <= old(self).spec_meta().spec_width() + 1,
            y <= old(self).spec_meta().spec_height() + 1,
        ensures
            *r == old(self).value_at(x as int, y as int),
            final(self).wf(),
            final(self).spec_meta() == old(self).spec_meta(),
            final(self).spec_skirted_meta() == old(self).spec_skirted_meta(),
            final(self).spec_has_edges() == old(self).spec_has_edges(),
            final(self).value_at(x as int, y as int) == *final(r),
            forall|a: int, b: int|
                0 <= a <= old(self).spec_meta().spec_width() + 1 && 0 <= b <= old(self).spec_meta().spec_height() + 1
                    && (a != x || b != y) ==> #[trigger] final(self).value_at(a, b) == old(self).value_at(a, b),
    {
        proof {
            use_type_invariant(&self.meta);
            lemma_slot_bounds(self.meta, x as int, y as int);
        }
        let slot = self.slot(x, y);
        let ghost t = *self;
        match slot {
            Some(k) => {
                let r = &mut self.skirt[k];
                proof {
                    t.lemma_write(x as int, y as int, t.spec_skirt().update(k as int, *final(r)), t.spec_center(), *final(r));
                }
                r
            },
            None => {
                let i = self.meta.xy_to_i(x - 1, y - 1);
                let r = &mut self.center[i];
                proof {
                    t.lemma_write(x as int, y as int, t.spec_skirt(), t.spec_center().update(i as int, *final(r)), *final(r));
                }
                r
            },
        }
    }
}

impl<T> SkirtedTile<T> {
    /// The skirt's values, side after side.
    pub closed spec fn spec_skirt(&self) -> Seq<T> {
        self.skirt@
    }

    /// The tile's own values.
    pub closed spec fn spec_center(&self) -> Seq<T> {
        self.center@
    }

    /// Which sides have been loaded, one bit per direction.
    pub closed spec fn spec_has_edges(&self) -> u8 {
        self.has_edges
    }

    /// The shape of the tile without its skirt.
    pub closed spec fn spec_meta(&self) -> GridMeta {
        self.meta
    }

    /// The shape given for the tile with its skirt.
    pub closed spec fn spec_skirted_meta(&self) -> GridMeta {
        self.skirted_meta
    }

    /// Which side of the skirt the skirted position `(x, y)` lies on, if any.
    pub fn which_edge(&self, x: usize, y: usize) -> (r: Option<Dir>)
        ensures
            r == skirt_side(
                self.spec_meta().spec_width() as int,
                self.spec_meta().spec_height() as int,
                x as int,
                y as int,
            ),
            ({
                let w = self.spec_meta().spec_width() + 1;
                let h = self.spec_meta().spec_height() + 1;
                &&& r is Some <==> (x <= w && y <= h && (x == 0 || y == 0 || x == w || y == h))
                &&& r == Some(Dir::Left) ==> x == 0 && 0 < y < h
                &&& r == Some(Dir::TopLeft) ==> x == 0 && y == 0
                &&& r == Some(Dir::Top) ==> y == 0 && 0 < x < w
                &&& r == Some(Dir::TopRight) ==> x == w && y == 0
                &&& r == Some(Dir::Right) ==> x == w && 0 < y < h
                &&& r == Some(Dir::BotRight) ==> x == w && y == h
                &&& r == Some(Dir::Bot) ==> y == h && 0 < x < w
                &&& r == Some(Dir::BotLeft) ==> x == 0 && y == h
            }),
    {
        proof {
            use_type_invariant(&self.meta);
        }
        let height = self.meta.height() + 1;
        let width = self.meta.width() + 1;
        if x == 0 && y > 0 && y < height {
            Some(Dir::Left)
        } else if x == 0 && y == 0 {
            Some(Dir::TopLeft)
        } else if y == 0 && x > 0 && x < width {
            Some(Dir::Top)
        } else if y == 0 && x == width {
            Some(Dir::TopRight)
        } else if x == width && y > 0 && y < height {
            Some(Dir::Right)
        } else if x == width && y == height {
            Some(Dir::BotRight)
        } else if y == height && x > 0 && x < width {
            Some(Dir::Bot)
        } else if x == 0 && y == height {
            Some(Dir::BotLeft)
        } else {
            None
        }
    }
}

impl<T: Copy> SkirtedTile<T> {
    /// Where the skirted position `(x, y)` is kept in the skirt, if it is a
    /// skirt position.
    fn slot(&self, x: usize, y: usize) -> (r: Option<usize>)
        requires
            self.wf(),
            x <= self.spec_meta().spec_width() + 1,
            y <= self.spec_meta().spec_height() + 1,
        ensures
            match skirt_side(
                self.spec_meta().spec_width() as int,
                self.spec_meta().spec_height() as int,
                x as int,
                y as int,
            ) {
                Some(d) => r == Some(skirt_slot(self.spec_meta(), d, x as int, y as int) as usize) && skirt_slot(
                    self.spec_meta(),
                    d,
                    x as int,
                    y as int,
                ) < self.spec_skirt().len(),
                None => r is None,
            },
    {
        proof {
            use_type_invariant(&self.meta);
        }
        match self.which_edge(x, y) {
            Some(dir) => {
                let range = self.meta.skirt_range(dir);
                let start = range.start;
                match dir {
                    Dir::Left => Some(y - 1 + start),
                    Dir::Right => Some(y - 1 + start),
                    Dir::Top => Some(x - 1 + start),
                    Dir::Bot => Some(x - 1 + start),
                    _ => Some(start),
                }
            },
            None => None,
        }
    }
}

/// The part `start..end` of a slice.
fn slice_range<T>(s: &[T], start: usize, end: usize) -> (r: &[T])
    requires
        start <= end <= s@.len(),
    ensures
        r@ == s@.subrange(start as int, end as int),
{
    &s[start..end]
}

} // verus!
