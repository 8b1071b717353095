//! Grid geometry: directions, flat indexing and the edges of a grid.
use vstd::prelude::*;

use crate::error::GridError;

verus! {

/// Marker for a cell that passes no flow (single flow direction).
pub const NO_FLOW: u8 = 8;

/// Index value for non-donor cells; larger than `isize::MAX`, so it can never
/// index an array.
pub const NOT_A_DONOR: usize = usize::MAX;

/// Horizontal offset of each direction:
/// ```raw
/// 1 2 3
/// 0   4
/// 7 6 5
/// ```
pub const XSHIFT: [isize; 8] = [-1, -1, 0, 1, 1, 1, 0, -1];

/// Vertical offset of each direction (y grows downwards).
pub const YSHIFT: [isize; 8] = [0, -1, -1, -1, 0, 1, 1, 1];

/// Horizontal offset of direction `d`.
pub open spec fn xshift(d: int) -> int {
    if d == 0 || d == 1 || d == 7 {
        -1
    } else if d == 2 || d == 6 {
        0
    } else {
        1
    }
}

/// Vertical offset of direction `d`.
pub open spec fn yshift(d: int) -> int {
    if d == 1 || d == 2 || d == 3 {
        -1
    } else if d == 0 || d == 4 {
        0
    } else {
        1
    }
}

/// Offset in flat (row-major) indexing of direction `d` on a grid of width `w`.
pub open spec fn nshift_of(w: int, d: int) -> int {
    if yshift(d) < 0 {
        xshift(d) - w
    } else if yshift(d) == 0 {
        xshift(d)
    } else {
        xshift(d) + w
    }
}

/// The direction pointing back: `(n + 4) % 8`.
pub open spec fn rev_dir(n: int) -> int {
    (n + 4) % 8
}

pub proof fn lemma_shift_tables()
    ensures
        forall|d: int| 0 <= d < 8 ==> XSHIFT@[d] == xshift(d) && YSHIFT@[d] == yshift(d),
{
    assert(XSHIFT@ =~= seq![-1isize, -1isize, 0isize, 1isize, 1isize, 1isize, 0isize, -1isize]);
    assert(YSHIFT@ =~= seq![0isize, -1isize, -1isize, -1isize, 0isize, 1isize, 1isize, 1isize]);
}

/// The eight neighbour directions.
#[derive(Debug, Clone, Copy, PartialEq, Eq, Structural, PartialOrd, Ord, Hash)]
pub enum Dir {
    Left,
    TopLeft,
    Top,
    TopRight,
    Right,
    BotRight,
    Bot,
    BotLeft,
}

/// Reversing a direction walks back: the offset of the reverse direction
/// undoes the offset of the direction, on a grid of any width, and
/// reversing twice gives the direction again.
pub proof fn lemma_rev_walks_back(w: int, d: int)
    requires
        0 <= d < 8,
    ensures
        0 <= rev_dir(d) < 8,
        nshift_of(w, rev_dir(d)) == -nshift_of(w, d),
        xshift(rev_dir(d)) == -xshift(d),
        yshift(rev_dir(d)) == -yshift(d),
        rev_dir(rev_dir(d)) == d,
{
}

/// Directions and their numbers correspond one to one.
pub proof fn lemma_dir_numbers(d: Dir, n: int)
    ensures
        0 <= dir_index(d) < 8,
        dir_of(dir_index(d)) == d,
        0 <= n < 8 ==> dir_index(dir_of(n)) == n,
{
}

/// The number of a direction, `Left == 0` through `BotLeft == 7`.
pub open spec fn dir_index(d: Dir) -> int {
    match d {
        Dir::Left => 0,
        Dir::TopLeft => 1,
        Dir::Top => 2,
        Dir::TopRight => 3,
        Dir::Right => 4,
        Dir::BotRight => 5,
        Dir::Bot => 6,
        Dir::BotLeft => 7,
    }
}

/// The direction with the given number, for numbers below eight.
pub open spec fn dir_of(n: int) -> Dir {
    if n == 0 {
        Dir::Left
    } else if n == 1 {
        Dir::TopLeft
    } else if n == 2 {
        Dir::Top
    } else if n == 3 {
        Dir::TopRight
    } else if n == 4 {
        Dir::Right
    } else if n == 5 {
        Dir::BotRight
    } else if n == 6 {
        Dir::Bot
    } else {
        Dir::BotLeft
    }
}

/// The name of a direction.
pub open spec fn dir_name(d: Dir) -> Seq<char> {
    match d {
        Dir::Left => "Left"@,
        Dir::TopLeft => "TopLeft"@,
        Dir::Top => "Top"@,
        Dir::TopRight => "TopRight"@,
        Dir::Right => "Right"@,
        Dir::BotRight => "BotRight"@,
        Dir::Bot => "Bot"@,
        Dir::BotLeft => "BotLeft"@,
    }
}

impl Dir {
    /// The direction's number (`Left == 0`, ..., `BotLeft == 7`).
    pub fn index(&self) -> (r: u8)
        ensures
            r == dir_index(*self),
    {
        match self {
            Dir::Left => 0,
            Dir::TopLeft => 1,
            Dir::Top => 2,
            Dir::TopRight => 3,
            Dir::Right => 4,
            Dir::BotRight => 5,
            Dir::Bot => 6,
            Dir::BotLeft => 7,
        }
    }

    /// The direction with number `value`, or an invalid-direction error for
    /// numbers of eight and above.
    pub fn try_from_u8(value: u8) -> (r: Result<Dir, GridError>)
        ensures
            value < 8 ==> r == Ok::<Dir, GridError>(dir_of(value as int)),
            value >= 8 ==> r is Err && r->Err_0.spec_kind() == (
            crate::error::GridErrorKind::InvalidDirection { dir: value as usize })
                && r->Err_0.spec_status() == crate::error::ErrorStatus::Permanent,
    {
        Self::try_from_usize(value as usize)
    }

    /// The direction with number `value`, or an invalid-direction error for
    /// numbers of eight and above.
    pub fn try_from_usize(value: usize) -> (r: Result<Dir, GridError>)
        ensures
            value < 8 ==> r == Ok::<Dir, GridError>(dir_of(value as int)),
            value >= 8 ==> r is Err && r->Err_0.spec_kind() == (
            crate::error::GridErrorKind::InvalidDirection { dir: value })
                && r->Err_0.spec_status() == crate::error::ErrorStatus::Permanent,
    {
        match value {
            0 => Ok(Dir::Left),
            1 => Ok(Dir::TopLeft),
            2 => Ok(Dir::Top),
            3 => Ok(Dir::TopRight),
            4 => Ok(Dir::Right),
            5 => Ok(Dir::BotRight),
            6 => Ok(Dir::Bot),
            7 => Ok(Dir::BotLeft),
            dir => Err(GridError::invalid_direction(dir)),
        }
    }

    /// All directions in order `Left, TopLeft, ..., BotLeft`.
    pub fn iter() -> (r: Vec<Dir>)
        ensures
            r@.len() == 8,
            forall|i: int| 0 <= i < 8 ==> #[trigger] r@[i] == dir_of(i),
    {
        let mut r = Vec::new();
        let mut v: u8 = 0;
        while v < 8
            invariant
                v <= 8,
                r@.len() == v,
                forall|i: int| 0 <= i < v ==> #[trigger] r@[i] == dir_of(i),
            decreases 8 - v,
        {
            match Self::try_from_u8(v) {
                Ok(d) => r.push(d),
                Err(_) => {},
            }
            v = v + 1;
        }
        r
    }

    /// The opposite direction.
    pub fn rev(&self) -> (r: Dir)
        ensures
            dir_index(r) == rev_dir(dir_index(*self)),
    {
        match self {
            Dir::Left => Dir::Right,
            Dir::TopLeft => Dir::BotRight,
            Dir::Top => Dir::Bot,
            Dir::TopRight => Dir::BotLeft,
            Dir::Right => Dir::Left,
            Dir::BotRight => Dir::TopLeft,
            Dir::Bot => Dir::Top,
            Dir::BotLeft => Dir::TopRight,
        }
    }

    /// The direction's name.
    pub fn name(&self) -> (s: &'static str)
        ensures
            s@ == dir_name(*self),
    {
        match self {
            Dir::Left => "Left",
            Dir::TopLeft => "TopLeft",
            Dir::Top => "Top",
            Dir::TopRight => "TopRight",
            Dir::Right => "Right",
            Dir::BotRight => "BotRight",
            Dir::Bot => "Bot",
            Dir::BotLeft => "BotLeft",
        }
    }
}

/// The shape of a row-major grid: its width, height and neighbour offsets.
#[derive(Debug, Clone, Copy, PartialEq, Eq, Hash)]
pub struct GridMeta {
    width: usize,
    height: usize,
    size: usize,
    nshift: [isize; 8],
}

impl GridMeta {
    /// The width of the grid.
    pub closed spec fn spec_width(&self) -> usize {
        self.width
    }

    /// The height of the grid.
    pub closed spec fn spec_height(&self) -> usize {
        self.height
    }

    /// The number of cells.
    pub closed spec fn spec_size(&self) -> usize {
        self.size
    }

    /// The neighbour offsets in flat indexing.
    pub closed spec fn spec_nshift(&self) -> Seq<isize> {
        self.nshift@
    }

    /// Shape invariant: the size is width times height, both fit in `isize`
    /// and the offsets are those of the grid's width.
    #[verifier::type_invariant]
    pub open spec fn wf(self) -> bool {
        &&& self.spec_size() == self.spec_width() * self.spec_height()
        &&& self.spec_width() < isize::MAX
        &&& self.spec_height() <= isize::MAX
        &&& self.spec_nshift().len() == 8
        &&& forall|d: int|
            0 <= d < 8 ==> #[trigger] self.spec_nshift()[d] == nshift_of(
                self.spec_width() as int,
                d,
            )
    }

    /// A grid of `width` by `height` cells.
    pub fn new(width: usize, height: usize) -> (m: Self)
        requires
            width < isize::MAX,
            height <= isize::MAX,
            width * height <= usize::MAX,
        ensures
            m.spec_width() == width,
            m.spec_height() == height,
            m.spec_size() == width * height,
    {
        let iwidth = width as isize;
        let mut nshift: [isize; 8] = [0; 8];
        nshift[0] = -1;
        nshift[1] = -iwidth - 1;
        nshift[2] = -iwidth;
        nshift[3] = -iwidth + 1;
        nshift[4] = 1;
        nshift[5] = iwidth + 1;
        nshift[6] = iwidth;
        nshift[7] = iwidth - 1;
        proof {
            assert forall|d: int| 0 <= d < 8 implies #[trigger] nshift@[d] == nshift_of(
                width as int,
                d,
            ) by {
                if d == 0 {
                } else if d == 1 {
                } else if d == 2 {
                } else if d == 3 {
                } else if d == 4 {
                } else if d == 5 {
                } else if d == 6 {
                } else {
                }
            }
        }
        Self { width, height, size: width * height, nshift }
    }

    /// The width of the grid.
    pub fn width(&self) -> (r: usize)
        ensures
            r == self.spec_width(),
    {
        self.width
    }

    /// The height of the grid.
    pub fn height(&self) -> (r: usize)
        ensures
            r == self.spec_height(),
    {
        self.height
    }

    /// The number of cells.
    pub fn size(&self) -> (r: usize)
        ensures
            r == self.spec_size(),
    {
        self.size
    }

    /// `Ok` when `arr` has exactly one element per cell, a size-mismatch error otherwise.
    pub fn check<T>(&self, arr: &[T]) -> (r: Result<(), GridError>)
        ensures
            r is Ok <==> arr@.len() == self.spec_size(),
            r is Err ==> r->Err_0.spec_kind() == (crate::error::GridErrorKind::SizeMismatch {
                found: arr@.len() as usize,
                expected: self.spec_size(),
            }) && r->Err_0.spec_status() == crate::error::ErrorStatus::Permanent,
    {
        if self.size != arr.len() {
            Err(GridError::size_mismatch(arr.len(), self.size))
        } else {
            Ok(())
        }
    }

    /// Offset from a focal cell's index to its neighbours in flat indexing.
    pub fn nshift(&self) -> (r: &[isize; 8])
        ensures
            forall|d: int| 0 <= d < 8 ==> #[trigger] r@[d] == nshift_of(self.spec_width() as int, d),
    {
        proof {
            use_type_invariant(self);
        }
        &self.nshift
    }

    /// The flat index of the neighbour of `idx` in direction `dir`.
    ///
    /// This wraps around in x on edge cells, as flat offsets do.
    pub fn shift(&self, idx: usize, dir: u8) -> (r: usize)
        requires
            dir < 8,
            idx <= isize::MAX,
            0 <= idx + nshift_of(self.spec_width() as int, dir as int) <= isize::MAX,
        ensures
            r == idx + nshift_of(self.spec_width() as int, dir as int),
    {
        proof {
            use_type_invariant(self);
        }
        let i = idx as isize;
        let s = self.nshift[dir as usize];
        (i + s) as usize
    }

    /// The index of the neighbour of `(x, y)` in direction `dir`, or `None` if
    /// it is off the grid.
    pub fn try_shift(&self, x: usize, y: usize, dir: u8) -> (r: Option<usize>)
        requires
            dir < 8,
            x + xshift(dir as int) <= isize::MAX,
            y + yshift(dir as int) <= isize::MAX,
            x <= isize::MAX,
            y <= isize::MAX,
        ensures
            r == self.spec_try_shift(x as int, y as int, dir as int),
    {
        proof {
            use_type_invariant(self);
            lemma_shift_tables();
        }
        let nx = x as isize + XSHIFT[dir as usize];
        let ny = y as isize + YSHIFT[dir as usize];
        if self.in_grid(nx, ny) {
            proof {
                lemma_cell_index_bound(self.width as int, self.height as int, nx as int, ny as int);
            }
            Some(self.xy_to_i(nx as usize, ny as usize))
        } else {
            None
        }
    }

    /// The flat index of the neighbour of `(x, y)` in direction `d`, if it is on the grid.
    pub open spec fn spec_try_shift(&self, x: int, y: int, d: int) -> Option<usize> {
        let nx = x + xshift(d);
        let ny = y + yshift(d);
        if 0 <= nx < self.spec_width() && 0 <= ny < self.spec_height() {
            Some((nx + ny * self.spec_width()) as usize)
        } else {
            None
        }
    }

    /// Reverse the direction of a neighbour offset: `(n + 4) % 8`.
    pub fn rev(n: usize) -> (r: usize)
        requires
            n + 4 <= usize::MAX,
        ensures
            r == rev_dir(n as int),
    {
        (n + 4) % 8
    }

    /// Whether `(x, y)` lies on the outer ring of the grid.
    pub fn is_edge_cell(&self, x: usize, y: usize) -> (r: bool)
        requires
            x == 0 || y == 0 || (self.spec_width() >= 1 && (x == self.spec_width() - 1
                || self.spec_height() >= 1)),
        ensures
            r == self.spec_is_edge_cell(x as int, y as int),
    {
        x == 0 || y == 0 || x == self.width - 1 || y == self.height - 1
    }

    /// Whether `(x, y)` lies on the outer ring of the grid.
    pub open spec fn spec_is_edge_cell(&self, x: int, y: int) -> bool {
        x == 0 || y == 0 || x == self.spec_width() - 1 || y == self.spec_height() - 1
    }

    /// Whether flat index `i` lies on the outer ring of the grid.
    pub fn is_edge(&self, i: usize) -> (r: bool)
        requires
            self.spec_width() > 0,
            i % self.spec_width() == 0 || i / self.spec_width() == 0 || (
            i % self.spec_width() == self.spec_width() - 1 || self.spec_height() >= 1),
        ensures
            r == self.spec_is_edge_cell(
                (i % self.spec_width()) as int,
                (i / self.spec_width()) as int,
            ),
    {
        let (x, y) = self.i_to_xy(i);
        self.is_edge_cell(x, y)
    }

    /// Whether `(x, y)` is on the grid.
    pub fn in_grid(&self, x: isize, y: isize) -> (r: bool)
        ensures
            r == (0 <= x < self.spec_width() && 0 <= y < self.spec_height()),
    {
        proof {
            use_type_invariant(self);
        }
        x >= 0 && x < self.width as isize && y >= 0 && y < self.height as isize
    }

    /// The `(x, y)` coordinates of flat index `i`.
    pub fn i_to_xy(&self, i: usize) -> (r: (usize, usize))
        requires
            self.spec_width() > 0,
        ensures
            r.0 == i % self.spec_width(),
            r.1 == i / self.spec_width(),
    {
        (i % self.width, i / self.width)
    }

    /// The flat index of `(x, y)`.
    pub fn xy_to_i(&self, x: usize, y: usize) -> (r: usize)
        requires
            x + y * self.spec_width() <= usize::MAX,
        ensures
            r == x + y * self.spec_width(),
    {
        proof {
            assert(y * self.width <= usize::MAX) by (nonlinear_arith)
                requires
                    x + y * self.width <= usize::MAX,
                    x >= 0,
            ;
        }
        x + y * self.width
    }
}

/// On a grid of `w` by `h`, a cell inside the grid has an index below `w * h`.
pub proof fn lemma_cell_index_bound(w: int, h: int, x: int, y: int)
    requires
        0 <= x < w,
        0 <= y < h,
    ensures
        0 <= x + y * w < w * h,
{
    assert(x + y * w < w * h) by (nonlinear_arith)
        requires
            0 <= x < w,
            0 <= y < h,
    ;
    assert(0 <= y * w) by (nonlinear_arith)
        requires
            0 <= y,
            0 <= w,
    ;
}


/// How many elements a walk from `start` with stride `step` visits in a
/// sequence of length `len`.
pub open spec fn strided_len(len: int, start: int, step: int) -> int {
    if start >= len || step <= 0 || start < 0 {
        0
    } else {
        (len - start - 1) / step + 1
    }
}

/// Every `step`-th element of `s`, starting at index `start`.
pub open spec fn strided<T>(s: Seq<T>, start: int, step: int) -> Seq<T> {
    Seq::new(strided_len(s.len() as int, start, step) as nat, |k: int| s[start + k * step])
}


/// Taking one step of a strided walk.
pub proof fn lemma_strided_step<T>(s: Seq<T>, start: int, step: int)
    requires
        step > 0,
        0 <= start < s.len(),
    ensures
        strided(s, start, step).len() > 0,
        strided(s, start, step)[0] == s[start],
        strided(s, start, step).drop_first() == strided(s, start + step, step),
{
    let n = s.len() - start - 1;
    let a = strided(s, start, step);
    let b = strided(s, start + step, step);
    if start + step >= s.len() {
        assert(n / step == 0) by {
            vstd::arithmetic::div_mod::lemma_div_multiples_vanish_fancy(0, n, step);
        }
    } else {
        vstd::arithmetic::div_mod::lemma_div_plus_one(n - step, step);
    }
    assert(a.drop_first().len() == b.len());
    assert forall|k: int| 0 <= k < b.len() implies a.drop_first()[k] == b[k] by {
        assert(start + (k + 1) * step == start + step + k * step) by (nonlinear_arith);
    }
    assert(a.drop_first() =~= b);
    assert(a[0] == s[start + 0 * step]);
}

/// A slice of a grid row or column, visited with a fixed step.
pub struct EdgeIterator<'a, T> {
    data: &'a [T],
    cursor: usize,
    step: usize,
}

impl<'a, T> EdgeIterator<'a, T> {
    /// The slice being walked.
    pub closed spec fn spec_data(&self) -> Seq<T> {
        self.data@
    }

    /// The index of the next element.
    pub closed spec fn spec_cursor(&self) -> usize {
        self.cursor
    }

    /// The distance between visited elements.
    pub closed spec fn spec_step(&self) -> usize {
        self.step
    }

    /// The elements still to be visited (for a positive step).
    pub open spec fn remaining(&self) -> Seq<T> {
        strided(self.spec_data(), self.spec_cursor() as int, self.spec_step() as int)
    }

    /// An iterator over every `step`-th element of `data`, starting at the first.
    pub fn new(data: &'a [T], step: usize) -> (r: Self)
        ensures
            r.spec_data() == data@,
            r.spec_cursor() == 0,
            r.spec_step() == step,
    {
        Self { data, cursor: 0, step }
    }

    /// The next element, or `None` once the cursor has passed the end.
    pub fn next(&mut self) -> (r: Option<&'a T>)
        requires
            old(self).spec_cursor() >= old(self).spec_data().len() || old(self).spec_cursor()
                + old(self).spec_step() <= usize::MAX,
        ensures
            final(self).spec_data() == old(self).spec_data(),
            final(self).spec_step() == old(self).spec_step(),
            old(self).spec_cursor() < old(self).spec_data().len() ==> r == Some(
                &old(self).spec_data()[old(self).spec_cursor() as int],
            ) && final(self).spec_cursor() == old(self).spec_cursor() + old(self).spec_step(),
            old(self).spec_cursor() >= old(self).spec_data().len() ==> r is None
                && final(self).spec_cursor() == old(self).spec_cursor(),
            old(self).spec_step() > 0 ==> (r is None <==> old(self).remaining().len() == 0),
            old(self).spec_step() > 0 && r is Some ==> *r->Some_0 == old(self).remaining()[0]
                && final(self).remaining() == old(self).remaining().drop_first(),
    {
        proof {
            if self.step > 0 && self.cursor < self.data@.len() {
                lemma_strided_step(self.data@, self.cursor as int, self.step as int);
            }
        }
        if self.cursor < self.data.len() {
            let res = Some(&self.data[self.cursor]);
            self.cursor = self.cursor + self.step;
            res
        } else {
            None
        }
    }
}

/// Where the slice of an edge starts in the grid's data.
pub open spec fn edge_start(m: GridMeta, d: Dir) -> int {
    let w = m.spec_width() as int;
    let n = m.spec_size() as int;
    match d {
        Dir::Left => 0,
        Dir::TopLeft => 0,
        Dir::Top => 0,
        Dir::TopRight => w - 1,
        Dir::Right => w - 1,
        Dir::BotRight => n - 1,
        Dir::Bot => n - w,
        Dir::BotLeft => n - w,
    }
}

/// Where the slice of an edge ends in the grid's data.
pub open spec fn edge_end(m: GridMeta, d: Dir) -> int {
    let w = m.spec_width() as int;
    let n = m.spec_size() as int;
    match d {
        Dir::Left => n - w + 2,
        Dir::TopLeft => 1,
        Dir::Top => w,
        Dir::TopRight => w,
        Dir::Right => n,
        Dir::BotRight => n,
        Dir::Bot => n,
        Dir::BotLeft => n - w + 1,
    }
}

/// The step with which an edge's slice is walked.
pub open spec fn edge_step(m: GridMeta, d: Dir) -> int {
    match d {
        Dir::Left => m.spec_width() as int,
        Dir::Right => m.spec_width() as int,
        _ => 1,
    }
}

/// The edge `d` can be cut out of data of length `len`.
pub open spec fn edge_ok(m: GridMeta, len: int, d: Dir) -> bool {
    let w = m.spec_width() as int;
    let n = m.spec_size() as int;
    match d {
        Dir::Left => n >= w && n - w + 2 <= len,
        Dir::TopLeft => 1 <= len,
        Dir::Top => w <= len,
        Dir::TopRight => w >= 1 && w <= len,
        Dir::Right => w >= 1 && w - 1 <= n && n <= len,
        Dir::BotRight => n >= 1 && n <= len,
        Dir::Bot => n >= w && n <= len,
        Dir::BotLeft => n >= w && n - w < len,
    }
}

/// The elements an edge iterator of `d` visits.
pub open spec fn edge_raw<T>(m: GridMeta, s: Seq<T>, d: Dir) -> Seq<T> {
    strided(s.subrange(edge_start(m, d), edge_end(m, d)), 0, edge_step(m, d))
}

/// The flat index of the `k`-th cell of edge `d`.
pub open spec fn edge_cell(m: GridMeta, d: Dir, k: int) -> int {
    let w = m.spec_width() as int;
    let n = m.spec_size() as int;
    match d {
        Dir::Left => k * w,
        Dir::TopLeft => 0,
        Dir::Top => k,
        Dir::TopRight => w - 1,
        Dir::Right => k * w + w - 1,
        Dir::BotRight => n - 1,
        Dir::Bot => n - w + k,
        Dir::BotLeft => n - w,
    }
}

/// The number of cells on edge `d`: a side has as many as the grid is long,
/// a corner has one.
pub open spec fn edge_len(m: GridMeta, d: Dir) -> int {
    match d {
        Dir::Left => m.spec_height() as int,
        Dir::Top => m.spec_width() as int,
        Dir::Right => m.spec_height() as int,
        Dir::Bot => m.spec_width() as int,
        _ => 1,
    }
}

/// The values on edge `d` of grid data `s`:
/// ```raw
/// 1 2 2 2 3
/// 0       4
/// 0       4
/// 7 6 6 6 5
/// ```
/// sides run left-to-right and top-to-bottom.
pub open spec fn edge_values<T>(m: GridMeta, s: Seq<T>, d: Dir) -> Seq<T> {
    Seq::new(edge_len(m, d) as nat, |k: int| s[edge_cell(m, d, k)])
}

/// The edges of all eight directions, one after the other.
pub open spec fn skirt_prefix<T>(m: GridMeta, s: Seq<T>, n: int) -> Seq<T>
    decreases n,
{
    if n <= 0 {
        Seq::empty()
    } else {
        skirt_prefix(m, s, n - 1) + edge_values(m, s, dir_of(n - 1))
    }
}

/// All edges and corners collected into one sequence, in direction order.
pub open spec fn skirt_values<T>(m: GridMeta, s: Seq<T>) -> Seq<T> {
    skirt_prefix(m, s, 8)
}

/// Where edge number `d` starts in the collected skirt.
pub open spec fn skirt_start(m: GridMeta, d: int) -> int {
    let w = m.spec_width() as int;
    let h = m.spec_height() as int;
    if d <= 0 {
        0
    } else if d == 1 {
        h
    } else if d == 2 {
        h + 1
    } else if d == 3 {
        h + 1 + w
    } else if d == 4 {
        h + 2 + w
    } else if d == 5 {
        2 * h + 2 + w
    } else if d == 6 {
        2 * h + 3 + w
    } else if d == 7 {
        2 * h + 3 + 2 * w
    } else {
        2 * h + 4 + 2 * w
    }
}

/// The slice of an edge lies inside the data, and its step is positive.
pub proof fn lemma_edge_bounds(m: GridMeta, len: int, d: Dir)
    requires
        m.wf(),
        edge_ok(m, len, d),
        m.spec_width() >= 1,
    ensures
        0 <= edge_start(m, d) <= edge_end(m, d) <= len,
        edge_step(m, d) >= 1,
{
}

/// An iterator's walk over an edge's slice visits exactly the edge's values.
pub proof fn lemma_edge_raw_values<T>(m: GridMeta, s: Seq<T>, d: Dir)
    requires
        m.wf(),
        edge_ok(m, s.len() as int, d),
        d == Dir::Left ==> m.spec_width() >= 2,
    ensures
        edge_raw(m, s, d) == edge_values(m, s, d),
{
    let w = m.spec_width() as int;
    let h = m.spec_height() as int;
    let n = m.spec_size() as int;
    let sub = s.subrange(edge_start(m, d), edge_end(m, d));
    let r = edge_raw(m, s, d);
    let v = edge_values(m, s, d);
    assert(n == w * h);
    match d {
        Dir::Left => {
            if h <= 0 {
                assert(w * h == 0) by (nonlinear_arith)
                    requires
                        h == 0,
                ;
            }
            assert(sub.len() == w * (h - 1) + 2) by (nonlinear_arith)
                requires
                    n == w * h,
                    sub.len() == n - w + 2,
            ;
            assert((sub.len() - 1) / w == h - 1) by {
                vstd::arithmetic::div_mod::lemma_div_multiples_vanish_fancy(h - 1, 1, w);
            }
            assert forall|k: int| 0 <= k < h implies r[k] == v[k] by {
                assert(r[k] == sub[k * w]);
                assert(k * w < w * (h - 1) + 2) by (nonlinear_arith)
                    requires
                        0 <= k < h,
                        w >= 2,
                ;
                assert(k * w >= 0) by (nonlinear_arith)
                    requires
                        0 <= k,
                        w >= 2,
                ;
            }
            assert(r =~= v);
        },
        Dir::Right => {
            if h <= 0 {
                assert(w * h == 0) by (nonlinear_arith)
                    requires
                        h == 0,
                ;
            }
            assert(sub.len() == w * (h - 1) + 1) by (nonlinear_arith)
                requires
                    n == w * h,
                    sub.len() == n - w + 1,
            ;
            assert((sub.len() - 1) / w == h - 1) by {
                vstd::arithmetic::div_mod::lemma_div_multiples_vanish_fancy(h - 1, 0, w);
            }
            assert forall|k: int| 0 <= k < h implies r[k] == v[k] by {
                assert(r[k] == sub[k * w]);
                assert(k * w < w * (h - 1) + 1) by (nonlinear_arith)
                    requires
                        0 <= k < h,
                        w >= 1,
                ;
                assert(k * w >= 0) by (nonlinear_arith)
                    requires
                        0 <= k,
                        w >= 1,
                ;
            }
            assert(r =~= v);
        },
        _ => {
            if sub.len() > 0 {
                assert((sub.len() - 1) / 1 + 1 == sub.len());
            }
            assert(r =~= v);
        },
    }
}

/// The collected skirt is made of the edges, each at its own range.
pub proof fn lemma_skirt_ranges<T>(m: GridMeta, s: Seq<T>, d: int)
    requires
        0 <= d <= 8,
    ensures
        skirt_prefix(m, s, d).len() == skirt_start(m, d),
        d < 8 ==> skirt_values(m, s).subrange(skirt_start(m, d), skirt_start(m, d + 1))
            == edge_values(m, s, dir_of(d)),
    decreases d,
{
    if d > 0 {
        lemma_skirt_ranges(m, s, d - 1);
    }
    if d < 8 {
        lemma_skirt_prefix_len(m, s, 8);
        lemma_skirt_prefix_extends(m, s, d + 1, 8);
        let p = skirt_prefix(m, s, d + 1);
        assert(p == skirt_prefix(m, s, d) + edge_values(m, s, dir_of(d)));
        assert(skirt_values(m, s).subrange(0, p.len() as int) == p);
        assert(p.subrange(skirt_start(m, d), skirt_start(m, d + 1)) =~= edge_values(
            m,
            s,
            dir_of(d),
        ));
        assert(skirt_values(m, s).subrange(skirt_start(m, d), skirt_start(m, d + 1))
            =~= p.subrange(skirt_start(m, d), skirt_start(m, d + 1)));
    }
}

proof fn lemma_skirt_prefix_len<T>(m: GridMeta, s: Seq<T>, d: int)
    requires
        0 <= d <= 8,
    ensures
        skirt_prefix(m, s, d).len() == skirt_start(m, d),
    decreases d,
{
    if d > 0 {
        lemma_skirt_prefix_len(m, s, d - 1);
    }
}

proof fn lemma_skirt_prefix_grows<T>(m: GridMeta, s: Seq<T>, a: int, b: int)
    requires
        0 <= a <= b,
    ensures
        skirt_prefix(m, s, a).len() <= skirt_prefix(m, s, b).len(),
    decreases b - a,
{
    if a < b {
        lemma_skirt_prefix_grows(m, s, a, b - 1);
    }
}

proof fn lemma_skirt_prefix_extends<T>(m: GridMeta, s: Seq<T>, a: int, b: int)
    requires
        0 <= a <= b,
    ensures
        skirt_prefix(m, s, b).subrange(0, skirt_prefix(m, s, a).len() as int) == skirt_prefix(
            m,
            s,
            a,
        ),
    decreases b - a,
{
    if a < b {
        lemma_skirt_prefix_extends(m, s, a, b - 1);
        lemma_skirt_prefix_grows(m, s, a, b - 1);
        let pb1 = skirt_prefix(m, s, b - 1);
        let pa = skirt_prefix(m, s, a);
        assert(skirt_prefix(m, s, b) == pb1 + edge_values(m, s, dir_of(b - 1)));
        assert(skirt_prefix(m, s, b).subrange(0, pa.len() as int) =~= pb1.subrange(
            0,
            pa.len() as int,
        ));
    } else {
        assert(skirt_prefix(m, s, b).subrange(0, skirt_prefix(m, s, a).len() as int)
            =~= skirt_prefix(m, s, a));
    }
}

impl GridMeta {
    /// An iterator over the values on edge `dir` of `data`.
    ///
    /// For example, on a 4-by-4 grid holding `0..16`, `Left` gives `0,4,8,12`,
    /// `TopLeft` gives `0` and `Bot` gives `12,13,14,15`.
    pub fn edge<'a, T>(&'a self, data: &'a [T], dir: Dir) -> (r: EdgeIterator<'a, T>)
        requires
            edge_ok(*self, data@.len() as int, dir),
        ensures
            r.spec_data() == data@.subrange(edge_start(*self, dir), edge_end(*self, dir)),
            r.spec_cursor() == 0,
            r.spec_step() == edge_step(*self, dir),
            r.remaining() == edge_raw(*self, data@, dir),
            dir != Dir::Left || self.spec_width() >= 2 ==> r.remaining() == edge_values(
                *self,
                data@,
                dir,
            ),
    {
        proof {
            use_type_invariant(self);
            if dir != Dir::Left || self.spec_width() >= 2 {
                lemma_edge_raw_values(*self, data@, dir);
            }
        }
        let width = self.width;
        let end = self.size;
        match dir {
            Dir::Left => {
                let len = data.len();
                assert(end - width + 2 <= len);
                let stop = end - width + 2;
                EdgeIterator::new(&data[0..stop], width)
            },
            Dir::TopLeft => EdgeIterator::new(&data[0..1], 1),
            Dir::Top => EdgeIterator::new(&data[0..width], 1),
            Dir::TopRight => EdgeIterator::new(&data[width - 1..width], 1),
            Dir::Right => EdgeIterator::new(&data[width - 1..end], width),
            Dir::BotRight => EdgeIterator::new(&data[end - 1..end], 1),
            Dir::Bot => EdgeIterator::new(&data[end - width..end], 1),
            Dir::BotLeft => {
                let start = end - width;
                let len = data.len();
                assert(start < len);
                EdgeIterator::new(&data[start..start + 1], 1)
            },
        }
    }

    fn skirt_idx(&self, dir: u8) -> (r: usize)
        requires
            dir <= 8,
            2 * self.spec_width() + 2 * self.spec_height() + 4 <= usize::MAX,
        ensures
            r == skirt_start(*self, dir as int),
    {
        let h = self.height;
        let w = self.width;
        match dir {
            0 => 0,
            1 => h,
            2 => h + 1,
            3 => h + 1 + w,
            4 => h + 1 + w + 1,
            5 => h + 1 + w + 1 + h,
            6 => h + 1 + w + 1 + h + 1,
            7 => h + 1 + w + 1 + h + 1 + w,
            _ => h + 1 + w + 1 + h + 1 + w + 1,
        }
    }

    /// Where edge `dir` lies when all edges are collected into one array
    /// (see [`GridMeta::edges`]).
    pub fn skirt_range(&self, dir: Dir) -> (r: core::ops::Range<usize>)
        requires
            2 * self.spec_width() + 2 * self.spec_height() + 4 <= usize::MAX,
        ensures
            r.start == skirt_start(*self, dir_index(dir)),
            r.end == skirt_start(*self, dir_index(dir) + 1),
    {
        let d = dir.index();
        self.skirt_idx(d)..self.skirt_idx(d + 1)
    }

    /// The size of the outer perimeter plus its four corners.
    pub fn skirt_size(&self) -> (r: usize)
        requires
            2 * self.spec_width() + 2 * self.spec_height() + 4 <= usize::MAX,
        ensures
            r == 2 * self.spec_width() + 2 * self.spec_height() + 4,
            r == skirt_start(*self, 8),
    {
        self.width * 2 + self.height * 2 + 4
    }

    /// The flat index of the `idx`-th cell of edge `dir`.
    pub fn edge_idx_to_i(&self, dir: Dir, idx: usize) -> (r: usize)
        requires
            self.spec_width() >= 1,
            self.spec_height() >= 1,
            idx < edge_len(*self, dir),
        ensures
            r == edge_cell(*self, dir, idx as int),
            r < self.spec_size(),
            ({
                let w = self.spec_width() as int;
                let h = self.spec_height() as int;
                let k = idx as int;
                match dir {
                    Dir::Left => r == 0 + k * w,
                    Dir::TopLeft => r == 0 + 0 * w,
                    Dir::Top => r == k + 0 * w,
                    Dir::TopRight => r == (w - 1) + 0 * w,
                    Dir::Right => r == (w - 1) + k * w,
                    Dir::BotRight => r == (w - 1) + (h - 1) * w,
                    Dir::Bot => r == k + (h - 1) * w,
                    Dir::BotLeft => r == 0 + (h - 1) * w,
                }
            }),
    {
        proof {
            use_type_invariant(self);
            let w = self.width as int;
            let h = self.height as int;
            if dir == Dir::Left || dir == Dir::Right {
                lemma_cell_index_bound(w, h, 0, idx as int);
                lemma_cell_index_bound(w, h, w - 1, idx as int);
                assert(idx * w == 0 + idx * w);
            } else {
                lemma_cell_index_bound(w, h, 0, h - 1);
                lemma_cell_index_bound(w, h, w - 1, h - 1);
                assert(w * h >= w) by (nonlinear_arith)
                    requires
                        h >= 1,
                        w >= 1,
                ;
                assert(w * h - w == 0 + (h - 1) * w) by (nonlinear_arith);
            }
        }
        let w = self.width;
        let n = self.size;
        match dir {
            Dir::Left => idx * w,
            Dir::TopLeft => 0,
            Dir::Top => idx,
            Dir::TopRight => w - 1,
            Dir::Right => idx * w + w - 1,
            Dir::BotRight => n - 1,
            Dir::Bot => n - w + idx,
            Dir::BotLeft => n - w,
        }
    }

    /// Collects the edges of `data` into a new vector: edge `Left`, corner
    /// `TopLeft`, edge `Top`, ..., corner `BotLeft`.
    pub fn edges<T: Copy>(&self, data: &[T]) -> (r: Vec<T>)
        requires
            2 * self.spec_width() + 2 * self.spec_height() + 4 <= usize::MAX,
            forall|d: Dir| edge_ok(*self, data@.len() as int, d),
            self.spec_width() >= 2,
            data@.len() + self.spec_width() <= usize::MAX,
        ensures
            r@ == skirt_values(*self, data@),
            forall|d: int|
                0 <= d < 8 ==> r@.subrange(skirt_start(*self, d), skirt_start(*self, d + 1))
                    == #[trigger] edge_values(*self, data@, dir_of(d)),
    {
        proof {
            use_type_invariant(self);
        }
        let mut skirt: Vec<T> = Vec::with_capacity(self.skirt_idx(8));
        let mut v: u8 = 0;
        while v < 8
            invariant
                v <= 8,
                self.wf(),
                self.spec_width() >= 2,
                forall|d: Dir| edge_ok(*self, data@.len() as int, d),
                data@.len() + self.spec_width() <= usize::MAX,
                skirt@ == skirt_prefix(*self, data@, v as int),
            decreases 8 - v,
        {
            let dir = match Dir::try_from_usize(v as usize) {
                Ok(d) => d,
                Err(_) => Dir::Left,
            };
            assert(dir == dir_of(v as int));
            let mut it = self.edge(data, dir);
            let ghost before = skirt@;
            let ghost all = edge_values(*self, data@, dir);
            proof {
                lemma_edge_bounds(*self, data@.len() as int, dir);
            }
            loop
                invariant
                    it.spec_step() >= 1,
                    it.spec_data().len() <= data@.len(),
                    it.spec_cursor() <= it.spec_data().len() + it.spec_step(),
                    data@.len() + it.spec_step() <= usize::MAX,
                    before + all == skirt@ + it.remaining(),
                    skirt@.len() <= before.len() + all.len(),
                ensures
                    skirt@ == before + all,
                decreases it.remaining().len(),
            {
                let ghost rem = it.remaining();
                match it.next() {
                    Some(c) => {
                        skirt.push(*c);
                        proof {
                            assert(skirt@ + it.remaining() =~= skirt@.drop_last() + rem);
                            assert((before + all).len() == before.len() + all.len());
                            assert((skirt@ + it.remaining()).len() == skirt@.len() + it.remaining().len());
                        }
                    },
                    None => {
                        assert(skirt@ + it.remaining() =~= skirt@);
                        break ;
                    },
                }
            }
            v = v + 1;
        }
        proof {
            assert forall|d: int|
                0 <= d < 8 implies skirt@.subrange(skirt_start(*self, d), skirt_start(*self, d + 1))
                == #[trigger] edge_values(*self, data@, dir_of(d)) by {
                lemma_skirt_ranges(*self, data@, d);
            }
        }
        skirt
    }
}

} // verus!
