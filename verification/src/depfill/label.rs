//! Choosing the watershed label of a cell from its neighbours, where `0`
//! marks a cell without a label.
use vstd::prelude::*;

use crate::grid::{lemma_cell_index_bound, xshift, yshift, GridMeta};
use crate::TLabel;

verus! {

/// The neighbour of `(x, y)` in direction `d` is on the grid, has a label
/// and lies strictly lower than `(x, y)`.
pub open spec fn lower_labelled(
    m: GridMeta,
    dem: Seq<u64>,
    labels: Seq<TLabel>,
    x: int,
    y: int,
    d: int,
) -> bool {
    match m.spec_try_shift(x, y, d) {
        Some(nn) => labels[nn as int] != 0 && dem[nn as int] < dem[x + y * m.spec_width()],
        None => false,
    }
}

/// `d` is the first direction whose neighbour is labelled and lower.
pub open spec fn first_lower_labelled(
    m: GridMeta,
    dem: Seq<u64>,
    labels: Seq<TLabel>,
    x: int,
    y: int,
    d: int,
) -> bool {
    &&& 0 <= d < 8
    &&& lower_labelled(m, dem, labels, x, y, d)
    &&& forall|e: int| 0 <= e < d ==> !#[trigger] lower_labelled(m, dem, labels, x, y, e)
}

/// The label for cell `(x, y)`: its own label if it has one; otherwise the
/// label of the first neighbour (in direction order) that is labelled and
/// strictly lower, since the cell drains there; otherwise a fresh label,
/// one above `current_label`, which is then advanced to it.
pub fn get_new_label(
    meta: &GridMeta,
    x: usize,
    y: usize,
    dem: &[u64],
    labels: &[TLabel],
    current_label: &mut TLabel,
) -> (r: TLabel)
    requires
        x < meta.spec_width(),
        y < meta.spec_height(),
        dem@.len() == meta.spec_size(),
        labels@.len() == meta.spec_size(),
        labels@[x + y * meta.spec_width()] == 0 && (forall|d: int|
            0 <= d < 8 ==> !#[trigger] lower_labelled(*meta, dem@, labels@, x as int, y as int, d))
            ==> *old(current_label) < u32::MAX,
    ensures
        labels@[x + y * meta.spec_width()] != 0 ==> r == labels@[x + y * meta.spec_width()]
            && *final(current_label) == *old(current_label),
        labels@[x + y * meta.spec_width()] == 0 ==> {
            ||| exists|d: int|
                #[trigger] first_lower_labelled(*meta, dem@, labels@, x as int, y as int, d)
                    && r == labels@[meta.spec_try_shift(x as int, y as int, d).unwrap() as int]
                    && *final(current_label) == *old(current_label)
            ||| (forall|d: int|
                0 <= d < 8 ==> !#[trigger] lower_labelled(*meta, dem@, labels@, x as int, y as int, d))
                && r == *old(current_label) + 1 && *final(current_label) == r
        },
{
    proof {
        use_type_invariant(meta);
        lemma_cell_index_bound(meta.spec_width() as int, meta.spec_height() as int, x as int, y as int);
    }
    let n = meta.xy_to_i(x, y);
    if labels[n] != 0 {
        return labels[n];
    }
    let mut dir: u8 = 0;
    while dir < 8
        invariant
            dir <= 8,
            x < meta.spec_width(),
            y < meta.spec_height(),
            n == x + y * meta.spec_width(),
            n < meta.spec_size(),
            labels@[n as int] == 0,
            dem@.len() == meta.spec_size(),
            labels@.len() == meta.spec_size(),
            meta.spec_size() == meta.spec_width() * meta.spec_height(),
            meta.spec_width() < isize::MAX,
            meta.spec_height() <= isize::MAX,
            forall|e: int|
                0 <= e < dir ==> !#[trigger] lower_labelled(*meta, dem@, labels@, x as int, y as int, e),
        decreases 8 - dir,
    {
        proof {
            crate::grid::lemma_shift_tables();
        }
        match meta.try_shift(x, y, dir) {
            Some(nn) => {
                proof {
                    let nx = x + xshift(dir as int);
                    let ny = y + yshift(dir as int);
                    lemma_cell_index_bound(meta.spec_width() as int, meta.spec_height() as int, nx, ny);
                }
                if labels[nn] != 0 && dem[nn] < dem[n] {
                    proof {
                        assert(first_lower_labelled(*meta, dem@, labels@, x as int, y as int, dir as int));
                    }
                    return labels[nn];
                }
            },
            None => {},
        }
        dir = dir + 1;
    }
    *current_label = *current_label + 1;
    *current_label
}

} // verus!
