//! Queue entries of depression filling, ordered so that the lowest is served first.
use vstd::prelude::*;

use core::cmp::Ordering;

use crate::queue::{rank_gt, Ranked};
use crate::TLabel;

verus! {

/// A grid cell waiting in the priority queue of depression filling.
///
/// Cells are ordered in reverse of their elevation key `z`, so that the
/// lowest is greatest; on equal elevation a cell of the region of interest
/// is greater. The position does not take part in the order.
#[derive(Debug, Clone, Copy)]
pub struct Cell {
    /// The cell's x-coordinate
    pub x: usize,
    /// The cell's y-coordinate
    pub y: usize,
    /// The elevation key
    pub z: u64,
    /// Whether we are in the Region of Interest
    pub roi: bool,
}

/// The three-way comparison of two ranks.
pub open spec fn rank_order(a: (int, int), b: (int, int)) -> Ordering {
    if rank_gt(a, b) {
        Ordering::Greater
    } else if a == b {
        Ordering::Equal
    } else {
        Ordering::Less
    }
}

impl Ranked for Cell {
    open spec fn rank(&self) -> (int, int) {
        (-(self.z as int), if self.roi { 1int } else { 0int })
    }

    fn outranks(&self, other: &Self) -> (r: bool) {
        self.z < other.z || (self.z == other.z && self.roi && !other.roi)
    }
}

impl PartialEq for Cell {
    fn eq(&self, other: &Self) -> (r: bool) {
        self.z == other.z && self.roi == other.roi
    }
}

impl vstd::std_specs::cmp::PartialEqSpecImpl for Cell {
    open spec fn obeys_eq_spec() -> bool {
        true
    }

    open spec fn eq_spec(&self, other: &Self) -> bool {
        self.z == other.z && self.roi == other.roi
    }
}

impl Eq for Cell {}

impl PartialOrd for Cell {
    fn partial_cmp(&self, other: &Self) -> (r: Option<Ordering>) {
        if self.outranks(other) {
            Some(Ordering::Greater)
        } else if other.outranks(self) {
            Some(Ordering::Less)
        } else {
            Some(Ordering::Equal)
        }
    }
}

impl vstd::std_specs::cmp::PartialOrdSpecImpl for Cell {
    open spec fn obeys_partial_cmp_spec() -> bool {
        true
    }

    open spec fn partial_cmp_spec(&self, other: &Self) -> Option<Ordering> {
        Some(rank_order(self.rank(), other.rank()))
    }
}

/// A node of the spill graph waiting in the priority queue of graph filling.
///
/// Ordered in reverse of the spill elevation key, then in reverse of the
/// label, so the lowest node (and among equals the smallest label) is greatest.
#[derive(Debug, Clone, Copy)]
pub struct GraphCell {
    label: TLabel,
    spill_elev: u64,
}

impl GraphCell {
    /// The label.
    pub closed spec fn spec_label(&self) -> TLabel {
        self.label
    }

    /// The spill elevation key.
    pub closed spec fn spec_spill_elev(&self) -> u64 {
        self.spill_elev
    }

    /// The graph cell with the given label and spill elevation.
    pub closed spec fn new_spec(label: TLabel, spill_elev: u64) -> GraphCell {
        GraphCell { label, spill_elev }
    }

    /// A graph cell is its label and spill elevation.
    pub proof fn lemma_new_spec(label: TLabel, spill_elev: u64)
        ensures
            Self::new_spec(label, spill_elev).spec_label() == label,
            Self::new_spec(label, spill_elev).spec_spill_elev() == spill_elev,
    {
    }

    /// Two graph cells with the same label and spill elevation are equal.
    pub proof fn lemma_ext(a: GraphCell, b: GraphCell)
        requires
            a.spec_label() == b.spec_label(),
            a.spec_spill_elev() == b.spec_spill_elev(),
        ensures
            a == b,
    {
    }

    /// Create a new graph cell for the label and spill elevation.
    pub fn new(label: TLabel, spill_elev: u64) -> (r: Self)
        ensures
            r.spec_label() == label,
            r.spec_spill_elev() == spill_elev,
            r == Self::new_spec(label, spill_elev),
    {
        Self { label, spill_elev }
    }

    /// Get the label.
    pub fn label(&self) -> (r: TLabel)
        ensures
            r == self.spec_label(),
    {
        self.label
    }

    /// Get the spill elevation.
    pub fn spill_elev(&self) -> (r: &u64)
        ensures
            *r == self.spec_spill_elev(),
    {
        &self.spill_elev
    }
}

impl Ranked for GraphCell {
    open spec fn rank(&self) -> (int, int) {
        (-(self.spec_spill_elev() as int), -(self.spec_label() as int))
    }

    fn outranks(&self, other: &Self) -> (r: bool) {
        self.spill_elev < other.spill_elev || (self.spill_elev == other.spill_elev && self.label
            < other.label)
    }
}

impl PartialEq for GraphCell {
    fn eq(&self, other: &Self) -> (r: bool) {
        self.spill_elev == other.spill_elev && self.label == other.label
    }
}

impl vstd::std_specs::cmp::PartialEqSpecImpl for GraphCell {
    open spec fn obeys_eq_spec() -> bool {
        true
    }

    open spec fn eq_spec(&self, other: &Self) -> bool {
        self.spec_spill_elev() == other.spec_spill_elev() && self.spec_label()
            == other.spec_label()
    }
}

impl Eq for GraphCell {}

impl PartialOrd for GraphCell {
    fn partial_cmp(&self, other: &Self) -> (r: Option<Ordering>) {
        if self.outranks(other) {
            Some(Ordering::Greater)
        } else if other.outranks(self) {
            Some(Ordering::Less)
        } else {
            Some(Ordering::Equal)
        }
    }
}

impl vstd::std_specs::cmp::PartialOrdSpecImpl for GraphCell {
    open spec fn obeys_partial_cmp_spec() -> bool {
        true
    }

    open spec fn partial_cmp_spec(&self, other: &Self) -> Option<Ordering> {
        Some(rank_order(self.rank(), other.rank()))
    }
}

} // verus!
