//! Error types for grid indexing and flow ordering.
use vstd::prelude::*;

use crate::text::{decimal, push_str, string_from, u8_to_string, usize_to_string};

verus! {

/// How a caller may react to an error.
#[derive(Debug, PartialEq, Eq, Structural, Clone, Copy)]
pub enum ErrorStatus {
    /// This error is permanent and you cannot retry it
    Permanent,
    /// This is a temporary error, retry based on other error data
    Temporary,
    /// You retried, but the error repeated itself
    Persistent,
}

/// The name of a status, as its `Debug` form spells it.
pub open spec fn status_name(s: ErrorStatus) -> Seq<char> {
    match s {
        ErrorStatus::Permanent => "Permanent"@,
        ErrorStatus::Temporary => "Temporary"@,
        ErrorStatus::Persistent => "Persistent"@,
    }
}

impl ErrorStatus {
    /// The variant's name (its `Debug` form).
    pub fn name(&self) -> (s: &'static str)
        ensures
            s@ == status_name(*self),
    {
        match self {
            ErrorStatus::Permanent => "Permanent",
            ErrorStatus::Temporary => "Temporary",
            ErrorStatus::Persistent => "Persistent",
        }
    }
}

/// A general error: a message and a status.
#[derive(Debug, PartialEq, Eq)]
pub struct OxError {
    status: ErrorStatus,
    message: String,
}

impl OxError {
    /// The status of this error.
    pub closed spec fn spec_status(&self) -> ErrorStatus {
        self.status
    }

    /// The message of this error.
    pub closed spec fn spec_message(&self) -> Seq<char> {
        self.message@
    }

    /// Renders the error as `"<message> (<status>)"`.
    pub fn to_string(&self) -> (s: String)
        ensures
            s@ == self.spec_message() + " ("@ + status_name(self.spec_status()) + ")"@,
    {
        let mut s = string_from(self.message.as_str());
        push_str(&mut s, " (");
        push_str(&mut s, self.status.name());
        push_str(&mut s, ")");
        s
    }
}

/// What went wrong in grid indexing, categorized by what the caller can do.
#[derive(Debug, PartialEq, Eq, Structural, Clone, Copy)]
#[allow(inconsistent_fields)]
pub enum GridErrorKind {
    InvalidDirection { dir: usize },
    SizeMismatch { found: usize, expected: usize },
    OutOfBounds { x: usize, y: usize, dir: u8 },
}

/// Errors related to grid indexing.
#[derive(Debug, PartialEq, Eq, Structural, Clone, Copy)]
pub struct GridError {
    kind: GridErrorKind,
    status: ErrorStatus,
}

/// The text of a grid error, without its status suffix.
pub open spec fn grid_kind_message(kind: GridErrorKind) -> Seq<char> {
    match kind {
        GridErrorKind::OutOfBounds { x, y, dir } =>
            "OutOfBounds: shift in direction "@ + decimal(dir as nat) + " at ("@
                + decimal(x as nat) + ","@ + decimal(y as nat) + ") out-of-bounds"@,
        GridErrorKind::SizeMismatch { found, expected } =>
            "SizeMismatch: Array size "@ + decimal(found as nat) + " does not match GridMeta "@
                + decimal(expected as nat) + ", consider slicing your array"@,
        GridErrorKind::InvalidDirection { dir } =>
            "InvalidDirection: Direction "@ + decimal(dir as nat)
                + " is not a valid direction. Directions should be in the range `0..8`"@,
    }
}

impl GridError {
    /// What went wrong.
    pub closed spec fn spec_kind(&self) -> GridErrorKind {
        self.kind
    }

    /// Whether it can be retried.
    pub closed spec fn spec_status(&self) -> ErrorStatus {
        self.status
    }

    /// A direction outside `0..8` was given.
    pub fn invalid_direction(dir: usize) -> (e: Self)
        ensures
            e.spec_kind() == (GridErrorKind::InvalidDirection { dir }),
            e.spec_status() == ErrorStatus::Permanent,
    {
        Self { kind: GridErrorKind::InvalidDirection { dir }, status: ErrorStatus::Permanent }
    }

    /// An array's length did not match the grid's size.
    pub fn size_mismatch(found: usize, expected: usize) -> (e: Self)
        ensures
            e.spec_kind() == (GridErrorKind::SizeMismatch { found, expected }),
            e.spec_status() == ErrorStatus::Permanent,
    {
        Self { kind: GridErrorKind::SizeMismatch { found, expected }, status: ErrorStatus::Permanent }
    }

    /// A shift from `(x, y)` in direction `dir` left the grid.
    pub fn out_of_bounds(x: usize, y: usize, dir: u8) -> (e: Self)
        ensures
            e.spec_kind() == (GridErrorKind::OutOfBounds { x, y, dir }),
            e.spec_status() == ErrorStatus::Permanent,
    {
        Self { kind: GridErrorKind::OutOfBounds { x, y, dir }, status: ErrorStatus::Permanent }
    }

    /// What went wrong.
    pub fn kind(&self) -> (k: GridErrorKind)
        ensures
            k == self.spec_kind(),
    {
        self.kind
    }

    /// Whether it can be retried.
    pub fn status(&self) -> (s: ErrorStatus)
        ensures
            s == self.spec_status(),
    {
        self.status
    }

    /// Renders the error: its message followed by `" (<status>)"`.
    pub fn to_string(&self) -> (s: String)
        ensures
            s@ == grid_kind_message(self.spec_kind()) + " ("@ + status_name(self.spec_status())
                + ")"@,
    {
        let mut s = String::new();
        match self.kind {
            GridErrorKind::OutOfBounds { x, y, dir } => {
                push_str(&mut s, "OutOfBounds: shift in direction ");
                let d = u8_to_string(dir);
                push_str(&mut s, d.as_str());
                push_str(&mut s, " at (");
                let xs = usize_to_string(x);
                push_str(&mut s, xs.as_str());
                push_str(&mut s, ",");
                let ys = usize_to_string(y);
                push_str(&mut s, ys.as_str());
                push_str(&mut s, ") out-of-bounds");
            },
            GridErrorKind::SizeMismatch { found, expected } => {
                push_str(&mut s, "SizeMismatch: Array size ");
                let f = usize_to_string(found);
                push_str(&mut s, f.as_str());
                push_str(&mut s, " does not match GridMeta ");
                let e = usize_to_string(expected);
                push_str(&mut s, e.as_str());
                push_str(&mut s, ", consider slicing your array");
            },
            GridErrorKind::InvalidDirection { dir } => {
                push_str(&mut s, "InvalidDirection: Direction ");
                let d = usize_to_string(dir);
                push_str(&mut s, d.as_str());
                push_str(
                    &mut s,
                    " is not a valid direction. Directions should be in the range `0..8`",
                );
            },
        }
        push_str(&mut s, " (");
        push_str(&mut s, self.status.name());
        push_str(&mut s, ")");
        proof {
            assert(s@ =~= grid_kind_message(self.spec_kind()) + " ("@ + status_name(
                self.spec_status(),
            ) + ")"@);
        }
        s
    }
}

/// The type of error of a flow order ("contours").
#[derive(Debug, PartialEq, Eq, Structural, Clone, Copy)]
#[non_exhaustive]
pub enum ContourErrorKind {
    /// The metric returned an error,
    MetricFailed,
    /// The metric succeeded, but gave invalid results, so we cannot continue safely
    InvalidMetric,
    /// Input arrays did not match the grid's size
    InvalidArraySize,
    /// Something else
    Other,
}

/// The name of a kind, as its `Debug` form spells it.
pub open spec fn contour_kind_name(k: ContourErrorKind) -> Seq<char> {
    match k {
        ContourErrorKind::MetricFailed => "MetricFailed"@,
        ContourErrorKind::InvalidMetric => "InvalidMetric"@,
        ContourErrorKind::InvalidArraySize => "InvalidArraySize"@,
        ContourErrorKind::Other => "Other"@,
    }
}

/// Error type for flow orders.
#[derive(Debug, PartialEq, Eq)]
pub struct ContourError {
    status: ErrorStatus,
    kind: ContourErrorKind,
    message: String,
}

impl ContourError {
    /// What went wrong.
    pub closed spec fn spec_kind(&self) -> ContourErrorKind {
        self.kind
    }

    /// Whether it can be retried.
    pub closed spec fn spec_status(&self) -> ErrorStatus {
        self.status
    }

    /// The message.
    pub closed spec fn spec_message(&self) -> Seq<char> {
        self.message@
    }

    /// The metric returned an error; `metric` is the metric's `Debug` rendering.
    pub fn metric_failed(metric: &str) -> (e: Self)
        ensures
            e.spec_kind() == ContourErrorKind::MetricFailed,
            e.spec_status() == ErrorStatus::Permanent,
            e.spec_message() == "failed to run metric "@ + metric@,
    {
        let mut message = string_from("failed to run metric ");
        push_str(&mut message, metric);
        Self { status: ErrorStatus::Permanent, kind: ContourErrorKind::MetricFailed, message }
    }

    /// The metric succeeded, but gave invalid results, so we cannot continue safely
    pub fn invalid_metric(msg: &str) -> (e: Self)
        ensures
            e.spec_kind() == ContourErrorKind::InvalidMetric,
            e.spec_status() == ErrorStatus::Permanent,
            e.spec_message() == "metric was invalid: "@ + msg@,
    {
        let mut message = string_from("metric was invalid: ");
        push_str(&mut message, msg);
        Self { status: ErrorStatus::Permanent, kind: ContourErrorKind::InvalidMetric, message }
    }

    /// An input array's length did not fit the grid.
    pub fn invalid_array(array_size: usize) -> (e: Self)
        ensures
            e.spec_kind() == ContourErrorKind::InvalidArraySize,
            e.spec_status() == ErrorStatus::Permanent,
            e.spec_message() == "array of length "@ + decimal(array_size as nat)
                + " invalid for this `Contours`"@,
    {
        let mut message = string_from("array of length ");
        let n = usize_to_string(array_size);
        push_str(&mut message, n.as_str());
        push_str(&mut message, " invalid for this `Contours`");
        Self { status: ErrorStatus::Permanent, kind: ContourErrorKind::InvalidArraySize, message }
    }

    /// What went wrong.
    pub fn kind(&self) -> (k: ContourErrorKind)
        ensures
            k == self.spec_kind(),
    {
        self.kind
    }

    /// Whether it can be retried.
    pub fn status(&self) -> (s: ErrorStatus)
        ensures
            s == self.spec_status(),
    {
        self.status
    }

    /// The message.
    pub fn message(&self) -> (m: &str)
        ensures
            m@ == self.spec_message(),
    {
        self.message.as_str()
    }

    /// Renders the error as `"<kind>: <message> (<status>"`.
    pub fn to_string(&self) -> (s: String)
        ensures
            s@ == contour_kind_name(self.spec_kind()) + ": "@ + self.spec_message() + " ("@
                + status_name(self.spec_status()),
    {
        let mut s = String::new();
        let name = match self.kind {
            ContourErrorKind::MetricFailed => "MetricFailed",
            ContourErrorKind::InvalidMetric => "InvalidMetric",
            ContourErrorKind::InvalidArraySize => "InvalidArraySize",
            ContourErrorKind::Other => "Other",
        };
        push_str(&mut s, name);
        push_str(&mut s, ": ");
        push_str(&mut s, self.message.as_str());
        push_str(&mut s, " (");
        push_str(&mut s, self.status.name());
        proof {
            assert(s@ =~= contour_kind_name(self.spec_kind()) + ": "@ + self.spec_message() + " ("@
                + status_name(self.spec_status()));
        }
        s
    }
}

} // verus!
