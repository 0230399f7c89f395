//! The error type shared by every module.
use crate::text::{decimal, push_decimal};
use vstd::prelude::*;

verus! {

/// What went wrong with an input or an output, in the terms of an I/O layer.
#[derive(Clone, Copy, PartialEq, Eq, Structural, Debug)]
pub enum IoErrorKind {
    /// The data read is malformed.
    InvalidData,
    /// The caller asked for something that makes no sense.
    InvalidInput,
    /// The destination is already there.
    AlreadyExists,
}

/// Every contract violation that the library reports.
#[derive(Debug)]
pub enum Error {
    /// Malformed input, with a composed explanation.
    Io { kind: IoErrorKind, message: String },
    /// Record-batch or schema errors met while reading columnar data.
    Arrow(String),
    /// Metadata or geometry-column contract violations.
    GeoParquet(String),
    /// Geometry decoding, validation, or preprocessing failures.
    Geometry(String),
    /// Parsing, validation, or reprojection failures of a coordinate reference system.
    Crs(String),
    /// A decoded assignment's length disagrees with what the run expects.
    AssignmentLength {
        actual: usize,
        actual_label: &'static str,
        expected: usize,
        expected_label: &'static str,
    },
    /// A district id is at or beyond the limit of the observed-district bitmask.
    DistrictLimitExceeded { id: u16, limit: u16 },
    /// A plan's district label set differs from the first plan's.
    DistrictSetChanged(String),
    /// A per-accepted-frame mode found no frames to process.
    NoData,
}

/// The message of [`Error::AssignmentLength`].
pub open spec fn assignment_length_text(actual: nat, expected: nat) -> Seq<char> {
    "BEN assignment has "@ + decimal(actual) + " entries but graph has "@ + decimal(expected)
        + " nodes"@
}

/// The message of [`Error::DistrictLimitExceeded`].
pub open spec fn district_limit_text(id: nat, limit: nat) -> Seq<char> {
    "district id "@ + decimal(id) + " exceeds current "@ + decimal(limit)
        + "-district limit; widen the observed bitmask"@
}

impl Error {
    /// The text shown to the user.
    pub open spec fn text(&self) -> Seq<char> {
        match self {
            Error::Io { kind, message } => message@,
            Error::Arrow(message) => "Arrow error: "@ + message@,
            Error::GeoParquet(message) => "GeoParquet error: "@ + message@,
            Error::Geometry(message) => "geometry error: "@ + message@,
            Error::Crs(message) => "CRS error: "@ + message@,
            Error::AssignmentLength { actual, expected, .. } => assignment_length_text(
                *actual as nat,
                *expected as nat,
            ),
            Error::DistrictLimitExceeded { id, limit } => district_limit_text(
                *id as nat,
                *limit as nat,
            ),
            Error::DistrictSetChanged(message) => message@,
            Error::NoData => "No data found"@,
        }
    }

    /// Whether this is malformed data explained by `text`.
    pub open spec fn is_invalid_data(&self, text: Seq<char>) -> bool {
        self matches Error::Io { kind, message } && kind == IoErrorKind::InvalidData && message@
            == text
    }

    /// Whether this is a senseless request explained by `text`.
    pub open spec fn is_invalid_input(&self, text: Seq<char>) -> bool {
        self matches Error::Io { kind, message } && kind == IoErrorKind::InvalidInput && message@
            == text
    }

    /// The text shown to the user.
    pub fn message(&self) -> (r: String)
        ensures
            r@ == self.text(),
    {
        match self {
            Error::Io { kind: _, message } => message.clone(),
            Error::Arrow(message) => prefixed("Arrow error: ", message),
            Error::GeoParquet(message) => prefixed("GeoParquet error: ", message),
            Error::Geometry(message) => prefixed("geometry error: ", message),
            Error::Crs(message) => prefixed("CRS error: ", message),
            Error::AssignmentLength { actual, expected, .. } => {
                let mut out = "BEN assignment has ".to_owned();
                push_decimal(&mut out, *actual as u64);
                out.append(" entries but graph has ");
                push_decimal(&mut out, *expected as u64);
                out.append(" nodes");
                out
            },
            Error::DistrictLimitExceeded { id, limit } => {
                let mut out = "district id ".to_owned();
                push_decimal(&mut out, *id as u64);
                out.append(" exceeds current ");
                push_decimal(&mut out, *limit as u64);
                out.append("-district limit; widen the observed bitmask");
                out
            },
            Error::DistrictSetChanged(message) => message.clone(),
            Error::NoData => "No data found".to_owned(),
        }
    }
}

/// `head` followed by `tail`.
fn prefixed(head: &str, tail: &String) -> (r: String)
    ensures
        r@ == head@ + tail@,
{
    let mut out = head.to_owned();
    out.append(tail.as_str());
    out
}

/// Malformed data, explained by `message`.
pub fn invalid_data(message: String) -> (r: Error)
    ensures
        r.is_invalid_data(message@),
{
    Error::Io { kind: IoErrorKind::InvalidData, message }
}

/// A senseless request, explained by `message`.
pub fn invalid_input(message: String) -> (r: Error)
    ensures
        r.is_invalid_input(message@),
{
    Error::Io { kind: IoErrorKind::InvalidInput, message }
}

} // verus!
