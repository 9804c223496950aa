//! Decode failures of the canonical byte encoding.
//!
//! Every failure of a decode entry point is one of these kinds; encoding a
//! well-formed in-memory value never fails. Values built by the algebraic
//! operations never produce these errors: they arise only at the
//! serialization boundary.

use vstd::prelude::*;

verus! {

/// The kind of a canonical-decode failure.
#[derive(Clone, Copy, Debug, PartialEq, Eq, Structural)]
pub enum SerializationError {
    /// The byte stream is shorter than the declared or required length.
    UnexpectedEndOfInput,
    /// A length prefix is inconsistent with the data actually remaining.
    InvalidLength,
    /// An element-count prefix (a sparse-map count or a presence flag) is
    /// inconsistent with the data actually remaining.
    InvalidCount,
    /// Decoded coordinates do not satisfy the curve equation.
    PointNotOnCurve,
    /// The point is on the curve but outside the required prime-order subgroup.
    NotInCorrectSubgroup,
    /// The input is longer than the value that was decoded from it.
    TrailingBytes,
}

} // verus!
