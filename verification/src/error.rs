//! Error taxonomy of the search core.
use vstd::prelude::*;

verus! {

/// Everything that an operation of this crate can reject.
#[derive(Clone, Copy, Debug, PartialEq, Eq, Structural)]
pub enum Error {
    /// An inserted vector's length differs from the table dimension.
    /// Recoverable: the insertion is rejected and the table is unchanged.
    DimensionMismatch,
    /// A half-plane operand's height coordinate is not strictly positive.
    /// Fatal to the in-flight query: no result is produced.
    InvalidMetricPrecondition,
}

} // verus!
