//! The closed metric capability: the three metric kinds, their selection
//! orientation, and the half-plane height precondition.
//!
//! The numeric formulas themselves run outside the core on IEEE 754
//! single-precision values; the core decides which selection discipline a
//! metric drives and guards the half-plane precondition, which is a pure
//! property of the stored bit images: a single-precision value is
//! strictly positive exactly when its bit image lies between 1 and the
//! positive-infinity image (sign bit clear, not a zero, not a NaN).
use vstd::prelude::*;

use crate::error::Error;
use crate::table::VectorTable;

verus! {

/// The positive-infinity bit image of a single-precision value: the
/// largest bit image whose value is strictly positive.
pub const POSITIVE_INFINITY_BITS: u32 = 0x7F80_0000;

/// The three metrics the core supports.
#[derive(Clone, Copy, Debug, PartialEq, Eq, Structural)]
pub enum MetricKind {
    /// Euclidean (L2) distance: smaller is better.
    Euclidean,
    /// Inner product similarity: larger is better.
    InnerProduct,
    /// Hyperbolic half-plane distance: smaller is better; both operands
    /// must have a strictly positive height coordinate.
    HalfPlane,
}

impl MetricKind {
    /// Whether the metric is a distance (smaller is better), so queries
    /// keep the bottom-k; the inner product is the one similarity.
    pub fn is_distance(self) -> (r: bool)
        ensures
            r == (self != MetricKind::InnerProduct),
    {
        match self {
            MetricKind::Euclidean => true,
            MetricKind::InnerProduct => false,
            MetricKind::HalfPlane => true,
        }
    }

    /// Whether the metric requires strictly positive height coordinates.
    pub fn needs_positive_height(self) -> (r: bool)
        ensures
            r == (self == MetricKind::HalfPlane),
    {
        match self {
            MetricKind::Euclidean => false,
            MetricKind::InnerProduct => false,
            MetricKind::HalfPlane => true,
        }
    }
}

/// The bit image encodes a strictly positive single-precision value.
pub open spec fn positive_height(bits: u32) -> bool {
    1 <= bits <= POSITIVE_INFINITY_BITS
}

/// A vector is a valid half-plane operand: it has a height coordinate
/// (its last) and that coordinate is strictly positive.
pub open spec fn half_plane_ok(v: Seq<u32>) -> bool {
    v.len() >= 1 && positive_height(v[v.len() - 1])
}

/// Whether the vector is a valid half-plane operand.
pub fn check_half_plane_vector(v: &Vec<u32>) -> (ok: bool)
    ensures
        ok == half_plane_ok(v@),
{
    let n = v.len();
    if n == 0 {
        return false;
    }
    let h = v[n - 1];
    1 <= h && h <= POSITIVE_INFINITY_BITS
}

/// The half-plane precondition over a whole query: the query vector and
/// every stored vector must carry a strictly positive height. Fails fast
/// with `InvalidMetricPrecondition` — the query must abort rather than
/// silently skip offending candidates — exactly when some operand is
/// invalid.
pub fn validate_half_plane(table: &VectorTable, query: &Vec<u32>) -> (res: Result<(), Error>)
    requires
        table.wf(),
    ensures
        match res {
            Ok(()) => half_plane_ok(query@) && forall|i: int|
                0 <= i < table.total_spec() ==> half_plane_ok(#[trigger] table.rows()[i]),
            Err(e) => e == Error::InvalidMetricPrecondition && !(half_plane_ok(query@)
                && forall|i: int|
                0 <= i < table.total_spec() ==> half_plane_ok(#[trigger] table.rows()[i])),
        },
{
    if !check_half_plane_vector(query) {
        return Err(Error::InvalidMetricPrecondition);
    }
    let n = table.len();
    let mut i: usize = 0;
    while i < n
        invariant
            i <= n,
            n as nat == table.total_spec(),
            table.wf(),
            forall|j: int| 0 <= j < i ==> half_plane_ok(#[trigger] table.rows()[j]),
        decreases n - i,
    {
        let row = table.get(i);
        if !check_half_plane_vector(&row) {
            return Err(Error::InvalidMetricPrecondition);
        }
        i = i + 1;
    }
    Ok(())
}

} // verus!
