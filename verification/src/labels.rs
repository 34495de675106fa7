//! Cluster labels, the error kinds, and the spec predicates the engine
//! contracts use to speak about a labeling.

use vstd::prelude::*;

verus! {

/// The final assignment of one point: a numeric cluster identifier, or noise.
#[derive(Debug, Clone, Copy, PartialEq, Eq, Structural)]
pub enum Label {
    Noise,
    Cluster(usize),
}

/// Why a clustering run was rejected before any processing began.
#[derive(Debug, Clone, Copy, PartialEq, Eq, Structural)]
pub enum ClusterError {
    /// A negative radius, or a minimum neighborhood size of zero.
    InvalidParameter,
    /// A coordinate outside the representable angular range; the range covers
    /// every finite latitude and longitude, so only a non-finite or corrupted
    /// ingested value maps outside it.
    NonFiniteCoordinate,
}

/// Point `i` carries cluster identifier `k`.
pub open spec fn labeled(labels: Seq<Label>, i: int, k: usize) -> bool {
    0 <= i < labels.len() && labels[i] == Label::Cluster(k)
}

/// The parameters a run accepts: a non-negative radius and `min_pts >= 1`.
pub open spec fn params_ok(eps: int, min_pts: int) -> bool {
    eps >= 0 && min_pts >= 1
}

} // verus!
