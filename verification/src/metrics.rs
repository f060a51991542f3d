//! Fixed-point arc weights of a customized contraction hierarchy.
//!
//! Weights are counted in 1/1024 of the objective unit. `u32::MAX` marks an
//! inaccessible arc; `u32::MAX - 1` marks a finite weight too large to hold.

use vstd::prelude::*;

use crate::dataset::CacheBundleId;

verus! {

/// Schema version of compiled profile bundles.
pub const COMPILED_PROFILE_BUNDLE_SCHEMA_VERSION: u32 = 6;

/// Schema version of [`CompiledAcceleration`].
pub const COMPILED_ACCELERATION_SCHEMA_VERSION: u32 = 4;

/// Weight of an inaccessible arc.
pub const CCH_WEIGHT_INFINITY: u32 = 4294967295;

/// Weight of a finite path too long to represent.
pub const CCH_WEIGHT_OVERFLOW: u32 = 4294967294;

/// The weight of two arcs in a row: inaccessible if either is, else their
/// sum capped at the overflow weight.
pub open spec fn weight_sum(left: u32, right: u32) -> u32 {
    if left == CCH_WEIGHT_INFINITY || right == CCH_WEIGHT_INFINITY {
        CCH_WEIGHT_INFINITY
    } else if left + right >= CCH_WEIGHT_OVERFLOW {
        CCH_WEIGHT_OVERFLOW
    } else {
        (left + right) as u32
    }
}

/// Adds two fixed-point weights.
pub fn add_cch_weights(left: u32, right: u32) -> (r: u32)
    ensures
        r == weight_sum(left, right),
{
    if left == CCH_WEIGHT_INFINITY || right == CCH_WEIGHT_INFINITY {
        CCH_WEIGHT_INFINITY
    } else {
        let sum = left.saturating_add(right);
        if sum < CCH_WEIGHT_OVERFLOW {
            sum
        } else {
            CCH_WEIGHT_OVERFLOW
        }
    }
}

/// Adding weights does not depend on their order.
pub proof fn lemma_weight_sum_commutes(left: u32, right: u32)
    ensures
        weight_sum(left, right) == weight_sum(right, left),
{
}

/// An inaccessible arc makes the whole path inaccessible, and an
/// accessible sum never wraps to a smaller value: it is at least each
/// part and never the inaccessible weight.
pub proof fn lemma_weight_sum_never_wraps(left: u32, right: u32)
    ensures
        (left == CCH_WEIGHT_INFINITY || right == CCH_WEIGHT_INFINITY) ==> weight_sum(left, right)
            == CCH_WEIGHT_INFINITY,
        (left != CCH_WEIGHT_INFINITY && right != CCH_WEIGHT_INFINITY) ==> {
            &&& weight_sum(left, right) != CCH_WEIGHT_INFINITY
            &&& weight_sum(left, right) >= left
            &&& weight_sum(left, right) >= right
        },
{
}

/// Overflow stays distinct from inaccessibility: finite weights whose sum
/// does not fit give the overflow weight.
pub proof fn lemma_weight_sum_overflow(left: u32, right: u32)
    requires
        left != CCH_WEIGHT_INFINITY,
        right != CCH_WEIGHT_INFINITY,
        left + right >= CCH_WEIGHT_OVERFLOW,
    ensures
        weight_sum(left, right) == CCH_WEIGHT_OVERFLOW,
{
}

/// Fixed-point weights of the arcs of an acceleration bundle, for the
/// generalized cost and, where present, for time and distance alone.
#[derive(Debug, Clone)]
pub struct CompiledAcceleration {
    pub schema_version: u32,
    pub source_acceleration_bundle_id: CacheBundleId,
    pub algorithm: String,
    pub upward_weight: Vec<u32>,
    pub downward_weight: Vec<u32>,
    pub time_upward_weight: Vec<u32>,
    pub time_downward_weight: Vec<u32>,
    pub distance_upward_weight: Vec<u32>,
    pub distance_downward_weight: Vec<u32>,
}

} // verus!
