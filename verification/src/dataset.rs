//! Identifiers of datasets and of the bundles cached for them.

use vstd::prelude::*;

verus! {

/// Identifier of a registered dataset.
#[derive(Debug, Clone, PartialEq, Eq, Hash)]
pub struct DatasetId(pub String);

impl DatasetId {
    /// Wraps the given text as a dataset identifier.
    pub fn new(value: &str) -> (r: Self)
        ensures
            r.0@ == value@,
    {
        DatasetId(value.to_owned())
    }
}

/// Identifier of a cached bundle (topology, acceleration, compiled profile).
#[derive(Debug, Clone, PartialEq, Eq, Hash)]
pub struct CacheBundleId(pub String);

impl CacheBundleId {
    /// Wraps the given text as a bundle identifier.
    pub fn new(value: &str) -> (r: Self)
        ensures
            r.0@ == value@,
    {
        CacheBundleId(value.to_owned())
    }
}

} // verus!
