//! Attribute columns carried over from source features.

use vstd::prelude::*;

verus! {

/// Storage type of an attribute column.
#[derive(Debug, Clone, Copy, PartialEq, Eq, Structural)]
pub enum FeatureAttributeType {
    Boolean,
    Integer,
    Float,
    String,
    Json,
}

/// One attribute column: its verbatim source name, an optional stable
/// role, its type, and coded-value labels keyed by canonical source value
/// (sorted by key).
#[derive(Debug, Clone)]
pub struct FeatureAttributeDefinition {
    pub name: String,
    pub semantic_role: Option<String>,
    pub value_type: FeatureAttributeType,
    pub domain: Vec<(String, String)>,
}

/// The common type of two columns merged under one name: equal types stay,
/// integers widen to floats, strings to JSON, anything else to strings.
pub open spec fn promoted(left: FeatureAttributeType, right: FeatureAttributeType) -> FeatureAttributeType {
    if left == right {
        left
    } else if (left == FeatureAttributeType::Integer && right == FeatureAttributeType::Float) || (left
        == FeatureAttributeType::Float && right == FeatureAttributeType::Integer) {
        FeatureAttributeType::Float
    } else if (left == FeatureAttributeType::Json && right == FeatureAttributeType::String) || (left
        == FeatureAttributeType::String && right == FeatureAttributeType::Json) {
        FeatureAttributeType::Json
    } else {
        FeatureAttributeType::String
    }
}

/// The type of a column that two layers define with these types.
pub fn promote_type(left: FeatureAttributeType, right: FeatureAttributeType) -> (r: FeatureAttributeType)
    ensures
        r == promoted(left, right),
{
    if left == right {
        left
    } else {
        match (left, right) {
            (FeatureAttributeType::Integer, FeatureAttributeType::Float)
            | (FeatureAttributeType::Float, FeatureAttributeType::Integer) => FeatureAttributeType::Float,
            (FeatureAttributeType::Json, FeatureAttributeType::String)
            | (FeatureAttributeType::String, FeatureAttributeType::Json) => FeatureAttributeType::Json,
            _ => FeatureAttributeType::String,
        }
    }
}

/// Promotion does not depend on the order of the two types.
pub proof fn lemma_promote_commutes(left: FeatureAttributeType, right: FeatureAttributeType)
    ensures
        promoted(left, right) == promoted(right, left),
{
}

} // verus!
