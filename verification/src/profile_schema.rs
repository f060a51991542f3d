//! Parts of routing profiles that are plain settings: objectives, posted
//! speed limits, match rules, direction options and what a result returns.

use vstd::prelude::*;

use crate::text::{chars_of, chars_of_string, eq_ignore_case, is_lit, is_lit_ignore_case, normalize_attribute_name, normalized_name};

verus! {

#[derive(Debug, Clone, Copy, PartialEq, Eq, Structural)]
pub enum Objective {
    Fastest,
    Shortest,
    Generalized,
}

/// How posted speed limits combine with class and profile speeds.
#[derive(Debug, Clone, Copy, PartialEq, Eq, Structural)]
pub enum PostedLimitPolicy {
    /// The posted limit replaces the profile speed wherever known.
    Prefer,
    /// The posted limit caps the profile speed.
    Cap,
    /// Posted limits are ignored.
    Ignore,
}

#[derive(Debug, Clone, Copy, PartialEq, Eq, Structural)]
pub struct SpeedsConfig {
    pub posted_limits: PostedLimitPolicy,
}

/// Attribute values a rule matches, keyed by attribute name (sorted).
#[derive(Debug, Clone)]
pub struct TagMatch {
    pub tags: Vec<(String, String)>,
}

/// Edges matching the rule are left out of the network.
#[derive(Debug, Clone)]
pub struct ExcludeRule {
    pub rule_match: TagMatch,
}

#[derive(Debug, Clone, Copy, PartialEq, Eq, Structural)]
pub struct DirectionConfig {
    pub ignore_plain_oneway_for_foot: bool,
    pub allow_bicycle_contraflow_on_roads: bool,
}

/// The geometry a result carries.
#[derive(Debug, Clone, Copy, PartialEq, Eq, Structural)]
pub enum ReturnGeometry {
    /// No geometry (`none` in profiles).
    Omitted,
    Full,
    Segments,
}

#[derive(Debug, Clone, Copy, PartialEq, Eq, Structural)]
pub enum BreakdownMetric {
    TimeS,
    DistanceM,
}

#[derive(Debug, Clone)]
pub struct ReturnConfig {
    pub geometry: ReturnGeometry,
    pub segment_rows: bool,
    pub road_type_breakdown: Vec<BreakdownMetric>,
    pub surface_breakdown: Vec<BreakdownMetric>,
    pub penalty_breakdown: bool,
    pub explain_cost_derivation: bool,
}

/// The attribute that facility costs read unless told otherwise.
pub fn default_facility_attribute() -> (r: String)
    ensures
        r@ == "feature_type"@,
{
    "feature_type".to_owned()
}

/// The component that stair burden is charged to by default.
pub fn default_stair_burden_component() -> (r: String)
    ensures
        r@ == "stair_burden"@,
{
    "stair_burden".to_owned()
}

/// The component that lift waiting is charged to by default.
pub fn default_lift_wait_component() -> (r: String)
    ensures
        r@ == "lift_wait"@,
{
    "lift_wait".to_owned()
}

/// Keys every dataset can match on, whatever its attributes.
pub open spec fn builtin_key(n: Seq<char>) -> bool {
    n == "highway"@ || n == "road_class"@ || n == "surface"@ || n == "smoothness"@ || n == "route"@ || n
        == "toll"@
}

/// Whether a match key is built in (after normalization).
pub fn is_builtin_match_key(key: &str) -> (r: bool)
    ensures
        r == builtin_key(normalized_name(key@)),
{
    let n = normalize_attribute_name(key);
    let c = chars_of_string(&n);
    is_lit(&c, "highway") || is_lit(&c, "road_class") || is_lit(&c, "surface") || is_lit(&c, "smoothness")
        || is_lit(&c, "route") || is_lit(&c, "toll")
}

/// A key a rule may use: built in, or a normalized attribute of the
/// dataset.
pub open spec fn key_supported(key: Seq<char>, attributes: Seq<String>) -> bool {
    builtin_key(normalized_name(key)) || exists|i: int|
        0 <= i < attributes.len() && #[trigger] attributes[i]@ == normalized_name(key)
}

/// Checks the keys of a match rule against the dataset's attributes; the
/// error is the position of the first key that is neither built in nor
/// an attribute.
pub fn ensure_supported_keys(tags: &TagMatch, dataset_attributes: &Vec<String>) -> (r: Result<(), usize>)
    ensures
        match r {
            Ok(_) => forall|i: int| 0 <= i < tags.tags@.len() ==> key_supported(#[trigger] tags.tags@[i].0@, dataset_attributes@),
            Err(k) => k < tags.tags@.len() && !key_supported(tags.tags@[k as int].0@, dataset_attributes@)
                && forall|i: int| 0 <= i < k ==> key_supported(#[trigger] tags.tags@[i].0@, dataset_attributes@),
        },
{
    let mut i: usize = 0;
    while i < tags.tags.len()
        invariant
            i <= tags.tags@.len(),
            forall|j: int| 0 <= j < i ==> key_supported(#[trigger] tags.tags@[j].0@, dataset_attributes@),
        decreases tags.tags@.len() - i,
    {
        let key = tags.tags[i].0.as_str();
        if !is_builtin_match_key(key) {
            let n = normalize_attribute_name(key);
            let nc = chars_of_string(&n);
            let mut found = false;
            let mut a: usize = 0;
            while a < dataset_attributes.len()
                invariant
                    a <= dataset_attributes@.len(),
                    nc@ == normalized_name(key@),
                    found == exists|q: int| 0 <= q < a && #[trigger] dataset_attributes@[q]@ == normalized_name(key@),
                decreases dataset_attributes@.len() - a,
            {
                let attr = chars_of_string(&dataset_attributes[a]);
                if crate::text::chars_equal(&attr, &nc) {
                    found = true;
                }
                a += 1;
            }
            if !found {
                return Err(i);
            }
        }
        i += 1;
    }
    Ok(())
}

/// The rule groups of a profile whose tags name attributes.
#[derive(Debug, Clone, Copy, PartialEq, Eq, Structural)]
pub enum RuleGroup {
    SpeedRules,
    ExcludeRules,
    Factors,
}

/// A profile names an attribute that the dataset does not have.
#[derive(Debug, Clone)]
pub enum MatcherError {
    /// A key of the `rule_index`th rule of a group.
    RuleKey { group: RuleGroup, rule_index: usize, key: String },
    /// The attribute that facility classes are read from.
    FacilityAttribute { attribute: String },
    /// A key that a cost component expression matches on.
    ComponentKey { key: String },
}

/// Every key of the rule is supported.
pub open spec fn tags_supported(tags: Seq<(String, String)>, attributes: Seq<String>) -> bool {
    forall|i: int| 0 <= i < tags.len() ==> key_supported(#[trigger] tags[i].0@, attributes)
}

/// `k` is the first unsupported key of the rule.
pub open spec fn first_unsupported_key(tags: Seq<(String, String)>, attributes: Seq<String>, k: int) -> bool {
    &&& 0 <= k < tags.len()
    &&& !key_supported(tags[k].0@, attributes)
    &&& forall|i: int| 0 <= i < k ==> key_supported(#[trigger] tags[i].0@, attributes)
}

/// Every rule of the group is supported.
pub open spec fn rules_supported(rules: Seq<Seq<(String, String)>>, attributes: Seq<String>) -> bool {
    forall|r: int| 0 <= r < rules.len() ==> tags_supported(#[trigger] rules[r], attributes)
}

/// Rule `r` is the first unsupported one, and `key` its first unsupported
/// key.
pub open spec fn first_unsupported_rule(
    rules: Seq<Seq<(String, String)>>,
    attributes: Seq<String>,
    r: int,
    key: Seq<char>,
) -> bool {
    &&& 0 <= r < rules.len()
    &&& forall|q: int| 0 <= q < r ==> tags_supported(#[trigger] rules[q], attributes)
    &&& exists|k: int| first_unsupported_key(rules[r], attributes, k) && rules[r][k].0@ == key
}

/// The tags of each rule.
pub open spec fn match_tags(rules: Seq<TagMatch>) -> Seq<Seq<(String, String)>> {
    rules.map_values(|m: TagMatch| m.tags@)
}

/// The tags of each exclude rule.
pub open spec fn exclude_tags(rules: Seq<ExcludeRule>) -> Seq<Seq<(String, String)>> {
    rules.map_values(|m: ExcludeRule| m.rule_match.tags@)
}

/// Every key the component expressions match on is supported.
pub open spec fn keys_supported(keys: Seq<String>, attributes: Seq<String>) -> bool {
    forall|i: int| 0 <= i < keys.len() ==> key_supported(#[trigger] keys[i]@, attributes)
}

/// Checks each rule of a group in order; the error is the first rule with
/// an unsupported key, and that key's position.
fn check_rules(tags: &Vec<TagMatch>, dataset_attributes: &Vec<String>) -> (r: Result<(), (usize, usize)>)
    ensures
        r is Ok <==> rules_supported(match_tags(tags@), dataset_attributes@),
        r matches Err((ri, k)) ==> first_unsupported_rule(match_tags(tags@), dataset_attributes@, ri as int, match_tags(tags@)[ri as int][k as int].0@)
            && first_unsupported_key(match_tags(tags@)[ri as int], dataset_attributes@, k as int),
{
    let ghost rules = match_tags(tags@);
    let mut i: usize = 0;
    while i < tags.len()
        invariant
            rules == match_tags(tags@),
            i <= tags@.len(),
            forall|q: int| 0 <= q < i ==> tags_supported(#[trigger] rules[q], dataset_attributes@),
        decreases tags@.len() - i,
    {
        proof {
            assert(rules[i as int] == tags@[i as int].tags@);
        }
        match ensure_supported_keys(&tags[i], dataset_attributes) {
            Ok(()) => {},
            Err(k) => {
                proof {
                    assert(first_unsupported_key(rules[i as int], dataset_attributes@, k as int));
                }
                return Err((i, k));
            },
        }
        i += 1;
    }
    Ok(())
}

/// `check_rules` for exclude rules.
fn check_exclude_rules(excludes: &Vec<ExcludeRule>, dataset_attributes: &Vec<String>) -> (r: Result<(), (usize, usize)>)
    ensures
        r is Ok <==> rules_supported(exclude_tags(excludes@), dataset_attributes@),
        r matches Err((ri, k)) ==> first_unsupported_rule(exclude_tags(excludes@), dataset_attributes@, ri as int, exclude_tags(excludes@)[ri as int][k as int].0@)
            && first_unsupported_key(exclude_tags(excludes@)[ri as int], dataset_attributes@, k as int),
{
    let ghost rules = exclude_tags(excludes@);
    let mut i: usize = 0;
    while i < excludes.len()
        invariant
            rules == exclude_tags(excludes@),
            i <= excludes@.len(),
            forall|q: int| 0 <= q < i ==> tags_supported(#[trigger] rules[q], dataset_attributes@),
        decreases excludes@.len() - i,
    {
        proof {
            assert(rules[i as int] == excludes@[i as int].rule_match.tags@);
        }
        match ensure_supported_keys(&excludes[i].rule_match, dataset_attributes) {
            Ok(()) => {},
            Err(k) => {
                proof {
                    assert(first_unsupported_key(rules[i as int], dataset_attributes@, k as int));
                }
                return Err((i, k));
            },
        }
        i += 1;
    }
    Ok(())
}

/// Whether a key is built in or a normalized attribute of the dataset.
fn key_is_supported(key: &str, dataset_attributes: &Vec<String>) -> (r: bool)
    ensures
        r == key_supported(key@, dataset_attributes@),
{
    let tags = TagMatch { tags: vec![(key.to_owned(), String::new())] };
    proof {
        assert(tags.tags@[0].0@ == key@);
    }
    ensure_supported_keys(&tags, dataset_attributes).is_ok()
}

/// Checks that every attribute a profile matches on is built in or
/// present in the dataset: the keys of the speed rules, the exclude rules
/// and the factors (in that order), the facility attribute when facility
/// classes are configured, and the keys of the cost component expressions.
/// The error names the first unsupported key in that order.
pub fn ensure_supported_matchers(
    speed_rules: &Vec<TagMatch>,
    exclude_rules: &Vec<ExcludeRule>,
    factors: &Vec<TagMatch>,
    facility_classes_configured: bool,
    facility_attribute: &str,
    dataset_attributes: &Vec<String>,
    component_match_keys: &Vec<String>,
) -> (r: Result<(), MatcherError>)
    ensures
        r is Ok <==> {
            &&& rules_supported(match_tags(speed_rules@), dataset_attributes@)
            &&& rules_supported(exclude_tags(exclude_rules@), dataset_attributes@)
            &&& rules_supported(match_tags(factors@), dataset_attributes@)
            &&& (facility_classes_configured ==> key_supported(facility_attribute@, dataset_attributes@))
            &&& keys_supported(component_match_keys@, dataset_attributes@)
        },
        r matches Err(MatcherError::RuleKey { group, rule_index, key }) ==> match group {
            RuleGroup::SpeedRules => first_unsupported_rule(match_tags(speed_rules@), dataset_attributes@, rule_index as int, key@),
            RuleGroup::ExcludeRules => rules_supported(match_tags(speed_rules@), dataset_attributes@)
                && first_unsupported_rule(exclude_tags(exclude_rules@), dataset_attributes@, rule_index as int, key@),
            RuleGroup::Factors => rules_supported(match_tags(speed_rules@), dataset_attributes@) && rules_supported(
                exclude_tags(exclude_rules@),
                dataset_attributes@,
            ) && first_unsupported_rule(match_tags(factors@), dataset_attributes@, rule_index as int, key@),
        },
        r matches Err(MatcherError::FacilityAttribute { attribute }) ==> {
            &&& rules_supported(match_tags(speed_rules@), dataset_attributes@)
            &&& rules_supported(exclude_tags(exclude_rules@), dataset_attributes@)
            &&& rules_supported(match_tags(factors@), dataset_attributes@)
            &&& facility_classes_configured
            &&& !key_supported(facility_attribute@, dataset_attributes@)
            &&& attribute@ == facility_attribute@
        },
        r matches Err(MatcherError::ComponentKey { key }) ==> {
            &&& rules_supported(match_tags(speed_rules@), dataset_attributes@)
            &&& rules_supported(exclude_tags(exclude_rules@), dataset_attributes@)
            &&& rules_supported(match_tags(factors@), dataset_attributes@)
            &&& (facility_classes_configured ==> key_supported(facility_attribute@, dataset_attributes@))
            &&& exists|k: int|
                0 <= k < component_match_keys@.len() && !key_supported(component_match_keys@[k]@, dataset_attributes@)
                    && key@ == component_match_keys@[k]@ && keys_supported(component_match_keys@.take(k), dataset_attributes@)
        },
{
    let ghost speed = match_tags(speed_rules@);
    let ghost excl = exclude_tags(exclude_rules@);
    let ghost fact = match_tags(factors@);
    match check_rules(speed_rules, dataset_attributes) {
        Ok(()) => {},
        Err((ri, k)) => {
            proof {
                assert(speed[ri as int] == speed_rules@[ri as int].tags@);
            }
            return Err(MatcherError::RuleKey { group: RuleGroup::SpeedRules, rule_index: ri, key: speed_rules[ri].tags[k].0.clone() });
        },
    }
    match check_exclude_rules(exclude_rules, dataset_attributes) {
        Ok(()) => {},
        Err((ri, k)) => {
            proof {
                assert(excl[ri as int] == exclude_rules@[ri as int].rule_match.tags@);
            }
            return Err(
                MatcherError::RuleKey {
                    group: RuleGroup::ExcludeRules,
                    rule_index: ri,
                    key: exclude_rules[ri].rule_match.tags[k].0.clone(),
                },
            );
        },
    }
    match check_rules(factors, dataset_attributes) {
        Ok(()) => {},
        Err((ri, k)) => {
            proof {
                assert(fact[ri as int] == factors@[ri as int].tags@);
            }
            return Err(MatcherError::RuleKey { group: RuleGroup::Factors, rule_index: ri, key: factors[ri].tags[k].0.clone() });
        },
    }
    if facility_classes_configured && !key_is_supported(facility_attribute, dataset_attributes) {
        return Err(MatcherError::FacilityAttribute { attribute: facility_attribute.to_owned() });
    }
    let mut i: usize = 0;
    while i < component_match_keys.len()
        invariant
            rules_supported(match_tags(speed_rules@), dataset_attributes@),
            rules_supported(exclude_tags(exclude_rules@), dataset_attributes@),
            rules_supported(match_tags(factors@), dataset_attributes@),
            facility_classes_configured ==> key_supported(facility_attribute@, dataset_attributes@),
            i <= component_match_keys@.len(),
            keys_supported(component_match_keys@.take(i as int), dataset_attributes@),
        decreases component_match_keys@.len() - i,
    {
        if !key_is_supported(component_match_keys[i].as_str(), dataset_attributes) {
            return Err(MatcherError::ComponentKey { key: component_match_keys[i].clone() });
        }
        proof {
            assert forall|q: int| 0 <= q < i + 1 implies key_supported(
                #[trigger] component_match_keys@.take(i + 1)[q]@,
                dataset_attributes@,
            ) by {
                if q < i {
                    assert(component_match_keys@.take(i + 1)[q] == component_match_keys@.take(i as int)[q]);
                }
            }
        }
        i += 1;
    }
    proof {
        assert(component_match_keys@.take(i as int) =~= component_match_keys@);
    }
    Ok(())
}

/// Output formats that carry geometry, by file extension (ASCII case
/// ignored).
pub open spec fn geometry_extension(ext: Seq<char>) -> bool {
    eq_ignore_case(ext, "csv"@) || eq_ignore_case(ext, "geojson"@) || eq_ignore_case(ext, "gpkg"@) || eq_ignore_case(
        ext,
        "geopackage"@,
    ) || eq_ignore_case(ext, "geoparquet"@) || eq_ignore_case(ext, "gpq"@)
}

/// Whether an output file, by its extension, needs route geometry.
pub fn output_needs_geometry(extension: Option<&str>) -> (r: bool)
    ensures
        r == match extension {
            Some(e) => geometry_extension(e@),
            None => false,
        },
{
    match extension {
        Some(e) => {
            let c = chars_of(e);
            is_lit_ignore_case(&c, "csv") || is_lit_ignore_case(&c, "geojson") || is_lit_ignore_case(&c, "gpkg")
                || is_lit_ignore_case(&c, "geopackage") || is_lit_ignore_case(&c, "geoparquet")
                || is_lit_ignore_case(&c, "gpq")
        },
        None => false,
    }
}

} // verus!
