//! Composing a dataset audit report from the comparisons of retained and
//! source data: which attribute values and which feature geometries
//! drifted, at most a thousand of each listed, and whether the audit
//! passed.

use vstd::prelude::*;

use crate::attribute_audit::AttributeSchemaDrift;
use crate::text::str_eq;
use crate::audit::{first_difference_spec, first_segment_difference, AttributeDrift, EdgeAttributeLinkDrift};

verus! {

/// Most attribute and geometry drifts that a report lists.
pub const MAX_REPORTED_DRIFTS: usize = 1000;

/// A segment key: feature id, then the coordinate keys of both ends.
pub type SegmentKey = (i64, u64, u64, u64, u64, u64, u64);

/// The retained and source geometry of one feature found on both sides:
/// its segments in source order and its geometry layout text.
pub struct FeatureGeometry {
    pub feature_id: i64,
    pub retained: Vec<SegmentKey>,
    pub source: Vec<SegmentKey>,
    pub retained_layout: Option<String>,
    pub source_layout: Option<String>,
}

/// A feature whose segment order or part layout differs from the source.
#[derive(Debug, Clone)]
pub struct GeometryDrift {
    pub feature_id: i64,
    /// Where the segment lists first differ.
    pub segment_index: Option<usize>,
    pub retained_segment: Option<SegmentKey>,
    pub source_segment: Option<SegmentKey>,
    /// The layouts, when they differ.
    pub retained_layout: Option<String>,
    pub source_layout: Option<String>,
}

/// The findings of an audit.
pub struct DatasetAuditReport {
    pub passed: bool,
    pub missing_features: Vec<i64>,
    pub unexpected_features: Vec<i64>,
    pub attribute_drifts: Vec<AttributeDrift>,
    pub missing_fields: Vec<String>,
    pub unexpected_fields: Vec<String>,
    pub attribute_schema_drifts: Vec<AttributeSchemaDrift>,
    pub geometry_order_drifts: Vec<i64>,
    pub geometry_drifts: Vec<GeometryDrift>,
    pub edge_attribute_link_drift_count: usize,
    pub edge_attribute_link_drifts: Vec<EdgeAttributeLinkDrift>,
    pub missing_segments: usize,
    pub unexpected_segments: usize,
}

/// An optional text by its characters.
pub open spec fn text_view(o: Option<String>) -> Option<Seq<char>> {
    match o {
        Some(s) => Some(s@),
        None => None,
    }
}

/// The compared values of one field of one feature, by their text.
pub open spec fn drift_view(d: AttributeDrift) -> (i64, Seq<char>, Option<Seq<char>>, Option<Seq<char>>) {
    (d.feature_id, d.field@, text_view(d.retained), text_view(d.source))
}

/// The comparisons among the first `k` whose values differ, in order.
pub open spec fn differing_upto(pairs: Seq<AttributeDrift>, k: nat) -> Seq<(i64, Seq<char>, Option<Seq<char>>, Option<Seq<char>>)>
    decreases k,
{
    if k == 0 || k > pairs.len() {
        seq![]
    } else {
        let prev = differing_upto(pairs, (k - 1) as nat);
        let d = pairs[k - 1];
        if text_view(d.retained) != text_view(d.source) {
            prev.push(drift_view(d))
        } else {
            prev
        }
    }
}

/// At most the first `cap` elements of a sequence.
pub open spec fn capped<T>(s: Seq<T>, cap: int) -> Seq<T> {
    if s.len() <= cap {
        s
    } else {
        s.take(cap)
    }
}

/// Whether a feature's geometry drifted: its segments differ somewhere or
/// its layout differs.
pub open spec fn geometry_differs(g: FeatureGeometry) -> bool {
    first_difference_spec(g.retained@, g.source@) is Some || text_view(g.retained_layout) != text_view(g.source_layout)
}

/// The ids of the drifted features among the first `k`, in order.
pub open spec fn drifted_upto(gs: Seq<FeatureGeometry>, k: nat) -> Seq<i64>
    decreases k,
{
    if k == 0 || k > gs.len() {
        seq![]
    } else {
        let prev = drifted_upto(gs, (k - 1) as nat);
        if geometry_differs(gs[k - 1]) {
            prev.push(gs[k - 1].feature_id)
        } else {
            prev
        }
    }
}

/// What a geometry drift records, with texts by their characters.
pub type GeometryDriftView = (
    i64,
    Option<usize>,
    Option<SegmentKey>,
    Option<SegmentKey>,
    Option<Seq<char>>,
    Option<Seq<char>>,
);

pub open spec fn geometry_drift_view(d: GeometryDrift) -> GeometryDriftView {
    (
        d.feature_id,
        d.segment_index,
        d.retained_segment,
        d.source_segment,
        text_view(d.retained_layout),
        text_view(d.source_layout),
    )
}

/// The segment at an optional position, if there is one there.
pub open spec fn segment_at_spec(segments: Seq<SegmentKey>, at: Option<usize>) -> Option<SegmentKey> {
    match at {
        Some(k) => if (k as int) < segments.len() {
            Some(segments[k as int])
        } else {
            None
        },
        None => None,
    }
}

/// The details of the drift of feature geometry `g`: where its segments
/// first differ and the segments there, and both layouts when they differ.
pub open spec fn drift_details(g: FeatureGeometry) -> GeometryDriftView {
    let at = match first_difference_spec(g.retained@, g.source@) {
        Some(k) => Some(k as usize),
        None => None,
    };
    let layouts_differ = text_view(g.retained_layout) != text_view(g.source_layout);
    (
        g.feature_id,
        at,
        segment_at_spec(g.retained@, at),
        segment_at_spec(g.source@, at),
        if layouts_differ {
            text_view(g.retained_layout)
        } else {
            None
        },
        if layouts_differ {
            text_view(g.source_layout)
        } else {
            None
        },
    )
}

/// The details of the drifted features among the first `k`, in order.
pub open spec fn details_upto(gs: Seq<FeatureGeometry>, k: nat) -> Seq<GeometryDriftView>
    decreases k,
{
    if k == 0 || k > gs.len() {
        seq![]
    } else {
        let prev = details_upto(gs, (k - 1) as nat);
        if geometry_differs(gs[k - 1]) {
            prev.push(drift_details(gs[k - 1]))
        } else {
            prev
        }
    }
}

fn same_text(a: &Option<String>, b: &Option<String>) -> (r: bool)
    ensures
        r == (text_view(*a) == text_view(*b)),
{
    match (a, b) {
        (Some(x), Some(y)) => str_eq(x.as_str(), y.as_str()),
        (None, None) => true,
        _ => false,
    }
}

fn copy_text(a: &Option<String>) -> (r: Option<String>)
    ensures
        text_view(r) == text_view(*a),
{
    match a {
        Some(x) => Some(x.clone()),
        None => None,
    }
}

/// The comparisons whose retained and source values differ, in order,
/// at most `MAX_REPORTED_DRIFTS` of them.
pub fn attribute_drifts(comparisons: &Vec<AttributeDrift>) -> (r: Vec<AttributeDrift>)
    ensures
        r@.map_values(|d: AttributeDrift| drift_view(d)) == capped(
            differing_upto(comparisons@, comparisons@.len()),
            MAX_REPORTED_DRIFTS as int,
        ),
{
    let mut out: Vec<AttributeDrift> = Vec::new();
    let mut i: usize = 0;
    while i < comparisons.len()
        invariant
            i <= comparisons@.len(),
            out@.map_values(|d: AttributeDrift| drift_view(d)) == capped(
                differing_upto(comparisons@, i as nat),
                MAX_REPORTED_DRIFTS as int,
            ),
        decreases comparisons@.len() - i,
    {
        let c = &comparisons[i];
        let ghost prev = differing_upto(comparisons@, i as nat);
        let ghost before = out@;
        if !same_text(&c.retained, &c.source) {
            if out.len() < MAX_REPORTED_DRIFTS {
                out.push(
                    AttributeDrift {
                        feature_id: c.feature_id,
                        field: c.field.clone(),
                        retained: copy_text(&c.retained),
                        source: copy_text(&c.source),
                    },
                );
                proof {
                    assert(out@.map_values(|d: AttributeDrift| drift_view(d)) =~= before.map_values(
                        |d: AttributeDrift| drift_view(d),
                    ).push(drift_view(*c)));
                }
            }
            proof {
                assert(differing_upto(comparisons@, (i + 1) as nat) == prev.push(drift_view(*c)));
                if prev.len() >= MAX_REPORTED_DRIFTS {
                    assert(prev.push(drift_view(*c)).take(MAX_REPORTED_DRIFTS as int) =~= capped(
                        prev,
                        MAX_REPORTED_DRIFTS as int,
                    ));
                }
            }
        }
        i += 1;
    }
    out
}

fn segment_at(segments: &Vec<SegmentKey>, at: Option<usize>) -> (r: Option<SegmentKey>)
    ensures
        r == segment_at_spec(segments@, at),
{
    match at {
        Some(k) => if k < segments.len() {
            Some(segments[k])
        } else {
            None
        },
        None => None,
    }
}

/// The features whose geometry drifted, in order, and the details of at
/// most `MAX_REPORTED_DRIFTS` of them.
pub fn geometry_drifts(geometries: &Vec<FeatureGeometry>) -> (r: (Vec<i64>, Vec<GeometryDrift>))
    ensures
        r.0@ == drifted_upto(geometries@, geometries@.len()),
        r.1@.map_values(|d: GeometryDrift| geometry_drift_view(d)) == capped(
            details_upto(geometries@, geometries@.len()),
            MAX_REPORTED_DRIFTS as int,
        ),
{
    let mut ids: Vec<i64> = Vec::new();
    let mut details: Vec<GeometryDrift> = Vec::new();
    let mut i: usize = 0;
    while i < geometries.len()
        invariant
            i <= geometries@.len(),
            ids@ == drifted_upto(geometries@, i as nat),
            details@.map_values(|d: GeometryDrift| geometry_drift_view(d)) == capped(
                details_upto(geometries@, i as nat),
                MAX_REPORTED_DRIFTS as int,
            ),
        decreases geometries@.len() - i,
    {
        let g = &geometries[i];
        let ghost prev = details_upto(geometries@, i as nat);
        let ghost before = details@;
        let at = first_segment_difference(&g.retained, &g.source);
        let layouts_differ = !same_text(&g.retained_layout, &g.source_layout);
        if at.is_some() || layouts_differ {
            ids.push(g.feature_id);
            if details.len() < MAX_REPORTED_DRIFTS {
                let d = GeometryDrift {
                    feature_id: g.feature_id,
                    segment_index: at,
                    retained_segment: segment_at(&g.retained, at),
                    source_segment: segment_at(&g.source, at),
                    retained_layout: if layouts_differ {
                        copy_text(&g.retained_layout)
                    } else {
                        None
                    },
                    source_layout: if layouts_differ {
                        copy_text(&g.source_layout)
                    } else {
                        None
                    },
                };
                proof {
                    assert(geometry_drift_view(d) == drift_details(*g));
                }
                details.push(d);
                proof {
                    assert(details@.map_values(|d: GeometryDrift| geometry_drift_view(d)) =~= before.map_values(
                        |d: GeometryDrift| geometry_drift_view(d),
                    ).push(drift_details(*g)));
                }
            }
            proof {
                assert(details_upto(geometries@, (i + 1) as nat) == prev.push(drift_details(*g)));
                if prev.len() >= MAX_REPORTED_DRIFTS {
                    assert(prev.push(drift_details(*g)).take(MAX_REPORTED_DRIFTS as int) =~= capped(
                        prev,
                        MAX_REPORTED_DRIFTS as int,
                    ));
                }
            }
        }
        i += 1;
    }
    (ids, details)
}

/// Whether every finding of an audit is empty.
pub open spec fn audit_clean(r: DatasetAuditReport) -> bool {
    &&& r.missing_features@.len() == 0
    &&& r.unexpected_features@.len() == 0
    &&& r.attribute_drifts@.len() == 0
    &&& r.missing_fields@.len() == 0
    &&& r.unexpected_fields@.len() == 0
    &&& r.attribute_schema_drifts@.len() == 0
    &&& r.geometry_order_drifts@.len() == 0
    &&& r.edge_attribute_link_drift_count == 0
    &&& r.missing_segments == 0
    &&& r.unexpected_segments == 0
}

/// Composes a report: the attribute and geometry drifts from the
/// comparisons, the other findings as given, and `passed` exactly when
/// every finding is empty.
pub fn compose_audit_report(
    missing_features: Vec<i64>,
    unexpected_features: Vec<i64>,
    comparisons: &Vec<AttributeDrift>,
    missing_fields: Vec<String>,
    unexpected_fields: Vec<String>,
    attribute_schema_drifts: Vec<AttributeSchemaDrift>,
    geometries: &Vec<FeatureGeometry>,
    edge_attribute_link_drift_count: usize,
    edge_attribute_link_drifts: Vec<EdgeAttributeLinkDrift>,
    missing_segments: usize,
    unexpected_segments: usize,
) -> (r: DatasetAuditReport)
    ensures
        r.passed <==> audit_clean(r),
        r.missing_features@ == missing_features@,
        r.unexpected_features@ == unexpected_features@,
        r.attribute_drifts@.map_values(|d: AttributeDrift| drift_view(d)) == capped(
            differing_upto(comparisons@, comparisons@.len()),
            MAX_REPORTED_DRIFTS as int,
        ),
        r.missing_fields@ == missing_fields@,
        r.unexpected_fields@ == unexpected_fields@,
        r.attribute_schema_drifts@ == attribute_schema_drifts@,
        r.geometry_order_drifts@ == drifted_upto(geometries@, geometries@.len()),
        r.geometry_drifts@.map_values(|d: GeometryDrift| geometry_drift_view(d)) == capped(
            details_upto(geometries@, geometries@.len()),
            MAX_REPORTED_DRIFTS as int,
        ),
        r.edge_attribute_link_drift_count == edge_attribute_link_drift_count,
        r.edge_attribute_link_drifts@ == edge_attribute_link_drifts@,
        r.missing_segments == missing_segments,
        r.unexpected_segments == unexpected_segments,
{
    let drifts = attribute_drifts(comparisons);
    let (order_drifts, details) = geometry_drifts(geometries);
    let passed = missing_features.len() == 0 && unexpected_features.len() == 0 && drifts.len() == 0
        && missing_fields.len() == 0 && unexpected_fields.len() == 0 && attribute_schema_drifts.len() == 0
        && order_drifts.len() == 0 && edge_attribute_link_drift_count == 0 && missing_segments == 0
        && unexpected_segments == 0;
    DatasetAuditReport {
        passed,
        missing_features,
        unexpected_features,
        attribute_drifts: drifts,
        missing_fields,
        unexpected_fields,
        attribute_schema_drifts,
        geometry_order_drifts: order_drifts,
        geometry_drifts: details,
        edge_attribute_link_drift_count,
        edge_attribute_link_drifts,
        missing_segments,
        unexpected_segments,
    }
}

} // verus!
