use netweevil::audit::AttributeDrift;
use netweevil::audit_report::{compose_audit_report, FeatureGeometry, MAX_REPORTED_DRIFTS};

fn pair(feature_id: i64, field: &str, retained: Option<&str>, source: Option<&str>) -> AttributeDrift {
    AttributeDrift {
        feature_id,
        field: field.to_string(),
        retained: retained.map(str::to_string),
        source: source.map(str::to_string),
    }
}

fn seg(f: i64, x: u64) -> (i64, u64, u64, u64, u64, u64, u64) {
    (f, x, 0, 0, x + 1, 0, 0)
}

#[test]
fn clean_comparisons_pass() {
    let report = compose_audit_report(
        vec![],
        vec![],
        &vec![pair(1, "name", Some("A"), Some("A")), pair(1, "ref", None, None)],
        vec![],
        vec![],
        vec![],
        &vec![FeatureGeometry {
            feature_id: 1,
            retained: vec![seg(1, 0)],
            source: vec![seg(1, 0)],
            retained_layout: Some("{}".to_string()),
            source_layout: Some("{}".to_string()),
        }],
        0,
        vec![],
        0,
        0,
    );
    assert!(report.passed);
    assert!(report.attribute_drifts.is_empty() && report.geometry_order_drifts.is_empty());
}

#[test]
fn drifts_are_listed_and_fail_the_audit() {
    let report = compose_audit_report(
        vec![],
        vec![],
        &vec![pair(1, "name", Some("A"), Some("B")), pair(2, "name", None, Some("C"))],
        vec![],
        vec![],
        vec![],
        &vec![
            FeatureGeometry {
                feature_id: 1,
                retained: vec![seg(1, 0), seg(1, 5)],
                source: vec![seg(1, 0), seg(1, 1)],
                retained_layout: None,
                source_layout: None,
            },
            FeatureGeometry {
                feature_id: 2,
                retained: vec![seg(2, 0)],
                source: vec![seg(2, 0)],
                retained_layout: Some("a".to_string()),
                source_layout: Some("b".to_string()),
            },
        ],
        0,
        vec![],
        0,
        0,
    );
    assert!(!report.passed);
    assert_eq!(report.attribute_drifts.len(), 2);
    assert_eq!(report.attribute_drifts[1].source.as_deref(), Some("C"));
    assert_eq!(report.geometry_order_drifts, vec![1, 2]);
    let first = &report.geometry_drifts[0];
    assert_eq!(first.segment_index, Some(1));
    assert_eq!(first.retained_segment, Some(seg(1, 5)));
    assert_eq!(first.source_segment, Some(seg(1, 1)));
    assert_eq!(first.retained_layout, None);
    let second = &report.geometry_drifts[1];
    assert_eq!(second.segment_index, None);
    assert_eq!(second.retained_layout.as_deref(), Some("a"));
}

#[test]
fn a_missing_feature_alone_fails_the_audit_and_drift_lists_are_capped() {
    let comparisons: Vec<AttributeDrift> = (0..1500).map(|i| pair(i, "name", Some("x"), Some("y"))).collect();
    let report = compose_audit_report(vec![7], vec![], &comparisons, vec![], vec![], vec![], &vec![], 0, vec![], 0, 0);
    assert!(!report.passed);
    assert_eq!(report.attribute_drifts.len(), MAX_REPORTED_DRIFTS);
    assert_eq!(report.attribute_drifts[999].feature_id, 999);
    let only_missing = compose_audit_report(vec![7], vec![], &vec![], vec![], vec![], vec![], &vec![], 0, vec![], 0, 0);
    assert!(!only_missing.passed);
    let only_segments = compose_audit_report(vec![], vec![], &vec![], vec![], vec![], vec![], &vec![], 0, vec![], 0, 1);
    assert!(!only_segments.passed);
}
