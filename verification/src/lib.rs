//! Verified core of the NetWeevil routing-network toolkit.

pub mod text;
pub mod osm;
pub mod attributes;
pub mod dataset;
pub mod graph;
pub mod topology;
pub mod topology_build;
pub mod geopackage_scan;
pub mod union_find;
pub mod weak_components;
pub mod cch;
pub mod dissection;
pub mod elimination;
pub mod flow;
pub mod customize;
pub mod audit;
pub mod attribute_audit;
pub mod audit_report;
pub mod attribute_merge;
pub mod components;
pub mod temporal;
pub mod mapping;
pub mod geopackage_rules;
pub mod wkb;
pub mod sectioned;
pub mod restrictions;
pub mod restriction_paths;
pub mod classify;
pub mod stages;
pub mod metrics;
pub mod manifest_types;
pub mod profile_schema;
pub mod edge_match;
pub mod turn_rules;
pub mod overture_rules;
pub mod workspace;
pub mod import_rules;
pub mod digest;
