# netweevil

The verified core of the NetWeevil routing-network toolkit, written in Verus.

`src/` holds the logic with its contracts and proofs:

- reading inputs: OSM tag classification (`classify`, `restrictions`), OSM
  turn-restriction expansion (`restriction_paths`), GeoPackage mapping and
  column rules (`mapping`, `geopackage_rules`, `wkb`, `temporal`), Overture
  segment rules (`overture_rules`), attribute schemas (`attribute_merge`) and
  the per-row GeoPackage scan with vertex welding (`geopackage_scan`);
- the topology: edge emission from scanned ways (`topology_build`), the
  edge-based adjacency (`topology`), weak components
  (`union_find`, `weak_components`) and bundle framing (`sectioned`);
- acceleration: nested-dissection ordering (`dissection`, `elimination`,
  `flow`), the contraction hierarchy (`cch`) and its customization
  (`customize`);
- profiles: rule matching (`edge_match`, `profile_schema`), cost components
  (`components`) and turn penalties (`turn_rules`);
- imports and audits: the source checks and bundle names of an import
  (`import_rules`), audits of imported datasets (`audit`,
  `attribute_audit`, `audit_report`) and content digests (`digest`).

`app/` holds what cannot be verified here: file and network I/O, bincode and
serde headers, and the floating-point cost model. `tests/` exercises the
library on concrete inputs.
