//! How the tables of a GeoPackage map onto routable features: which layers
//! are read, what role each column plays, and the defaults of a layer.
//!
//! Maps keyed by column name are held as lists sorted by key, in the order
//! in which a `BTreeMap` iterates them. Floating-point settings are held as
//! the IEEE-754 bit patterns of their `f64` values.

use vstd::prelude::*;

use crate::text::{chars_of_string, eq_ignore_case, is_lit_ignore_case, lower_seq, to_ascii_lowercase, trim, trim_chars, chars_equal, lemma_text_lt_asymmetric, lemma_text_lt_irreflexive, text_lt};

verus! {

/// Version of the mapping format.
pub const MAPPING_VERSION: u32 = 1;

/// Which source values are retained besides the mapped ones.
#[derive(Debug, Clone, Copy, PartialEq, Eq, Structural)]
pub enum RetainMode {
    All,
    Unmapped,
    /// Nothing beyond the mapped values (`none` in mapping documents).
    Nothing,
}

/// The coordinate reference of the inputs.
#[derive(Debug, Clone, Copy, PartialEq, Eq, Structural)]
pub struct CoordinateMapping {
    pub geographic_wgs84: bool,
    pub z_metres: bool,
}

/// Quantization steps, as `f64` bit patterns: degrees for longitude and
/// latitude, metres for elevation.
#[derive(Debug, Clone, Copy, PartialEq, Eq, Structural)]
pub struct CoordinateQuantization {
    pub xy_degrees_bits: u64,
    pub z_m_bits: u64,
}

/// Direction of travel allowed along a feature's digitised direction.
#[derive(Debug, Clone, Copy, PartialEq, Eq, Structural)]
pub enum DirectionValue {
    Both,
    Forward,
    Reverse,
}

/// A column's role, with an optional table decoding raw values.
#[derive(Debug, Clone)]
pub struct FieldMappingDetail {
    pub role: String,
    pub decode: Vec<(String, String)>,
    pub domain: Option<String>,
}

/// A column mapping: a bare role, or a role with details.
#[derive(Debug, Clone)]
pub enum FieldMapping {
    Role(String),
    Detailed(FieldMappingDetail),
}

/// Values used where a layer has no column for a role.
#[derive(Debug, Clone)]
pub struct LayerDefaults {
    pub highway: String,
    pub access: Vec<String>,
    pub direction: DirectionValue,
}

/// One mapped table.
#[derive(Debug, Clone)]
pub struct GeoPackageLayerMapping {
    pub source: Option<String>,
    pub table: String,
    pub geometry_column: Option<String>,
    pub fields: Vec<(String, FieldMapping)>,
    pub defaults: LayerDefaults,
}

/// A whole mapping document.
#[derive(Debug, Clone)]
pub struct GeoPackageMapping {
    pub version: u32,
    pub coordinates: CoordinateMapping,
    pub retain: RetainMode,
    pub quantization: CoordinateQuantization,
    pub layers: Vec<GeoPackageLayerMapping>,
    pub materialize_both_directions_for: Vec<i64>,
}

/// Why a mapping was refused.
#[derive(Debug, Clone, PartialEq, Eq)]
pub enum MappingError {
    UnsupportedVersion,
    NoLayers,
    RetainNotAll,
    NonPositiveQuantization,
    NotGeographic,
    /// The table name of the layer at this index is blank.
    EmptyTable(usize),
    /// The layer at this index repeats an earlier source and table.
    DuplicateLayer(usize),
    /// The layer at this index has no default access mode.
    EmptyDefaultAccess(usize),
    /// The layer at this index has no `feature_id` column.
    MissingFeatureId(usize),
    /// The layer at this index has more than one `feature_id` column.
    MultipleFeatureIds(usize),
}

pub open spec fn role_of(m: FieldMapping) -> Seq<char> {
    match m {
        FieldMapping::Role(r) => r@,
        FieldMapping::Detailed(d) => d.role@,
    }
}

impl FieldMapping {
    /// The column's role.
    pub fn role(&self) -> (r: &str)
        ensures
            r@ == role_of(*self),
    {
        match self {
            FieldMapping::Role(role) => role.as_str(),
            FieldMapping::Detailed(detail) => detail.role.as_str(),
        }
    }

    /// The decoding table, when the mapping has details.
    pub fn decode(&self) -> (r: Option<&Vec<(String, String)>>)
        ensures
            match *self {
                FieldMapping::Role(_) => r is None,
                FieldMapping::Detailed(d) => r == Some(&d.decode),
            },
    {
        match self {
            FieldMapping::Role(_) => None,
            FieldMapping::Detailed(detail) => Some(&detail.decode),
        }
    }
}

/// The first column, in key order, whose role equals `role` ignoring ASCII
/// case.
pub open spec fn first_field_with_role(fields: Seq<(String, FieldMapping)>, role: Seq<char>) -> Option<int> {
    if exists|i: int| 0 <= i < fields.len() && eq_ignore_case(role_of(#[trigger] fields[i].1), role) {
        Some(
            choose|i: int|
                0 <= i < fields.len() && eq_ignore_case(role_of(#[trigger] fields[i].1), role) && forall|j: int|
                    0 <= j < i ==> !eq_ignore_case(role_of(#[trigger] fields[j].1), role),
        )
    } else {
        None
    }
}

/// The columns of a layer are keyed as in a map: names strictly
/// increasing, so each name occurs once.
pub open spec fn fields_in_key_order(fields: Seq<(String, FieldMapping)>) -> bool {
    forall|i: int, j: int| 0 <= i < j < fields.len() ==> text_lt(#[trigger] fields[i].0@, #[trigger] fields[j].0@)
}

impl GeoPackageLayerMapping {
    /// The first column, in key order, mapped to `role` (ASCII case
    /// ignored), with its mapping.
    pub fn field_for_role(&self, role: &str) -> (r: Option<&(String, FieldMapping)>)
        ensures
            match first_field_with_role(self.fields@, role@) {
                Some(i) => r == Some(&self.fields@[i]),
                None => r is None,
            },
            r is None <==> forall|i: int| 0 <= i < self.fields@.len() ==> !eq_ignore_case(#[trigger] role_of(self.fields@[i].1), role@),
            fields_in_key_order(self.fields@) ==> (r matches Some(f) ==> forall|i: int|
                0 <= i < self.fields@.len() && text_lt(#[trigger] self.fields@[i].0@, f.0@) ==> !eq_ignore_case(
                    role_of(self.fields@[i].1),
                    role@,
                )),
    {
        let wanted = crate::text::chars_of(role);
        let mut i: usize = 0;
        while i < self.fields.len()
            invariant
                i <= self.fields@.len(),
                wanted@ == role@,
                forall|j: int| 0 <= j < i ==> !eq_ignore_case(role_of(#[trigger] self.fields@[j].1), role@),
            decreases self.fields@.len() - i,
        {
            let r = crate::text::chars_of(self.fields[i].1.role());
            if crate::text::eq_ignore_ascii_case(&r, &wanted) {
                proof {
                    let c = first_field_with_role(self.fields@, role@);
                    assert(eq_ignore_case(role_of(self.fields@[i as int].1), role@));
                    let k = c->Some_0;
                    if k < i {
                        assert(!eq_ignore_case(role_of(self.fields@[k].1), role@));
                    } else if k > i {
                        assert(!eq_ignore_case(role_of(self.fields@[i as int].1), role@));
                    }
                    if fields_in_key_order(self.fields@) {
                        assert forall|q: int|
                            0 <= q < self.fields@.len() && text_lt(#[trigger] self.fields@[q].0@, self.fields@[i as int].0@) implies !eq_ignore_case(
                            role_of(self.fields@[q].1),
                            role@,
                        ) by {
                            if q >= i {
                                if q > i {
                                    assert(text_lt(self.fields@[i as int].0@, self.fields@[q].0@));
                                    lemma_text_lt_asymmetric(self.fields@[i as int].0@, self.fields@[q].0@);
                                } else {
                                    lemma_text_lt_irreflexive(self.fields@[q].0@);
                                }
                            }
                        }
                    }
                }
                return Some(&self.fields[i]);
            }
            i += 1;
        }
        None
    }
}

/// The index of the first column whose name equals `name` ignoring ASCII
/// case.
pub open spec fn first_field_named(fields: Seq<(String, FieldMapping)>, name: Seq<char>) -> Option<int> {
    if exists|i: int| 0 <= i < fields.len() && eq_ignore_case(#[trigger] fields[i].0@, name) {
        Some(
            choose|i: int|
                0 <= i < fields.len() && eq_ignore_case(#[trigger] fields[i].0@, name) && forall|j: int|
                    0 <= j < i ==> !eq_ignore_case(#[trigger] fields[j].0@, name),
        )
    } else {
        None
    }
}

/// The mapping of the first column, in key order, named `name` (ASCII
/// case ignored).
pub fn field_mapping_for_name<'a>(mapping: &'a GeoPackageLayerMapping, name: &str) -> (r: Option<&'a FieldMapping>)
    ensures
        match first_field_named(mapping.fields@, name@) {
            Some(i) => r == Some(&mapping.fields@[i].1),
            None => r is None,
        },
{
    let wanted = crate::text::chars_of(name);
    let mut i: usize = 0;
    while i < mapping.fields.len()
        invariant
            i <= mapping.fields@.len(),
            wanted@ == name@,
            forall|j: int| 0 <= j < i ==> !eq_ignore_case(#[trigger] mapping.fields@[j].0@, name@),
        decreases mapping.fields@.len() - i,
    {
        let column = chars_of_string(&mapping.fields[i].0);
        if crate::text::eq_ignore_ascii_case(&column, &wanted) {
            proof {
                let c = first_field_named(mapping.fields@, name@);
                assert(eq_ignore_case(mapping.fields@[i as int].0@, name@));
                let k = c->Some_0;
                if k < i {
                    assert(!eq_ignore_case(mapping.fields@[k].0@, name@));
                } else if k > i {
                    assert(!eq_ignore_case(mapping.fields@[i as int].0@, name@));
                }
            }
            return Some(&mapping.fields[i].1);
        }
        i += 1;
    }
    None
}

/// Version 1 of the mapping format.
pub fn default_mapping_version() -> (r: u32)
    ensures
        r == MAPPING_VERSION,
{
    MAPPING_VERSION
}

/// Flags of `CoordinateMapping` default to true.
pub fn default_true() -> (r: bool)
    ensures
        r,
{
    true
}

/// A layer without a class column is read as footway.
pub fn default_highway() -> (r: String)
    ensures
        r@ == "footway"@,
{
    "footway".to_owned()
}

/// A layer without an access column is open to pedestrians.
pub fn default_access() -> (r: Vec<String>)
    ensures
        r@.len() == 1,
        r@[0]@ == "foot"@,
{
    vec!["foot".to_owned()]
}

// ---------------------------------------------------------------------------
// Validation.
// ---------------------------------------------------------------------------
/// An `f64` bit pattern that is NaN.
pub open spec fn f64_bits_nan(b: u64) -> bool {
    (b & 0x7ff0_0000_0000_0000) == 0x7ff0_0000_0000_0000 && (b & 0x000f_ffff_ffff_ffff) != 0
}

/// An `f64` bit pattern whose value compares `<= 0.0`: a zero or a
/// negative number (NaN compares false).
pub open spec fn f64_bits_le_zero(b: u64) -> bool {
    !f64_bits_nan(b) && ((b & 0x7fff_ffff_ffff_ffff) == 0 || (b >> 63) == 1)
}

fn bits_le_zero(b: u64) -> (r: bool)
    ensures
        r == f64_bits_le_zero(b),
{
    let nan = (b & 0x7ff0_0000_0000_0000) == 0x7ff0_0000_0000_0000 && (b & 0x000f_ffff_ffff_ffff) != 0;
    !nan && ((b & 0x7fff_ffff_ffff_ffff) == 0 || (b >> 63) == 1)
}

/// The key under which a layer must be unique: its source (empty when
/// absent) and its table name in ASCII lower case.
pub open spec fn layer_key(layer: GeoPackageLayerMapping) -> (Seq<char>, Seq<char>) {
    (
        match layer.source {
            Some(s) => s@,
            None => Seq::empty(),
        },
        lower_seq(layer.table@),
    )
}

/// How many columns play the `feature_id` role (ASCII case ignored).
pub open spec fn feature_id_count(fields: Seq<(String, FieldMapping)>) -> nat
    decreases fields.len(),
{
    if fields.len() == 0 {
        0
    } else {
        feature_id_count(fields.drop_last()) + if lower_seq(role_of(fields.last().1)) == "feature_id"@ {
            1nat
        } else {
            0nat
        }
    }
}

/// What is wrong with layer `i`, given the layers before it.
pub open spec fn layer_problem(layers: Seq<GeoPackageLayerMapping>, i: int) -> Option<MappingError> {
    let layer = layers[i];
    if trim(layer.table@).len() == 0 {
        Some(MappingError::EmptyTable(i as usize))
    } else if exists|j: int| 0 <= j < i && #[trigger] layer_key(layers[j]) == layer_key(layer) {
        Some(MappingError::DuplicateLayer(i as usize))
    } else if layer.defaults.access@.len() == 0 {
        Some(MappingError::EmptyDefaultAccess(i as usize))
    } else if feature_id_count(layer.fields@) == 0 {
        Some(MappingError::MissingFeatureId(i as usize))
    } else if feature_id_count(layer.fields@) > 1 {
        Some(MappingError::MultipleFeatureIds(i as usize))
    } else {
        None
    }
}

/// The problem of the first faulty layer among the first `k`.
pub open spec fn first_layer_problem(layers: Seq<GeoPackageLayerMapping>, k: int) -> Option<MappingError>
    decreases k,
{
    if k <= 0 {
        None
    } else {
        match first_layer_problem(layers, k - 1) {
            Some(e) => Some(e),
            None => layer_problem(layers, k - 1),
        }
    }
}

/// What `validate` reports for a mapping.
pub open spec fn mapping_problem(m: GeoPackageMapping) -> Option<MappingError> {
    if m.version != MAPPING_VERSION {
        Some(MappingError::UnsupportedVersion)
    } else if m.layers@.len() == 0 {
        Some(MappingError::NoLayers)
    } else if m.retain != RetainMode::All {
        Some(MappingError::RetainNotAll)
    } else if f64_bits_le_zero(m.quantization.xy_degrees_bits) || f64_bits_le_zero(m.quantization.z_m_bits) {
        Some(MappingError::NonPositiveQuantization)
    } else if !m.coordinates.geographic_wgs84 {
        Some(MappingError::NotGeographic)
    } else {
        first_layer_problem(m.layers@, m.layers@.len() as int)
    }
}

fn count_feature_ids(fields: &Vec<(String, FieldMapping)>) -> (r: usize)
    ensures
        r == feature_id_count(fields@),
{
    let mut count: usize = 0;
    let mut i: usize = 0;
    while i < fields.len()
        invariant
            i <= fields@.len(),
            count <= i,
            count == feature_id_count(fields@.take(i as int)),
        decreases fields@.len() - i,
    {
        proof {
            assert(fields@.take(i + 1).drop_last() =~= fields@.take(i as int));
        }
        let role = crate::text::chars_of(fields[i].1.role());
        let lower = to_ascii_lowercase(&role);
        if crate::text::is_lit(&lower, "feature_id") {
            count += 1;
        }
        i += 1;
    }
    proof {
        assert(fields@.take(fields@.len() as int) =~= fields@);
    }
    count
}

fn key_of_layer(layer: &GeoPackageLayerMapping) -> (r: (Vec<char>, Vec<char>))
    ensures
        (r.0@, r.1@) == layer_key(*layer),
{
    let source = match &layer.source {
        Some(s) => chars_of_string(s),
        None => Vec::new(),
    };
    let table = chars_of_string(&layer.table);
    (source, to_ascii_lowercase(&table))
}

fn check_layer(layers: &Vec<GeoPackageLayerMapping>, keys: &Vec<(Vec<char>, Vec<char>)>, i: usize) -> (r: Option<MappingError>)
    requires
        i < layers@.len(),
        keys@.len() == i,
        forall|j: int| 0 <= j < i ==> (#[trigger] keys@[j].0@, keys@[j].1@) == layer_key(layers@[j]),
    ensures
        r == layer_problem(layers@, i as int),
{
    let layer = &layers[i];
    let table = chars_of_string(&layer.table);
    let trimmed = trim_chars(&table);
    if trimmed.len() == 0 {
        return Some(MappingError::EmptyTable(i));
    }
    let key = key_of_layer(layer);
    let mut j: usize = 0;
    while j < i
        invariant
            j <= i,
            i < layers@.len(),
            keys@.len() == i,
            (key.0@, key.1@) == layer_key(layers@[i as int]),
            trim(layers@[i as int].table@).len() != 0,
            forall|q: int| 0 <= q < i ==> (#[trigger] keys@[q].0@, keys@[q].1@) == layer_key(layers@[q]),
            forall|q: int| 0 <= q < j ==> #[trigger] layer_key(layers@[q]) != layer_key(layers@[i as int]),
        decreases i - j,
    {
        if chars_equal(&keys[j].0, &key.0) && chars_equal(&keys[j].1, &key.1) {
            proof {
                assert(layer_key(layers@[j as int]) == layer_key(layers@[i as int]));
            }
            return Some(MappingError::DuplicateLayer(i));
        }
        proof {
            assert(keys@[j as int].0@ != key.0@ || keys@[j as int].1@ != key.1@);
            assert(layer_key(layers@[j as int]) != layer_key(layers@[i as int]));
        }
        j += 1;
    }
    if layer.defaults.access.len() == 0 {
        return Some(MappingError::EmptyDefaultAccess(i));
    }
    let count = count_feature_ids(&layer.fields);
    if count == 0 {
        return Some(MappingError::MissingFeatureId(i));
    }
    if count > 1 {
        return Some(MappingError::MultipleFeatureIds(i));
    }
    None
}

impl GeoPackageMapping {
    /// Checks the mapping: version 1, at least one layer, `retain: all`,
    /// positive quantization, geographic coordinates, and for every layer a
    /// non-blank table, a unique source and table, a default access mode
    /// and exactly one `feature_id` column.
    pub fn validate(&self) -> (r: Result<(), MappingError>)
        ensures
            match mapping_problem(*self) {
                Some(e) => r == Err::<(), MappingError>(e),
                None => r is Ok,
            },
    {
        if self.version != MAPPING_VERSION {
            return Err(MappingError::UnsupportedVersion);
        }
        if self.layers.len() == 0 {
            return Err(MappingError::NoLayers);
        }
        match self.retain {
            RetainMode::All => {},
            _ => {
                return Err(MappingError::RetainNotAll);
            },
        }
        if bits_le_zero(self.quantization.xy_degrees_bits) || bits_le_zero(self.quantization.z_m_bits) {
            return Err(MappingError::NonPositiveQuantization);
        }
        if !self.coordinates.geographic_wgs84 {
            return Err(MappingError::NotGeographic);
        }
        let mut keys: Vec<(Vec<char>, Vec<char>)> = Vec::new();
        let mut i: usize = 0;
        assert(mapping_problem(*self) == first_layer_problem(self.layers@, self.layers@.len() as int));
        while i < self.layers.len()
            invariant
                mapping_problem(*self) == first_layer_problem(self.layers@, self.layers@.len() as int),
                i <= self.layers@.len(),
                keys@.len() == i,
                forall|j: int| 0 <= j < i ==> (#[trigger] keys@[j].0@, keys@[j].1@) == layer_key(self.layers@[j]),
                first_layer_problem(self.layers@, i as int) is None,
            decreases self.layers@.len() - i,
        {
            match check_layer(&self.layers, &keys, i) {
                Some(e) => {
                    proof {
                        lemma_first_problem_sticky(self.layers@, i as int + 1, self.layers@.len() as int);
                    }
                    return Err(e);
                },
                None => {},
            }
            let key = key_of_layer(&self.layers[i]);
            keys.push(key);
            i += 1;
        }
        Ok(())
    }
}

proof fn lemma_first_problem_sticky(layers: Seq<GeoPackageLayerMapping>, k: int, n: int)
    requires
        0 <= k <= n,
        first_layer_problem(layers, k) is Some,
    ensures
        first_layer_problem(layers, n) == first_layer_problem(layers, k),
    decreases n - k,
{
    if k < n {
        lemma_first_problem_sticky(layers, k + 1, n);
    }
}

} // verus!
