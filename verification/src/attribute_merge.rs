//! Merging the attribute columns of several source layers into one schema:
//! columns meet by normalized name, their types widen, their roles must
//! agree and their coded-value domains combine.

use vstd::prelude::*;

use crate::attribute_audit::{text_equal, char_views, copy_definition, definition_view, has_repeat, label_pairs, position_of, repeats_earlier, role_view, sorted_order};
use crate::attributes::{promote_type, promoted, FeatureAttributeDefinition, FeatureAttributeType};
use crate::text::{chars_of, chars_of_string, eq_ignore_ascii_case, eq_ignore_case, normalize_attribute_name, normalized_name, str_eq, text_lt};

verus! {

/// The map that a list of distinct keys and their values stands for.
pub open spec fn pairs_map<V>(s: Seq<(Seq<char>, V)>) -> Map<Seq<char>, V> {
    Map::new(
        |k: Seq<char>| exists|i: int| 0 <= i < s.len() && s[i].0 == k,
        |k: Seq<char>| s[choose|i: int| 0 <= i < s.len() && s[i].0 == k].1,
    )
}

/// No key occurs twice.
pub open spec fn distinct_keys<V>(s: Seq<(Seq<char>, V)>) -> bool {
    forall|i: int, j: int| 0 <= i < s.len() && 0 <= j < s.len() && i != j ==> #[trigger] s[i].0 != #[trigger] s[j].0
}

/// With distinct keys, each entry is what the map holds for its key.
proof fn lemma_pairs_map_at<V>(s: Seq<(Seq<char>, V)>, i: int)
    requires
        distinct_keys(s),
        0 <= i < s.len(),
    ensures
        pairs_map(s).contains_key(s[i].0),
        pairs_map(s)[s[i].0] == s[i].1,
{
    let k = s[i].0;
    assert(exists|j: int| 0 <= j < s.len() && s[j].0 == k);
    let c = choose|j: int| 0 <= j < s.len() && s[j].0 == k;
    if c != i {
        assert(s[c].0 != s[i].0);
    }
}

/// Appending a new key adds it to the map.
proof fn lemma_pairs_map_push<V>(s: Seq<(Seq<char>, V)>, k: Seq<char>, v: V)
    requires
        distinct_keys(s),
        !pairs_map(s).contains_key(k),
    ensures
        distinct_keys(s.push((k, v))),
        pairs_map(s.push((k, v))) == pairs_map(s).insert(k, v),
{
    let t = s.push((k, v));
    assert forall|i: int, j: int| 0 <= i < t.len() && 0 <= j < t.len() && i != j implies #[trigger] t[i].0 != #[trigger] t[j].0 by {
        if i == s.len() {
            assert(t[j] == s[j]);
        } else if j == s.len() {
            assert(t[i] == s[i]);
        } else {
            assert(t[i] == s[i] && t[j] == s[j]);
        }
    }
    assert forall|q: Seq<char>| #[trigger] pairs_map(t).contains_key(q) <==> pairs_map(s).insert(k, v).contains_key(q) by {
        if pairs_map(s).contains_key(q) {
            let j = choose|j: int| 0 <= j < s.len() && s[j].0 == q;
            assert(t[j] == s[j]);
        }
        if q == k {
            assert(t[s.len() as int].0 == k);
        }
        if pairs_map(t).contains_key(q) && q != k {
            let j = choose|j: int| 0 <= j < t.len() && t[j].0 == q;
            assert(j < s.len());
            assert(s[j] == t[j]);
        }
    }
    assert forall|q: Seq<char>| pairs_map(t).contains_key(q) implies #[trigger] pairs_map(t)[q] == pairs_map(s).insert(
        k,
        v,
    )[q] by {
        let j = choose|j: int| 0 <= j < t.len() && t[j].0 == q;
        lemma_pairs_map_at(t, j);
        if j < s.len() {
            assert(t[j] == s[j]);
            lemma_pairs_map_at(s, j);
        }
    }
    assert(pairs_map(t) =~= pairs_map(s).insert(k, v));
}

/// Replacing the value at an entry replaces it in the map.
proof fn lemma_pairs_map_update<V>(s: Seq<(Seq<char>, V)>, i: int, v: V)
    requires
        distinct_keys(s),
        0 <= i < s.len(),
    ensures
        distinct_keys(s.update(i, (s[i].0, v))),
        pairs_map(s.update(i, (s[i].0, v))) == pairs_map(s).insert(s[i].0, v),
{
    let k = s[i].0;
    let t = s.update(i, (k, v));
    assert forall|a: int, b: int| 0 <= a < t.len() && 0 <= b < t.len() && a != b implies #[trigger] t[a].0 != #[trigger] t[b].0 by {
        assert(t[a].0 == s[a].0 && t[b].0 == s[b].0);
    }
    assert forall|q: Seq<char>| #[trigger] pairs_map(t).contains_key(q) <==> pairs_map(s).insert(k, v).contains_key(q) by {
        if pairs_map(s).contains_key(q) {
            let j = choose|j: int| 0 <= j < s.len() && s[j].0 == q;
            assert(t[j].0 == q);
        }
        if q == k {
            assert(t[i].0 == k);
        }
        if pairs_map(t).contains_key(q) {
            let j = choose|j: int| 0 <= j < t.len() && t[j].0 == q;
            assert(s[j].0 == q);
        }
    }
    assert forall|q: Seq<char>| pairs_map(t).contains_key(q) implies #[trigger] pairs_map(t)[q] == pairs_map(s).insert(
        k,
        v,
    )[q] by {
        let j = choose|j: int| 0 <= j < t.len() && t[j].0 == q;
        lemma_pairs_map_at(t, j);
        if j != i {
            assert(t[j] == s[j]);
            lemma_pairs_map_at(s, j);
        }
    }
    assert(pairs_map(t) =~= pairs_map(s).insert(k, v));
}

/// The labels of `a` with those of `b` added, `b` winning where both
/// label one value.
fn extend_domain(a: &Vec<(String, String)>, b: &Vec<(String, String)>) -> (r: Vec<(String, String)>)
    requires
        distinct_keys(label_pairs(a@)),
        distinct_keys(label_pairs(b@)),
    ensures
        distinct_keys(label_pairs(r@)),
        pairs_map(label_pairs(r@)) == pairs_map(
            label_pairs(a@)).union_prefer_right(pairs_map(label_pairs(b@))),
{
    let ghost av = label_pairs(a@);
    let ghost bv = label_pairs(b@);
    let mut out: Vec<(String, String)> = Vec::new();
    let mut i: usize = 0;
    while i < a.len()
        invariant
            av == label_pairs(a@),
            i <= a@.len(),
            out@.len() == i,
            forall|k: int| 0 <= k < i ==> (#[trigger] out@[k]).0@ == a@[k].0@ && out@[k].1@ == a@[k].1@,
        decreases a@.len() - i,
    {
        out.push((a[i].0.clone(), a[i].1.clone()));
        i += 1;
    }
    proof {
        assert(label_pairs(out@) =~= av);
        assert(bv.take(0) =~= Seq::<(Seq<char>, Seq<char>)>::empty());
        assert(pairs_map(bv.take(0)) =~= Map::<Seq<char>, Seq<char>>::empty());
        assert(pairs_map(av).union_prefer_right(pairs_map(bv.take(0))) =~= pairs_map(av));
    }
    let mut j: usize = 0;
    while j < b.len()
        invariant
            av == label_pairs(a@),
            bv == label_pairs(b@),
            distinct_keys(bv),
            j <= b@.len(),
            distinct_keys(label_pairs(out@)),
            pairs_map(label_pairs(out@)) == pairs_map(av).union_prefer_right(
                pairs_map(bv.take(j as int)),
            ),
        decreases b@.len() - j,
    {
        let ghost ov = label_pairs(out@);
        let ghost k = b@[j as int].0@;
        let ghost v = b@[j as int].1@;
        proof {
            assert(bv[j as int] == (k, v));
            assert(bv.take(j + 1) =~= bv.take(j as int).push((k, v)));
            assert(!pairs_map(bv.take(j as int)).contains_key(k)) by {
                if pairs_map(bv.take(j as int)).contains_key(k) {
                    let q = choose|q: int| 0 <= q < bv.take(j as int).len() && bv.take(j as int)[q].0 == k;
                    assert(bv[q].0 == bv[j as int].0);
                }
            }
            assert(distinct_keys(bv.take(j as int))) by {
                assert forall|x: int, y: int|
                    0 <= x < bv.take(j as int).len() && 0 <= y < bv.take(j as int).len() && x != y implies #[trigger] bv.take(
                    j as int,
                )[x].0 != #[trigger] bv.take(j as int)[y].0 by {
                    assert(bv.take(j as int)[x] == bv[x] && bv.take(j as int)[y] == bv[y]);
                }
            }
            lemma_pairs_map_push(bv.take(j as int), k, v);
            assert(pairs_map(av).union_prefer_right(pairs_map(bv.take(j as int)).insert(k, v)) =~= pairs_map(
                av,
            ).union_prefer_right(pairs_map(bv.take(j as int))).insert(k, v));
        }
        let mut p: usize = 0;
        while p < out.len()
            invariant
                ov == label_pairs(out@),
                p <= out@.len(),
                j < b@.len(),
                k == b@[j as int].0@,
                forall|q: int| 0 <= q < p ==> (#[trigger] out@[q]).0@ != k,
            ensures
                p <= out@.len(),
                p < out@.len() ==> out@[p as int].0@ == k,
                forall|q: int| 0 <= q < p ==> (#[trigger] out@[q]).0@ != k,
            decreases out@.len() - p,
        {
            if str_eq(out[p].0.as_str(), b[j].0.as_str()) {
                break;
            }
            p += 1;
        }
        let found = p < out.len();
        let entry = (b[j].0.clone(), b[j].1.clone());
        if found {
            proof {
                assert(ov[p as int].0 == k);
                lemma_pairs_map_update(ov, p as int, v);
            }
            out.set(p, entry);
            proof {
                assert(label_pairs(out@) =~= ov.update(p as int, (ov[p as int].0, v)));
            }
        } else {
            proof {
                assert(!pairs_map(ov).contains_key(k)) by {
                    if pairs_map(ov).contains_key(k) {
                        let q = choose|q: int| 0 <= q < ov.len() && ov[q].0 == k;
                        assert(out@[q].0@ == k);
                    }
                }
                lemma_pairs_map_push(ov, k, v);
            }
            out.push(entry);
            proof {
                assert(label_pairs(out@) =~= ov.push((k, v)));
            }
        }
        j += 1;
    }
    proof {
        assert(bv.take(b@.len() as int) =~= bv);
    }
    out
}

/// Reserved for the layout of each feature's source geometry.
pub const SOURCE_GEOMETRY_LAYOUT_COLUMN: &'static str = "__netweevil_geometry_layout";

/// Reserved for the schema of each feature's source layer.
pub const SOURCE_LAYER_SCHEMA_COLUMN: &'static str = "__netweevil_source_layer_schema";

/// A merged column as plain values.
pub struct MergedColumn {
    pub name: Seq<char>,
    pub role: Option<Seq<char>>,
    pub value_type: FeatureAttributeType,
    pub domain: Map<Seq<char>, Seq<char>>,
}

/// Why a merge is refused, as plain values.
pub enum MergeFault {
    /// Two source names normalize alike: the one seen first, then the other.
    NameCollision(Seq<char>, Seq<char>),
    /// A column's role disagrees with the role its name already has: the
    /// column, the role it had, the new role.
    RoleConflict(Seq<char>, Seq<char>, Seq<char>),
    /// A source column takes a reserved name.
    Reserved(Seq<char>),
}

/// Why merging attribute columns failed.
#[derive(Debug, Clone)]
pub enum MergeError {
    NameCollision { existing: String, column: String },
    RoleConflict { column: String, existing_role: String, role: String },
    Reserved { name: String },
}

/// The fault an error reports.
pub open spec fn fault_of(e: MergeError) -> MergeFault {
    match e {
        MergeError::NameCollision { existing, column } => MergeFault::NameCollision(existing@, column@),
        MergeError::RoleConflict { column, existing_role, role } => MergeFault::RoleConflict(column@, existing_role@, role@),
        MergeError::Reserved { name } => MergeFault::Reserved(name@),
    }
}

/// A definition as a merged column.
pub open spec fn merged_view(d: FeatureAttributeDefinition) -> MergedColumn {
    MergedColumn { name: d.name@, role: role_view(d), value_type: d.value_type, domain: pairs_map(label_pairs(d.domain@)) }
}

/// Adds one source column to the merged columns, keyed by normalized name:
/// a new name is taken as it is; a known one must carry the same source
/// name and, where both have one, a role equal up to ASCII case; its type
/// widens, it keeps the first role given, and the column's labels are
/// added to its domain.
pub open spec fn merge_column(m: Map<Seq<char>, MergedColumn>, c: FeatureAttributeDefinition) -> Result<
    Map<Seq<char>, MergedColumn>,
    MergeFault,
> {
    let key = normalized_name(c.name@);
    if m.contains_key(key) {
        let e = m[key];
        if e.name != c.name@ {
            Err(MergeFault::NameCollision(e.name, c.name@))
        } else if role_view(c) is Some && e.role is Some && !eq_ignore_case(e.role->0, role_view(c)->0) {
            Err(MergeFault::RoleConflict(c.name@, e.role->0, role_view(c)->0))
        } else {
            Ok(
                m.insert(
                    key,
                    MergedColumn {
                        name: e.name,
                        role: if e.role is Some {
                            e.role
                        } else {
                            role_view(c)
                        },
                        value_type: promoted(e.value_type, c.value_type),
                        domain: e.domain.union_prefer_right(pairs_map(label_pairs(c.domain@))),
                    },
                ),
            )
        }
    } else {
        Ok(m.insert(key, merged_view(c)))
    }
}

/// Merges columns in order, from a start; the first refusal stands.
pub open spec fn merge_columns(
    start: Result<Map<Seq<char>, MergedColumn>, MergeFault>,
    cols: Seq<FeatureAttributeDefinition>,
) -> Result<Map<Seq<char>, MergedColumn>, MergeFault>
    decreases cols.len(),
{
    if cols.len() == 0 {
        start
    } else {
        match merge_columns(start, cols.drop_last()) {
            Ok(m) => merge_column(m, cols.last()),
            Err(f) => Err(f),
        }
    }
}

/// Merges the columns of the layers, layer by layer.
pub open spec fn merge_layers(layers: Seq<Vec<FeatureAttributeDefinition>>) -> Result<
    Map<Seq<char>, MergedColumn>,
    MergeFault,
>
    decreases layers.len(),
{
    if layers.len() == 0 {
        Ok(Map::empty())
    } else {
        merge_columns(merge_layers(layers.drop_last()), layers.last()@)
    }
}

/// Adds a reserved JSON column, refused if a source column took its name.
pub open spec fn reserve(r: Result<Map<Seq<char>, MergedColumn>, MergeFault>, name: Seq<char>) -> Result<
    Map<Seq<char>, MergedColumn>,
    MergeFault,
> {
    match r {
        Err(f) => Err(f),
        Ok(m) => if m.contains_key(normalized_name(name)) {
            Err(MergeFault::Reserved(name))
        } else {
            Ok(
                m.insert(
                    normalized_name(name),
                    MergedColumn { name, role: None, value_type: FeatureAttributeType::Json, domain: Map::empty() },
                ),
            )
        },
    }
}

/// The merged schema of the layers, with both reserved columns.
pub open spec fn merged_schema(layers: Seq<Vec<FeatureAttributeDefinition>>) -> Result<
    Map<Seq<char>, MergedColumn>,
    MergeFault,
> {
    reserve(reserve(merge_layers(layers), SOURCE_GEOMETRY_LAYOUT_COLUMN@), SOURCE_LAYER_SCHEMA_COLUMN@)
}

/// A list of definitions keyed by normalized name.
pub open spec fn keyed_columns(defs: Seq<FeatureAttributeDefinition>) -> Seq<(Seq<char>, MergedColumn)> {
    Seq::new(defs.len(), |i: int| (normalized_name(defs[i].name@), merged_view(defs[i])))
}

/// Labels in strictly increasing order of their keys.
pub open spec fn labels_ascending(labels: Seq<(String, String)>) -> bool {
    forall|a: int, b: int| 0 <= a < b < labels.len() ==> text_lt(#[trigger] labels[a].0@, #[trigger] labels[b].0@)
}

/// Definitions in strictly increasing order of their normalized names,
/// each with its labels in key order.
pub open spec fn schema_ordered(defs: Seq<FeatureAttributeDefinition>) -> bool {
    &&& forall|a: int, b: int|
        0 <= a < b < defs.len() ==> text_lt(
            #[trigger] normalized_name(defs[a].name@),
            #[trigger] normalized_name(defs[b].name@),
        )
    &&& forall|q: int| 0 <= q < defs.len() ==> labels_ascending(#[trigger] defs[q].domain@)
}

/// The merge of a prefix stays refused.
proof fn lemma_columns_refused(
    start: Result<Map<Seq<char>, MergedColumn>, MergeFault>,
    cols: Seq<FeatureAttributeDefinition>,
    i: int,
    f: MergeFault,
)
    requires
        0 <= i <= cols.len(),
        merge_columns(start, cols.take(i)) == Err::<Map<Seq<char>, MergedColumn>, MergeFault>(f),
    ensures
        merge_columns(start, cols) == Err::<Map<Seq<char>, MergedColumn>, MergeFault>(f),
    decreases cols.len() - i,
{
    if i < cols.len() {
        assert(cols.take(i + 1).drop_last() =~= cols.take(i));
        lemma_columns_refused(start, cols, i + 1, f);
    } else {
        assert(cols.take(i) =~= cols);
    }
}

/// A refused start stays refused.
proof fn lemma_refused_start(cols: Seq<FeatureAttributeDefinition>, f: MergeFault)
    ensures
        merge_columns(Err(f), cols) == Err::<Map<Seq<char>, MergedColumn>, MergeFault>(f),
    decreases cols.len(),
{
    if cols.len() > 0 {
        lemma_refused_start(cols.drop_last(), f);
    }
}

/// The merge of a prefix of layers stays refused.
proof fn lemma_layers_refused(layers: Seq<Vec<FeatureAttributeDefinition>>, i: int, f: MergeFault)
    requires
        0 <= i <= layers.len(),
        merge_layers(layers.take(i)) == Err::<Map<Seq<char>, MergedColumn>, MergeFault>(f),
    ensures
        merge_layers(layers) == Err::<Map<Seq<char>, MergedColumn>, MergeFault>(f),
    decreases layers.len() - i,
{
    if i < layers.len() {
        assert(layers.take(i + 1).drop_last() =~= layers.take(i));
        lemma_refused_start(layers[i]@, f);
        lemma_layers_refused(layers, i + 1, f);
    } else {
        assert(layers.take(i) =~= layers);
    }
}

/// The merged columns held so far, keyed as stored.
pub open spec fn state_pairs(keys: Seq<Vec<char>>, defs: Seq<FeatureAttributeDefinition>) -> Seq<(Seq<char>, MergedColumn)> {
    Seq::new(keys.len(), |i: int| (keys[i]@, merged_view(defs[i])))
}

/// The stored keys are the normalized names of their definitions, no key
/// occurs twice, and no domain labels a value twice.
pub open spec fn state_ok(keys: Seq<Vec<char>>, defs: Seq<FeatureAttributeDefinition>) -> bool {
    &&& keys.len() == defs.len()
    &&& distinct_keys(state_pairs(keys, defs))
    &&& forall|i: int| 0 <= i < keys.len() ==> (#[trigger] keys[i])@ == normalized_name(defs[i].name@)
    &&& forall|i: int| 0 <= i < defs.len() ==> distinct_keys(label_pairs((#[trigger] defs[i]).domain@))
}

/// A key that the stored keys lack is not in the merged map.
proof fn lemma_absent_key(keys: Seq<Vec<char>>, defs: Seq<FeatureAttributeDefinition>, k: Seq<char>)
    requires
        keys.len() == defs.len(),
        !char_views(keys).contains(k),
    ensures
        !pairs_map(state_pairs(keys, defs)).contains_key(k),
{
    if pairs_map(state_pairs(keys, defs)).contains_key(k) {
        let q = choose|q: int| 0 <= q < state_pairs(keys, defs).len() && state_pairs(keys, defs)[q].0 == k;
        assert(char_views(keys)[q] == k);
    }
}

/// Adds one source column to the stored columns.
fn merge_one(keys: &mut Vec<Vec<char>>, defs: &mut Vec<FeatureAttributeDefinition>, c: &FeatureAttributeDefinition) -> (r: Result<(), MergeError>)
    requires
        state_ok(old(keys)@, old(defs)@),
        distinct_keys(label_pairs(c.domain@)),
    ensures
        match r {
            Ok(()) => state_ok(final(keys)@, final(defs)@) && merge_column(pairs_map(state_pairs(old(keys)@, old(defs)@)), *c)
                == Ok::<Map<Seq<char>, MergedColumn>, MergeFault>(pairs_map(state_pairs(final(keys)@, final(defs)@))),
            Err(e) => merge_column(pairs_map(state_pairs(old(keys)@, old(defs)@)), *c) == Err::<
                Map<Seq<char>, MergedColumn>,
                MergeFault,
            >(fault_of(e)),
        },
{
    let ghost sp = state_pairs(keys@, defs@);
    let key_text = normalize_attribute_name(c.name.as_str());
    let key = chars_of_string(&key_text);
    match position_of(keys, &key) {
        Some(p) => {
            proof {
                assert(sp[p as int] == (keys@[p as int]@, merged_view(defs@[p as int])));
                lemma_pairs_map_at(sp, p as int);
            }
            if !str_eq(defs[p].name.as_str(), c.name.as_str()) {
                return Err(MergeError::NameCollision { existing: defs[p].name.clone(), column: c.name.clone() });
            }
            match (&c.semantic_role, &defs[p].semantic_role) {
                (Some(role), Some(existing_role)) => {
                    if !eq_ignore_ascii_case(&chars_of(existing_role.as_str()), &chars_of(role.as_str())) {
                        return Err(
                            MergeError::RoleConflict {
                                column: c.name.clone(),
                                existing_role: existing_role.clone(),
                                role: role.clone(),
                            },
                        );
                    }
                },
                _ => {},
            }
            let role = match &defs[p].semantic_role {
                Some(existing_role) => Some(existing_role.clone()),
                None => match &c.semantic_role {
                    Some(role) => Some(role.clone()),
                    None => None,
                },
            };
            let domain = extend_domain(&defs[p].domain, &c.domain);
            let merged = FeatureAttributeDefinition {
                name: defs[p].name.clone(),
                semantic_role: role,
                value_type: promote_type(defs[p].value_type, c.value_type),
                domain,
            };
            proof {
                lemma_pairs_map_update(sp, p as int, merged_view(merged));
            }
            defs.set(p, merged);
            proof {
                assert(state_pairs(keys@, defs@) =~= sp.update(p as int, (sp[p as int].0, merged_view(merged))));
            }
            Ok(())
        },
        None => {
            let copy = copy_definition(c);
            proof {
                lemma_absent_key(keys@, defs@, key@);
                lemma_pairs_map_push(sp, key@, merged_view(copy));
            }
            keys.push(key);
            defs.push(copy);
            proof {
                assert(state_pairs(keys@, defs@) =~= sp.push((key@, merged_view(copy))));
            }
            Ok(())
        },
    }
}

/// Adds a reserved JSON column.
fn reserve_column(keys: &mut Vec<Vec<char>>, defs: &mut Vec<FeatureAttributeDefinition>, name: &str) -> (r: Result<(), MergeError>)
    requires
        state_ok(old(keys)@, old(defs)@),
    ensures
        match r {
            Ok(()) => state_ok(final(keys)@, final(defs)@) && reserve(
                Ok(pairs_map(state_pairs(old(keys)@, old(defs)@))),
                name@,
            ) == Ok::<Map<Seq<char>, MergedColumn>, MergeFault>(pairs_map(state_pairs(final(keys)@, final(defs)@))),
            Err(e) => reserve(Ok(pairs_map(state_pairs(old(keys)@, old(defs)@))), name@) == Err::<
                Map<Seq<char>, MergedColumn>,
                MergeFault,
            >(fault_of(e)),
        },
{
    let ghost sp = state_pairs(keys@, defs@);
    let key_text = normalize_attribute_name(name);
    let key = chars_of_string(&key_text);
    match position_of(keys, &key) {
        Some(p) => {
            proof {
                assert(sp[p as int].0 == key@);
                lemma_pairs_map_at(sp, p as int);
            }
            Err(MergeError::Reserved { name: name.to_owned() })
        },
        None => {
            let column = FeatureAttributeDefinition {
                name: name.to_owned(),
                semantic_role: None,
                value_type: FeatureAttributeType::Json,
                domain: Vec::new(),
            };
            proof {
                assert(pairs_map(label_pairs(column.domain@)) =~= Map::<Seq<char>, Seq<char>>::empty());
                lemma_absent_key(keys@, defs@, key@);
                lemma_pairs_map_push(sp, key@, merged_view(column));
            }
            keys.push(key);
            defs.push(column);
            proof {
                assert(state_pairs(keys@, defs@) =~= sp.push((key@, merged_view(column))));
            }
            Ok(())
        },
    }
}

/// Reordering distinct keys leaves the map alone.
proof fn lemma_pairs_map_reordered<V>(s: Seq<(Seq<char>, V)>, t: Seq<(Seq<char>, V)>, order: Seq<usize>)
    requires
        distinct_keys(s),
        s.len() <= usize::MAX,
        t.len() == s.len(),
        order.len() == s.len(),
        forall|q: int| 0 <= q < order.len() ==> (#[trigger] order[q] as int) < s.len(),
        forall|q: int| 0 <= q < t.len() ==> #[trigger] t[q] == s[order[q] as int],
        forall|i: int| 0 <= i < s.len() ==> #[trigger] order.contains(i as usize),
    ensures
        pairs_map(t) == pairs_map(s),
{
    assert forall|k: Seq<char>| #[trigger] pairs_map(t).contains_key(k) <==> pairs_map(s).contains_key(k) by {
        if pairs_map(t).contains_key(k) {
            let q = choose|q: int| 0 <= q < t.len() && t[q].0 == k;
            assert(s[order[q] as int].0 == k);
        }
        if pairs_map(s).contains_key(k) {
            let i = choose|i: int| 0 <= i < s.len() && s[i].0 == k;
            assert(order.contains(i as usize));
            let q = choose|q: int| 0 <= q < order.len() && order[q] == i as usize;
            assert(t[q] == s[order[q] as int]);
            assert(t[q].0 == k);
        }
    }
    assert forall|k: Seq<char>| pairs_map(t).contains_key(k) implies #[trigger] pairs_map(t)[k] == pairs_map(s)[k] by {
        let q = choose|q: int| 0 <= q < t.len() && t[q].0 == k;
        let i = choose|i: int| 0 <= i < s.len() && s[i].0 == k;
        assert(t[q] == s[order[q] as int]);
        if order[q] as int != i {
            assert(s[order[q] as int].0 != s[i].0);
        }
    }
    assert(pairs_map(t) =~= pairs_map(s));
}

/// Distinct stored keys hold no repeat.
proof fn lemma_no_repeat<V>(keys: Seq<Vec<char>>, s: Seq<(Seq<char>, V)>)
    requires
        s.len() == keys.len(),
        forall|i: int| 0 <= i < s.len() ==> #[trigger] s[i].0 == keys[i]@,
        distinct_keys(s),
    ensures
        !has_repeat(char_views(keys)),
{
    if has_repeat(char_views(keys)) {
        let j = choose|j: int| 0 <= j < char_views(keys).len() && #[trigger] repeats_earlier(char_views(keys), j);
        let i = choose|i: int| 0 <= i < j && char_views(keys)[i] == char_views(keys)[j];
        assert(s[i].0 == s[j].0);
    }
}

/// The labels in increasing order of their keys.
fn sort_labels(labels: &Vec<(String, String)>) -> (r: Vec<(String, String)>)
    requires
        distinct_keys(label_pairs(labels@)),
    ensures
        pairs_map(label_pairs(r@)) == pairs_map(label_pairs(labels@)),
        labels_ascending(r@),
{
    let ghost lv = label_pairs(labels@);
    let mut keys: Vec<Vec<char>> = Vec::new();
    let mut i: usize = 0;
    while i < labels.len()
        invariant
            i <= labels@.len(),
            keys@.len() == i,
            forall|k: int| 0 <= k < i ==> (#[trigger] keys@[k])@ == labels@[k].0@,
        decreases labels@.len() - i,
    {
        keys.push(chars_of_string(&labels[i].0));
        i += 1;
    }
    proof {
        assert forall|k: int| 0 <= k < lv.len() implies #[trigger] lv[k].0 == keys@[k]@ by {
            assert(lv[k] == (labels@[k].0@, labels@[k].1@));
        }
        lemma_no_repeat(keys@, lv);
    }
    let order = sorted_order(&keys);
    let mut out: Vec<(String, String)> = Vec::new();
    let mut q: usize = 0;
    while q < order.len()
        invariant
            order@.len() == labels@.len(),
            keys@.len() == labels@.len(),
            forall|k: int| 0 <= k < labels@.len() ==> (#[trigger] keys@[k])@ == labels@[k].0@,
            forall|k: int| 0 <= k < order@.len() ==> (#[trigger] order@[k] as int) < labels@.len(),
            q <= order@.len(),
            out@.len() == q,
            forall|k: int|
                0 <= k < q ==> (#[trigger] out@[k]).0@ == labels@[order@[k] as int].0@ && out@[k].1@ == labels@[order@[k] as int].1@,
        decreases order@.len() - q,
    {
        let o = order[q];
        out.push((labels[o].0.clone(), labels[o].1.clone()));
        q += 1;
    }
    proof {
        let ov = label_pairs(out@);
        assert forall|k: int| 0 <= k < ov.len() implies #[trigger] ov[k] == lv[order@[k] as int] by {
            assert(ov[k] == (out@[k].0@, out@[k].1@));
        }
        lemma_pairs_map_reordered(lv, ov, order@);
        assert forall|a: int, b: int| 0 <= a < b < out@.len() implies text_lt(#[trigger] out@[a].0@, #[trigger] out@[b].0@) by {
            assert(keys@[order@[a] as int]@ == out@[a].0@);
            assert(keys@[order@[b] as int]@ == out@[b].0@);
        }
    }
    out
}

/// Merges the attribute columns of source layers into one schema keyed by
/// normalized name: a name must keep one source spelling, and one role up
/// to ASCII case; types widen and coded-value labels combine, later labels
/// winning. The two reserved metadata columns are added as JSON columns
/// and may not be taken by a source column. The schema comes out in
/// increasing order of normalized name, each domain in order of its keys;
/// a refusal names the first conflict met, layer by layer, column by
/// column.
pub fn merge_attribute_definitions(layers: &Vec<Vec<FeatureAttributeDefinition>>) -> (r: Result<
    Vec<FeatureAttributeDefinition>,
    MergeError,
>)
    requires
        forall|l: int, c: int|
            0 <= l < layers@.len() && 0 <= c < layers@[l]@.len() ==> distinct_keys(
                label_pairs(#[trigger] layers@[l]@[c].domain@),
            ),
    ensures
        match r {
            Ok(defs) => merged_schema(layers@) == Ok::<Map<Seq<char>, MergedColumn>, MergeFault>(
                pairs_map(keyed_columns(defs@)),
            ) && schema_ordered(defs@),
            Err(e) => merged_schema(layers@) == Err::<Map<Seq<char>, MergedColumn>, MergeFault>(fault_of(e)),
        },
{
    let mut keys: Vec<Vec<char>> = Vec::new();
    let mut defs: Vec<FeatureAttributeDefinition> = Vec::new();
    proof {
        assert(layers@.take(0) =~= Seq::<Vec<FeatureAttributeDefinition>>::empty());
        assert(pairs_map(state_pairs(keys@, defs@)) =~= Map::<Seq<char>, MergedColumn>::empty());
    }
    let mut li: usize = 0;
    while li < layers.len()
        invariant
            forall|l: int, c: int|
                0 <= l < layers@.len() && 0 <= c < layers@[l]@.len() ==> distinct_keys(
                    label_pairs(#[trigger] layers@[l]@[c].domain@),
                ),
            li <= layers@.len(),
            state_ok(keys@, defs@),
            merge_layers(layers@.take(li as int)) == Ok::<Map<Seq<char>, MergedColumn>, MergeFault>(
                pairs_map(state_pairs(keys@, defs@)),
            ),
        decreases layers@.len() - li,
    {
        let layer = &layers[li];
        let ghost start = merge_layers(layers@.take(li as int));
        proof {
            assert(layer@.take(0) =~= Seq::<FeatureAttributeDefinition>::empty());
        }
        let mut ci: usize = 0;
        while ci < layer.len()
            invariant
                forall|l: int, c: int|
                    0 <= l < layers@.len() && 0 <= c < layers@[l]@.len() ==> distinct_keys(
                        label_pairs(#[trigger] layers@[l]@[c].domain@),
                    ),
                li < layers@.len(),
                *layer == layers@[li as int],
                start == merge_layers(layers@.take(li as int)),
                ci <= layer@.len(),
                state_ok(keys@, defs@),
                merge_columns(start, layer@.take(ci as int)) == Ok::<Map<Seq<char>, MergedColumn>, MergeFault>(
                    pairs_map(state_pairs(keys@, defs@)),
                ),
            decreases layer@.len() - ci,
        {
            proof {
                assert(layer@.take(ci + 1).drop_last() =~= layer@.take(ci as int));
                assert(layer@.take(ci + 1).last() == layer@[ci as int]);
                assert(distinct_keys(label_pairs(layers@[li as int]@[ci as int].domain@)));
            }
            match merge_one(&mut keys, &mut defs, &layer[ci]) {
                Ok(()) => {},
                Err(e) => {
                    proof {
                        lemma_columns_refused(start, layer@, ci + 1, fault_of(e));
                        assert(layers@.take(li + 1).drop_last() =~= layers@.take(li as int));
                        assert(layers@.take(li + 1).last() == layers@[li as int]);
                        lemma_layers_refused(layers@, li + 1, fault_of(e));
                    }
                    return Err(e);
                },
            }
            ci += 1;
        }
        proof {
            assert(layer@.take(layer@.len() as int) =~= layer@);
            assert(layers@.take(li + 1).drop_last() =~= layers@.take(li as int));
            assert(layers@.take(li + 1).last() == layers@[li as int]);
        }
        li += 1;
    }
    proof {
        assert(layers@.take(layers@.len() as int) =~= layers@);
    }
    match reserve_column(&mut keys, &mut defs, SOURCE_GEOMETRY_LAYOUT_COLUMN) {
        Ok(()) => {},
        Err(e) => {
            return Err(e);
        },
    }
    match reserve_column(&mut keys, &mut defs, SOURCE_LAYER_SCHEMA_COLUMN) {
        Ok(()) => {},
        Err(e) => {
            return Err(e);
        },
    }
    let ghost sp = state_pairs(keys@, defs@);
    proof {
        assert forall|k: int| 0 <= k < sp.len() implies #[trigger] sp[k].0 == keys@[k]@ by {}
        lemma_no_repeat(keys@, sp);
    }
    let order = sorted_order(&keys);
    let mut out: Vec<FeatureAttributeDefinition> = Vec::new();
    let mut q: usize = 0;
    while q < order.len()
        invariant
            state_ok(keys@, defs@),
            sp == state_pairs(keys@, defs@),
            order@.len() == keys@.len(),
            forall|k: int| 0 <= k < order@.len() ==> (#[trigger] order@[k] as int) < keys@.len(),
            q <= order@.len(),
            out@.len() == q,
            forall|k: int| 0 <= k < q ==> #[trigger] keyed_columns(out@)[k] == sp[order@[k] as int],
            forall|k: int| 0 <= k < q ==> labels_ascending((#[trigger] out@[k]).domain@),
            forall|k: int| 0 <= k < q ==> (#[trigger] out@[k]).name@ == defs@[order@[k] as int].name@,
        decreases order@.len() - q,
    {
        let o = order[q];
        let d = &defs[o];
        let role = match &d.semantic_role {
            Some(role) => Some(role.clone()),
            None => None,
        };
        proof {
            assert(distinct_keys(label_pairs(defs@[o as int].domain@)));
        }
        let column = FeatureAttributeDefinition {
            name: d.name.clone(),
            semantic_role: role,
            value_type: d.value_type,
            domain: sort_labels(&d.domain),
        };
        let ghost before = out@;
        out.push(column);
        proof {
            assert(merged_view(column) == merged_view(defs@[o as int]));
            assert forall|k: int| 0 <= k < q + 1 implies #[trigger] keyed_columns(out@)[k] == sp[order@[k] as int] by {
                if k < q {
                    assert(out@[k] == before[k]);
                    assert(keyed_columns(before)[k] == sp[order@[k] as int]);
                }
            }
        }
        q += 1;
    }
    proof {
        lemma_pairs_map_reordered(sp, keyed_columns(out@), order@);
        assert forall|a: int, b: int| 0 <= a < b < out@.len() implies text_lt(
            #[trigger] normalized_name(out@[a].name@),
            #[trigger] normalized_name(out@[b].name@),
        ) by {
            assert(keys@[order@[a] as int]@ == normalized_name(out@[a].name@));
            assert(keys@[order@[b] as int]@ == normalized_name(out@[b].name@));
        }
    }
    Ok(out)
}

} // verus!
