//! Comparing the attribute schema of a retained dataset with its source:
//! fields missing from either side, and fields whose definitions drifted.

use vstd::prelude::*;

use crate::attributes::{FeatureAttributeDefinition, FeatureAttributeType};
use crate::text::{
    chars_of_string, lemma_text_lt_asymmetric, lemma_text_lt_irreflexive, lemma_text_lt_total, lemma_text_lt_transitive,
    str_eq, text_less, text_lt,
};

verus! {

/// Definitions of one field that disagree between the retained dataset and
/// its source.
#[derive(Debug, Clone)]
pub struct AttributeSchemaDrift {
    pub field: String,
    pub retained: FeatureAttributeDefinition,
    pub source: FeatureAttributeDefinition,
}

/// The role of a definition as text.
pub open spec fn role_view(d: FeatureAttributeDefinition) -> Option<Seq<char>> {
    match d.semantic_role {
        Some(role) => Some(role@),
        None => None,
    }
}

/// Coded-value labels as text pairs.
pub open spec fn label_pairs(labels: Seq<(String, String)>) -> Seq<(Seq<char>, Seq<char>)> {
    labels.map_values(|entry: (String, String)| (entry.0@, entry.1@))
}

/// The domain of a definition as text pairs.
pub open spec fn domain_view(d: FeatureAttributeDefinition) -> Seq<(Seq<char>, Seq<char>)> {
    label_pairs(d.domain@)
}

/// A definition as plain values.
pub open spec fn definition_view(d: FeatureAttributeDefinition) -> (
    Seq<char>,
    Option<Seq<char>>,
    FeatureAttributeType,
    Seq<(Seq<char>, Seq<char>)>,
) {
    (d.name@, role_view(d), d.value_type, domain_view(d))
}

/// Two definitions of a field disagree in role, type or domain.
pub open spec fn definitions_differ(a: FeatureAttributeDefinition, b: FeatureAttributeDefinition) -> bool {
    role_view(a) != role_view(b) || a.value_type != b.value_type || domain_view(a) != domain_view(b)
}

/// The field names of a schema.
pub open spec fn names_of(defs: Seq<FeatureAttributeDefinition>) -> Seq<Seq<char>> {
    defs.map_values(|d: FeatureAttributeDefinition| d.name@)
}

/// The text of a list of strings.
pub open spec fn string_views(v: Seq<String>) -> Seq<Seq<char>> {
    v.map_values(|s: String| s@)
}

/// Name `j` repeats an earlier name.
pub open spec fn repeats_earlier(names: Seq<Seq<char>>, j: int) -> bool {
    exists|i: int| 0 <= i < j && names[i] == names[j]
}

/// Some name repeats an earlier one.
pub open spec fn has_repeat(names: Seq<Seq<char>>) -> bool {
    exists|j: int| 0 <= j < names.len() && #[trigger] repeats_earlier(names, j)
}

/// Name `j` is the first that repeats an earlier one.
pub open spec fn first_repeat(names: Seq<Seq<char>>, j: int) -> bool {
    &&& 0 <= j < names.len()
    &&& repeats_earlier(names, j)
    &&& forall|k: int| 0 <= k < j ==> !#[trigger] repeats_earlier(names, k)
}

/// Strictly increasing in text order.
pub open spec fn ascending(s: Seq<Seq<char>>) -> bool {
    forall|i: int, j: int| 0 <= i < j < s.len() ==> text_lt(#[trigger] s[i], #[trigger] s[j])
}

/// The text of each list of characters.
pub open spec fn char_views(v: Seq<Vec<char>>) -> Seq<Seq<char>> {
    v.map_values(|c: Vec<char>| c@)
}

/// The names of a schema as character lists.
fn name_chars(defs: &Vec<FeatureAttributeDefinition>) -> (r: Vec<Vec<char>>)
    ensures
        char_views(r@) == names_of(defs@),
{
    let mut out: Vec<Vec<char>> = Vec::new();
    let mut i: usize = 0;
    while i < defs.len()
        invariant
            i <= defs@.len(),
            out@.len() == i,
            forall|k: int| 0 <= k < i ==> (#[trigger] out@[k])@ == defs@[k].name@,
        decreases defs@.len() - i,
    {
        out.push(chars_of_string(&defs[i].name));
        i += 1;
    }
    assert(char_views(out@) =~= names_of(defs@));
    out
}

/// The first name that repeats an earlier one, if any.
fn first_repeated(names: &Vec<Vec<char>>) -> (r: Option<usize>)
    ensures
        r matches Some(j) ==> first_repeat(char_views(names@), j as int),
        r is None ==> !has_repeat(char_views(names@)),
{
    let ghost ns = char_views(names@);
    let mut j: usize = 0;
    while j < names.len()
        invariant
            ns == char_views(names@),
            j <= names@.len(),
            forall|k: int| 0 <= k < j ==> !#[trigger] repeats_earlier(ns, k),
        decreases names@.len() - j,
    {
        let mut i: usize = 0;
        while i < j
            invariant
                ns == char_views(names@),
                i <= j < names@.len(),
                forall|k: int| 0 <= k < j ==> !#[trigger] repeats_earlier(ns, k),
                forall|h: int| 0 <= h < i ==> ns[h] != ns[j as int],
            decreases j - i,
        {
            if text_equal(&names[i], &names[j]) {
                proof {
                    assert(ns[i as int] == ns[j as int]);
                }
                return Some(j);
            }
            i += 1;
        }
        j += 1;
    }
    None
}

/// Whether two character lists hold the same text.
pub(crate) fn text_equal(a: &Vec<char>, b: &Vec<char>) -> (r: bool)
    ensures
        r == (a@ == b@),
{
    if a.len() != b.len() {
        return false;
    }
    let mut i: usize = 0;
    while i < a.len()
        invariant
            a@.len() == b@.len(),
            i <= a@.len(),
            forall|k: int| 0 <= k < i ==> a@[k] == b@[k],
        decreases a@.len() - i,
    {
        if a[i] != b[i] {
            return false;
        }
        i += 1;
    }
    assert(a@ =~= b@);
    true
}

/// Without repeats, names at distinct positions differ.
proof fn lemma_distinct_names(names: Seq<Seq<char>>, i: int, j: int)
    requires
        !has_repeat(names),
        0 <= i < names.len(),
        0 <= j < names.len(),
        i != j,
    ensures
        names[i] != names[j],
{
    if i < j {
        if names[i] == names[j] {
            assert(repeats_earlier(names, j));
        }
    } else {
        if names[i] == names[j] {
            assert(repeats_earlier(names, i));
        }
    }
}

/// The positions of distinct names, in increasing text order of the
/// names (insertion sort).
pub(crate) fn sorted_order(names: &Vec<Vec<char>>) -> (order: Vec<usize>)
    requires
        !has_repeat(char_views(names@)),
    ensures
        order@.len() == names@.len(),
        forall|k: int| 0 <= k < order@.len() ==> (#[trigger] order@[k] as int) < names@.len(),
        forall|i: int| 0 <= i < names@.len() ==> #[trigger] order@.contains(i as usize),
        forall|a: int, b: int|
            0 <= a < b < order@.len() ==> text_lt(#[trigger] names@[order@[a] as int]@, #[trigger] names@[order@[b] as int]@),
{
    let ghost ns = char_views(names@);
    let n = names.len();
    let mut order: Vec<usize> = Vec::new();
    let mut i: usize = 0;
    while i < n
        invariant
            ns == char_views(names@),
            !has_repeat(ns),
            n == names@.len(),
            i <= n,
            order@.len() == i,
            forall|k: int| 0 <= k < order@.len() ==> (#[trigger] order@[k] as int) < i,
            forall|x: usize| #[trigger] order@.contains(x) <==> x < i,
            forall|a: int, b: int|
                0 <= a < b < order@.len() ==> text_lt(#[trigger] names@[order@[a] as int]@, #[trigger] names@[order@[b] as int]@),
        decreases n - i,
    {
        let mut p: usize = 0;
        while p < order.len() && !text_less(&names[i], &names[order[p]])
            invariant
                ns == char_views(names@),
                !has_repeat(ns),
                i < n,
                n == names@.len(),
                p <= order@.len(),
                forall|k: int| 0 <= k < order@.len() ==> (#[trigger] order@[k] as int) < i,
                forall|q: int| 0 <= q < p ==> text_lt(names@[order@[q] as int]@, #[trigger] names@[i as int]@),
            decreases order@.len() - p,
        {
            proof {
                let o = order@[p as int] as int;
                assert(ns[o] == names@[o]@ && ns[i as int] == names@[i as int]@);
                lemma_distinct_names(ns, o, i as int);
                lemma_text_lt_total(names@[o]@, names@[i as int]@);
            }
            p += 1;
        }
        let ghost before = order@;
        order.insert(p, i);
        proof {
            assert(order@ =~= before.insert(p as int, i));
            assert forall|x: usize| #[trigger] order@.contains(x) <==> x < i + 1 by {
                if order@.contains(x) {
                    let k = choose|k: int| 0 <= k < order@.len() && order@[k] == x;
                    if k < p {
                        assert(before[k] == x);
                    } else if k > p {
                        assert(before[k - 1] == x);
                    }
                }
                if x < i {
                    assert(before.contains(x));
                    let k = choose|k: int| 0 <= k < before.len() && before[k] == x;
                    if k < p {
                        assert(order@[k] == x);
                    } else {
                        assert(order@[k + 1] == x);
                    }
                }
                if x == i {
                    assert(order@[p as int] == x);
                }
            }
            assert forall|a: int, b: int|
                0 <= a < b < order@.len() implies text_lt(#[trigger] names@[order@[a] as int]@, #[trigger] names@[order@[b] as int]@) by {
                let na = names@[order@[a] as int]@;
                let nb = names@[order@[b] as int]@;
                if b < p {
                    assert(order@[a] == before[a] && order@[b] == before[b]);
                } else if b == p {
                    assert(order@[a] == before[a]);
                } else if a > p {
                    assert(order@[a] == before[a - 1] && order@[b] == before[b - 1]);
                } else if a == p {
                    assert(order@[b] == before[b - 1]);
                    assert(text_lt(names@[i as int]@, names@[before[p as int] as int]@));
                    if b - 1 > p {
                        assert(text_lt(names@[before[p as int] as int]@, names@[before[b - 1] as int]@));
                        lemma_text_lt_transitive(names@[i as int]@, names@[before[p as int] as int]@, names@[before[b - 1] as int]@);
                    }
                } else {
                    assert(order@[a] == before[a] && order@[b] == before[b - 1]);
                    assert(text_lt(names@[before[a] as int]@, names@[i as int]@));
                    assert(text_lt(names@[i as int]@, names@[before[p as int] as int]@));
                    lemma_text_lt_transitive(names@[before[a] as int]@, names@[i as int]@, names@[before[p as int] as int]@);
                    if b - 1 > p {
                        assert(text_lt(names@[before[p as int] as int]@, names@[before[b - 1] as int]@));
                        lemma_text_lt_transitive(names@[before[a] as int]@, names@[before[p as int] as int]@, names@[before[b - 1] as int]@);
                    }
                }
            }
        }
        i += 1;
    }
    order
}

/// The position of a name in a list of names, if it occurs.
pub(crate) fn position_of(names: &Vec<Vec<char>>, target: &Vec<char>) -> (r: Option<usize>)
    ensures
        r matches Some(i) ==> i < names@.len() && names@[i as int]@ == target@,
        r is None ==> !char_views(names@).contains(target@),
{
    let mut i: usize = 0;
    while i < names.len()
        invariant
            i <= names@.len(),
            forall|k: int| 0 <= k < i ==> names@[k]@ != target@,
        decreases names@.len() - i,
    {
        if text_equal(&names[i], target) {
            return Some(i);
        }
        i += 1;
    }
    proof {
        if char_views(names@).contains(target@) {
            let k = choose|k: int| 0 <= k < char_views(names@).len() && char_views(names@)[k] == target@;
            assert(names@[k]@ == target@);
        }
    }
    None
}

/// A copy of a definition.
pub(crate) fn copy_definition(d: &FeatureAttributeDefinition) -> (r: FeatureAttributeDefinition)
    ensures
        definition_view(r) == definition_view(*d),
{
    let semantic_role = match &d.semantic_role {
        Some(role) => Some(role.clone()),
        None => None,
    };
    let mut domain: Vec<(String, String)> = Vec::new();
    let mut i: usize = 0;
    while i < d.domain.len()
        invariant
            i <= d.domain@.len(),
            domain@.len() == i,
            forall|k: int| 0 <= k < i ==> (#[trigger] domain@[k]).0@ == d.domain@[k].0@ && domain@[k].1@ == d.domain@[k].1@,
        decreases d.domain@.len() - i,
    {
        let entry = (d.domain[i].0.clone(), d.domain[i].1.clone());
        domain.push(entry);
        i += 1;
    }
    let r = FeatureAttributeDefinition { name: d.name.clone(), semantic_role, value_type: d.value_type, domain };
    proof {
        assert(domain_view(r) =~= domain_view(*d));
    }
    r
}

/// Whether two definitions disagree in role, type or domain.
fn differ(a: &FeatureAttributeDefinition, b: &FeatureAttributeDefinition) -> (r: bool)
    ensures
        r == definitions_differ(*a, *b),
{
    match (&a.semantic_role, &b.semantic_role) {
        (Some(x), Some(y)) => {
            if !str_eq(x.as_str(), y.as_str()) {
                return true;
            }
        },
        (None, None) => {},
        _ => {
            return true;
        },
    }
    if a.value_type != b.value_type {
        return true;
    }
    if a.domain.len() != b.domain.len() {
        proof {
            assert(domain_view(*a).len() != domain_view(*b).len());
        }
        return true;
    }
    let mut i: usize = 0;
    while i < a.domain.len()
        invariant
            a.domain@.len() == b.domain@.len(),
            i <= a.domain@.len(),
            forall|k: int| 0 <= k < i ==> #[trigger] domain_view(*a)[k] == domain_view(*b)[k],
        decreases a.domain@.len() - i,
    {
        if !str_eq(a.domain[i].0.as_str(), b.domain[i].0.as_str()) || !str_eq(a.domain[i].1.as_str(), b.domain[i].1.as_str()) {
            proof {
                assert(domain_view(*a)[i as int] != domain_view(*b)[i as int]);
            }
            return true;
        }
        i += 1;
    }
    proof {
        assert(domain_view(*a) =~= domain_view(*b));
    }
    false
}

/// The fields of a list of drifts.
pub open spec fn drift_fields(drifts: Seq<AttributeSchemaDrift>) -> Seq<Seq<char>> {
    drifts.map_values(|d: AttributeSchemaDrift| d.field@)
}

/// A drift pairs the definitions that the two schemas give its field.
pub open spec fn drift_of(
    retained: Seq<FeatureAttributeDefinition>,
    source: Seq<FeatureAttributeDefinition>,
    d: AttributeSchemaDrift,
) -> bool {
    exists|i: int, j: int|
        0 <= i < retained.len() && 0 <= j < source.len() && retained[i].name@ == d.field@ && source[j].name@ == d.field@
            && definition_view(d.retained) == definition_view(retained[i]) && definition_view(d.source) == definition_view(
            source[j],
        )
}

/// The field `x` is in both schemas, with definitions that disagree.
pub open spec fn drifted(retained: Seq<FeatureAttributeDefinition>, source: Seq<FeatureAttributeDefinition>, x: Seq<char>) -> bool {
    exists|i: int, j: int|
        0 <= i < retained.len() && 0 <= j < source.len() && retained[i].name@ == x && source[j].name@ == x
            && definitions_differ(retained[i], source[j])
}

/// The comparison of two schemas without repeated names: the fields only
/// the source has, the fields only the retained dataset has, and the
/// drifted fields, each list in increasing text order.
pub open spec fn schema_comparison(
    retained: Seq<FeatureAttributeDefinition>,
    source: Seq<FeatureAttributeDefinition>,
    missing: Seq<String>,
    unexpected: Seq<String>,
    drifts: Seq<AttributeSchemaDrift>,
) -> bool {
    &&& ascending(string_views(missing))
    &&& forall|x: Seq<char>|
        #[trigger] string_views(missing).contains(x) <==> (names_of(source).contains(x) && !names_of(retained).contains(x))
    &&& ascending(string_views(unexpected))
    &&& forall|x: Seq<char>|
        #[trigger] string_views(unexpected).contains(x) <==> (names_of(retained).contains(x) && !names_of(source).contains(x))
    &&& ascending(drift_fields(drifts))
    &&& forall|x: Seq<char>| #[trigger] drift_fields(drifts).contains(x) <==> drifted(retained, source, x)
    &&& forall|k: int| 0 <= k < drifts.len() ==> #[trigger] drift_of(retained, source, drifts[k])
}

/// Compares the attribute schema of a retained dataset with that of its
/// source: the fields only the source has, the fields only the retained
/// dataset has, and the fields both have whose role, type or domain
/// disagree. A schema that repeats a field name is refused with the first
/// repeated name (the retained schema is checked first).
pub fn compare_attribute_schemas(
    retained: &Vec<FeatureAttributeDefinition>,
    source: &Vec<FeatureAttributeDefinition>,
) -> (r: Result<(Vec<String>, Vec<String>, Vec<AttributeSchemaDrift>), String>)
    ensures
        r is Err <==> has_repeat(names_of(retained@)) || has_repeat(names_of(source@)),
        r matches Err(name) ==> (has_repeat(names_of(retained@)) ==> exists|j: int|
            first_repeat(names_of(retained@), j) && name@ == names_of(retained@)[j]),
        r matches Err(name) ==> (!has_repeat(names_of(retained@)) ==> exists|j: int|
            first_repeat(names_of(source@), j) && name@ == names_of(source@)[j]),
        r matches Ok((missing, unexpected, drifts)) ==> schema_comparison(retained@, source@, missing@, unexpected@, drifts@),
{
    let rn = name_chars(retained);
    let sn = name_chars(source);
    let ghost rv = names_of(retained@);
    let ghost sv = names_of(source@);
    match first_repeated(&rn) {
        Some(j) => {
            proof {
                assert(repeats_earlier(rv, j as int));
            }
            return Err(retained[j].name.clone());
        },
        None => {},
    }
    match first_repeated(&sn) {
        Some(j) => {
            proof {
                assert(repeats_earlier(sv, j as int));
            }
            return Err(source[j].name.clone());
        },
        None => {},
    }
    let source_order = sorted_order(&sn);
    let retained_order = sorted_order(&rn);
    let ns = source.len();
    let nr = retained.len();
    let mut missing: Vec<String> = Vec::new();
    let mut drifts: Vec<AttributeSchemaDrift> = Vec::new();
    proof {
        assert(char_views(sn@).len() == sn@.len() && char_views(rn@).len() == rn@.len());
    }
    let mut k: usize = 0;
    while k < ns
        invariant
            char_views(rn@) == rv,
            char_views(sn@) == sv,
            rv == names_of(retained@),
            sv == names_of(source@),
            ns == source@.len(),
            nr == retained@.len(),
            sn@.len() == ns,
            rn@.len() == nr,
            !has_repeat(rv),
            !has_repeat(sv),
            source_order@.len() == ns,
            forall|q: int| 0 <= q < source_order@.len() ==> (#[trigger] source_order@[q] as int) < ns,
            forall|a: int, b: int|
                0 <= a < b < source_order@.len() ==> text_lt(#[trigger] sn@[source_order@[a] as int]@, #[trigger] sn@[source_order@[b] as int]@),
            k <= ns,
            ascending(string_views(missing@)),
            forall|m: int, q: int|
                0 <= m < missing@.len() && k <= q < ns ==> text_lt(#[trigger] missing@[m]@, #[trigger] sn@[source_order@[q] as int]@),
            forall|x: Seq<char>|
                #[trigger] string_views(missing@).contains(x) <==> ((exists|q: int| 0 <= q < k && sn@[source_order@[q] as int]@ == x)
                    && !rv.contains(x)),
            ascending(drift_fields(drifts@)),
            forall|m: int, q: int|
                0 <= m < drifts@.len() && k <= q < ns ==> text_lt(#[trigger] drifts@[m].field@, #[trigger] sn@[source_order@[q] as int]@),
            forall|x: Seq<char>|
                #[trigger] drift_fields(drifts@).contains(x) <==> ((exists|q: int| 0 <= q < k && sn@[source_order@[q] as int]@ == x)
                    && drifted(retained@, source@, x)),
            forall|m: int| 0 <= m < drifts@.len() ==> #[trigger] drift_of(retained@, source@, drifts@[m]),
        decreases ns - k,
    {
        let j = source_order[k];
        let found = position_of(&rn, &sn[j]);
        let ghost name = sn@[j as int]@;
        let ghost missing_before = missing@;
        let ghost drifts_before = drifts@;
        proof {
            assert(char_views(sn@)[j as int] == name);
            assert(sv[j as int] == name);
            assert(source@[j as int].name@ == name);
        }
        match found {
            None => {
                missing.push(source[j].name.clone());
            },
            Some(i) => {
                proof {
                    assert(rv[i as int] == name);
                }
                if differ(&retained[i], &source[j]) {
                    let drift = AttributeSchemaDrift {
                        field: source[j].name.clone(),
                        retained: copy_definition(&retained[i]),
                        source: copy_definition(&source[j]),
                    };
                    proof {
                        assert(drift_of(retained@, source@, drift));
                    }
                    drifts.push(drift);
                }
            },
        }
        proof {
            assert(string_views(missing@) =~= string_views(missing_before) || string_views(missing@) =~= string_views(missing_before).push(name));
            assert forall|x: Seq<char>|
                #[trigger] string_views(missing@).contains(x) <==> ((exists|q: int| 0 <= q < k + 1 && sn@[source_order@[q] as int]@ == x)
                    && !rv.contains(x)) by {
                if string_views(missing@).contains(x) {
                    let m = choose|m: int| 0 <= m < string_views(missing@).len() && string_views(missing@)[m] == x;
                    if m < missing_before.len() {
                        assert(string_views(missing_before)[m] == x);
                        assert(string_views(missing_before).contains(x));
                    } else {
                        assert(x == name);
                        assert(sn@[source_order@[k as int] as int]@ == x);
                    }
                }
                if (exists|q: int| 0 <= q < k + 1 && sn@[source_order@[q] as int]@ == x) && !rv.contains(x) {
                    let q = choose|q: int| 0 <= q < k + 1 && sn@[source_order@[q] as int]@ == x;
                    if q < k {
                        assert(string_views(missing_before).contains(x));
                        let m = choose|m: int| 0 <= m < string_views(missing_before).len() && string_views(missing_before)[m] == x;
                        assert(string_views(missing@)[m] == x);
                    } else {
                        assert(x == name);
                        assert(found is None) by {
                            if let Some(i) = found {
                                assert(rv[i as int] == name);
                            }
                        }
                        assert(string_views(missing@)[missing_before.len() as int] == x);
                    }
                }
            }
            assert forall|x: Seq<char>|
                #[trigger] drift_fields(drifts@).contains(x) <==> ((exists|q: int| 0 <= q < k + 1 && sn@[source_order@[q] as int]@ == x)
                    && drifted(retained@, source@, x)) by {
                if drift_fields(drifts@).contains(x) {
                    let m = choose|m: int| 0 <= m < drift_fields(drifts@).len() && drift_fields(drifts@)[m] == x;
                    if m < drifts_before.len() {
                        assert(drift_fields(drifts_before)[m] == x);
                        assert(drift_fields(drifts_before).contains(x));
                    } else {
                        assert(x == name);
                        assert(sn@[source_order@[k as int] as int]@ == x);
                        let i = found->0;
                        assert(drifted(retained@, source@, x)) by {
                            assert(retained@[i as int].name@ == x && source@[j as int].name@ == x);
                        }
                    }
                }
                if (exists|q: int| 0 <= q < k + 1 && sn@[source_order@[q] as int]@ == x) && drifted(retained@, source@, x) {
                    let q = choose|q: int| 0 <= q < k + 1 && sn@[source_order@[q] as int]@ == x;
                    if q < k {
                        assert(drift_fields(drifts_before).contains(x));
                        let m = choose|m: int| 0 <= m < drift_fields(drifts_before).len() && drift_fields(drifts_before)[m] == x;
                        assert(drift_fields(drifts@)[m] == x);
                    } else {
                        assert(x == name);
                        let (i2, j2) = choose|i2: int, j2: int|
                            0 <= i2 < retained@.len() && 0 <= j2 < source@.len() && retained@[i2].name@ == x && source@[j2].name@ == x
                                && definitions_differ(retained@[i2], source@[j2]);
                        assert(rv[i2] == x && sv[j2] == x);
                        if j2 != j as int {
                            lemma_distinct_names(sv, j2, j as int);
                        }
                        assert(found is Some) by {
                            if found is None {
                                assert(rv.contains(x));
                            }
                        }
                        let i = found->0;
                        assert(rv[i as int] == x);
                        if i2 != i as int {
                            lemma_distinct_names(rv, i2, i as int);
                        }
                        assert(drift_fields(drifts@)[drifts_before.len() as int] == x);
                    }
                }
            }
            assert forall|m: int, q: int|
                0 <= m < missing@.len() && k + 1 <= q < ns implies text_lt(#[trigger] missing@[m]@, #[trigger] sn@[source_order@[q] as int]@) by {
                if m == missing_before.len() {
                    assert(missing@[m]@ == name);
                }
            }
            assert forall|m: int, q: int|
                0 <= m < drifts@.len() && k + 1 <= q < ns implies text_lt(#[trigger] drifts@[m].field@, #[trigger] sn@[source_order@[q] as int]@) by {
                if m == drifts_before.len() {
                    assert(drifts@[m].field@ == name);
                }
            }
            assert forall|a: int, b: int| 0 <= a < b < string_views(missing@).len() implies text_lt(
                #[trigger] string_views(missing@)[a],
                #[trigger] string_views(missing@)[b],
            ) by {
                if b == missing_before.len() {
                    assert(text_lt(missing@[a]@, sn@[source_order@[k as int] as int]@));
                } else {
                    assert(string_views(missing_before)[a] == string_views(missing@)[a]);
                    assert(string_views(missing_before)[b] == string_views(missing@)[b]);
                }
            }
            assert forall|a: int, b: int| 0 <= a < b < drift_fields(drifts@).len() implies text_lt(
                #[trigger] drift_fields(drifts@)[a],
                #[trigger] drift_fields(drifts@)[b],
            ) by {
                if b == drifts_before.len() {
                    assert(text_lt(drifts@[a].field@, sn@[source_order@[k as int] as int]@));
                } else {
                    assert(drift_fields(drifts_before)[a] == drift_fields(drifts@)[a]);
                    assert(drift_fields(drifts_before)[b] == drift_fields(drifts@)[b]);
                }
            }
            assert forall|m: int| 0 <= m < drifts@.len() implies #[trigger] drift_of(retained@, source@, drifts@[m]) by {
                if m < drifts_before.len() {
                    assert(drifts@[m] == drifts_before[m]);
                }
            }
        }
        k += 1;
    }
    let unexpected = names_only_in(&rn, &sn, retained, &retained_order);
    proof {
        assert forall|x: Seq<char>| #[trigger] string_views(missing@).contains(x) <==> (sv.contains(x) && !rv.contains(x)) by {
            if sv.contains(x) {
                let j = choose|j: int| 0 <= j < sv.len() && sv[j] == x;
                assert(source_order@.contains(j as usize));
                let q = choose|q: int| 0 <= q < source_order@.len() && source_order@[q] == j as usize;
                assert(char_views(sn@)[j] == sn@[j]@);
                assert(sn@[source_order@[q] as int]@ == x);
            }
            if exists|q: int| 0 <= q < ns && sn@[source_order@[q] as int]@ == x {
                let q = choose|q: int| 0 <= q < ns && sn@[source_order@[q] as int]@ == x;
                assert(sv[source_order@[q] as int] == x);
            }
        }
        assert forall|x: Seq<char>| #[trigger] drift_fields(drifts@).contains(x) <==> drifted(retained@, source@, x) by {
            if drifted(retained@, source@, x) {
                let (i2, j2) = choose|i2: int, j2: int|
                    0 <= i2 < retained@.len() && 0 <= j2 < source@.len() && retained@[i2].name@ == x && source@[j2].name@ == x
                        && definitions_differ(retained@[i2], source@[j2]);
                assert(source_order@.contains(j2 as usize));
                let q = choose|q: int| 0 <= q < source_order@.len() && source_order@[q] == j2 as usize;
                assert(char_views(sn@)[j2] == sn@[j2]@);
                assert(sn@[source_order@[q] as int]@ == x);
            }
        }
    }
    Ok((missing, unexpected, drifts))
}

/// The names of `names` that `others` lacks, in the given increasing
/// order of `names`.
fn names_only_in(
    names: &Vec<Vec<char>>,
    others: &Vec<Vec<char>>,
    defs: &Vec<FeatureAttributeDefinition>,
    order: &Vec<usize>,
) -> (r: Vec<String>)
    requires
        char_views(names@) == names_of(defs@),
        order@.len() == names@.len(),
        forall|q: int| 0 <= q < order@.len() ==> (#[trigger] order@[q] as int) < names@.len(),
        forall|i: int| 0 <= i < names@.len() ==> #[trigger] order@.contains(i as usize),
        forall|a: int, b: int|
            0 <= a < b < order@.len() ==> text_lt(#[trigger] names@[order@[a] as int]@, #[trigger] names@[order@[b] as int]@),
    ensures
        ascending(string_views(r@)),
        forall|x: Seq<char>|
            #[trigger] string_views(r@).contains(x) <==> (char_views(names@).contains(x) && !char_views(others@).contains(x)),
{
    let n = names.len();
    let mut out: Vec<String> = Vec::new();
    proof {
        assert(char_views(names@).len() == names@.len() && names_of(defs@).len() == defs@.len());
    }
    let mut k: usize = 0;
    while k < n
        invariant
            n == names@.len(),
            defs@.len() == n,
            char_views(names@) == names_of(defs@),
            order@.len() == n,
            forall|q: int| 0 <= q < order@.len() ==> (#[trigger] order@[q] as int) < n,
            forall|a: int, b: int|
                0 <= a < b < order@.len() ==> text_lt(#[trigger] names@[order@[a] as int]@, #[trigger] names@[order@[b] as int]@),
            k <= n,
            ascending(string_views(out@)),
            forall|m: int, q: int| 0 <= m < out@.len() && k <= q < n ==> text_lt(#[trigger] out@[m]@, #[trigger] names@[order@[q] as int]@),
            forall|x: Seq<char>|
                #[trigger] string_views(out@).contains(x) <==> ((exists|q: int| 0 <= q < k && names@[order@[q] as int]@ == x)
                    && !char_views(others@).contains(x)),
        decreases n - k,
    {
        let i = order[k];
        let ghost name = names@[i as int]@;
        let ghost before = out@;
        proof {
            assert(char_views(names@)[i as int] == name);
            assert(names_of(defs@)[i as int] == defs@[i as int].name@);
            assert(defs@[i as int].name@ == name);
        }
        let found = position_of(others, &names[i]);
        if found.is_none() {
            out.push(defs[i].name.clone());
        }
        proof {
            assert forall|x: Seq<char>|
                #[trigger] string_views(out@).contains(x) <==> ((exists|q: int| 0 <= q < k + 1 && names@[order@[q] as int]@ == x)
                    && !char_views(others@).contains(x)) by {
                if string_views(out@).contains(x) {
                    let m = choose|m: int| 0 <= m < string_views(out@).len() && string_views(out@)[m] == x;
                    if m < before.len() {
                        assert(string_views(before)[m] == x);
                        assert(string_views(before).contains(x));
                    } else {
                        assert(names@[order@[k as int] as int]@ == x);
                    }
                }
                if (exists|q: int| 0 <= q < k + 1 && names@[order@[q] as int]@ == x) && !char_views(others@).contains(x) {
                    let q = choose|q: int| 0 <= q < k + 1 && names@[order@[q] as int]@ == x;
                    if q < k {
                        assert(string_views(before).contains(x));
                        let m = choose|m: int| 0 <= m < string_views(before).len() && string_views(before)[m] == x;
                        assert(string_views(out@)[m] == x);
                    } else {
                        assert(found is None) by {
                            if let Some(j) = found {
                                assert(char_views(others@)[j as int] == x);
                            }
                        }
                        assert(string_views(out@)[before.len() as int] == x);
                    }
                }
            }
            assert forall|m: int, q: int| 0 <= m < out@.len() && k + 1 <= q < n implies text_lt(#[trigger] out@[m]@, #[trigger] names@[order@[q] as int]@) by {
                if m == before.len() {
                    assert(out@[m]@ == name);
                }
            }
            assert forall|a: int, b: int| 0 <= a < b < string_views(out@).len() implies text_lt(
                #[trigger] string_views(out@)[a],
                #[trigger] string_views(out@)[b],
            ) by {
                if b == before.len() {
                    assert(text_lt(out@[a]@, names@[order@[k as int] as int]@));
                } else {
                    assert(string_views(before)[a] == string_views(out@)[a]);
                    assert(string_views(before)[b] == string_views(out@)[b]);
                }
            }
        }
        k += 1;
    }
    proof {
        assert forall|x: Seq<char>| #[trigger] string_views(out@).contains(x) <==> (char_views(names@).contains(x) && !char_views(others@).contains(x)) by {
            if char_views(names@).contains(x) {
                let i = choose|i: int| 0 <= i < char_views(names@).len() && char_views(names@)[i] == x;
                assert(order@.contains(i as usize));
                let q = choose|q: int| 0 <= q < order@.len() && order@[q] == i as usize;
                assert(names@[order@[q] as int]@ == x);
            }
            if exists|q: int| 0 <= q < n && names@[order@[q] as int]@ == x {
                let q = choose|q: int| 0 <= q < n && names@[order@[q] as int]@ == x;
                assert(char_views(names@)[order@[q] as int] == x);
            }
        }
    }
    out
}

} // verus!
