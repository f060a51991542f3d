//! Turn restrictions: OSM `type=restriction` relations read into
//! candidates, and candidates expanded into prohibited edge paths.

use vstd::prelude::*;

use crate::graph::{AccessMask, ACCESS_BICYCLE, ACCESS_CAR, ACCESS_FOOT, ACCESS_HGV, ACCESS_TRANSIT};
use crate::osm::{tag, tag_value, OsmMember, OsmRelation, OsmTags};
use crate::text::{chars_of, is_lit, starts_with, starts_with_lit, trim, trim_chars, trim_end, trim_start};

verus! {

/// Whether a restriction forbids the path or allows only it.
#[derive(Debug, Clone, Copy, PartialEq, Eq, Structural)]
pub enum RestrictionKind {
    NoTurn,
    OnlyTurn,
}

/// How a restriction passes from its `from` way to its `to` way.
#[derive(Debug, Clone, PartialEq, Eq)]
pub enum ViaSpec {
    Node(i64),
    Ways(Vec<i64>),
}

/// A restriction relation, read but not yet tied to graph edges.
#[derive(Debug, Clone)]
pub struct TurnRestrictionCandidate {
    pub relation_id: i64,
    pub from_way_id: i64,
    pub via: ViaSpec,
    pub to_way_id: i64,
    pub kind: RestrictionKind,
    pub mode_mask: AccessMask,
}

// ---------------------------------------------------------------------------
// Values.
// ---------------------------------------------------------------------------
/// The kind named by a restriction value such as `no_left_turn` or
/// `only_straight_on`.
pub open spec fn kind_named(v: Seq<char>) -> Option<RestrictionKind> {
    let t = trim(v);
    if starts_with(t, "no_"@) {
        Some(RestrictionKind::NoTurn)
    } else if starts_with(t, "only_"@) {
        Some(RestrictionKind::OnlyTurn)
    } else {
        None
    }
}

/// Reads a restriction value.
pub fn parse_restriction_kind(value: &str) -> (r: Option<RestrictionKind>)
    ensures
        r == kind_named(value@),
{
    let chars = chars_of(value);
    let t = trim_chars(&chars);
    if starts_with_lit(&t, "no_") {
        Some(RestrictionKind::NoTurn)
    } else if starts_with_lit(&t, "only_") {
        Some(RestrictionKind::OnlyTurn)
    } else {
        None
    }
}

/// The access bits of a transport mode named in an `except` list.
pub open spec fn mode_bits(m: Seq<char>) -> u16 {
    if m == "motorcar"@ || m == "motor_vehicle:conditional"@ {
        ACCESS_CAR
    } else if m == "motor_vehicle"@ {
        25
    } else if m == "motorcycle"@ || m == "moped"@ {
        ACCESS_CAR
    } else if m == "vehicle"@ {
        27
    } else if m == "hgv"@ || m == "goods"@ {
        ACCESS_HGV
    } else if m == "bus"@ || m == "psv"@ || m == "taxi"@ {
        ACCESS_TRANSIT
    } else if m == "bicycle"@ {
        ACCESS_BICYCLE
    } else if m == "foot"@ || m == "pedestrian"@ {
        ACCESS_FOOT
    } else {
        0
    }
}

/// Access bits of a mode name (car, HGV, transit, bicycle or foot).
pub fn restriction_mode_bits(mode: &Vec<char>) -> (r: u16)
    ensures
        r == mode_bits(mode@),
{
    if is_lit(mode, "motorcar") || is_lit(mode, "motor_vehicle:conditional") {
        ACCESS_CAR
    } else if is_lit(mode, "motor_vehicle") {
        25
    } else if is_lit(mode, "motorcycle") || is_lit(mode, "moped") {
        ACCESS_CAR
    } else if is_lit(mode, "vehicle") {
        27
    } else if is_lit(mode, "hgv") || is_lit(mode, "goods") {
        ACCESS_HGV
    } else if is_lit(mode, "bus") || is_lit(mode, "psv") || is_lit(mode, "taxi") {
        ACCESS_TRANSIT
    } else if is_lit(mode, "bicycle") {
        ACCESS_BICYCLE
    } else if is_lit(mode, "foot") || is_lit(mode, "pedestrian") {
        ACCESS_FOOT
    } else {
        0
    }
}

/// Scan of an `except` list: the bits of the parts finished so far and
/// the part in progress; parts end at `;` or `,`.
pub open spec fn except_scan(s: Seq<char>) -> (u16, Seq<char>)
    decreases s.len(),
{
    if s.len() == 0 {
        (0, seq![])
    } else {
        let (bits, cur) = except_scan(s.drop_last());
        let c = s.last();
        if c == ';' || c == ',' {
            (bits | mode_bits(trim(cur)), seq![])
        } else {
            (bits, cur.push(c))
        }
    }
}

/// The union of the modes of an `except` list.
pub open spec fn except_bits(except: Option<Seq<char>>) -> u16 {
    match except {
        None => 0,
        Some(s) => {
            let (bits, cur) = except_scan(s);
            bits | mode_bits(trim(cur))
        },
    }
}

/// The modes that an `except` tag exempts from a restriction.
pub fn parse_except_modes(except: Option<&str>) -> (r: u16)
    ensures
        r == except_bits(
            match except {
                Some(s) => Some(s@),
                None => None,
            },
        ),
{
    let s = match except {
        None => {
            return 0;
        },
        Some(s) => s,
    };
    let chars = chars_of(s);
    let mut bits: u16 = 0;
    let mut cur: Vec<char> = Vec::new();
    let mut i: usize = 0;
    while i < chars.len()
        invariant
            i <= chars@.len(),
            except_scan(chars@.take(i as int)) == (bits, cur@),
        decreases chars@.len() - i,
    {
        proof {
            assert(chars@.take(i + 1).drop_last() =~= chars@.take(i as int));
        }
        let c = chars[i];
        if c == ';' || c == ',' {
            let t = trim_chars(&cur);
            bits = bits | restriction_mode_bits(&t);
            cur = Vec::new();
        } else {
            cur.push(c);
        }
        i += 1;
    }
    proof {
        assert(chars@.take(chars@.len() as int) =~= chars@);
    }
    let t = trim_chars(&cur);
    bits | restriction_mode_bits(&t)
}

// ---------------------------------------------------------------------------
// The restriction rule of a relation.
// ---------------------------------------------------------------------------
/// Reading state: the kind found so far and the modes; `None` once the
/// relation is refused.
pub type RuleState = Option<(Option<RestrictionKind>, u16)>;

/// One restriction key: where present, its kind must agree with any kind
/// found before, and its modes join the rule.
pub open spec fn rule_step(tags: OsmTags, st: RuleState, key: Seq<char>, mask: u16) -> RuleState {
    match st {
        None => None,
        Some((kind, bits)) => match tag_value(tags, key) {
            None => Some((kind, bits)),
            Some(v) => match kind_named(v) {
                None => None,
                Some(k) => if kind is Some && kind != Some(k) {
                    None
                } else {
                    Some((Some(k), bits | mask))
                },
            },
        },
    }
}

/// The restriction keys in order, each with the modes it restricts.
pub open spec fn rule_fold(tags: OsmTags) -> RuleState {
    let s = rule_step(tags, Some((None, 0)), "restriction"@, 25);
    let s = rule_step(tags, s, "restriction:motor_vehicle"@, 25);
    let s = rule_step(tags, s, "restriction:vehicle"@, 27);
    let s = rule_step(tags, s, "restriction:motorcar"@, ACCESS_CAR);
    let s = rule_step(tags, s, "restriction:motorcycle"@, ACCESS_CAR);
    let s = rule_step(tags, s, "restriction:moped"@, ACCESS_CAR);
    let s = rule_step(tags, s, "restriction:hgv"@, ACCESS_HGV);
    let s = rule_step(tags, s, "restriction:goods"@, ACCESS_HGV);
    let s = rule_step(tags, s, "restriction:bus"@, ACCESS_TRANSIT);
    let s = rule_step(tags, s, "restriction:psv"@, ACCESS_TRANSIT);
    let s = rule_step(tags, s, "restriction:taxi"@, ACCESS_TRANSIT);
    let s = rule_step(tags, s, "restriction:bicycle"@, ACCESS_BICYCLE);
    rule_step(tags, s, "restriction:foot"@, ACCESS_FOOT)
}

/// The kind and modes of a restriction relation's tags: the restriction
/// keys must agree on the kind, and the `except` modes are removed; no
/// mode left means no restriction.
pub open spec fn rule_spec(tags: OsmTags) -> Option<(RestrictionKind, u16)> {
    match rule_fold(tags) {
        None => None,
        Some((kind, bits)) => {
            let b = bits & !except_bits(tag_value(tags, "except"@));
            if b == 0 {
                None
            } else {
                match kind {
                    None => None,
                    Some(k) => Some((k, b)),
                }
            }
        },
    }
}

// ---------------------------------------------------------------------------
// Laws of the restriction keys.
// ---------------------------------------------------------------------------
/// Of the restriction keys, the relation carries `key` alone.
pub open spec fn only_restriction_key(tags: OsmTags, key: Seq<char>) -> bool {
    &&& ("restriction"@ == key || tag_value(tags, "restriction"@) is None)
    &&& ("restriction:motor_vehicle"@ == key || tag_value(tags, "restriction:motor_vehicle"@) is None)
    &&& ("restriction:vehicle"@ == key || tag_value(tags, "restriction:vehicle"@) is None)
    &&& ("restriction:motorcar"@ == key || tag_value(tags, "restriction:motorcar"@) is None)
    &&& ("restriction:motorcycle"@ == key || tag_value(tags, "restriction:motorcycle"@) is None)
    &&& ("restriction:moped"@ == key || tag_value(tags, "restriction:moped"@) is None)
    &&& ("restriction:hgv"@ == key || tag_value(tags, "restriction:hgv"@) is None)
    &&& ("restriction:goods"@ == key || tag_value(tags, "restriction:goods"@) is None)
    &&& ("restriction:bus"@ == key || tag_value(tags, "restriction:bus"@) is None)
    &&& ("restriction:psv"@ == key || tag_value(tags, "restriction:psv"@) is None)
    &&& ("restriction:taxi"@ == key || tag_value(tags, "restriction:taxi"@) is None)
    &&& ("restriction:bicycle"@ == key || tag_value(tags, "restriction:bicycle"@) is None)
    &&& ("restriction:foot"@ == key || tag_value(tags, "restriction:foot"@) is None)
}

/// The transport modes that have a restriction key of their own,
/// `restriction:<mode>`.
pub open spec fn has_mode_key(mode: Seq<char>) -> bool {
    mode == "motor_vehicle"@ || mode == "vehicle"@ || mode == "motorcar"@ || mode == "motorcycle"@ || mode == "moped"@ || mode == "hgv"@ || mode == "goods"@ || mode == "bus"@ || mode == "psv"@ || mode == "taxi"@ || mode == "bicycle"@ || mode == "foot"@
}

/// The restriction keys are pairwise distinct.
proof fn lemma_restriction_keys_distinct()
    ensures
        "restriction:motor_vehicle"@ != "restriction"@,
        "restriction:vehicle"@ != "restriction"@,
        "restriction:motorcar"@ != "restriction"@,
        "restriction:motorcycle"@ != "restriction"@,
        "restriction:moped"@ != "restriction"@,
        "restriction:hgv"@ != "restriction"@,
        "restriction:goods"@ != "restriction"@,
        "restriction:bus"@ != "restriction"@,
        "restriction:psv"@ != "restriction"@,
        "restriction:taxi"@ != "restriction"@,
        "restriction:bicycle"@ != "restriction"@,
        "restriction:foot"@ != "restriction"@,
        "restriction:vehicle"@ != "restriction:motor_vehicle"@,
        "restriction:motorcar"@ != "restriction:motor_vehicle"@,
        "restriction:motorcycle"@ != "restriction:motor_vehicle"@,
        "restriction:moped"@ != "restriction:motor_vehicle"@,
        "restriction:hgv"@ != "restriction:motor_vehicle"@,
        "restriction:goods"@ != "restriction:motor_vehicle"@,
        "restriction:bus"@ != "restriction:motor_vehicle"@,
        "restriction:psv"@ != "restriction:motor_vehicle"@,
        "restriction:taxi"@ != "restriction:motor_vehicle"@,
        "restriction:bicycle"@ != "restriction:motor_vehicle"@,
        "restriction:foot"@ != "restriction:motor_vehicle"@,
        "restriction:motorcar"@ != "restriction:vehicle"@,
        "restriction:motorcycle"@ != "restriction:vehicle"@,
        "restriction:moped"@ != "restriction:vehicle"@,
        "restriction:hgv"@ != "restriction:vehicle"@,
        "restriction:goods"@ != "restriction:vehicle"@,
        "restriction:bus"@ != "restriction:vehicle"@,
        "restriction:psv"@ != "restriction:vehicle"@,
        "restriction:taxi"@ != "restriction:vehicle"@,
        "restriction:bicycle"@ != "restriction:vehicle"@,
        "restriction:foot"@ != "restriction:vehicle"@,
        "restriction:motorcycle"@ != "restriction:motorcar"@,
        "restriction:moped"@ != "restriction:motorcar"@,
        "restriction:hgv"@ != "restriction:motorcar"@,
        "restriction:goods"@ != "restriction:motorcar"@,
        "restriction:bus"@ != "restriction:motorcar"@,
        "restriction:psv"@ != "restriction:motorcar"@,
        "restriction:taxi"@ != "restriction:motorcar"@,
        "restriction:bicycle"@ != "restriction:motorcar"@,
        "restriction:foot"@ != "restriction:motorcar"@,
        "restriction:moped"@ != "restriction:motorcycle"@,
        "restriction:hgv"@ != "restriction:motorcycle"@,
        "restriction:goods"@ != "restriction:motorcycle"@,
        "restriction:bus"@ != "restriction:motorcycle"@,
        "restriction:psv"@ != "restriction:motorcycle"@,
        "restriction:taxi"@ != "restriction:motorcycle"@,
        "restriction:bicycle"@ != "restriction:motorcycle"@,
        "restriction:foot"@ != "restriction:motorcycle"@,
        "restriction:hgv"@ != "restriction:moped"@,
        "restriction:goods"@ != "restriction:moped"@,
        "restriction:bus"@ != "restriction:moped"@,
        "restriction:psv"@ != "restriction:moped"@,
        "restriction:taxi"@ != "restriction:moped"@,
        "restriction:bicycle"@ != "restriction:moped"@,
        "restriction:foot"@ != "restriction:moped"@,
        "restriction:goods"@ != "restriction:hgv"@,
        "restriction:bus"@ != "restriction:hgv"@,
        "restriction:psv"@ != "restriction:hgv"@,
        "restriction:taxi"@ != "restriction:hgv"@,
        "restriction:bicycle"@ != "restriction:hgv"@,
        "restriction:foot"@ != "restriction:hgv"@,
        "restriction:bus"@ != "restriction:goods"@,
        "restriction:psv"@ != "restriction:goods"@,
        "restriction:taxi"@ != "restriction:goods"@,
        "restriction:bicycle"@ != "restriction:goods"@,
        "restriction:foot"@ != "restriction:goods"@,
        "restriction:psv"@ != "restriction:bus"@,
        "restriction:taxi"@ != "restriction:bus"@,
        "restriction:bicycle"@ != "restriction:bus"@,
        "restriction:foot"@ != "restriction:bus"@,
        "restriction:taxi"@ != "restriction:psv"@,
        "restriction:bicycle"@ != "restriction:psv"@,
        "restriction:foot"@ != "restriction:psv"@,
        "restriction:bicycle"@ != "restriction:taxi"@,
        "restriction:foot"@ != "restriction:taxi"@,
        "restriction:foot"@ != "restriction:bicycle"@,
{
    reveal_strlit("restriction");
    reveal_strlit("restriction:motor_vehicle");
    reveal_strlit("restriction:vehicle");
    reveal_strlit("restriction:motorcar");
    reveal_strlit("restriction:motorcycle");
    reveal_strlit("restriction:moped");
    reveal_strlit("restriction:hgv");
    reveal_strlit("restriction:goods");
    reveal_strlit("restriction:bus");
    reveal_strlit("restriction:psv");
    reveal_strlit("restriction:taxi");
    reveal_strlit("restriction:bicycle");
    reveal_strlit("restriction:foot");
    assert("restriction:motor_vehicle"@ != "restriction"@) by {
        assert("restriction:motor_vehicle"@.len() != "restriction"@.len());
    }
    assert("restriction:vehicle"@ != "restriction"@) by {
        assert("restriction:vehicle"@.len() != "restriction"@.len());
    }
    assert("restriction:motorcar"@ != "restriction"@) by {
        assert("restriction:motorcar"@.len() != "restriction"@.len());
    }
    assert("restriction:motorcycle"@ != "restriction"@) by {
        assert("restriction:motorcycle"@.len() != "restriction"@.len());
    }
    assert("restriction:moped"@ != "restriction"@) by {
        assert("restriction:moped"@.len() != "restriction"@.len());
    }
    assert("restriction:hgv"@ != "restriction"@) by {
        assert("restriction:hgv"@.len() != "restriction"@.len());
    }
    assert("restriction:goods"@ != "restriction"@) by {
        assert("restriction:goods"@.len() != "restriction"@.len());
    }
    assert("restriction:bus"@ != "restriction"@) by {
        assert("restriction:bus"@.len() != "restriction"@.len());
    }
    assert("restriction:psv"@ != "restriction"@) by {
        assert("restriction:psv"@.len() != "restriction"@.len());
    }
    assert("restriction:taxi"@ != "restriction"@) by {
        assert("restriction:taxi"@.len() != "restriction"@.len());
    }
    assert("restriction:bicycle"@ != "restriction"@) by {
        assert("restriction:bicycle"@.len() != "restriction"@.len());
    }
    assert("restriction:foot"@ != "restriction"@) by {
        assert("restriction:foot"@.len() != "restriction"@.len());
    }
    assert("restriction:vehicle"@ != "restriction:motor_vehicle"@) by {
        assert("restriction:vehicle"@[12] != "restriction:motor_vehicle"@[12]);
    }
    assert("restriction:motorcar"@ != "restriction:motor_vehicle"@) by {
        assert("restriction:motorcar"@[17] != "restriction:motor_vehicle"@[17]);
    }
    assert("restriction:motorcycle"@ != "restriction:motor_vehicle"@) by {
        assert("restriction:motorcycle"@[17] != "restriction:motor_vehicle"@[17]);
    }
    assert("restriction:moped"@ != "restriction:motor_vehicle"@) by {
        assert("restriction:moped"@[14] != "restriction:motor_vehicle"@[14]);
    }
    assert("restriction:hgv"@ != "restriction:motor_vehicle"@) by {
        assert("restriction:hgv"@[12] != "restriction:motor_vehicle"@[12]);
    }
    assert("restriction:goods"@ != "restriction:motor_vehicle"@) by {
        assert("restriction:goods"@[12] != "restriction:motor_vehicle"@[12]);
    }
    assert("restriction:bus"@ != "restriction:motor_vehicle"@) by {
        assert("restriction:bus"@[12] != "restriction:motor_vehicle"@[12]);
    }
    assert("restriction:psv"@ != "restriction:motor_vehicle"@) by {
        assert("restriction:psv"@[12] != "restriction:motor_vehicle"@[12]);
    }
    assert("restriction:taxi"@ != "restriction:motor_vehicle"@) by {
        assert("restriction:taxi"@[12] != "restriction:motor_vehicle"@[12]);
    }
    assert("restriction:bicycle"@ != "restriction:motor_vehicle"@) by {
        assert("restriction:bicycle"@[12] != "restriction:motor_vehicle"@[12]);
    }
    assert("restriction:foot"@ != "restriction:motor_vehicle"@) by {
        assert("restriction:foot"@[12] != "restriction:motor_vehicle"@[12]);
    }
    assert("restriction:motorcar"@ != "restriction:vehicle"@) by {
        assert("restriction:motorcar"@[12] != "restriction:vehicle"@[12]);
    }
    assert("restriction:motorcycle"@ != "restriction:vehicle"@) by {
        assert("restriction:motorcycle"@[12] != "restriction:vehicle"@[12]);
    }
    assert("restriction:moped"@ != "restriction:vehicle"@) by {
        assert("restriction:moped"@[12] != "restriction:vehicle"@[12]);
    }
    assert("restriction:hgv"@ != "restriction:vehicle"@) by {
        assert("restriction:hgv"@[12] != "restriction:vehicle"@[12]);
    }
    assert("restriction:goods"@ != "restriction:vehicle"@) by {
        assert("restriction:goods"@[12] != "restriction:vehicle"@[12]);
    }
    assert("restriction:bus"@ != "restriction:vehicle"@) by {
        assert("restriction:bus"@[12] != "restriction:vehicle"@[12]);
    }
    assert("restriction:psv"@ != "restriction:vehicle"@) by {
        assert("restriction:psv"@[12] != "restriction:vehicle"@[12]);
    }
    assert("restriction:taxi"@ != "restriction:vehicle"@) by {
        assert("restriction:taxi"@[12] != "restriction:vehicle"@[12]);
    }
    assert("restriction:bicycle"@ != "restriction:vehicle"@) by {
        assert("restriction:bicycle"@[12] != "restriction:vehicle"@[12]);
    }
    assert("restriction:foot"@ != "restriction:vehicle"@) by {
        assert("restriction:foot"@[12] != "restriction:vehicle"@[12]);
    }
    assert("restriction:motorcycle"@ != "restriction:motorcar"@) by {
        assert("restriction:motorcycle"@[18] != "restriction:motorcar"@[18]);
    }
    assert("restriction:moped"@ != "restriction:motorcar"@) by {
        assert("restriction:moped"@[14] != "restriction:motorcar"@[14]);
    }
    assert("restriction:hgv"@ != "restriction:motorcar"@) by {
        assert("restriction:hgv"@[12] != "restriction:motorcar"@[12]);
    }
    assert("restriction:goods"@ != "restriction:motorcar"@) by {
        assert("restriction:goods"@[12] != "restriction:motorcar"@[12]);
    }
    assert("restriction:bus"@ != "restriction:motorcar"@) by {
        assert("restriction:bus"@[12] != "restriction:motorcar"@[12]);
    }
    assert("restriction:psv"@ != "restriction:motorcar"@) by {
        assert("restriction:psv"@[12] != "restriction:motorcar"@[12]);
    }
    assert("restriction:taxi"@ != "restriction:motorcar"@) by {
        assert("restriction:taxi"@[12] != "restriction:motorcar"@[12]);
    }
    assert("restriction:bicycle"@ != "restriction:motorcar"@) by {
        assert("restriction:bicycle"@[12] != "restriction:motorcar"@[12]);
    }
    assert("restriction:foot"@ != "restriction:motorcar"@) by {
        assert("restriction:foot"@[12] != "restriction:motorcar"@[12]);
    }
    assert("restriction:moped"@ != "restriction:motorcycle"@) by {
        assert("restriction:moped"@[14] != "restriction:motorcycle"@[14]);
    }
    assert("restriction:hgv"@ != "restriction:motorcycle"@) by {
        assert("restriction:hgv"@[12] != "restriction:motorcycle"@[12]);
    }
    assert("restriction:goods"@ != "restriction:motorcycle"@) by {
        assert("restriction:goods"@[12] != "restriction:motorcycle"@[12]);
    }
    assert("restriction:bus"@ != "restriction:motorcycle"@) by {
        assert("restriction:bus"@[12] != "restriction:motorcycle"@[12]);
    }
    assert("restriction:psv"@ != "restriction:motorcycle"@) by {
        assert("restriction:psv"@[12] != "restriction:motorcycle"@[12]);
    }
    assert("restriction:taxi"@ != "restriction:motorcycle"@) by {
        assert("restriction:taxi"@[12] != "restriction:motorcycle"@[12]);
    }
    assert("restriction:bicycle"@ != "restriction:motorcycle"@) by {
        assert("restriction:bicycle"@[12] != "restriction:motorcycle"@[12]);
    }
    assert("restriction:foot"@ != "restriction:motorcycle"@) by {
        assert("restriction:foot"@[12] != "restriction:motorcycle"@[12]);
    }
    assert("restriction:hgv"@ != "restriction:moped"@) by {
        assert("restriction:hgv"@[12] != "restriction:moped"@[12]);
    }
    assert("restriction:goods"@ != "restriction:moped"@) by {
        assert("restriction:goods"@[12] != "restriction:moped"@[12]);
    }
    assert("restriction:bus"@ != "restriction:moped"@) by {
        assert("restriction:bus"@[12] != "restriction:moped"@[12]);
    }
    assert("restriction:psv"@ != "restriction:moped"@) by {
        assert("restriction:psv"@[12] != "restriction:moped"@[12]);
    }
    assert("restriction:taxi"@ != "restriction:moped"@) by {
        assert("restriction:taxi"@[12] != "restriction:moped"@[12]);
    }
    assert("restriction:bicycle"@ != "restriction:moped"@) by {
        assert("restriction:bicycle"@[12] != "restriction:moped"@[12]);
    }
    assert("restriction:foot"@ != "restriction:moped"@) by {
        assert("restriction:foot"@[12] != "restriction:moped"@[12]);
    }
    assert("restriction:goods"@ != "restriction:hgv"@) by {
        assert("restriction:goods"@[12] != "restriction:hgv"@[12]);
    }
    assert("restriction:bus"@ != "restriction:hgv"@) by {
        assert("restriction:bus"@[12] != "restriction:hgv"@[12]);
    }
    assert("restriction:psv"@ != "restriction:hgv"@) by {
        assert("restriction:psv"@[12] != "restriction:hgv"@[12]);
    }
    assert("restriction:taxi"@ != "restriction:hgv"@) by {
        assert("restriction:taxi"@[12] != "restriction:hgv"@[12]);
    }
    assert("restriction:bicycle"@ != "restriction:hgv"@) by {
        assert("restriction:bicycle"@[12] != "restriction:hgv"@[12]);
    }
    assert("restriction:foot"@ != "restriction:hgv"@) by {
        assert("restriction:foot"@[12] != "restriction:hgv"@[12]);
    }
    assert("restriction:bus"@ != "restriction:goods"@) by {
        assert("restriction:bus"@[12] != "restriction:goods"@[12]);
    }
    assert("restriction:psv"@ != "restriction:goods"@) by {
        assert("restriction:psv"@[12] != "restriction:goods"@[12]);
    }
    assert("restriction:taxi"@ != "restriction:goods"@) by {
        assert("restriction:taxi"@[12] != "restriction:goods"@[12]);
    }
    assert("restriction:bicycle"@ != "restriction:goods"@) by {
        assert("restriction:bicycle"@[12] != "restriction:goods"@[12]);
    }
    assert("restriction:foot"@ != "restriction:goods"@) by {
        assert("restriction:foot"@[12] != "restriction:goods"@[12]);
    }
    assert("restriction:psv"@ != "restriction:bus"@) by {
        assert("restriction:psv"@[12] != "restriction:bus"@[12]);
    }
    assert("restriction:taxi"@ != "restriction:bus"@) by {
        assert("restriction:taxi"@[12] != "restriction:bus"@[12]);
    }
    assert("restriction:bicycle"@ != "restriction:bus"@) by {
        assert("restriction:bicycle"@[13] != "restriction:bus"@[13]);
    }
    assert("restriction:foot"@ != "restriction:bus"@) by {
        assert("restriction:foot"@[12] != "restriction:bus"@[12]);
    }
    assert("restriction:taxi"@ != "restriction:psv"@) by {
        assert("restriction:taxi"@[12] != "restriction:psv"@[12]);
    }
    assert("restriction:bicycle"@ != "restriction:psv"@) by {
        assert("restriction:bicycle"@[12] != "restriction:psv"@[12]);
    }
    assert("restriction:foot"@ != "restriction:psv"@) by {
        assert("restriction:foot"@[12] != "restriction:psv"@[12]);
    }
    assert("restriction:bicycle"@ != "restriction:taxi"@) by {
        assert("restriction:bicycle"@[12] != "restriction:taxi"@[12]);
    }
    assert("restriction:foot"@ != "restriction:taxi"@) by {
        assert("restriction:foot"@[12] != "restriction:taxi"@[12]);
    }
    assert("restriction:foot"@ != "restriction:bicycle"@) by {
        assert("restriction:foot"@[12] != "restriction:bicycle"@[12]);
    }
}

/// The mode names with keys of their own are told apart from the mode
/// names tried before them.
proof fn lemma_mode_names_distinct()
    ensures
        "motor_vehicle"@ != "motorcar"@,
        "motor_vehicle"@ != "motor_vehicle:conditional"@,
        "vehicle"@ != "motorcar"@,
        "vehicle"@ != "motor_vehicle:conditional"@,
        "vehicle"@ != "motor_vehicle"@,
        "vehicle"@ != "motorcycle"@,
        "vehicle"@ != "moped"@,
        "motorcycle"@ != "motorcar"@,
        "motorcycle"@ != "motor_vehicle:conditional"@,
        "motorcycle"@ != "motor_vehicle"@,
        "moped"@ != "motorcar"@,
        "moped"@ != "motor_vehicle:conditional"@,
        "moped"@ != "motor_vehicle"@,
        "moped"@ != "motorcycle"@,
        "hgv"@ != "motorcar"@,
        "hgv"@ != "motor_vehicle:conditional"@,
        "hgv"@ != "motor_vehicle"@,
        "hgv"@ != "motorcycle"@,
        "hgv"@ != "moped"@,
        "hgv"@ != "vehicle"@,
        "goods"@ != "motorcar"@,
        "goods"@ != "motor_vehicle:conditional"@,
        "goods"@ != "motor_vehicle"@,
        "goods"@ != "motorcycle"@,
        "goods"@ != "moped"@,
        "goods"@ != "vehicle"@,
        "goods"@ != "hgv"@,
        "bus"@ != "motorcar"@,
        "bus"@ != "motor_vehicle:conditional"@,
        "bus"@ != "motor_vehicle"@,
        "bus"@ != "motorcycle"@,
        "bus"@ != "moped"@,
        "bus"@ != "vehicle"@,
        "bus"@ != "hgv"@,
        "bus"@ != "goods"@,
        "psv"@ != "motorcar"@,
        "psv"@ != "motor_vehicle:conditional"@,
        "psv"@ != "motor_vehicle"@,
        "psv"@ != "motorcycle"@,
        "psv"@ != "moped"@,
        "psv"@ != "vehicle"@,
        "psv"@ != "hgv"@,
        "psv"@ != "goods"@,
        "psv"@ != "bus"@,
        "taxi"@ != "motorcar"@,
        "taxi"@ != "motor_vehicle:conditional"@,
        "taxi"@ != "motor_vehicle"@,
        "taxi"@ != "motorcycle"@,
        "taxi"@ != "moped"@,
        "taxi"@ != "vehicle"@,
        "taxi"@ != "hgv"@,
        "taxi"@ != "goods"@,
        "taxi"@ != "bus"@,
        "taxi"@ != "psv"@,
        "bicycle"@ != "motorcar"@,
        "bicycle"@ != "motor_vehicle:conditional"@,
        "bicycle"@ != "motor_vehicle"@,
        "bicycle"@ != "motorcycle"@,
        "bicycle"@ != "moped"@,
        "bicycle"@ != "vehicle"@,
        "bicycle"@ != "hgv"@,
        "bicycle"@ != "goods"@,
        "bicycle"@ != "bus"@,
        "bicycle"@ != "psv"@,
        "bicycle"@ != "taxi"@,
        "foot"@ != "motorcar"@,
        "foot"@ != "motor_vehicle:conditional"@,
        "foot"@ != "motor_vehicle"@,
        "foot"@ != "motorcycle"@,
        "foot"@ != "moped"@,
        "foot"@ != "vehicle"@,
        "foot"@ != "hgv"@,
        "foot"@ != "goods"@,
        "foot"@ != "bus"@,
        "foot"@ != "psv"@,
        "foot"@ != "taxi"@,
        "foot"@ != "bicycle"@,
{
    reveal_strlit("motorcar");
    reveal_strlit("motor_vehicle:conditional");
    reveal_strlit("motor_vehicle");
    reveal_strlit("motorcycle");
    reveal_strlit("moped");
    reveal_strlit("vehicle");
    reveal_strlit("hgv");
    reveal_strlit("goods");
    reveal_strlit("bus");
    reveal_strlit("psv");
    reveal_strlit("taxi");
    reveal_strlit("bicycle");
    reveal_strlit("foot");
    reveal_strlit("pedestrian");
    assert("motor_vehicle"@ != "motorcar"@) by {
        assert("motor_vehicle"@[5] != "motorcar"@[5]);
    }
    assert("motor_vehicle"@ != "motor_vehicle:conditional"@) by {
        assert("motor_vehicle"@.len() != "motor_vehicle:conditional"@.len());
    }
    assert("vehicle"@ != "motorcar"@) by {
        assert("vehicle"@[0] != "motorcar"@[0]);
    }
    assert("vehicle"@ != "motor_vehicle:conditional"@) by {
        assert("vehicle"@[0] != "motor_vehicle:conditional"@[0]);
    }
    assert("vehicle"@ != "motor_vehicle"@) by {
        assert("vehicle"@[0] != "motor_vehicle"@[0]);
    }
    assert("vehicle"@ != "motorcycle"@) by {
        assert("vehicle"@[0] != "motorcycle"@[0]);
    }
    assert("vehicle"@ != "moped"@) by {
        assert("vehicle"@[0] != "moped"@[0]);
    }
    assert("motorcycle"@ != "motorcar"@) by {
        assert("motorcycle"@[6] != "motorcar"@[6]);
    }
    assert("motorcycle"@ != "motor_vehicle:conditional"@) by {
        assert("motorcycle"@[5] != "motor_vehicle:conditional"@[5]);
    }
    assert("motorcycle"@ != "motor_vehicle"@) by {
        assert("motorcycle"@[5] != "motor_vehicle"@[5]);
    }
    assert("moped"@ != "motorcar"@) by {
        assert("moped"@[2] != "motorcar"@[2]);
    }
    assert("moped"@ != "motor_vehicle:conditional"@) by {
        assert("moped"@[2] != "motor_vehicle:conditional"@[2]);
    }
    assert("moped"@ != "motor_vehicle"@) by {
        assert("moped"@[2] != "motor_vehicle"@[2]);
    }
    assert("moped"@ != "motorcycle"@) by {
        assert("moped"@[2] != "motorcycle"@[2]);
    }
    assert("hgv"@ != "motorcar"@) by {
        assert("hgv"@[0] != "motorcar"@[0]);
    }
    assert("hgv"@ != "motor_vehicle:conditional"@) by {
        assert("hgv"@[0] != "motor_vehicle:conditional"@[0]);
    }
    assert("hgv"@ != "motor_vehicle"@) by {
        assert("hgv"@[0] != "motor_vehicle"@[0]);
    }
    assert("hgv"@ != "motorcycle"@) by {
        assert("hgv"@[0] != "motorcycle"@[0]);
    }
    assert("hgv"@ != "moped"@) by {
        assert("hgv"@[0] != "moped"@[0]);
    }
    assert("hgv"@ != "vehicle"@) by {
        assert("hgv"@[0] != "vehicle"@[0]);
    }
    assert("goods"@ != "motorcar"@) by {
        assert("goods"@[0] != "motorcar"@[0]);
    }
    assert("goods"@ != "motor_vehicle:conditional"@) by {
        assert("goods"@[0] != "motor_vehicle:conditional"@[0]);
    }
    assert("goods"@ != "motor_vehicle"@) by {
        assert("goods"@[0] != "motor_vehicle"@[0]);
    }
    assert("goods"@ != "motorcycle"@) by {
        assert("goods"@[0] != "motorcycle"@[0]);
    }
    assert("goods"@ != "moped"@) by {
        assert("goods"@[0] != "moped"@[0]);
    }
    assert("goods"@ != "vehicle"@) by {
        assert("goods"@[0] != "vehicle"@[0]);
    }
    assert("goods"@ != "hgv"@) by {
        assert("goods"@[0] != "hgv"@[0]);
    }
    assert("bus"@ != "motorcar"@) by {
        assert("bus"@[0] != "motorcar"@[0]);
    }
    assert("bus"@ != "motor_vehicle:conditional"@) by {
        assert("bus"@[0] != "motor_vehicle:conditional"@[0]);
    }
    assert("bus"@ != "motor_vehicle"@) by {
        assert("bus"@[0] != "motor_vehicle"@[0]);
    }
    assert("bus"@ != "motorcycle"@) by {
        assert("bus"@[0] != "motorcycle"@[0]);
    }
    assert("bus"@ != "moped"@) by {
        assert("bus"@[0] != "moped"@[0]);
    }
    assert("bus"@ != "vehicle"@) by {
        assert("bus"@[0] != "vehicle"@[0]);
    }
    assert("bus"@ != "hgv"@) by {
        assert("bus"@[0] != "hgv"@[0]);
    }
    assert("bus"@ != "goods"@) by {
        assert("bus"@[0] != "goods"@[0]);
    }
    assert("psv"@ != "motorcar"@) by {
        assert("psv"@[0] != "motorcar"@[0]);
    }
    assert("psv"@ != "motor_vehicle:conditional"@) by {
        assert("psv"@[0] != "motor_vehicle:conditional"@[0]);
    }
    assert("psv"@ != "motor_vehicle"@) by {
        assert("psv"@[0] != "motor_vehicle"@[0]);
    }
    assert("psv"@ != "motorcycle"@) by {
        assert("psv"@[0] != "motorcycle"@[0]);
    }
    assert("psv"@ != "moped"@) by {
        assert("psv"@[0] != "moped"@[0]);
    }
    assert("psv"@ != "vehicle"@) by {
        assert("psv"@[0] != "vehicle"@[0]);
    }
    assert("psv"@ != "hgv"@) by {
        assert("psv"@[0] != "hgv"@[0]);
    }
    assert("psv"@ != "goods"@) by {
        assert("psv"@[0] != "goods"@[0]);
    }
    assert("psv"@ != "bus"@) by {
        assert("psv"@[0] != "bus"@[0]);
    }
    assert("taxi"@ != "motorcar"@) by {
        assert("taxi"@[0] != "motorcar"@[0]);
    }
    assert("taxi"@ != "motor_vehicle:conditional"@) by {
        assert("taxi"@[0] != "motor_vehicle:conditional"@[0]);
    }
    assert("taxi"@ != "motor_vehicle"@) by {
        assert("taxi"@[0] != "motor_vehicle"@[0]);
    }
    assert("taxi"@ != "motorcycle"@) by {
        assert("taxi"@[0] != "motorcycle"@[0]);
    }
    assert("taxi"@ != "moped"@) by {
        assert("taxi"@[0] != "moped"@[0]);
    }
    assert("taxi"@ != "vehicle"@) by {
        assert("taxi"@[0] != "vehicle"@[0]);
    }
    assert("taxi"@ != "hgv"@) by {
        assert("taxi"@[0] != "hgv"@[0]);
    }
    assert("taxi"@ != "goods"@) by {
        assert("taxi"@[0] != "goods"@[0]);
    }
    assert("taxi"@ != "bus"@) by {
        assert("taxi"@[0] != "bus"@[0]);
    }
    assert("taxi"@ != "psv"@) by {
        assert("taxi"@[0] != "psv"@[0]);
    }
    assert("bicycle"@ != "motorcar"@) by {
        assert("bicycle"@[0] != "motorcar"@[0]);
    }
    assert("bicycle"@ != "motor_vehicle:conditional"@) by {
        assert("bicycle"@[0] != "motor_vehicle:conditional"@[0]);
    }
    assert("bicycle"@ != "motor_vehicle"@) by {
        assert("bicycle"@[0] != "motor_vehicle"@[0]);
    }
    assert("bicycle"@ != "motorcycle"@) by {
        assert("bicycle"@[0] != "motorcycle"@[0]);
    }
    assert("bicycle"@ != "moped"@) by {
        assert("bicycle"@[0] != "moped"@[0]);
    }
    assert("bicycle"@ != "vehicle"@) by {
        assert("bicycle"@[0] != "vehicle"@[0]);
    }
    assert("bicycle"@ != "hgv"@) by {
        assert("bicycle"@[0] != "hgv"@[0]);
    }
    assert("bicycle"@ != "goods"@) by {
        assert("bicycle"@[0] != "goods"@[0]);
    }
    assert("bicycle"@ != "bus"@) by {
        assert("bicycle"@[1] != "bus"@[1]);
    }
    assert("bicycle"@ != "psv"@) by {
        assert("bicycle"@[0] != "psv"@[0]);
    }
    assert("bicycle"@ != "taxi"@) by {
        assert("bicycle"@[0] != "taxi"@[0]);
    }
    assert("foot"@ != "motorcar"@) by {
        assert("foot"@[0] != "motorcar"@[0]);
    }
    assert("foot"@ != "motor_vehicle:conditional"@) by {
        assert("foot"@[0] != "motor_vehicle:conditional"@[0]);
    }
    assert("foot"@ != "motor_vehicle"@) by {
        assert("foot"@[0] != "motor_vehicle"@[0]);
    }
    assert("foot"@ != "motorcycle"@) by {
        assert("foot"@[0] != "motorcycle"@[0]);
    }
    assert("foot"@ != "moped"@) by {
        assert("foot"@[0] != "moped"@[0]);
    }
    assert("foot"@ != "vehicle"@) by {
        assert("foot"@[0] != "vehicle"@[0]);
    }
    assert("foot"@ != "hgv"@) by {
        assert("foot"@[0] != "hgv"@[0]);
    }
    assert("foot"@ != "goods"@) by {
        assert("foot"@[0] != "goods"@[0]);
    }
    assert("foot"@ != "bus"@) by {
        assert("foot"@[0] != "bus"@[0]);
    }
    assert("foot"@ != "psv"@) by {
        assert("foot"@[0] != "psv"@[0]);
    }
    assert("foot"@ != "taxi"@) by {
        assert("foot"@[0] != "taxi"@[0]);
    }
    assert("foot"@ != "bicycle"@) by {
        assert("foot"@[0] != "bicycle"@[0]);
    }
}

/// Joining modes to nothing, and removing no modes, leaves them as they are.
proof fn lemma_bits_identities()
    ensures
        forall|x: u16| #[trigger] (0u16 | x) == x,
        forall|x: u16| #[trigger] (x & !0u16) == x,
{
    assert forall|x: u16| #[trigger] (0u16 | x) == x by {
        assert(0u16 | x == x) by (bit_vector);
    }
    assert forall|x: u16| #[trigger] (x & !0u16) == x by {
        assert(x & !0u16 == x) by (bit_vector);
    }
}

/// The restriction keys read as the single key `restriction:<mode>` with
/// a value of kind `k`: only that mode's bits are collected.
proof fn lemma_single_mode_key_fold(tags: OsmTags, mode: Seq<char>, v: Seq<char>)
    requires
        has_mode_key(mode),
        tag_value(tags, "restriction:"@ + mode) == Some(v),
        kind_named(v) is Some,
        only_restriction_key(tags, "restriction:"@ + mode),
    ensures
        rule_fold(tags) == Some((Some(kind_named(v)->0), mode_bits(mode))),
        mode_bits(mode) != 0,
{
    lemma_restriction_keys_distinct();
    lemma_mode_names_distinct();
    lemma_bits_identities();
    reveal_strlit("restriction:");
    reveal_strlit("restriction");
    reveal_strlit("restriction:motor_vehicle");
    reveal_strlit("restriction:vehicle");
    reveal_strlit("restriction:motorcar");
    reveal_strlit("restriction:motorcycle");
    reveal_strlit("restriction:moped");
    reveal_strlit("restriction:hgv");
    reveal_strlit("restriction:goods");
    reveal_strlit("restriction:bus");
    reveal_strlit("restriction:psv");
    reveal_strlit("restriction:taxi");
    reveal_strlit("restriction:bicycle");
    reveal_strlit("restriction:foot");
    reveal_strlit("motorcar");
    reveal_strlit("motor_vehicle:conditional");
    reveal_strlit("motor_vehicle");
    reveal_strlit("motorcycle");
    reveal_strlit("moped");
    reveal_strlit("vehicle");
    reveal_strlit("hgv");
    reveal_strlit("goods");
    reveal_strlit("bus");
    reveal_strlit("psv");
    reveal_strlit("taxi");
    reveal_strlit("bicycle");
    reveal_strlit("foot");
    reveal_strlit("pedestrian");
    if mode == "motor_vehicle"@ {
        assert("restriction:"@ + mode =~= "restriction:motor_vehicle"@);
    }
    if mode == "vehicle"@ {
        assert("restriction:"@ + mode =~= "restriction:vehicle"@);
    }
    if mode == "motorcar"@ {
        assert("restriction:"@ + mode =~= "restriction:motorcar"@);
    }
    if mode == "motorcycle"@ {
        assert("restriction:"@ + mode =~= "restriction:motorcycle"@);
    }
    if mode == "moped"@ {
        assert("restriction:"@ + mode =~= "restriction:moped"@);
    }
    if mode == "hgv"@ {
        assert("restriction:"@ + mode =~= "restriction:hgv"@);
    }
    if mode == "goods"@ {
        assert("restriction:"@ + mode =~= "restriction:goods"@);
    }
    if mode == "bus"@ {
        assert("restriction:"@ + mode =~= "restriction:bus"@);
    }
    if mode == "psv"@ {
        assert("restriction:"@ + mode =~= "restriction:psv"@);
    }
    if mode == "taxi"@ {
        assert("restriction:"@ + mode =~= "restriction:taxi"@);
    }
    if mode == "bicycle"@ {
        assert("restriction:"@ + mode =~= "restriction:bicycle"@);
    }
    if mode == "foot"@ {
        assert("restriction:"@ + mode =~= "restriction:foot"@);
    }
}

/// Law: a relation whose only restriction key is `restriction:<mode>`,
/// with no `except`, restricts exactly the modes that `<mode>` names in an
/// `except` list (so `restriction:hgv` restricts HGVs and nothing else),
/// with the kind its value names.
pub proof fn lemma_mode_key_restricts_its_mode(tags: OsmTags, mode: Seq<char>, v: Seq<char>)
    requires
        has_mode_key(mode),
        tag_value(tags, "restriction:"@ + mode) == Some(v),
        kind_named(v) is Some,
        only_restriction_key(tags, "restriction:"@ + mode),
        tag_value(tags, "except"@) is None,
    ensures
        rule_spec(tags) == Some((kind_named(v)->0, mode_bits(mode))),
        mode_bits(mode) != 0,
{
    lemma_single_mode_key_fold(tags, mode, v);
    lemma_bits_identities();
}

/// Law: a relation whose only restriction key is the plain
/// `restriction`, with no `except`, restricts the motor vehicles: the
/// modes of `restriction:motor_vehicle`, and of `motor_vehicle` in an
/// `except` list.
pub proof fn lemma_plain_key_restricts_motor_vehicles(tags: OsmTags, v: Seq<char>)
    requires
        tag_value(tags, "restriction"@) == Some(v),
        kind_named(v) is Some,
        only_restriction_key(tags, "restriction"@),
        tag_value(tags, "except"@) is None,
    ensures
        rule_spec(tags) == Some((kind_named(v)->0, mode_bits("motor_vehicle"@))),
{
    lemma_restriction_keys_distinct();
    lemma_mode_names_distinct();
    lemma_bits_identities();
    reveal_strlit("restriction");
    reveal_strlit("restriction:motor_vehicle");
    reveal_strlit("restriction:vehicle");
    reveal_strlit("restriction:motorcar");
    reveal_strlit("restriction:motorcycle");
    reveal_strlit("restriction:moped");
    reveal_strlit("restriction:hgv");
    reveal_strlit("restriction:goods");
    reveal_strlit("restriction:bus");
    reveal_strlit("restriction:psv");
    reveal_strlit("restriction:taxi");
    reveal_strlit("restriction:bicycle");
    reveal_strlit("restriction:foot");
    reveal_strlit("motorcar");
    reveal_strlit("motor_vehicle:conditional");
    reveal_strlit("motor_vehicle");
}

/// Lower-case letters and underscores only.
pub open spec fn plain_name(s: Seq<char>) -> bool {
    s.len() > 0 && forall|i: int| 0 <= i < s.len() ==> (('a' as u32) <= (#[trigger] s[i] as u32) <= ('z' as u32)
        || s[i] == '_')
}

/// An `except` list of one plain name is that name's modes.
proof fn lemma_plain_except(s: Seq<char>)
    requires
        plain_name(s),
    ensures
        except_bits(Some(s)) == mode_bits(s),
{
    lemma_plain_scan(s);
    assert(trim_start(s) == s);
    assert(trim_end(s) == s);
    lemma_bits_identities();
}

proof fn lemma_plain_scan(s: Seq<char>)
    requires
        forall|i: int| 0 <= i < s.len() ==> (('a' as u32) <= (#[trigger] s[i] as u32) <= ('z' as u32) || s[i]
            == '_'),
    ensures
        except_scan(s) == (0u16, s),
    decreases s.len(),
{
    if s.len() > 0 {
        let d = s.drop_last();
        assert forall|i: int| 0 <= i < d.len() implies (('a' as u32) <= (#[trigger] d[i] as u32) <= ('z' as u32)
            || d[i] == '_') by {
            assert(d[i] == s[i]);
        }
        lemma_plain_scan(d);
        assert(d.push(s.last()) =~= s);
        let c = s.last();
        assert(('a' as u32) <= (s[s.len() - 1] as u32) <= ('z' as u32) || s[s.len() - 1] == '_');
        assert(c != ';' && c != ',');
    }
}

/// The mode names with keys of their own are plain names.
proof fn lemma_mode_names_plain(mode: Seq<char>)
    requires
        has_mode_key(mode),
    ensures
        plain_name(mode),
{
    if mode == "motor_vehicle"@ {
        reveal_strlit("motor_vehicle");
        assert(plain_name(mode));
    }
    if mode == "vehicle"@ {
        reveal_strlit("vehicle");
        assert(plain_name(mode));
    }
    if mode == "motorcar"@ {
        reveal_strlit("motorcar");
        assert(plain_name(mode));
    }
    if mode == "motorcycle"@ {
        reveal_strlit("motorcycle");
        assert(plain_name(mode));
    }
    if mode == "moped"@ {
        reveal_strlit("moped");
        assert(plain_name(mode));
    }
    if mode == "hgv"@ {
        reveal_strlit("hgv");
        assert(plain_name(mode));
    }
    if mode == "goods"@ {
        reveal_strlit("goods");
        assert(plain_name(mode));
    }
    if mode == "bus"@ {
        reveal_strlit("bus");
        assert(plain_name(mode));
    }
    if mode == "psv"@ {
        reveal_strlit("psv");
        assert(plain_name(mode));
    }
    if mode == "taxi"@ {
        reveal_strlit("taxi");
        assert(plain_name(mode));
    }
    if mode == "bicycle"@ {
        reveal_strlit("bicycle");
        assert(plain_name(mode));
    }
    if mode == "foot"@ {
        reveal_strlit("foot");
        assert(plain_name(mode));
    }
}

/// Law: exempting, in `except`, the very mode that a relation's only
/// restriction key names leaves no mode restricted, so the relation
/// yields no rule.
pub proof fn lemma_mode_key_excepted(tags: OsmTags, mode: Seq<char>, v: Seq<char>)
    requires
        has_mode_key(mode),
        tag_value(tags, "restriction:"@ + mode) == Some(v),
        kind_named(v) is Some,
        only_restriction_key(tags, "restriction:"@ + mode),
        tag_value(tags, "except"@) == Some(mode),
    ensures
        rule_spec(tags) is None,
{
    lemma_single_mode_key_fold(tags, mode, v);
    lemma_mode_names_plain(mode);
    lemma_plain_except(mode);
    let b = mode_bits(mode);
    assert(b & !b == 0u16) by (bit_vector);
}

fn apply_rule_key(tags: &OsmTags, st: RuleState, key: &str, mask: u16) -> (r: RuleState)
    ensures
        r == rule_step(*tags, st, key@, mask),
{
    match st {
        None => None,
        Some((kind, bits)) => match tag(tags, key) {
            None => Some((kind, bits)),
            Some(v) => match parse_restriction_kind(v) {
                None => None,
                Some(k) => {
                    let conflict = match kind {
                        Some(existing) => existing != k,
                        None => false,
                    };
                    if conflict {
                        None
                    } else {
                        Some((Some(k), bits | mask))
                    }
                },
            },
        },
    }
}

/// The kind and access modes that a restriction relation's tags state.
pub fn parse_restriction_rule(tags: &OsmTags) -> (r: Option<(RestrictionKind, AccessMask)>)
    ensures
        match rule_spec(*tags) {
            Some((k, bits)) => r == Some((k, AccessMask(bits))),
            None => r is None,
        },
{
    let s = apply_rule_key(tags, Some((None, 0)), "restriction", 25);
    let s = apply_rule_key(tags, s, "restriction:motor_vehicle", 25);
    let s = apply_rule_key(tags, s, "restriction:vehicle", 27);
    let s = apply_rule_key(tags, s, "restriction:motorcar", ACCESS_CAR);
    let s = apply_rule_key(tags, s, "restriction:motorcycle", ACCESS_CAR);
    let s = apply_rule_key(tags, s, "restriction:moped", ACCESS_CAR);
    let s = apply_rule_key(tags, s, "restriction:hgv", ACCESS_HGV);
    let s = apply_rule_key(tags, s, "restriction:goods", ACCESS_HGV);
    let s = apply_rule_key(tags, s, "restriction:bus", ACCESS_TRANSIT);
    let s = apply_rule_key(tags, s, "restriction:psv", ACCESS_TRANSIT);
    let s = apply_rule_key(tags, s, "restriction:taxi", ACCESS_TRANSIT);
    let s = apply_rule_key(tags, s, "restriction:bicycle", ACCESS_BICYCLE);
    let s = apply_rule_key(tags, s, "restriction:foot", ACCESS_FOOT);
    match s {
        None => None,
        Some((kind, bits)) => {
            let except = parse_except_modes(tag(tags, "except"));
            let b = bits & !except;
            if b == 0 {
                None
            } else {
                match kind {
                    None => None,
                    Some(k) => Some((k, AccessMask(b))),
                }
            }
        },
    }
}

// ---------------------------------------------------------------------------
// Relations.
// ---------------------------------------------------------------------------
/// Fills an empty slot, or checks that a filled one holds `value`.
pub fn assign_unique(slot: &mut Option<i64>, value: i64) -> (r: Option<()>)
    ensures
        match *old(slot) {
            None => r is Some && *final(slot) == Some(value),
            Some(existing) => if existing == value {
                r is Some && *final(slot) == *old(slot)
            } else {
                r is None && *final(slot) == *old(slot)
            },
        },
{
    match slot {
        Some(existing) => {
            if *existing != value {
                None
            } else {
                Some(())
            }
        },
        None => {
            *slot = Some(value);
            Some(())
        },
    }
}

/// Members read so far: from way, via node, via ways, to way; `None` once
/// a role is filled twice with different members.
pub type MemberState = Option<(Option<i64>, Option<i64>, Seq<i64>, Option<i64>)>;

pub open spec fn assign_spec(slot: Option<i64>, value: i64) -> Option<Option<i64>> {
    match slot {
        None => Some(Some(value)),
        Some(existing) => if existing == value {
            Some(slot)
        } else {
            None
        },
    }
}

pub open spec fn member_step(st: MemberState, role: Seq<char>, member: OsmMember) -> MemberState {
    match st {
        None => None,
        Some((from, via_node, via_ways, to)) => match member {
            OsmMember::Way(id) => if role == "from"@ {
                match assign_spec(from, id) {
                    None => None,
                    Some(f) => Some((f, via_node, via_ways, to)),
                }
            } else if role == "via"@ {
                Some((from, via_node, via_ways.push(id), to))
            } else if role == "to"@ {
                match assign_spec(to, id) {
                    None => None,
                    Some(t) => Some((from, via_node, via_ways, t)),
                }
            } else {
                Some((from, via_node, via_ways, to))
            },
            OsmMember::Node(id) => if role == "via"@ {
                match assign_spec(via_node, id) {
                    None => None,
                    Some(v) => Some((from, v, via_ways, to)),
                }
            } else {
                Some((from, via_node, via_ways, to))
            },
            OsmMember::Relation(_) => Some((from, via_node, via_ways, to)),
        },
    }
}

pub open spec fn members_spec(refs: Seq<crate::osm::RelationMember>) -> MemberState
    decreases refs.len(),
{
    if refs.len() == 0 {
        Some((None, None, seq![], None))
    } else {
        member_step(members_spec(refs.drop_last()), refs.last().role@, refs.last().member)
    }
}

/// A candidate as plain values: relation, from way, via node or via
/// ways, to way, kind, modes.
pub type CandidateView = (i64, i64, Result<i64, Seq<i64>>, i64, RestrictionKind, u16);

pub open spec fn candidate_view(c: TurnRestrictionCandidate) -> CandidateView {
    (
        c.relation_id,
        c.from_way_id,
        match c.via {
            ViaSpec::Node(n) => Ok(n),
            ViaSpec::Ways(w) => Err(w@),
        },
        c.to_way_id,
        c.kind,
        c.mode_mask.0,
    )
}

/// What a relation gives: a `type=restriction` relation with a valid
/// rule, one from way, one to way, and either one via node or via ways.
pub open spec fn relation_spec(rel: OsmRelation) -> Option<CandidateView> {
    if tag_value(rel.tags, "type"@) != Some("restriction"@) {
        None
    } else {
        match rule_spec(rel.tags) {
            None => None,
            Some((kind, bits)) => match members_spec(rel.refs@) {
                None => None,
                Some((from, via_node, via_ways, to)) => {
                    let via: Option<Result<i64, Seq<i64>>> = match via_node {
                        Some(n) => if via_ways.len() == 0 {
                            Some(Ok(n))
                        } else {
                            None
                        },
                        None => if via_ways.len() > 0 {
                            Some(Err(via_ways))
                        } else {
                            None
                        },
                    };
                    if via is None || from is None || to is None {
                        None
                    } else {
                        Some((rel.id, from->Some_0, via->Some_0, to->Some_0, kind, bits))
                    }
                },
            },
        }
    }
}

/// Reads an OSM relation as a turn-restriction candidate.
#[verifier::rlimit(80)]
pub fn parse_turn_restriction_relation(relation: &OsmRelation) -> (r: Option<TurnRestrictionCandidate>)
    ensures
        match relation_spec(*relation) {
            Some(v) => r is Some && candidate_view(r->Some_0) == v,
            None => r is None,
        },
{
    let is_restriction = match tag(&relation.tags, "type") {
        Some(t) => crate::text::str_eq(t, "restriction"),
        None => false,
    };
    if !is_restriction {
        return None;
    }
    let (kind, mode_mask) = match parse_restriction_rule(&relation.tags) {
        Some(rule) => rule,
        None => {
            return None;
        },
    };
    let mut from_way: Option<i64> = None;
    let mut via_node: Option<i64> = None;
    let mut via_ways: Vec<i64> = Vec::new();
    let mut to_way: Option<i64> = None;
    let mut i: usize = 0;
    proof {
        assert(relation.refs@.take(0) =~= Seq::<crate::osm::RelationMember>::empty());
    }
    while i < relation.refs.len()
        invariant
            i <= relation.refs@.len(),
            members_spec(relation.refs@.take(i as int)) == Some((from_way, via_node, via_ways@, to_way)),
        decreases relation.refs@.len() - i,
    {
        proof {
            assert(relation.refs@.take(i + 1).drop_last() =~= relation.refs@.take(i as int));
        }
        let reference = &relation.refs[i];
        let role = reference.role.as_str();
        let ok = match reference.member {
            OsmMember::Way(id) => {
                if crate::text::str_eq(role, "from") {
                    assign_unique(&mut from_way, id)
                } else if crate::text::str_eq(role, "via") {
                    via_ways.push(id);
                    Some(())
                } else if crate::text::str_eq(role, "to") {
                    assign_unique(&mut to_way, id)
                } else {
                    Some(())
                }
            },
            OsmMember::Node(id) => {
                if crate::text::str_eq(role, "via") {
                    assign_unique(&mut via_node, id)
                } else {
                    Some(())
                }
            },
            OsmMember::Relation(_) => Some(()),
        };
        if ok.is_none() {
            proof {
                assert(members_spec(relation.refs@.take(i + 1)) is None);
                lemma_members_none_sticky(relation.refs@, i + 1);
            }
            return None;
        }
        i += 1;
    }
    proof {
        assert(relation.refs@.take(relation.refs@.len() as int) =~= relation.refs@);
    }
    let via = match via_node {
        Some(n) => {
            if via_ways.len() == 0 {
                ViaSpec::Node(n)
            } else {
                return None;
            }
        },
        None => {
            if via_ways.len() > 0 {
                ViaSpec::Ways(via_ways)
            } else {
                return None;
            }
        },
    };
    match (from_way, to_way) {
        (Some(from), Some(to)) => Some(
            TurnRestrictionCandidate {
                relation_id: relation.id,
                from_way_id: from,
                via,
                to_way_id: to,
                kind,
                mode_mask,
            },
        ),
        _ => None,
    }
}

proof fn lemma_members_none_sticky(refs: Seq<crate::osm::RelationMember>, k: int)
    requires
        0 <= k <= refs.len(),
        members_spec(refs.take(k)) is None,
    ensures
        members_spec(refs) is None,
    decreases refs.len() - k,
{
    if k < refs.len() {
        assert(refs.take(k + 1).drop_last() =~= refs.take(k));
        lemma_members_none_sticky(refs, k + 1);
    } else {
        assert(refs.take(k) =~= refs);
    }
}

} // verus!
