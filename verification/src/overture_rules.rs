//! The rules that turn an Overture road segment's attributes into routing
//! attributes: its highway class, default access, mode-scoped access
//! rules, lane counts, surfaces and the flags that make it unroutable.
//!
//! Where a rule applies to part of a segment, whether it covers the chunk at
//! hand is decided by the caller from the rule's linear range and handed in
//! as `covers_chunk`.

use vstd::prelude::*;

use crate::graph::{AccessMask, HighwayClass, SurfaceClass, ACCESS_BICYCLE, ACCESS_CAR, ACCESS_FOOT, ACCESS_HGV, ACCESS_TRANSIT};
use crate::text::str_eq;

verus! {

/// Every travel mode.
pub const ALL_MODES: u16 = ACCESS_CAR | ACCESS_BICYCLE | ACCESS_FOOT | ACCESS_TRANSIT | ACCESS_HGV;

/// The motorized modes: car, transit and heavy goods vehicles.
pub const MOTOR_MODES: u16 = ACCESS_CAR | ACCESS_TRANSIT | ACCESS_HGV;

/// The `when` scope of an Overture rule. Only the presence of the purpose,
/// recognition and vehicle scopes matters, so they are kept as counts.
#[derive(Debug, Clone)]
pub struct RuleCondition {
    pub heading: Option<String>,
    pub during: Option<String>,
    pub mode: Option<Vec<String>>,
    pub using_count: usize,
    pub recognized_count: usize,
    pub vehicle_count: usize,
}

/// A rule scoped by time of day, purpose, recognition or vehicle cannot be
/// put on a static edge.
pub open spec fn conditional(c: RuleCondition) -> bool {
    c.during is Some || c.using_count > 0 || c.recognized_count > 0 || c.vehicle_count > 0
}

impl RuleCondition {
    /// Whether the rule is scoped by time of day, purpose, recognition or
    /// vehicle, so that it is skipped on static edges.
    pub fn is_conditional(&self) -> (r: bool)
        ensures
            r == conditional(*self),
    {
        self.during.is_some() || self.using_count > 0 || self.recognized_count > 0 || self.vehicle_count > 0
    }
}

/// The highway class of an Overture road class and subclass.
pub open spec fn overture_class(class: Option<Seq<char>>, subclass: Option<Seq<char>>) -> HighwayClass {
    let link = subclass == Some("link"@);
    let c = match class {
        Some(c) => c,
        None => "unknown"@,
    };
    if c == "motorway"@ {
        if link {
            HighwayClass::MotorwayLink
        } else {
            HighwayClass::Motorway
        }
    } else if c == "trunk"@ {
        if link {
            HighwayClass::TrunkLink
        } else {
            HighwayClass::Trunk
        }
    } else if c == "primary"@ {
        if link {
            HighwayClass::PrimaryLink
        } else {
            HighwayClass::Primary
        }
    } else if c == "secondary"@ {
        if link {
            HighwayClass::SecondaryLink
        } else {
            HighwayClass::Secondary
        }
    } else if c == "tertiary"@ {
        if link {
            HighwayClass::TertiaryLink
        } else {
            HighwayClass::Tertiary
        }
    } else if c == "residential"@ {
        HighwayClass::Residential
    } else if c == "living_street"@ {
        HighwayClass::LivingStreet
    } else if c == "unclassified"@ {
        HighwayClass::Unclassified
    } else if c == "service"@ {
        HighwayClass::Service
    } else if c == "pedestrian"@ {
        HighwayClass::Pedestrian
    } else if c == "footway"@ {
        HighwayClass::Footway
    } else if c == "steps"@ {
        HighwayClass::Steps
    } else if c == "path"@ {
        HighwayClass::Path
    } else if c == "track"@ {
        HighwayClass::Track
    } else if c == "cycleway"@ {
        HighwayClass::Cycleway
    } else if c == "bridleway"@ {
        HighwayClass::Bridleway
    } else {
        HighwayClass::Unknown
    }
}

/// The text of an optional string slice.
pub open spec fn opt_text(s: Option<&str>) -> Option<Seq<char>> {
    match s {
        Some(s) => Some(s@),
        None => None,
    }
}

/// The highway class of an Overture road class and subclass; a `link`
/// subclass selects the link class of the major roads.
pub fn classify_overture_road(class: Option<&str>, subclass: Option<&str>) -> (r: HighwayClass)
    ensures
        r == overture_class(opt_text(class), opt_text(subclass)),
{
    let link = match subclass {
        Some(s) => str_eq(s, "link"),
        None => false,
    };
    proof {
        if link {
            assert(opt_text(subclass) == Some("link"@));
        }
        if opt_text(subclass) == Some("link"@) {
            assert(link);
        }
    }
    let c = match class {
        Some(c) => c,
        None => "unknown",
    };
    if str_eq(c, "motorway") {
        if link {
            HighwayClass::MotorwayLink
        } else {
            HighwayClass::Motorway
        }
    } else if str_eq(c, "trunk") {
        if link {
            HighwayClass::TrunkLink
        } else {
            HighwayClass::Trunk
        }
    } else if str_eq(c, "primary") {
        if link {
            HighwayClass::PrimaryLink
        } else {
            HighwayClass::Primary
        }
    } else if str_eq(c, "secondary") {
        if link {
            HighwayClass::SecondaryLink
        } else {
            HighwayClass::Secondary
        }
    } else if str_eq(c, "tertiary") {
        if link {
            HighwayClass::TertiaryLink
        } else {
            HighwayClass::Tertiary
        }
    } else if str_eq(c, "residential") {
        HighwayClass::Residential
    } else if str_eq(c, "living_street") {
        HighwayClass::LivingStreet
    } else if str_eq(c, "unclassified") {
        HighwayClass::Unclassified
    } else if str_eq(c, "service") {
        HighwayClass::Service
    } else if str_eq(c, "pedestrian") {
        HighwayClass::Pedestrian
    } else if str_eq(c, "footway") {
        HighwayClass::Footway
    } else if str_eq(c, "steps") {
        HighwayClass::Steps
    } else if str_eq(c, "path") {
        HighwayClass::Path
    } else if str_eq(c, "track") {
        HighwayClass::Track
    } else if str_eq(c, "cycleway") {
        HighwayClass::Cycleway
    } else if str_eq(c, "bridleway") {
        HighwayClass::Bridleway
    } else {
        HighwayClass::Unknown
    }
}

/// The modes a road class admits before its access rules apply.
pub open spec fn class_access(class: Option<Seq<char>>) -> u16 {
    let c = match class {
        Some(c) => c,
        None => "unknown"@,
    };
    if c == "motorway"@ {
        ACCESS_CAR | ACCESS_HGV
    } else if c == "trunk"@ || c == "primary"@ || c == "secondary"@ || c == "tertiary"@ || c == "residential"@
        || c == "living_street"@ || c == "unclassified"@ || c == "service"@ || c == "track"@ {
        ACCESS_CAR | ACCESS_BICYCLE | ACCESS_FOOT | ACCESS_HGV
    } else if c == "pedestrian"@ || c == "footway"@ || c == "steps"@ || c == "path"@ || c == "bridleway"@ {
        ACCESS_FOOT
    } else if c == "cycleway"@ {
        ACCESS_BICYCLE | ACCESS_FOOT
    } else {
        ACCESS_CAR | ACCESS_BICYCLE | ACCESS_FOOT
    }
}

/// The modes a road class admits before its access rules apply.
pub fn base_access_for_class(class: Option<&str>) -> (r: u16)
    ensures
        r == class_access(opt_text(class)),
{
    let c = match class {
        Some(c) => c,
        None => "unknown",
    };
    if str_eq(c, "motorway") {
        ACCESS_CAR | ACCESS_HGV
    } else if str_eq(c, "trunk") || str_eq(c, "primary") || str_eq(c, "secondary") || str_eq(c, "tertiary")
        || str_eq(c, "residential") || str_eq(c, "living_street") || str_eq(c, "unclassified") || str_eq(
        c,
        "service",
    ) || str_eq(c, "track") {
        ACCESS_CAR | ACCESS_BICYCLE | ACCESS_FOOT | ACCESS_HGV
    } else if str_eq(c, "pedestrian") || str_eq(c, "footway") || str_eq(c, "steps") || str_eq(c, "path")
        || str_eq(c, "bridleway") {
        ACCESS_FOOT
    } else if str_eq(c, "cycleway") {
        ACCESS_BICYCLE | ACCESS_FOOT
    } else {
        ACCESS_CAR | ACCESS_BICYCLE | ACCESS_FOOT
    }
}

/// The access bits of an Overture travel mode; unknown modes have none.
pub open spec fn mode_bits(mode: Seq<char>) -> u16 {
    if mode == "vehicle"@ {
        ACCESS_CAR | ACCESS_BICYCLE | ACCESS_HGV | ACCESS_TRANSIT
    } else if mode == "motor_vehicle"@ {
        MOTOR_MODES
    } else if mode == "car"@ || mode == "motorcycle"@ {
        ACCESS_CAR
    } else if mode == "truck"@ || mode == "hgv"@ {
        ACCESS_HGV
    } else if mode == "bus"@ {
        ACCESS_TRANSIT
    } else if mode == "foot"@ {
        ACCESS_FOOT
    } else if mode == "bicycle"@ {
        ACCESS_BICYCLE
    } else {
        0
    }
}

/// The access bits of an Overture travel mode.
pub fn travel_mode_bits(mode: &str) -> (r: u16)
    ensures
        r == mode_bits(mode@),
{
    if str_eq(mode, "vehicle") {
        ACCESS_CAR | ACCESS_BICYCLE | ACCESS_HGV | ACCESS_TRANSIT
    } else if str_eq(mode, "motor_vehicle") {
        MOTOR_MODES
    } else if str_eq(mode, "car") || str_eq(mode, "motorcycle") {
        ACCESS_CAR
    } else if str_eq(mode, "truck") || str_eq(mode, "hgv") {
        ACCESS_HGV
    } else if str_eq(mode, "bus") {
        ACCESS_TRANSIT
    } else if str_eq(mode, "foot") {
        ACCESS_FOOT
    } else if str_eq(mode, "bicycle") {
        ACCESS_BICYCLE
    } else {
        0
    }
}

/// The union of the access bits of a list of modes.
pub open spec fn modes_union(modes: Seq<String>) -> u16
    decreases modes.len(),
{
    if modes.len() == 0 {
        0
    } else {
        modes_union(modes.drop_last()) | mode_bits(modes.last()@)
    }
}

/// The modes a condition lists, if it lists any.
pub open spec fn listed_modes(when: Option<RuleCondition>) -> Option<Seq<String>> {
    match when {
        Some(c) => match c.mode {
            Some(m) => if m@.len() > 0 {
                Some(m@)
            } else {
                None
            },
            None => None,
        },
        None => None,
    }
}

/// The modes a rule applies to: those it lists, or all modes.
pub open spec fn scoped_modes(when: Option<RuleCondition>) -> u16 {
    match listed_modes(when) {
        Some(m) => modes_union(m),
        None => ALL_MODES,
    }
}

/// The union of the access bits of a non-empty list of modes.
fn union_of_modes(modes: &Vec<String>) -> (r: u16)
    ensures
        r == modes_union(modes@),
{
    let mut bits: u16 = 0;
    let mut i: usize = 0;
    while i < modes.len()
        invariant
            i <= modes@.len(),
            bits == modes_union(modes@.take(i as int)),
        decreases modes@.len() - i,
    {
        proof {
            assert(modes@.take(i + 1).drop_last() =~= modes@.take(i as int));
        }
        bits = bits | travel_mode_bits(modes[i].as_str());
        i += 1;
    }
    proof {
        assert(modes@.take(modes@.len() as int) =~= modes@);
    }
    bits
}

/// The modes a rule applies to: the modes its condition lists, or every
/// mode when it lists none.
pub fn when_mode_bits(when: Option<&RuleCondition>) -> (r: u16)
    ensures
        r == scoped_modes(match when {
            Some(c) => Some(*c),
            None => None,
        }),
{
    match when {
        Some(c) => match &c.mode {
            Some(modes) => {
                if modes.len() > 0 {
                    union_of_modes(modes)
                } else {
                    ALL_MODES
                }
            },
            None => ALL_MODES,
        },
        None => ALL_MODES,
    }
}

/// An access rule of a segment: `denied`, `allowed` or `designated`,
/// scoped by its condition, and whether its range covers the chunk.
#[derive(Debug, Clone)]
pub struct AccessRule {
    pub access_type: Option<String>,
    pub when: Option<RuleCondition>,
    pub covers_chunk: bool,
}

/// The heading a condition restricts a rule to.
pub open spec fn heading_of(when: Option<RuleCondition>) -> Option<Seq<char>> {
    match when {
        Some(c) => match c.heading {
            Some(h) => Some(h@),
            None => None,
        },
        None => None,
    }
}

/// Whether a rule with this heading applies forward and in reverse.
pub open spec fn headings(h: Option<Seq<char>>) -> (bool, bool) {
    if h == Some("forward"@) {
        (true, false)
    } else if h == Some("backward"@) {
        (false, true)
    } else {
        (true, true)
    }
}

/// The text of an optional string.
pub open spec fn opt_string(s: Option<String>) -> Option<Seq<char>> {
    match s {
        Some(s) => Some(s@),
        None => None,
    }
}

/// One access rule applied to the forward and reverse modes of a chunk: a
/// rule that does not cover the chunk, or is conditional, changes nothing;
/// a denial removes its modes; an allowance grants the modes it lists, or,
/// listing none, the class defaults.
pub open spec fn access_step(base: u16, state: (u16, u16), rule: AccessRule) -> (u16, u16) {
    if !rule.covers_chunk || (rule.when is Some && conditional(rule.when->0)) {
        state
    } else {
        let bits = scoped_modes(rule.when);
        let (forward, reverse) = headings(heading_of(rule.when));
        let t = opt_string(rule.access_type);
        if t == Some("denied"@) {
            (
                if forward {
                    state.0 & !bits
                } else {
                    state.0
                },
                if reverse {
                    state.1 & !bits
                } else {
                    state.1
                },
            )
        } else if t == Some("allowed"@) || t == Some("designated"@) {
            let granted = if listed_modes(rule.when) is Some {
                bits
            } else {
                base
            };
            (
                if forward {
                    state.0 | granted
                } else {
                    state.0
                },
                if reverse {
                    state.1 | granted
                } else {
                    state.1
                },
            )
        } else {
            state
        }
    }
}

/// The access rules applied in order, from the class defaults.
pub open spec fn access_fold(base: u16, rules: Seq<AccessRule>) -> (u16, u16)
    decreases rules.len(),
{
    if rules.len() == 0 {
        (base, base)
    } else {
        access_step(base, access_fold(base, rules.drop_last()), rules.last())
    }
}

/// The forward and reverse access of a chunk: the class defaults with each
/// access rule applied in order.
pub fn chunk_access(base_access: u16, rules: &Vec<AccessRule>) -> (r: (AccessMask, AccessMask))
    ensures
        (r.0.0, r.1.0) == access_fold(base_access, rules@),
{
    let mut forward = base_access;
    let mut reverse = base_access;
    let mut i: usize = 0;
    while i < rules.len()
        invariant
            i <= rules@.len(),
            (forward, reverse) == access_fold(base_access, rules@.take(i as int)),
        decreases rules@.len() - i,
    {
        proof {
            assert(rules@.take(i + 1).drop_last() =~= rules@.take(i as int));
        }
        let rule = &rules[i];
        let skip = !rule.covers_chunk || match &rule.when {
            Some(when) => when.is_conditional(),
            None => false,
        };
        if !skip {
            let mode_bits = when_mode_bits(rule.when.as_ref());
            let heading: Option<&str> = match &rule.when {
                Some(when) => match &when.heading {
                    Some(h) => Some(h.as_str()),
                    None => None,
                },
                None => None,
            };
            let (apply_forward, apply_reverse) = match heading {
                Some(h) => {
                    if str_eq(h, "forward") {
                        (true, false)
                    } else if str_eq(h, "backward") {
                        (false, true)
                    } else {
                        (true, true)
                    }
                },
                None => (true, true),
            };
            proof {
                assert(opt_text(heading) == heading_of(rule.when));
                assert((apply_forward, apply_reverse) == headings(heading_of(rule.when)));
            }
            let denied = match &rule.access_type {
                Some(t) => str_eq(t.as_str(), "denied"),
                None => false,
            };
            let allowed = match &rule.access_type {
                Some(t) => str_eq(t.as_str(), "allowed") || str_eq(t.as_str(), "designated"),
                None => false,
            };
            if denied {
                if apply_forward {
                    forward = forward & !mode_bits;
                }
                if apply_reverse {
                    reverse = reverse & !mode_bits;
                }
            } else if allowed {
                let lists_modes = match &rule.when {
                    Some(when) => match &when.mode {
                        Some(modes) => modes.len() > 0,
                        None => false,
                    },
                    None => false,
                };
                let granted = if lists_modes {
                    mode_bits
                } else {
                    base_access
                };
                if apply_forward {
                    forward = forward | granted;
                }
                if apply_reverse {
                    reverse = reverse | granted;
                }
            }
        }
        i += 1;
    }
    proof {
        assert(rules@.take(rules@.len() as int) =~= rules@);
    }
    (AccessMask::new(forward), AccessMask::new(reverse))
}

/// A lane entry: either one lane with its direction, or a list of lane
/// directions scoped to part of the segment.
#[derive(Debug, Clone)]
pub struct LaneRule {
    pub direction: Option<String>,
    pub lanes: Option<Vec<Option<String>>>,
    pub covers_chunk: bool,
}

/// What one lane direction adds to the forward and reverse counts, and
/// whether it is a direction at all.
pub open spec fn lane_delta(d: Option<Seq<char>>) -> (int, int, bool) {
    if d == Some("forward"@) {
        (1, 0, true)
    } else if d == Some("backward"@) {
        (0, 1, true)
    } else if d == Some("both_ways"@) || d == Some("alternating"@) {
        (1, 1, true)
    } else {
        (0, 0, false)
    }
}

pub open spec fn add_counts(a: (int, int, bool), b: (int, int, bool)) -> (int, int, bool) {
    (a.0 + b.0, a.1 + b.1, a.2 || b.2)
}

/// The counts of a list of lane directions.
pub open spec fn directions_count(ds: Seq<Option<String>>) -> (int, int, bool)
    decreases ds.len(),
{
    if ds.len() == 0 {
        (0, 0, false)
    } else {
        add_counts(directions_count(ds.drop_last()), lane_delta(opt_string(ds.last())))
    }
}

/// The counts one lane rule contributes: its scoped lanes where it covers
/// the chunk, or its own direction.
pub open spec fn rule_count(rule: LaneRule) -> (int, int, bool) {
    match rule.lanes {
        Some(ls) => if rule.covers_chunk {
            directions_count(ls@)
        } else {
            (0, 0, false)
        },
        None => lane_delta(opt_string(rule.direction)),
    }
}

/// The counts of the lane rules.
pub open spec fn lanes_count(rules: Seq<LaneRule>) -> (int, int, bool)
    decreases rules.len(),
{
    if rules.len() == 0 {
        (0, 0, false)
    } else {
        add_counts(lanes_count(rules.drop_last()), rule_count(rules.last()))
    }
}

/// A lane count as stored: none for no lanes, at most 255.
pub open spec fn clamped(n: int) -> Option<u8> {
    if n <= 0 {
        None
    } else if n >= 255 {
        Some(255u8)
    } else {
        Some(n as u8)
    }
}

/// Counts up to 255.
pub open spec fn capped(n: int) -> int {
    if n >= 255 {
        255
    } else {
        n
    }
}

/// The text of an optional borrowed string.
pub open spec fn opt_ref_text(s: Option<&String>) -> Option<Seq<char>> {
    match s {
        Some(s) => Some(s@),
        None => None,
    }
}

/// Counts a lane direction into capped counters.
fn count_direction(d: Option<&String>, forward: &mut u16, reverse: &mut u16, seen: &mut bool)
    requires
        *old(forward) <= 255,
        *old(reverse) <= 255,
    ensures
        *final(forward) == capped(*old(forward) + lane_delta(opt_ref_text(d)).0),
        *final(reverse) == capped(*old(reverse) + lane_delta(opt_ref_text(d)).1),
        *final(seen) == (*old(seen) || lane_delta(opt_ref_text(d)).2),
{
    let (f, r, s) = match d {
        Some(text) => {
            if str_eq(text.as_str(), "forward") {
                (true, false, true)
            } else if str_eq(text.as_str(), "backward") {
                (false, true, true)
            } else if str_eq(text.as_str(), "both_ways") || str_eq(text.as_str(), "alternating") {
                (true, true, true)
            } else {
                (false, false, false)
            }
        },
        None => (false, false, false),
    };
    if f && *forward < 255 {
        *forward = *forward + 1;
    }
    if r && *reverse < 255 {
        *reverse = *reverse + 1;
    }
    if s {
        *seen = true;
    }
}

/// Capping after each step is capping at the end.
proof fn lemma_capped_add(a: int, d: int)
    requires
        a >= 0,
        d >= 0,
    ensures
        capped(capped(a) + d) == capped(a + d),
{
}

/// The forward and reverse lane counts of a chunk; none where no lane has
/// a direction, and each count at most 255.
pub fn chunk_lanes(rules: &Vec<LaneRule>) -> (r: (Option<u8>, Option<u8>))
    ensures
        lanes_count(rules@).2 ==> r == (clamped(lanes_count(rules@).0), clamped(lanes_count(rules@).1)),
        !lanes_count(rules@).2 ==> r == (None::<u8>, None::<u8>),
{
    let mut forward: u16 = 0;
    let mut reverse: u16 = 0;
    let mut seen = false;
    let mut i: usize = 0;
    while i < rules.len()
        invariant
            i <= rules@.len(),
            forward == capped(lanes_count(rules@.take(i as int)).0),
            reverse == capped(lanes_count(rules@.take(i as int)).1),
            seen == lanes_count(rules@.take(i as int)).2,
            lanes_count(rules@.take(i as int)).0 >= 0,
            lanes_count(rules@.take(i as int)).1 >= 0,
        decreases rules@.len() - i,
    {
        proof {
            assert(rules@.take(i + 1).drop_last() =~= rules@.take(i as int));
        }
        let rule = &rules[i];
        match &rule.lanes {
            Some(scoped) => {
                if rule.covers_chunk {
                    let ghost f0 = lanes_count(rules@.take(i as int)).0;
                    let ghost r0 = lanes_count(rules@.take(i as int)).1;
                    let mut j: usize = 0;
                    while j < scoped.len()
                        invariant
                            j <= scoped@.len(),
                            f0 >= 0,
                            r0 >= 0,
                            directions_count(scoped@.take(j as int)).0 >= 0,
                            directions_count(scoped@.take(j as int)).1 >= 0,
                            forward == capped(f0 + directions_count(scoped@.take(j as int)).0),
                            reverse == capped(r0 + directions_count(scoped@.take(j as int)).1),
                            seen == (lanes_count(rules@.take(i as int)).2 || directions_count(scoped@.take(j as int)).2),
                        decreases scoped@.len() - j,
                    {
                        proof {
                            assert(scoped@.take(j + 1).drop_last() =~= scoped@.take(j as int));
                        }
                        let d = scoped[j].as_ref();
                        proof {
                            assert(opt_ref_text(d) == opt_string(scoped@[j as int]));
                        }
                        count_direction(d, &mut forward, &mut reverse, &mut seen);
                        proof {
                            lemma_capped_add(f0 + directions_count(scoped@.take(j as int)).0, lane_delta(opt_string(scoped@[j as int])).0);
                            lemma_capped_add(r0 + directions_count(scoped@.take(j as int)).1, lane_delta(opt_string(scoped@[j as int])).1);
                        }
                        j += 1;
                    }
                    proof {
                        assert(scoped@.take(scoped@.len() as int) =~= scoped@);
                    }
                }
            },
            None => {
                let ghost f0 = lanes_count(rules@.take(i as int)).0;
                let ghost r0 = lanes_count(rules@.take(i as int)).1;
                let d = rule.direction.as_ref();
                proof {
                    assert(opt_ref_text(d) == opt_string(rule.direction));
                }
                count_direction(d, &mut forward, &mut reverse, &mut seen);
                proof {
                    lemma_capped_add(f0, lane_delta(opt_string(rule.direction)).0);
                    lemma_capped_add(r0, lane_delta(opt_string(rule.direction)).1);
                }
            },
        }
        i += 1;
    }
    proof {
        assert(rules@.take(rules@.len() as int) =~= rules@);
    }
    if !seen {
        return (None, None);
    }
    let f = if forward > 0 {
        Some(forward as u8)
    } else {
        None
    };
    let r = if reverse > 0 {
        Some(reverse as u8)
    } else {
        None
    };
    (f, r)
}

/// A road-flag rule and whether its range covers most of the segment.
#[derive(Debug, Clone)]
pub struct FlagRule {
    pub values: Vec<String>,
    pub covers_segment: bool,
}

/// A flag that keeps a segment out of the network.
pub open spec fn disabling_flag(v: Seq<char>) -> bool {
    v == "is_under_construction"@ || v == "is_abandoned"@
}

/// Some rule covering the segment flags it as under construction or
/// abandoned.
pub open spec fn unroutable(rules: Seq<FlagRule>) -> bool {
    exists|i: int, j: int|
        0 <= i < rules.len() && rules[i].covers_segment && 0 <= j < rules[i].values@.len() && #[trigger] disabling_flag(
            rules[i].values@[j]@,
        )
}

/// Whether a segment is under construction or abandoned over most of its
/// length.
pub fn segment_is_unroutable(rules: &Vec<FlagRule>) -> (r: bool)
    ensures
        r == unroutable(rules@),
{
    let mut i: usize = 0;
    while i < rules.len()
        invariant
            i <= rules@.len(),
            forall|a: int, j: int|
                0 <= a < i && rules@[a].covers_segment && 0 <= j < rules@[a].values@.len() ==> !#[trigger] disabling_flag(
                    rules@[a].values@[j]@,
                ),
        decreases rules@.len() - i,
    {
        if rules[i].covers_segment {
            let values = &rules[i].values;
            let mut j: usize = 0;
            while j < values.len()
                invariant
                    i < rules@.len(),
                    *values == rules@[i as int].values,
                    rules@[i as int].covers_segment,
                    j <= values@.len(),
                    forall|b: int| 0 <= b < j ==> !#[trigger] disabling_flag(values@[b]@),
                decreases values@.len() - j,
            {
                if str_eq(values[j].as_str(), "is_under_construction") || str_eq(values[j].as_str(), "is_abandoned") {
                    proof {
                        assert(disabling_flag(rules@[i as int].values@[j as int]@));
                    }
                    return true;
                }
                j += 1;
            }
        }
        i += 1;
    }
    false
}

/// The surface class of an Overture surface value.
pub open spec fn overture_surface_class(v: Option<Seq<char>>) -> SurfaceClass {
    if v == Some("paved"@) || v == Some("paving_stones"@) || v == Some("metal"@) {
        SurfaceClass::Paved
    } else if v == Some("gravel"@) {
        SurfaceClass::Gravel
    } else if v == Some("dirt"@) {
        SurfaceClass::Dirt
    } else if v == Some("unpaved"@) {
        SurfaceClass::Ground
    } else {
        SurfaceClass::Unknown
    }
}

/// The surface class of the surface rule that covers most of a chunk.
pub fn overture_surface(value: Option<&str>) -> (r: SurfaceClass)
    ensures
        r == overture_surface_class(opt_text(value)),
{
    match value {
        Some(v) => {
            if str_eq(v, "paved") || str_eq(v, "paving_stones") || str_eq(v, "metal") {
                SurfaceClass::Paved
            } else if str_eq(v, "gravel") {
                SurfaceClass::Gravel
            } else if str_eq(v, "dirt") {
                SurfaceClass::Dirt
            } else if str_eq(v, "unpaved") {
                SurfaceClass::Ground
            } else {
                SurfaceClass::Unknown
            }
        },
        None => SurfaceClass::Unknown,
    }
}

/// A speed limit counts for a chunk travelled with `heading` when it is
/// not conditional, is not scoped to the other heading, and covers some
/// motorized mode.
pub open spec fn speed_limit_counts(when: Option<RuleCondition>, heading: Seq<char>) -> bool {
    &&& !(when is Some && conditional(when->0))
    &&& (heading_of(when) is Some ==> heading_of(when) == Some(heading))
    &&& scoped_modes(when) & MOTOR_MODES != 0
}

/// Whether a speed limit with this condition counts for a chunk travelled
/// with `heading`.
pub fn speed_limit_applies(when: Option<&RuleCondition>, heading: &str) -> (r: bool)
    ensures
        r == speed_limit_counts(
            match when {
                Some(c) => Some(*c),
                None => None,
            },
            heading@,
        ),
{
    match when {
        Some(c) => {
            if c.is_conditional() {
                return false;
            }
            match &c.heading {
                Some(h) => {
                    if !str_eq(h.as_str(), heading) {
                        return false;
                    }
                },
                None => {},
            }
        },
        None => {},
    }
    when_mode_bits(when) & MOTOR_MODES != 0
}

} // verus!
