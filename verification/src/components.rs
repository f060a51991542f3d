//! Cost-component expressions of routing profiles, such as
//! `travel_time * (covered == false) * (1 - overlay:shade_fraction)`.
//!
//! An expression is a product of factors: exactly one base quantity, any
//! number of attribute comparisons, and at most one temporal overlay
//! (direct or inverted).

use vstd::prelude::*;

use crate::text::{
    chars_of, char_is_whitespace, find_exec, is_lit, is_whitespace, lower_seq, occurs_at, contains_seq,
    starts_with, starts_with_lit, string_from_chars, sub_chars, to_ascii_lowercase, trim, trim_chars, trim_end,
    trim_start,
};

verus! {

/// The base quantity a component scales.
#[derive(Debug, Clone, Copy, PartialEq, Eq, Structural)]
pub enum ComponentQuantity {
    Zero,
    TravelTime,
    Distance,
    Ascent,
    Descent,
}

/// Why an expression was refused.
#[derive(Debug, Clone, Copy, PartialEq, Eq, Structural)]
pub enum ComponentError {
    /// A `)` without its `(`, or a `(` never closed.
    UnmatchedParentheses,
    /// A factor between two `*` is blank.
    EmptyFactor,
    /// More than one base quantity.
    MultipleQuantities,
    /// `overlay:` with no name after it.
    EmptyOverlayName,
    /// More than one temporal overlay.
    MultipleOverlays,
    /// A factor that is neither a quantity, an overlay nor a comparison.
    MissingComparison,
    /// A comparison without exactly one non-blank side on each side.
    MalformedComparison,
    /// No base quantity at all.
    MissingQuantity,
}

/// `key == expected` (or `!=` when `negated`).
#[derive(Debug, Clone, PartialEq, Eq)]
pub struct AttributePredicate {
    pub key: String,
    pub expected: String,
    pub negated: bool,
}

/// A parsed component expression.
#[derive(Debug, Clone, PartialEq)]
pub struct ParsedCostComponent {
    pub quantity: ComponentQuantity,
    pub predicates: Vec<AttributePredicate>,
    pub overlay_name: Option<String>,
    pub invert_overlay: bool,
}

/// A comparison as plain sequences: key, expected value, negated.
pub type PredicateView = (Seq<char>, Seq<char>, bool);

/// A parsed expression as plain values.
pub type ComponentView = (ComponentQuantity, Seq<PredicateView>, Option<Seq<char>>, bool);

impl View for AttributePredicate {
    type V = PredicateView;

    open spec fn view(&self) -> PredicateView {
        (self.key@, self.expected@, self.negated)
    }
}

impl View for ParsedCostComponent {
    type V = ComponentView;

    open spec fn view(&self) -> ComponentView {
        (
            self.quantity,
            self.predicates@.map_values(|p: AttributePredicate| p@),
            match self.overlay_name {
                Some(name) => Some(name@),
                None => None,
            },
            self.invert_overlay,
        )
    }
}

// ---------------------------------------------------------------------------
// Specification.
// ---------------------------------------------------------------------------
/// `×` and `⋅` read as `*`, `−` as `-`.
pub open spec fn normalize_char(c: char) -> char {
    if c == '\u{d7}' || c == '\u{22c5}' {
        '*'
    } else if c == '\u{2212}' {
        '-'
    } else {
        c
    }
}

pub open spec fn normalized(s: Seq<char>) -> Seq<char> {
    s.map_values(|c: char| normalize_char(c))
}

/// Left-to-right scan for top-level delimiters: nesting depth, finished
/// parts, the part in progress, and whether a `)` closed nothing.
pub open spec fn split_scan(s: Seq<char>, d: char) -> (int, Seq<Seq<char>>, Seq<char>, bool)
    decreases s.len(),
{
    if s.len() == 0 {
        (0, seq![], seq![], false)
    } else {
        let (depth, parts, cur, bad) = split_scan(s.drop_last(), d);
        let c = s.last();
        if bad {
            (depth, parts, cur, bad)
        } else if c == '(' {
            (depth + 1, parts, cur.push(c), false)
        } else if c == ')' {
            if depth == 0 {
                (depth, parts, cur, true)
            } else {
                (depth - 1, parts, cur.push(c), false)
            }
        } else if c == d && depth == 0 {
            (depth, parts.push(cur), seq![], false)
        } else {
            (depth, parts, cur.push(c), false)
        }
    }
}

/// The factors of `s` split at top-level `d`.
pub open spec fn split_top_level_spec(s: Seq<char>, d: char) -> Result<Seq<Seq<char>>, ComponentError> {
    let (depth, parts, cur, bad) = split_scan(s, d);
    if bad || depth != 0 {
        Err(ComponentError::UnmatchedParentheses)
    } else if exists|i: int| 0 <= i < parts.push(cur).len() && #[trigger] trim(parts.push(cur)[i]).len() == 0 {
        Err(ComponentError::EmptyFactor)
    } else {
        Ok(parts.push(cur))
    }
}

/// Opening minus closing parentheses among the first `i` characters.
pub open spec fn paren_depth(s: Seq<char>, i: int) -> int
    decreases i,
{
    if i <= 0 {
        0
    } else if s[i - 1] == '(' {
        paren_depth(s, i - 1) + 1
    } else if s[i - 1] == ')' {
        paren_depth(s, i - 1) - 1
    } else {
        paren_depth(s, i - 1)
    }
}

/// `t` is one parenthesised group: its first `(` is closed by its last
/// character and by no earlier one.
pub open spec fn wraps_whole(t: Seq<char>) -> bool {
    &&& t.len() >= 2
    &&& t[0] == '('
    &&& t.last() == ')'
    &&& !exists|i: int| 0 <= i < t.len() - 1 && t[i] == ')' && #[trigger] paren_depth(t, i + 1) == 0
}

/// Trims, then removes parentheses that wrap the whole text, repeatedly.
pub open spec fn strip_wrapping(s: Seq<char>) -> Seq<char>
    decreases s.len(),
{
    let t = trim(s);
    if wraps_whole(t) && t.len() <= s.len() {
        strip_wrapping(t.subrange(1, t.len() - 1))
    } else {
        t
    }
}

/// The characters of `s` without whitespace.
pub open spec fn compact(s: Seq<char>) -> Seq<char>
    decreases s.len(),
{
    if s.len() == 0 {
        s
    } else if is_whitespace(s.last()) {
        compact(s.drop_last())
    } else {
        compact(s.drop_last()).push(s.last())
    }
}

/// The quantity that a lower-cased, compacted factor names.
pub open spec fn quantity_named(w: Seq<char>) -> Option<ComponentQuantity> {
    if w == "0"@ || w == "zero"@ {
        Some(ComponentQuantity::Zero)
    } else if w == "travel_time"@ || w == "travel_time_s"@ || w == "time"@ {
        Some(ComponentQuantity::TravelTime)
    } else if w == "distance"@ || w == "distance_m"@ || w == "length"@ || w == "length_m"@ {
        Some(ComponentQuantity::Distance)
    } else if w == "ascent"@ || w == "ascent_m"@ {
        Some(ComponentQuantity::Ascent)
    } else if w == "descent"@ || w == "descent_m"@ {
        Some(ComponentQuantity::Descent)
    } else {
        None
    }
}

/// The first position of `needle` in `s` (meaningful when it occurs).
pub open spec fn first_occurrence(s: Seq<char>, needle: Seq<char>) -> int {
    choose|i: int| occurs_at(s, needle, i) && forall|j: int| 0 <= j < i ==> !occurs_at(s, needle, j)
}

/// Strips one pair of double quotes, else one pair of single quotes.
pub open spec fn unquote(e: Seq<char>) -> Seq<char> {
    if e.len() >= 2 && e[0] == '"' && e.last() == '"' {
        e.subrange(1, e.len() - 1)
    } else if e.len() >= 2 && e[0] == '\'' && e.last() == '\'' {
        e.subrange(1, e.len() - 1)
    } else {
        e
    }
}

/// A comparison split at its first `!=` (else `==`), with exactly one
/// non-blank side on each side.
pub open spec fn predicate_spec(v: Seq<char>) -> Result<PredicateView, ComponentError> {
    let negated = contains_seq(v, "!="@);
    let op = if negated {
        "!="@
    } else {
        "=="@
    };
    if !negated && !contains_seq(v, "=="@) {
        Err(ComponentError::MissingComparison)
    } else {
        let i = first_occurrence(v, op);
        let key = trim(v.subrange(0, i));
        let rest = v.subrange(i + 2, v.len() as int);
        let expected = trim(rest);
        if key.len() == 0 || expected.len() == 0 || contains_seq(rest, op) {
            Err(ComponentError::MalformedComparison)
        } else {
            Ok((key, unquote(expected), negated))
        }
    }
}

/// Parsing state: quantity, comparisons, overlay, inverted overlay.
pub type ParseState = (Option<ComponentQuantity>, Seq<PredicateView>, Option<Seq<char>>, bool);

/// One factor of the product.
#[verifier::opaque]
pub open spec fn factor_step(st: ParseState, raw: Seq<char>) -> Result<ParseState, ComponentError> {
    let factor = strip_wrapping(trim(raw));
    let lower = lower_seq(compact(factor));
    match quantity_named(lower) {
        Some(q) => if st.0 is Some {
            Err(ComponentError::MultipleQuantities)
        } else {
            Ok((Some(q), st.1, st.2, st.3))
        },
        None => if starts_with(lower, "overlay:"@) || starts_with(lower, "1-overlay:"@) {
            let inverted = !starts_with(lower, "overlay:"@);
            let name = if inverted {
                lower.subrange(10, lower.len() as int)
            } else {
                lower.subrange(8, lower.len() as int)
            };
            if name.len() == 0 {
                Err(ComponentError::EmptyOverlayName)
            } else if st.2 is Some {
                Err(ComponentError::MultipleOverlays)
            } else {
                Ok((st.0, st.1, Some(name), inverted))
            }
        } else {
            match predicate_spec(factor) {
                Ok(p) => Ok((st.0, st.1.push(p), st.2, st.3)),
                Err(e) => Err(e),
            }
        },
    }
}

/// The factors taken in order; the first refusal stands.
pub open spec fn factors_spec(factors: Seq<Seq<char>>) -> Result<ParseState, ComponentError>
    decreases factors.len(),
{
    if factors.len() == 0 {
        Ok((None, seq![], None, false))
    } else {
        match factors_spec(factors.drop_last()) {
            Ok(st) => factor_step(st, factors.last()),
            Err(e) => Err(e),
        }
    }
}

/// What `parse_component_expression` gives for an expression.
pub open spec fn component_spec(expression: Seq<char>) -> Result<ComponentView, ComponentError> {
    match split_top_level_spec(normalized(expression), '*') {
        Err(e) => Err(e),
        Ok(factors) => match factors_spec(factors) {
            Err(e) => Err(e),
            Ok(st) => match st.0 {
                None => Err(ComponentError::MissingQuantity),
                Some(q) => Ok((q, st.1, st.2, st.3)),
            },
        },
    }
}

// ---------------------------------------------------------------------------
// Lemmas.
// ---------------------------------------------------------------------------
proof fn lemma_trim_start_len(s: Seq<char>)
    ensures
        trim_start(s).len() <= s.len(),
    decreases s.len(),
{
    if s.len() > 0 && is_whitespace(s[0]) {
        lemma_trim_start_len(s.drop_first());
    }
}

proof fn lemma_trim_end_len(s: Seq<char>)
    ensures
        trim_end(s).len() <= s.len(),
    decreases s.len(),
{
    if s.len() > 0 && is_whitespace(s.last()) {
        lemma_trim_end_len(s.drop_last());
    }
}

proof fn lemma_trim_len(s: Seq<char>)
    ensures
        trim(s).len() <= s.len(),
{
    lemma_trim_start_len(s);
    lemma_trim_end_len(trim_start(s));
}

proof fn lemma_scan_bad_sticky(s: Seq<char>, i: int, d: char)
    requires
        0 <= i <= s.len(),
        split_scan(s.take(i), d).3,
    ensures
        split_scan(s, d).3,
    decreases s.len() - i,
{
    if i < s.len() {
        assert(s.take(i + 1).drop_last() =~= s.take(i));
        lemma_scan_bad_sticky(s, i + 1, d);
    } else {
        assert(s.take(i) =~= s);
    }
}

proof fn lemma_factors_err_sticky(f: Seq<Seq<char>>, k: int, e: ComponentError)
    requires
        0 <= k <= f.len(),
        factors_spec(f.take(k)) == Err::<ParseState, ComponentError>(e),
    ensures
        factors_spec(f) == Err::<ParseState, ComponentError>(e),
    decreases f.len() - k,
{
    if k < f.len() {
        assert(f.take(k + 1).drop_last() =~= f.take(k));
        lemma_factors_err_sticky(f, k + 1, e);
    } else {
        assert(f.take(k) =~= f);
    }
}

// ---------------------------------------------------------------------------
// Parsing.
// ---------------------------------------------------------------------------
fn normalize_expression(s: &Vec<char>) -> (r: Vec<char>)
    ensures
        r@ == normalized(s@),
{
    let mut out: Vec<char> = Vec::new();
    let mut i: usize = 0;
    while i < s.len()
        invariant
            i <= s@.len(),
            out@ == normalized(s@.take(i as int)),
        decreases s@.len() - i,
    {
        let c = s[i];
        let m = if c == '\u{d7}' || c == '\u{22c5}' {
            '*'
        } else if c == '\u{2212}' {
            '-'
        } else {
            c
        };
        out.push(m);
        proof {
            assert(normalized(s@.take(i + 1)) =~= normalized(s@.take(i as int)).push(normalize_char(c)));
        }
        i += 1;
    }
    proof {
        assert(s@.take(s@.len() as int) =~= s@);
    }
    out
}

/// Splits at the delimiters that stand outside any parentheses; every part
/// must hold more than whitespace.
pub fn split_top_level(value: &Vec<char>, delimiter: char) -> (r: Result<Vec<Vec<char>>, ComponentError>)
    ensures
        match r {
            Ok(parts) => split_top_level_spec(value@, delimiter) == Ok::<Seq<Seq<char>>, ComponentError>(
                parts@.map_values(|p: Vec<char>| p@),
            ),
            Err(e) => split_top_level_spec(value@, delimiter) == Err::<Seq<Seq<char>>, ComponentError>(e),
        },
{
    let mut depth: usize = 0;
    let mut parts: Vec<Vec<char>> = Vec::new();
    let mut current: Vec<char> = Vec::new();
    let mut i: usize = 0;
    while i < value.len()
        invariant
            i <= value@.len(),
            depth <= i,
            split_scan(value@.take(i as int), delimiter) == (
                depth as int,
                parts@.map_values(|p: Vec<char>| p@),
                current@,
                false,
            ),
        decreases value@.len() - i,
    {
        let c = value[i];
        proof {
            assert(value@.take(i + 1).drop_last() =~= value@.take(i as int));
        }
        if c == '(' {
            depth += 1;
            current.push(c);
        } else if c == ')' {
            if depth == 0 {
                proof {
                    lemma_scan_bad_sticky(value@, i + 1, delimiter);
                }
                return Err(ComponentError::UnmatchedParentheses);
            }
            depth -= 1;
            current.push(c);
        } else if c == delimiter && depth == 0 {
            let ghost before = parts@;
            parts.push(current);
            current = Vec::new();
            proof {
                assert(parts@.map_values(|p: Vec<char>| p@) =~= before.map_values(|p: Vec<char>| p@).push(
                    parts@[before.len() as int]@,
                ));
            }
        } else {
            current.push(c);
        }
        i += 1;
    }
    proof {
        assert(value@.take(value@.len() as int) =~= value@);
    }
    if depth != 0 {
        return Err(ComponentError::UnmatchedParentheses);
    }
    let ghost before = parts@;
    parts.push(current);
    let ghost all = parts@.map_values(|p: Vec<char>| p@);
    proof {
        assert(all =~= before.map_values(|p: Vec<char>| p@).push(parts@[before.len() as int]@));
    }
    let ghost sc = split_scan(value@, delimiter);
    assert(sc.1.push(sc.2) == all);
    let mut k: usize = 0;
    while k < parts.len()
        invariant
            sc == split_scan(value@, delimiter),
            sc.0 == 0 && !sc.3,
            sc.1.push(sc.2) == all,
            k <= parts@.len(),
            all == parts@.map_values(|p: Vec<char>| p@),
            forall|j: int| 0 <= j < k ==> #[trigger] trim(all[j]).len() != 0,
        decreases parts@.len() - k,
    {
        let t = trim_chars(&parts[k]);
        if t.len() == 0 {
            proof {
                assert(trim(sc.1.push(sc.2)[k as int]).len() == 0);
            }
            return Err(ComponentError::EmptyFactor);
        }
        k += 1;
    }
    Ok(parts)
}

/// Whether the first `(` of `t` is closed only by its last character.
fn closes_at_end(t: &Vec<char>) -> (r: bool)
    requires
        t@.len() >= 2,
        t@[0] == '(',
        t@.last() == ')',
    ensures
        r == wraps_whole(t@),
{
    let mut opens: usize = 0;
    let mut closes: usize = 0;
    let mut i: usize = 0;
    while i < t.len()
        invariant
            i <= t@.len(),
            opens + closes <= i,
            paren_depth(t@, i as int) == opens - closes,
            forall|j: int| 0 <= j < i && j < t@.len() - 1 ==> !(t@[j] == ')' && #[trigger] paren_depth(t@, j + 1) == 0),
        decreases t@.len() - i,
    {
        let c = t[i];
        if c == '(' {
            opens += 1;
        } else if c == ')' {
            closes += 1;
            if opens == closes && i + 1 != t.len() {
                assert(paren_depth(t@, i + 1) == 0);
                return false;
            }
        }
        i += 1;
    }
    true
}

/// Trims and removes parentheses wrapping the whole text, repeatedly.
pub fn strip_wrapping_parentheses(value: &Vec<char>) -> (r: Vec<char>)
    ensures
        r@ == strip_wrapping(value@),
    decreases value@.len(),
{
    let t = trim_chars(value);
    proof {
        lemma_trim_len(value@);
    }
    if t.len() >= 2 && t[0] == '(' && t[t.len() - 1] == ')' {
        if closes_at_end(&t) {
            let inner = sub_chars(&t, 1, t.len() - 1);
            return strip_wrapping_parentheses(&inner);
        }
    }
    t
}

fn compact_chars(s: &Vec<char>) -> (r: Vec<char>)
    ensures
        r@ == compact(s@),
{
    let mut out: Vec<char> = Vec::new();
    let mut i: usize = 0;
    while i < s.len()
        invariant
            i <= s@.len(),
            out@ == compact(s@.take(i as int)),
        decreases s@.len() - i,
    {
        proof {
            assert(s@.take(i + 1).drop_last() =~= s@.take(i as int));
        }
        if !char_is_whitespace(s[i]) {
            out.push(s[i]);
        }
        i += 1;
    }
    proof {
        assert(s@.take(s@.len() as int) =~= s@);
    }
    out
}

fn quantity_of(w: &Vec<char>) -> (r: Option<ComponentQuantity>)
    ensures
        r == quantity_named(w@),
{
    if is_lit(w, "0") || is_lit(w, "zero") {
        Some(ComponentQuantity::Zero)
    } else if is_lit(w, "travel_time") || is_lit(w, "travel_time_s") || is_lit(w, "time") {
        Some(ComponentQuantity::TravelTime)
    } else if is_lit(w, "distance") || is_lit(w, "distance_m") || is_lit(w, "length") || is_lit(w, "length_m") {
        Some(ComponentQuantity::Distance)
    } else if is_lit(w, "ascent") || is_lit(w, "ascent_m") {
        Some(ComponentQuantity::Ascent)
    } else if is_lit(w, "descent") || is_lit(w, "descent_m") {
        Some(ComponentQuantity::Descent)
    } else {
        None
    }
}

proof fn lemma_first_occurrence(s: Seq<char>, needle: Seq<char>, at: int)
    requires
        occurs_at(s, needle, at),
        forall|j: int| 0 <= j < at ==> !occurs_at(s, needle, j),
    ensures
        first_occurrence(s, needle) == at,
{
    let c = first_occurrence(s, needle);
    assert(occurs_at(s, needle, c) && forall|j: int| 0 <= j < c ==> !occurs_at(s, needle, j));
    if c < at {
        assert(!occurs_at(s, needle, c));
    } else if at < c {
        assert(!occurs_at(s, needle, at));
    }
}

fn unquote_chars(e: &Vec<char>) -> (r: Vec<char>)
    ensures
        r@ == unquote(e@),
{
    let n = e.len();
    if n >= 2 && ((e[0] == '"' && e[n - 1] == '"') || (e[0] == '\'' && e[n - 1] == '\'')) {
        sub_chars(e, 1, n - 1)
    } else {
        sub_chars(e, 0, n)
    }
}

/// Parses `key == value` or `key != value`; the value may be quoted.
pub fn parse_predicate(value: &Vec<char>) -> (r: Result<AttributePredicate, ComponentError>)
    ensures
        match r {
            Ok(p) => predicate_spec(value@) == Ok::<PredicateView, ComponentError>(p@),
            Err(e) => predicate_spec(value@) == Err::<PredicateView, ComponentError>(e),
        },
{
    let ne = chars_of("!=");
    let eq = chars_of("==");
    proof {
        reveal_strlit("!=");
        reveal_strlit("==");
    }
    let found_ne = find_exec(value, &ne);
    let negated = found_ne.is_some();
    let op = if negated {
        ne
    } else {
        eq
    };
    let found = if negated {
        found_ne
    } else {
        find_exec(value, &op)
    };
    let at = match found {
        Some(i) => i,
        None => {
            return Err(ComponentError::MissingComparison);
        },
    };
    proof {
        assert(op@.len() == 2);
        assert(occurs_at(value@, op@, at as int));
        lemma_first_occurrence(value@, op@, at as int);
        assert(at + 2 <= value@.len());
    }
    let len = value.len();
    let head = sub_chars(value, 0, at);
    let key = trim_chars(&head);
    let rest = sub_chars(value, at + 2, len);
    let expected = trim_chars(&rest);
    let repeated = match find_exec(&rest, &op) {
        Some(_) => true,
        None => false,
    };
    if key.len() == 0 || expected.len() == 0 || repeated {
        return Err(ComponentError::MalformedComparison);
    }
    let unquoted = unquote_chars(&expected);
    Ok(AttributePredicate {
        key: string_from_chars(&key),
        expected: string_from_chars(&unquoted),
        negated,
    })
}

spec fn state_view(
    quantity: Option<ComponentQuantity>,
    predicates: Seq<AttributePredicate>,
    overlay: Option<Vec<char>>,
    invert: bool,
) -> ParseState {
    (
        quantity,
        predicates.map_values(|p: AttributePredicate| p@),
        match overlay {
            Some(o) => Some(o@),
            None => None,
        },
        invert,
    )
}

/// Takes one factor of the product into the parsing state.
fn apply_factor(
    raw: &Vec<char>,
    quantity: &mut Option<ComponentQuantity>,
    predicates: &mut Vec<AttributePredicate>,
    overlay: &mut Option<Vec<char>>,
    invert: &mut bool,
) -> (r: Result<(), ComponentError>)
    ensures
        match r {
            Ok(_) => factor_step(state_view(*old(quantity), old(predicates)@, *old(overlay), *old(invert)), raw@)
                == Ok::<ParseState, ComponentError>(
                state_view(*final(quantity), final(predicates)@, *final(overlay), *final(invert)),
            ),
            Err(e) => factor_step(state_view(*old(quantity), old(predicates)@, *old(overlay), *old(invert)), raw@)
                == Err::<ParseState, ComponentError>(e),
        },
{
    proof {
        reveal_strlit("overlay:");
        reveal_strlit("1-overlay:");
        reveal(factor_step);
    }
    let t = trim_chars(raw);
    let factor = strip_wrapping_parentheses(&t);
    let compacted = compact_chars(&factor);
    let lower = to_ascii_lowercase(&compacted);
    match quantity_of(&lower) {
        Some(q) => {
            if quantity.is_some() {
                return Err(ComponentError::MultipleQuantities);
            }
            *quantity = Some(q);
            Ok(())
        },
        None => {
            let direct = starts_with_lit(&lower, "overlay:");
            let inverse = !direct && starts_with_lit(&lower, "1-overlay:");
            if direct || inverse {
                let name = if direct {
                    sub_chars(&lower, 8, lower.len())
                } else {
                    sub_chars(&lower, 10, lower.len())
                };
                if name.len() == 0 {
                    return Err(ComponentError::EmptyOverlayName);
                }
                if overlay.is_some() {
                    return Err(ComponentError::MultipleOverlays);
                }
                *overlay = Some(name);
                *invert = inverse;
                Ok(())
            } else {
                match parse_predicate(&factor) {
                    Ok(p) => {
                        let ghost before = predicates@;
                        predicates.push(p);
                        proof {
                            assert(predicates@.map_values(|p: AttributePredicate| p@) =~= before.map_values(
                                |p: AttributePredicate| p@,
                            ).push(p@));
                        }
                        Ok(())
                    },
                    Err(e) => Err(e),
                }
            }
        },
    }
}

/// Parses a cost-component expression.
pub fn parse_component_expression(expression: &str) -> (r: Result<ParsedCostComponent, ComponentError>)
    ensures
        match r {
            Ok(p) => component_spec(expression@) == Ok::<ComponentView, ComponentError>(p@),
            Err(e) => component_spec(expression@) == Err::<ComponentView, ComponentError>(e),
        },
{
    let chars = chars_of(expression);
    let normal = normalize_expression(&chars);
    let factors = match split_top_level(&normal, '*') {
        Ok(f) => f,
        Err(e) => {
            return Err(e);
        },
    };
    let ghost fv = factors@.map_values(|p: Vec<char>| p@);
    let mut quantity: Option<ComponentQuantity> = None;
    let mut predicates: Vec<AttributePredicate> = Vec::new();
    let mut overlay: Option<Vec<char>> = None;
    let mut invert = false;
    proof {
        assert(fv.take(0) =~= Seq::<Seq<char>>::empty());
        assert(predicates@.map_values(|p: AttributePredicate| p@) =~= Seq::<PredicateView>::empty());
    }
    let mut k: usize = 0;
    while k < factors.len()
        invariant
            k <= factors@.len(),
            fv == factors@.map_values(|p: Vec<char>| p@),
            split_top_level_spec(normalized(expression@), '*') == Ok::<Seq<Seq<char>>, ComponentError>(fv),
            factors_spec(fv.take(k as int)) == Ok::<ParseState, ComponentError>(
                state_view(quantity, predicates@, overlay, invert),
            ),
        decreases factors@.len() - k,
    {
        proof {
            assert(fv.take(k + 1).drop_last() =~= fv.take(k as int));
            assert(fv.take(k + 1).last() == factors@[k as int]@);
        }
        match apply_factor(&factors[k], &mut quantity, &mut predicates, &mut overlay, &mut invert) {
            Ok(_) => {},
            Err(e) => {
                proof {
                    lemma_factors_err_sticky(fv, k + 1, e);
                }
                return Err(e);
            },
        }
        k += 1;
    }
    proof {
        assert(fv.take(factors@.len() as int) =~= fv);
    }
    match quantity {
        None => Err(ComponentError::MissingQuantity),
        Some(q) => {
            let overlay_name = match overlay {
                Some(o) => Some(string_from_chars(&o)),
                None => None,
            };
            Ok(ParsedCostComponent { quantity: q, predicates, overlay_name, invert_overlay: invert })
        },
    }
}

impl ParsedCostComponent {
    /// The attribute keys that the comparisons read, in order.
    pub fn attribute_keys(&self) -> (r: Vec<String>)
        ensures
            r@.map_values(|k: String| k@) == self.predicates@.map_values(|p: AttributePredicate| p.key@),
    {
        let mut keys: Vec<String> = Vec::new();
        let mut i: usize = 0;
        while i < self.predicates.len()
            invariant
                i <= self.predicates@.len(),
                keys@.map_values(|k: String| k@) == self.predicates@.take(i as int).map_values(
                    |p: AttributePredicate| p.key@,
                ),
            decreases self.predicates@.len() - i,
        {
            let ghost before = keys@;
            keys.push(self.predicates[i].key.clone());
            proof {
                assert(self.predicates@.take(i + 1) =~= self.predicates@.take(i as int).push(self.predicates@[i as int]));
                assert(keys@.map_values(|k: String| k@) =~= before.map_values(|k: String| k@).push(
                    self.predicates@[i as int].key@,
                ));
                assert(self.predicates@.take(i + 1).map_values(|p: AttributePredicate| p.key@) =~= self.predicates@.take(
                    i as int,
                ).map_values(|p: AttributePredicate| p.key@).push(self.predicates@[i as int].key@));
            }
            i += 1;
        }
        proof {
            assert(self.predicates@.take(self.predicates@.len() as int) =~= self.predicates@);
        }
        keys
    }

    /// Whether the component is proportional to travel time.
    pub fn scales_with_travel_time(&self) -> (r: bool)
        ensures
            r == (self.quantity == ComponentQuantity::TravelTime),
    {
        self.quantity == ComponentQuantity::TravelTime
    }
}

} // verus!
