//! Day masks and minute intervals of time-dependent access rules, and the
//! schedules read from mapped source layers.

use vstd::prelude::*;

use crate::text::{
    chars_of, is_ascii_digit, is_lit, is_lit_ignore_case, to_ascii_uppercase, trim, trim_chars, upper_seq,
    eq_ignore_case,
};

verus! {

pub const MONDAY: u8 = 1;
pub const TUESDAY: u8 = 2;
pub const WEDNESDAY: u8 = 4;
pub const THURSDAY: u8 = 8;
pub const FRIDAY: u8 = 16;
pub const SATURDAY: u8 = 32;
pub const SUNDAY: u8 = 64;
pub const PUBLIC_HOLIDAY: u8 = 128;

/// Every calendar day, including dates selected by an attached
/// public-holiday calendar.
pub const EVERY_DAY: u8 = 255;

/// Monday through Friday.
pub const WEEKDAYS: u8 = 31;

/// Saturday and Sunday.
pub const WEEKEND: u8 = 96;

/// Minutes after midnight, `start` inclusive and `end` exclusive; `1440`
/// is a permitted end, and a start after the end wraps past midnight.
#[derive(Debug, Clone, Copy, PartialEq, Eq, Structural)]
pub struct MinuteInterval {
    pub start_minute: u16,
    pub end_minute: u16,
}

impl MinuteInterval {
    /// Whether the interval covers `minute`.
    pub fn contains(self, minute: u16) -> (r: bool)
        ensures
            r == if self.start_minute <= self.end_minute {
                self.start_minute <= minute && minute < self.end_minute
            } else {
                self.start_minute <= minute || minute < self.end_minute
            },
    {
        if self.start_minute <= self.end_minute {
            minute >= self.start_minute && minute < self.end_minute
        } else {
            minute >= self.start_minute || minute < self.end_minute
        }
    }
}

/// What a rule does while it applies. The speed factor is kept as the
/// IEEE-754 bit pattern of its `f32`.
#[derive(Debug, Clone, Copy, PartialEq, Eq, Structural)]
pub enum TemporalEffect {
    Closed,
    OpenOnly,
    ForwardOnly,
    BackwardOnly,
    SpeedFactor(u32),
}

/// A rule on the days of `day_mask` (Monday bit 0 through Sunday bit 6,
/// public holiday bit 7) during its intervals.
#[derive(Debug, Clone, PartialEq, Eq)]
pub struct TemporalRule {
    pub day_mask: u8,
    pub intervals: Vec<MinuteInterval>,
    pub effect: TemporalEffect,
}

#[derive(Debug, Clone, PartialEq, Eq)]
pub struct TemporalRuleSet {
    pub rules: Vec<TemporalRule>,
}

/// Why a schedule was refused.
#[derive(Debug, Clone, Copy, PartialEq, Eq, Structural)]
pub enum ScheduleError {
    /// The polarity is neither `OPEN` nor `CLOSE`.
    UnknownPolarity,
    /// An item's day code is not one of the known codes.
    UnsupportedDayCode,
    /// A numeric time that is negative or fractional.
    NotANonNegativeInteger,
    /// A textual time that is not a decimal integer once colons are dropped.
    InvalidText,
    /// A time that is neither a number nor a string.
    NotNumberOrText,
    /// Hours above 23 or minutes above 59 (other than `2400`).
    OutOfRange,
}

/// An `HHMM` value as the source JSON holds it: a number (its value when it
/// is a non-negative integer), a string, or anything else.
#[derive(Debug, Clone, PartialEq, Eq)]
pub enum HhmmValue {
    Number(Option<u64>),
    Text(String),
    Other,
}

/// One item of a source schedule.
#[derive(Debug, Clone)]
pub struct ScheduleItem {
    pub day_code: String,
    pub from_time: HhmmValue,
    pub to_time: HhmmValue,
}

// ---------------------------------------------------------------------------
// Day codes.
// ---------------------------------------------------------------------------
/// The days that an upper-cased, trimmed day code names.
pub open spec fn day_mask_named(u: Seq<char>) -> Option<u8> {
    if u == "ED"@ || u == "DAILY"@ || u == "EVERYDAY"@ {
        Some(EVERY_DAY)
    } else if u == "MON"@ || u == "MO"@ {
        Some(MONDAY)
    } else if u == "TUE"@ || u == "TU"@ {
        Some(TUESDAY)
    } else if u == "WED"@ {
        Some(WEDNESDAY)
    } else if u == "THU"@ || u == "TH"@ {
        Some(THURSDAY)
    } else if u == "FRI"@ || u == "FR"@ {
        Some(FRIDAY)
    } else if u == "SAT"@ || u == "SA"@ {
        Some(SATURDAY)
    } else if u == "SUN"@ || u == "SU"@ {
        Some(SUNDAY)
    } else if u == "WD"@ || u == "WEEKDAY"@ {
        Some(WEEKDAYS)
    } else if u == "WE"@ || u == "WEEKEND"@ {
        Some(WEEKEND)
    } else if u == "PH"@ || u == "PUBLIC_HOLIDAY"@ {
        Some(PUBLIC_HOLIDAY)
    } else {
        None
    }
}

/// Parses a day code such as `MON`, `WD`, `WE` or `PH`, ignoring case and
/// surrounding whitespace.
pub fn parse_day_code(value: &str) -> (r: Result<u8, ScheduleError>)
    ensures
        match day_mask_named(upper_seq(trim(value@))) {
            Some(mask) => r == Ok::<u8, ScheduleError>(mask),
            None => r == Err::<u8, ScheduleError>(ScheduleError::UnsupportedDayCode),
        },
{
    let chars = chars_of(value);
    let trimmed = trim_chars(&chars);
    let u = to_ascii_uppercase(&trimmed);
    if is_lit(&u, "ED") || is_lit(&u, "DAILY") || is_lit(&u, "EVERYDAY") {
        Ok(EVERY_DAY)
    } else if is_lit(&u, "MON") || is_lit(&u, "MO") {
        Ok(MONDAY)
    } else if is_lit(&u, "TUE") || is_lit(&u, "TU") {
        Ok(TUESDAY)
    } else if is_lit(&u, "WED") {
        Ok(WEDNESDAY)
    } else if is_lit(&u, "THU") || is_lit(&u, "TH") {
        Ok(THURSDAY)
    } else if is_lit(&u, "FRI") || is_lit(&u, "FR") {
        Ok(FRIDAY)
    } else if is_lit(&u, "SAT") || is_lit(&u, "SA") {
        Ok(SATURDAY)
    } else if is_lit(&u, "SUN") || is_lit(&u, "SU") {
        Ok(SUNDAY)
    } else if is_lit(&u, "WD") || is_lit(&u, "WEEKDAY") {
        Ok(WEEKDAYS)
    } else if is_lit(&u, "WE") || is_lit(&u, "WEEKEND") {
        Ok(WEEKEND)
    } else if is_lit(&u, "PH") || is_lit(&u, "PUBLIC_HOLIDAY") {
        Ok(PUBLIC_HOLIDAY)
    } else {
        Err(ScheduleError::UnsupportedDayCode)
    }
}

// ---------------------------------------------------------------------------
// HHMM times.
// ---------------------------------------------------------------------------
/// The value of a string of decimal digits.
pub open spec fn digits_value(s: Seq<char>) -> int
    decreases s.len(),
{
    if s.len() == 0 {
        0
    } else {
        digits_value(s.drop_last()) * 10 + (s.last() as int - '0' as int)
    }
}

pub open spec fn all_digits(s: Seq<char>) -> bool {
    forall|i: int| 0 <= i < s.len() ==> is_ascii_digit(#[trigger] s[i])
}

/// What `u64::from_str` gives: an optional `+`, then at least one decimal
/// digit, for a value that fits in 64 bits.
pub open spec fn u64_text_value(s: Seq<char>) -> Option<u64> {
    let digits = if s.len() > 0 && s[0] == '+' {
        s.drop_first()
    } else {
        s
    };
    if digits.len() > 0 && all_digits(digits) && digits_value(digits) <= u64::MAX {
        Some(digits_value(digits) as u64)
    } else {
        None
    }
}

/// The characters of `s` other than `c`.
pub open spec fn without_char(s: Seq<char>, c: char) -> Seq<char>
    decreases s.len(),
{
    if s.len() == 0 {
        s
    } else if s.last() == c {
        without_char(s.drop_last(), c)
    } else {
        without_char(s.drop_last(), c).push(s.last())
    }
}

/// The minute of the day that a raw `HHMM` number stands for.
pub open spec fn hhmm_minutes(raw: u64, is_end: bool) -> Result<u16, ScheduleError> {
    if raw == 2400 {
        Ok(1440)
    } else if raw / 100 > 23 || raw % 100 > 59 {
        Err(ScheduleError::OutOfRange)
    } else if is_end && raw == 2359 {
        Ok(1440)
    } else {
        Ok(((raw / 100) * 60 + raw % 100) as u16)
    }
}

pub open spec fn hhmm_spec(value: HhmmValue, is_end: bool) -> Result<u16, ScheduleError> {
    match value {
        HhmmValue::Number(Some(raw)) => hhmm_minutes(raw, is_end),
        HhmmValue::Number(None) => Err(ScheduleError::NotANonNegativeInteger),
        HhmmValue::Text(t) => match u64_text_value(without_char(t@, ':')) {
            Some(raw) => hhmm_minutes(raw, is_end),
            None => Err(ScheduleError::InvalidText),
        },
        HhmmValue::Other => Err(ScheduleError::NotNumberOrText),
    }
}

fn drop_char(s: &Vec<char>, c: char) -> (r: Vec<char>)
    ensures
        r@ == without_char(s@, c),
{
    let mut out: Vec<char> = Vec::new();
    let mut i: usize = 0;
    while i < s.len()
        invariant
            i <= s@.len(),
            out@ == without_char(s@.take(i as int), c),
        decreases s@.len() - i,
    {
        proof {
            assert(s@.take(i + 1).drop_last() =~= s@.take(i as int));
        }
        if s[i] != c {
            out.push(s[i]);
        }
        i += 1;
    }
    proof {
        assert(s@.take(s@.len() as int) =~= s@);
    }
    out
}

/// Decimal text to `u64`, as `u64::from_str` reads it.
pub fn parse_u64_text(s: &Vec<char>) -> (r: Option<u64>)
    ensures
        r == u64_text_value(s@),
{
    let start: usize = if s.len() > 0 && s[0] == '+' {
        1
    } else {
        0
    };
    let ghost digits = if s@.len() > 0 && s@[0] == '+' {
        s@.drop_first()
    } else {
        s@
    };
    proof {
        assert(digits =~= s@.subrange(start as int, s@.len() as int));
    }
    if start == s.len() {
        return None;
    }
    let mut value: u64 = 0;
    let mut i: usize = start;
    while i < s.len()
        invariant
            start <= i <= s@.len(),
            digits =~= s@.subrange(start as int, s@.len() as int),
            digits == (if s@.len() > 0 && s@[0] == '+' {
                s@.drop_first()
            } else {
                s@
            }),
            all_digits(s@.subrange(start as int, i as int)),
            value == digits_value(s@.subrange(start as int, i as int)),
        decreases s@.len() - i,
    {
        let c = s[i];
        proof {
            assert(s@.subrange(start as int, i + 1).drop_last() =~= s@.subrange(start as int, i as int));
        }
        if !('0' <= c && c <= '9') {
            proof {
                assert(digits[i - start] == c);
                assert(!is_ascii_digit(digits[i - start]));
                assert(!all_digits(digits));
            }
            return None;
        }
        let d: u64 = (c as u32 - '0' as u32) as u64;
        if value > (u64::MAX - d) / 10 {
            proof {
                let prefix = s@.subrange(start as int, i + 1);
                assert(prefix.drop_last() =~= s@.subrange(start as int, i as int));
                assert(prefix.last() == c);
                assert(value * 10 + d > u64::MAX) by (nonlinear_arith)
                    requires
                        value > (u64::MAX - d) / 10,
                        d <= 9,
                ;
                if all_digits(digits) {
                    lemma_digits_value_grows(digits, i - start + 1);
                    assert(digits.take(i - start + 1) =~= prefix);
                }
            }
            return None;
        }
        value = value * 10 + d;
        i += 1;
    }
    proof {
        assert(s@.subrange(start as int, s@.len() as int) =~= digits);
    }
    Some(value)
}

proof fn lemma_digits_value_grows(s: Seq<char>, k: int)
    requires
        0 <= k <= s.len(),
        all_digits(s),
    ensures
        digits_value(s.take(k)) <= digits_value(s),
        0 <= digits_value(s.take(k)),
    decreases s.len() - k,
{
    if k < s.len() {
        lemma_digits_value_grows(s, k + 1);
        assert(s.take(k + 1).drop_last() =~= s.take(k));
        assert(is_ascii_digit(s[k]));
        lemma_digits_value_nonneg(s.take(k));
    } else {
        assert(s.take(k) =~= s);
        lemma_digits_value_nonneg(s);
    }
}

proof fn lemma_digits_value_nonneg(s: Seq<char>)
    requires
        all_digits(s),
    ensures
        0 <= digits_value(s),
    decreases s.len(),
{
    if s.len() > 0 {
        assert(is_ascii_digit(s[s.len() - 1]));
        lemma_digits_value_nonneg(s.drop_last());
    }
}

fn minutes_of(raw: u64, is_end: bool) -> (r: Result<u16, ScheduleError>)
    ensures
        r == hhmm_minutes(raw, is_end),
{
    if raw == 2400 {
        return Ok(1440);
    }
    let hour = raw / 100;
    let minute = raw % 100;
    if hour > 23 || minute > 59 {
        return Err(ScheduleError::OutOfRange);
    }
    if is_end && raw == 2359 {
        return Ok(1440);
    }
    Ok((hour * 60 + minute) as u16)
}

/// Reads an `HHMM` time (`930`, `"09:30"`) as minutes after midnight;
/// `2400`, and `2359` as an interval end, mean the end of the day.
pub fn parse_hhmm(value: &HhmmValue, is_end: bool) -> (r: Result<u16, ScheduleError>)
    ensures
        r == hhmm_spec(*value, is_end),
{
    match value {
        HhmmValue::Number(Some(raw)) => minutes_of(*raw, is_end),
        HhmmValue::Number(None) => Err(ScheduleError::NotANonNegativeInteger),
        HhmmValue::Text(t) => {
            let chars = crate::text::chars_of_string(t);
            let digits = drop_char(&chars, ':');
            match parse_u64_text(&digits) {
                Some(raw) => minutes_of(raw, is_end),
                None => Err(ScheduleError::InvalidText),
            }
        },
        HhmmValue::Other => Err(ScheduleError::NotNumberOrText),
    }
}

// ---------------------------------------------------------------------------
// Schedules.
// ---------------------------------------------------------------------------
/// `OPEN` (closed outside the windows) or `CLOSE` (closed inside them),
/// ignoring ASCII case.
pub open spec fn polarity_effect(p: Seq<char>) -> Option<TemporalEffect> {
    if eq_ignore_case(p, "OPEN"@) {
        Some(TemporalEffect::OpenOnly)
    } else if eq_ignore_case(p, "CLOSE"@) {
        Some(TemporalEffect::Closed)
    } else {
        None
    }
}

/// Reads a schedule polarity.
pub fn parse_polarity(polarity: &str) -> (r: Result<TemporalEffect, ScheduleError>)
    ensures
        match polarity_effect(polarity@) {
            Some(e) => r == Ok::<TemporalEffect, ScheduleError>(e),
            None => r == Err::<TemporalEffect, ScheduleError>(ScheduleError::UnknownPolarity),
        },
{
    let p = chars_of(polarity);
    if is_lit_ignore_case(&p, "OPEN") {
        Ok(TemporalEffect::OpenOnly)
    } else if is_lit_ignore_case(&p, "CLOSE") {
        Ok(TemporalEffect::Closed)
    } else {
        Err(ScheduleError::UnknownPolarity)
    }
}

/// `s` without any leading byte-order marks.
pub open spec fn strip_leading_boms(s: Seq<char>) -> Seq<char>
    decreases s.len(),
{
    if s.len() > 0 && s[0] == '\u{feff}' {
        strip_leading_boms(s.drop_first())
    } else {
        s
    }
}

/// A schedule text that stands for no rules: blank, `[]` or `null`.
pub open spec fn schedule_blank(details: Seq<char>) -> bool {
    let d = strip_leading_boms(trim(details));
    d.len() == 0 || d == "[]"@ || eq_ignore_case(d, "null"@)
}

/// Whether a schedule text stands for no rules at all.
pub fn schedule_is_blank(details: &str) -> (r: bool)
    ensures
        r == schedule_blank(details@),
{
    let chars = chars_of(details);
    let t = trim_chars(&chars);
    let mut start: usize = 0;
    proof {
        assert(t@.subrange(0, t@.len() as int) =~= t@);
    }
    while start < t.len() && t[start] == '\u{feff}'
        invariant
            start <= t@.len(),
            strip_leading_boms(t@) == strip_leading_boms(t@.subrange(start as int, t@.len() as int)),
        decreases t@.len() - start,
    {
        proof {
            assert(t@.subrange(start as int, t@.len() as int).drop_first() =~= t@.subrange(start + 1, t@.len() as int));
        }
        start += 1;
    }
    let d = crate::text::sub_chars(&t, start, t.len());
    proof {
        assert(strip_leading_boms(d@) == d@);
    }
    d.len() == 0 || is_lit(&d, "[]") || is_lit_ignore_case(&d, "null")
}

/// One item as a rule: day mask, start minute and end minute.
pub open spec fn item_spec(item: ScheduleItem) -> Result<(u8, u16, u16), ScheduleError> {
    match day_mask_named(upper_seq(trim(item.day_code@))) {
        None => Err(ScheduleError::UnsupportedDayCode),
        Some(mask) => match hhmm_spec(item.from_time, false) {
            Err(e) => Err(e),
            Ok(start) => match hhmm_spec(item.to_time, true) {
                Err(e) => Err(e),
                Ok(end) => Ok((mask, start, end)),
            },
        },
    }
}

/// The items in order; the first refusal stands.
pub open spec fn items_spec(items: Seq<ScheduleItem>) -> Result<Seq<(u8, u16, u16)>, ScheduleError>
    decreases items.len(),
{
    if items.len() == 0 {
        Ok(seq![])
    } else {
        match items_spec(items.drop_last()) {
            Err(e) => Err(e),
            Ok(rules) => match item_spec(items.last()) {
                Err(e) => Err(e),
                Ok(rule) => Ok(rules.push(rule)),
            },
        }
    }
}

proof fn lemma_items_err_sticky(items: Seq<ScheduleItem>, k: int, e: ScheduleError)
    requires
        0 <= k <= items.len(),
        items_spec(items.take(k)) == Err::<Seq<(u8, u16, u16)>, ScheduleError>(e),
    ensures
        items_spec(items) == Err::<Seq<(u8, u16, u16)>, ScheduleError>(e),
    decreases items.len() - k,
{
    if k < items.len() {
        assert(items.take(k + 1).drop_last() =~= items.take(k));
        lemma_items_err_sticky(items, k + 1, e);
    } else {
        assert(items.take(k) =~= items);
    }
}

/// `set` holds one rule per item, each with its single interval and the
/// given effect.
pub open spec fn rules_match(set: TemporalRuleSet, rules: Seq<(u8, u16, u16)>, effect: TemporalEffect) -> bool {
    &&& set.rules@.len() == rules.len()
    &&& forall|i: int|
        0 <= i < rules.len() ==> {
            let r = #[trigger] set.rules@[i];
            &&& r.day_mask == rules[i].0
            &&& r.intervals@ == seq![MinuteInterval { start_minute: rules[i].1, end_minute: rules[i].2 }]
            &&& r.effect == effect
        }
}

/// Turns the items of a source schedule into rules with the effect of the
/// polarity: `OPEN` closes the edge outside the windows, `CLOSE` inside.
pub fn build_access_schedule(items: &Vec<ScheduleItem>, polarity: &str) -> (r: Result<TemporalRuleSet, ScheduleError>)
    ensures
        match polarity_effect(polarity@) {
            None => r == Err::<TemporalRuleSet, ScheduleError>(ScheduleError::UnknownPolarity),
            Some(effect) => match items_spec(items@) {
                Err(e) => r == Err::<TemporalRuleSet, ScheduleError>(e),
                Ok(rules) => r is Ok && rules_match(r->Ok_0, rules, effect),
            },
        },
{
    let effect = match parse_polarity(polarity) {
        Ok(e) => e,
        Err(e) => {
            return Err(e);
        },
    };
    let mut rules: Vec<TemporalRule> = Vec::new();
    let mut k: usize = 0;
    proof {
        assert(items@.take(0) =~= Seq::<ScheduleItem>::empty());
    }
    while k < items.len()
        invariant
            k <= items@.len(),
            polarity_effect(polarity@) == Some(effect),
            items_spec(items@.take(k as int)) is Ok,
            rules_match(TemporalRuleSet { rules }, items_spec(items@.take(k as int))->Ok_0, effect),
        decreases items@.len() - k,
    {
        proof {
            assert(items@.take(k + 1).drop_last() =~= items@.take(k as int));
            assert(items@.take(k + 1).last() == items@[k as int]);
        }
        let item = &items[k];
        let mask = match parse_day_code(item.day_code.as_str()) {
            Ok(m) => m,
            Err(e) => {
                proof {
                    lemma_items_err_sticky(items@, k + 1, e);
                }
                return Err(e);
            },
        };
        let start = match parse_hhmm(&item.from_time, false) {
            Ok(m) => m,
            Err(e) => {
                proof {
                    lemma_items_err_sticky(items@, k + 1, e);
                }
                return Err(e);
            },
        };
        let end = match parse_hhmm(&item.to_time, true) {
            Ok(m) => m,
            Err(e) => {
                proof {
                    lemma_items_err_sticky(items@, k + 1, e);
                }
                return Err(e);
            },
        };
        let ghost before = rules@;
        rules.push(
            TemporalRule {
                day_mask: mask,
                intervals: vec![MinuteInterval { start_minute: start, end_minute: end }],
                effect,
            },
        );
        proof {
            let prev = items_spec(items@.take(k as int))->Ok_0;
            assert(items_spec(items@.take(k + 1)) == Ok::<Seq<(u8, u16, u16)>, ScheduleError>(
                prev.push((mask, start, end)),
            ));
            assert forall|i: int| 0 <= i < prev.len() + 1 implies {
                let r = #[trigger] rules@[i];
                &&& r.day_mask == prev.push((mask, start, end))[i].0
                &&& r.intervals@ == seq![MinuteInterval { start_minute: prev.push((mask, start, end))[i].1, end_minute: prev.push((mask, start, end))[i].2 }]
                &&& r.effect == effect
            } by {
                if i < prev.len() {
                    assert(rules@[i] == before[i]);
                }
            }
        }
        k += 1;
    }
    proof {
        assert(items@.take(items@.len() as int) =~= items@);
    }
    Ok(TemporalRuleSet { rules })
}

// ---------------------------------------------------------------------------
// Laws of the day codes.
// ---------------------------------------------------------------------------
/// The position in the week, Monday first, of the day that a one-day
/// code names: three letters or two, as in `SUN` or `SU` for Sunday.
pub open spec fn week_position_of_code(u: Seq<char>) -> Option<u8> {
    if u == "MON"@ || u == "MO"@ {
        Some(0u8)
    } else if u == "TUE"@ || u == "TU"@ {
        Some(1u8)
    } else if u == "WED"@ {
        Some(2u8)
    } else if u == "THU"@ || u == "TH"@ {
        Some(3u8)
    } else if u == "FRI"@ || u == "FR"@ {
        Some(4u8)
    } else if u == "SAT"@ || u == "SA"@ {
        Some(5u8)
    } else if u == "SUN"@ || u == "SU"@ {
        Some(6u8)
    } else {
        None
    }
}

/// The day codes are told apart from every code before them in the
/// order in which they are tried.
proof fn lemma_day_codes_distinct()
    ensures
        "DAILY"@ != "ED"@,
        "EVERYDAY"@ != "ED"@,
        "EVERYDAY"@ != "DAILY"@,
        "PH"@ != "ED"@,
        "PH"@ != "DAILY"@,
        "PH"@ != "EVERYDAY"@,
        "PH"@ != "MON"@,
        "PH"@ != "MO"@,
        "PH"@ != "TUE"@,
        "PH"@ != "TU"@,
        "PH"@ != "WED"@,
        "PH"@ != "THU"@,
        "PH"@ != "TH"@,
        "PH"@ != "FRI"@,
        "PH"@ != "FR"@,
        "PH"@ != "SAT"@,
        "PH"@ != "SA"@,
        "PH"@ != "SUN"@,
        "PH"@ != "SU"@,
        "PH"@ != "WD"@,
        "PH"@ != "WEEKDAY"@,
        "PH"@ != "WE"@,
        "PH"@ != "WEEKEND"@,
        "PUBLIC_HOLIDAY"@ != "ED"@,
        "PUBLIC_HOLIDAY"@ != "DAILY"@,
        "PUBLIC_HOLIDAY"@ != "EVERYDAY"@,
        "PUBLIC_HOLIDAY"@ != "MON"@,
        "PUBLIC_HOLIDAY"@ != "MO"@,
        "PUBLIC_HOLIDAY"@ != "TUE"@,
        "PUBLIC_HOLIDAY"@ != "TU"@,
        "PUBLIC_HOLIDAY"@ != "WED"@,
        "PUBLIC_HOLIDAY"@ != "THU"@,
        "PUBLIC_HOLIDAY"@ != "TH"@,
        "PUBLIC_HOLIDAY"@ != "FRI"@,
        "PUBLIC_HOLIDAY"@ != "FR"@,
        "PUBLIC_HOLIDAY"@ != "SAT"@,
        "PUBLIC_HOLIDAY"@ != "SA"@,
        "PUBLIC_HOLIDAY"@ != "SUN"@,
        "PUBLIC_HOLIDAY"@ != "SU"@,
        "PUBLIC_HOLIDAY"@ != "WD"@,
        "PUBLIC_HOLIDAY"@ != "WEEKDAY"@,
        "PUBLIC_HOLIDAY"@ != "WE"@,
        "PUBLIC_HOLIDAY"@ != "WEEKEND"@,
        "PUBLIC_HOLIDAY"@ != "PH"@,
        "MON"@ != "ED"@,
        "MON"@ != "DAILY"@,
        "MON"@ != "EVERYDAY"@,
        "MO"@ != "ED"@,
        "MO"@ != "DAILY"@,
        "MO"@ != "EVERYDAY"@,
        "MO"@ != "MON"@,
        "TUE"@ != "ED"@,
        "TUE"@ != "DAILY"@,
        "TUE"@ != "EVERYDAY"@,
        "TUE"@ != "MON"@,
        "TUE"@ != "MO"@,
        "TU"@ != "ED"@,
        "TU"@ != "DAILY"@,
        "TU"@ != "EVERYDAY"@,
        "TU"@ != "MON"@,
        "TU"@ != "MO"@,
        "TU"@ != "TUE"@,
        "WED"@ != "ED"@,
        "WED"@ != "DAILY"@,
        "WED"@ != "EVERYDAY"@,
        "WED"@ != "MON"@,
        "WED"@ != "MO"@,
        "WED"@ != "TUE"@,
        "WED"@ != "TU"@,
        "THU"@ != "ED"@,
        "THU"@ != "DAILY"@,
        "THU"@ != "EVERYDAY"@,
        "THU"@ != "MON"@,
        "THU"@ != "MO"@,
        "THU"@ != "TUE"@,
        "THU"@ != "TU"@,
        "THU"@ != "WED"@,
        "TH"@ != "ED"@,
        "TH"@ != "DAILY"@,
        "TH"@ != "EVERYDAY"@,
        "TH"@ != "MON"@,
        "TH"@ != "MO"@,
        "TH"@ != "TUE"@,
        "TH"@ != "TU"@,
        "TH"@ != "WED"@,
        "TH"@ != "THU"@,
        "FRI"@ != "ED"@,
        "FRI"@ != "DAILY"@,
        "FRI"@ != "EVERYDAY"@,
        "FRI"@ != "MON"@,
        "FRI"@ != "MO"@,
        "FRI"@ != "TUE"@,
        "FRI"@ != "TU"@,
        "FRI"@ != "WED"@,
        "FRI"@ != "THU"@,
        "FRI"@ != "TH"@,
        "FR"@ != "ED"@,
        "FR"@ != "DAILY"@,
        "FR"@ != "EVERYDAY"@,
        "FR"@ != "MON"@,
        "FR"@ != "MO"@,
        "FR"@ != "TUE"@,
        "FR"@ != "TU"@,
        "FR"@ != "WED"@,
        "FR"@ != "THU"@,
        "FR"@ != "TH"@,
        "FR"@ != "FRI"@,
        "SAT"@ != "ED"@,
        "SAT"@ != "DAILY"@,
        "SAT"@ != "EVERYDAY"@,
        "SAT"@ != "MON"@,
        "SAT"@ != "MO"@,
        "SAT"@ != "TUE"@,
        "SAT"@ != "TU"@,
        "SAT"@ != "WED"@,
        "SAT"@ != "THU"@,
        "SAT"@ != "TH"@,
        "SAT"@ != "FRI"@,
        "SAT"@ != "FR"@,
        "SA"@ != "ED"@,
        "SA"@ != "DAILY"@,
        "SA"@ != "EVERYDAY"@,
        "SA"@ != "MON"@,
        "SA"@ != "MO"@,
        "SA"@ != "TUE"@,
        "SA"@ != "TU"@,
        "SA"@ != "WED"@,
        "SA"@ != "THU"@,
        "SA"@ != "TH"@,
        "SA"@ != "FRI"@,
        "SA"@ != "FR"@,
        "SA"@ != "SAT"@,
        "SUN"@ != "ED"@,
        "SUN"@ != "DAILY"@,
        "SUN"@ != "EVERYDAY"@,
        "SUN"@ != "MON"@,
        "SUN"@ != "MO"@,
        "SUN"@ != "TUE"@,
        "SUN"@ != "TU"@,
        "SUN"@ != "WED"@,
        "SUN"@ != "THU"@,
        "SUN"@ != "TH"@,
        "SUN"@ != "FRI"@,
        "SUN"@ != "FR"@,
        "SUN"@ != "SAT"@,
        "SUN"@ != "SA"@,
        "SU"@ != "ED"@,
        "SU"@ != "DAILY"@,
        "SU"@ != "EVERYDAY"@,
        "SU"@ != "MON"@,
        "SU"@ != "MO"@,
        "SU"@ != "TUE"@,
        "SU"@ != "TU"@,
        "SU"@ != "WED"@,
        "SU"@ != "THU"@,
        "SU"@ != "TH"@,
        "SU"@ != "FRI"@,
        "SU"@ != "FR"@,
        "SU"@ != "SAT"@,
        "SU"@ != "SA"@,
        "SU"@ != "SUN"@,
        "WD"@ != "ED"@,
        "WD"@ != "DAILY"@,
        "WD"@ != "EVERYDAY"@,
        "WD"@ != "MON"@,
        "WD"@ != "MO"@,
        "WD"@ != "TUE"@,
        "WD"@ != "TU"@,
        "WD"@ != "WED"@,
        "WD"@ != "THU"@,
        "WD"@ != "TH"@,
        "WD"@ != "FRI"@,
        "WD"@ != "FR"@,
        "WD"@ != "SAT"@,
        "WD"@ != "SA"@,
        "WD"@ != "SUN"@,
        "WD"@ != "SU"@,
        "WEEKDAY"@ != "ED"@,
        "WEEKDAY"@ != "DAILY"@,
        "WEEKDAY"@ != "EVERYDAY"@,
        "WEEKDAY"@ != "MON"@,
        "WEEKDAY"@ != "MO"@,
        "WEEKDAY"@ != "TUE"@,
        "WEEKDAY"@ != "TU"@,
        "WEEKDAY"@ != "WED"@,
        "WEEKDAY"@ != "THU"@,
        "WEEKDAY"@ != "TH"@,
        "WEEKDAY"@ != "FRI"@,
        "WEEKDAY"@ != "FR"@,
        "WEEKDAY"@ != "SAT"@,
        "WEEKDAY"@ != "SA"@,
        "WEEKDAY"@ != "SUN"@,
        "WEEKDAY"@ != "SU"@,
        "WEEKDAY"@ != "WD"@,
        "WE"@ != "ED"@,
        "WE"@ != "DAILY"@,
        "WE"@ != "EVERYDAY"@,
        "WE"@ != "MON"@,
        "WE"@ != "MO"@,
        "WE"@ != "TUE"@,
        "WE"@ != "TU"@,
        "WE"@ != "WED"@,
        "WE"@ != "THU"@,
        "WE"@ != "TH"@,
        "WE"@ != "FRI"@,
        "WE"@ != "FR"@,
        "WE"@ != "SAT"@,
        "WE"@ != "SA"@,
        "WE"@ != "SUN"@,
        "WE"@ != "SU"@,
        "WE"@ != "WD"@,
        "WE"@ != "WEEKDAY"@,
        "WEEKEND"@ != "ED"@,
        "WEEKEND"@ != "DAILY"@,
        "WEEKEND"@ != "EVERYDAY"@,
        "WEEKEND"@ != "MON"@,
        "WEEKEND"@ != "MO"@,
        "WEEKEND"@ != "TUE"@,
        "WEEKEND"@ != "TU"@,
        "WEEKEND"@ != "WED"@,
        "WEEKEND"@ != "THU"@,
        "WEEKEND"@ != "TH"@,
        "WEEKEND"@ != "FRI"@,
        "WEEKEND"@ != "FR"@,
        "WEEKEND"@ != "SAT"@,
        "WEEKEND"@ != "SA"@,
        "WEEKEND"@ != "SUN"@,
        "WEEKEND"@ != "SU"@,
        "WEEKEND"@ != "WD"@,
        "WEEKEND"@ != "WEEKDAY"@,
        "WEEKEND"@ != "WE"@,
{
    reveal_strlit("PH");
    reveal_strlit("PUBLIC_HOLIDAY");
    reveal_strlit("ED");
    reveal_strlit("DAILY");
    reveal_strlit("EVERYDAY");
    reveal_strlit("MON");
    reveal_strlit("MO");
    reveal_strlit("TUE");
    reveal_strlit("TU");
    reveal_strlit("WED");
    reveal_strlit("THU");
    reveal_strlit("TH");
    reveal_strlit("FRI");
    reveal_strlit("FR");
    reveal_strlit("SAT");
    reveal_strlit("SA");
    reveal_strlit("SUN");
    reveal_strlit("SU");
    reveal_strlit("WD");
    reveal_strlit("WEEKDAY");
    reveal_strlit("WE");
    reveal_strlit("WEEKEND");
    assert("MON"@ != "ED"@) by {
        assert("MON"@[0] != "ED"@[0]);
    }
    assert("MON"@ != "DAILY"@) by {
        assert("MON"@[0] != "DAILY"@[0]);
    }
    assert("MON"@ != "EVERYDAY"@) by {
        assert("MON"@[0] != "EVERYDAY"@[0]);
    }
    assert("MO"@ != "ED"@) by {
        assert("MO"@[0] != "ED"@[0]);
    }
    assert("MO"@ != "DAILY"@) by {
        assert("MO"@[0] != "DAILY"@[0]);
    }
    assert("MO"@ != "EVERYDAY"@) by {
        assert("MO"@[0] != "EVERYDAY"@[0]);
    }
    assert("MO"@ != "MON"@) by {
        assert("MO"@.len() != "MON"@.len());
    }
    assert("TUE"@ != "ED"@) by {
        assert("TUE"@[0] != "ED"@[0]);
    }
    assert("TUE"@ != "DAILY"@) by {
        assert("TUE"@[0] != "DAILY"@[0]);
    }
    assert("TUE"@ != "EVERYDAY"@) by {
        assert("TUE"@[0] != "EVERYDAY"@[0]);
    }
    assert("TUE"@ != "MON"@) by {
        assert("TUE"@[0] != "MON"@[0]);
    }
    assert("TUE"@ != "MO"@) by {
        assert("TUE"@[0] != "MO"@[0]);
    }
    assert("TU"@ != "ED"@) by {
        assert("TU"@[0] != "ED"@[0]);
    }
    assert("TU"@ != "DAILY"@) by {
        assert("TU"@[0] != "DAILY"@[0]);
    }
    assert("TU"@ != "EVERYDAY"@) by {
        assert("TU"@[0] != "EVERYDAY"@[0]);
    }
    assert("TU"@ != "MON"@) by {
        assert("TU"@[0] != "MON"@[0]);
    }
    assert("TU"@ != "MO"@) by {
        assert("TU"@[0] != "MO"@[0]);
    }
    assert("TU"@ != "TUE"@) by {
        assert("TU"@.len() != "TUE"@.len());
    }
    assert("WED"@ != "ED"@) by {
        assert("WED"@[0] != "ED"@[0]);
    }
    assert("WED"@ != "DAILY"@) by {
        assert("WED"@[0] != "DAILY"@[0]);
    }
    assert("WED"@ != "EVERYDAY"@) by {
        assert("WED"@[0] != "EVERYDAY"@[0]);
    }
    assert("WED"@ != "MON"@) by {
        assert("WED"@[0] != "MON"@[0]);
    }
    assert("WED"@ != "MO"@) by {
        assert("WED"@[0] != "MO"@[0]);
    }
    assert("WED"@ != "TUE"@) by {
        assert("WED"@[0] != "TUE"@[0]);
    }
    assert("WED"@ != "TU"@) by {
        assert("WED"@[0] != "TU"@[0]);
    }
    assert("THU"@ != "ED"@) by {
        assert("THU"@[0] != "ED"@[0]);
    }
    assert("THU"@ != "DAILY"@) by {
        assert("THU"@[0] != "DAILY"@[0]);
    }
    assert("THU"@ != "EVERYDAY"@) by {
        assert("THU"@[0] != "EVERYDAY"@[0]);
    }
    assert("THU"@ != "MON"@) by {
        assert("THU"@[0] != "MON"@[0]);
    }
    assert("THU"@ != "MO"@) by {
        assert("THU"@[0] != "MO"@[0]);
    }
    assert("THU"@ != "TUE"@) by {
        assert("THU"@[1] != "TUE"@[1]);
    }
    assert("THU"@ != "TU"@) by {
        assert("THU"@[1] != "TU"@[1]);
    }
    assert("THU"@ != "WED"@) by {
        assert("THU"@[0] != "WED"@[0]);
    }
    assert("TH"@ != "ED"@) by {
        assert("TH"@[0] != "ED"@[0]);
    }
    assert("TH"@ != "DAILY"@) by {
        assert("TH"@[0] != "DAILY"@[0]);
    }
    assert("TH"@ != "EVERYDAY"@) by {
        assert("TH"@[0] != "EVERYDAY"@[0]);
    }
    assert("TH"@ != "MON"@) by {
        assert("TH"@[0] != "MON"@[0]);
    }
    assert("TH"@ != "MO"@) by {
        assert("TH"@[0] != "MO"@[0]);
    }
    assert("TH"@ != "TUE"@) by {
        assert("TH"@[1] != "TUE"@[1]);
    }
    assert("TH"@ != "TU"@) by {
        assert("TH"@[1] != "TU"@[1]);
    }
    assert("TH"@ != "WED"@) by {
        assert("TH"@[0] != "WED"@[0]);
    }
    assert("TH"@ != "THU"@) by {
        assert("TH"@.len() != "THU"@.len());
    }
    assert("FRI"@ != "ED"@) by {
        assert("FRI"@[0] != "ED"@[0]);
    }
    assert("FRI"@ != "DAILY"@) by {
        assert("FRI"@[0] != "DAILY"@[0]);
    }
    assert("FRI"@ != "EVERYDAY"@) by {
        assert("FRI"@[0] != "EVERYDAY"@[0]);
    }
    assert("FRI"@ != "MON"@) by {
        assert("FRI"@[0] != "MON"@[0]);
    }
    assert("FRI"@ != "MO"@) by {
        assert("FRI"@[0] != "MO"@[0]);
    }
    assert("FRI"@ != "TUE"@) by {
        assert("FRI"@[0] != "TUE"@[0]);
    }
    assert("FRI"@ != "TU"@) by {
        assert("FRI"@[0] != "TU"@[0]);
    }
    assert("FRI"@ != "WED"@) by {
        assert("FRI"@[0] != "WED"@[0]);
    }
    assert("FRI"@ != "THU"@) by {
        assert("FRI"@[0] != "THU"@[0]);
    }
    assert("FRI"@ != "TH"@) by {
        assert("FRI"@[0] != "TH"@[0]);
    }
    assert("FR"@ != "ED"@) by {
        assert("FR"@[0] != "ED"@[0]);
    }
    assert("FR"@ != "DAILY"@) by {
        assert("FR"@[0] != "DAILY"@[0]);
    }
    assert("FR"@ != "EVERYDAY"@) by {
        assert("FR"@[0] != "EVERYDAY"@[0]);
    }
    assert("FR"@ != "MON"@) by {
        assert("FR"@[0] != "MON"@[0]);
    }
    assert("FR"@ != "MO"@) by {
        assert("FR"@[0] != "MO"@[0]);
    }
    assert("FR"@ != "TUE"@) by {
        assert("FR"@[0] != "TUE"@[0]);
    }
    assert("FR"@ != "TU"@) by {
        assert("FR"@[0] != "TU"@[0]);
    }
    assert("FR"@ != "WED"@) by {
        assert("FR"@[0] != "WED"@[0]);
    }
    assert("FR"@ != "THU"@) by {
        assert("FR"@[0] != "THU"@[0]);
    }
    assert("FR"@ != "TH"@) by {
        assert("FR"@[0] != "TH"@[0]);
    }
    assert("FR"@ != "FRI"@) by {
        assert("FR"@.len() != "FRI"@.len());
    }
    assert("SAT"@ != "ED"@) by {
        assert("SAT"@[0] != "ED"@[0]);
    }
    assert("SAT"@ != "DAILY"@) by {
        assert("SAT"@[0] != "DAILY"@[0]);
    }
    assert("SAT"@ != "EVERYDAY"@) by {
        assert("SAT"@[0] != "EVERYDAY"@[0]);
    }
    assert("SAT"@ != "MON"@) by {
        assert("SAT"@[0] != "MON"@[0]);
    }
    assert("SAT"@ != "MO"@) by {
        assert("SAT"@[0] != "MO"@[0]);
    }
    assert("SAT"@ != "TUE"@) by {
        assert("SAT"@[0] != "TUE"@[0]);
    }
    assert("SAT"@ != "TU"@) by {
        assert("SAT"@[0] != "TU"@[0]);
    }
    assert("SAT"@ != "WED"@) by {
        assert("SAT"@[0] != "WED"@[0]);
    }
    assert("SAT"@ != "THU"@) by {
        assert("SAT"@[0] != "THU"@[0]);
    }
    assert("SAT"@ != "TH"@) by {
        assert("SAT"@[0] != "TH"@[0]);
    }
    assert("SAT"@ != "FRI"@) by {
        assert("SAT"@[0] != "FRI"@[0]);
    }
    assert("SAT"@ != "FR"@) by {
        assert("SAT"@[0] != "FR"@[0]);
    }
    assert("SA"@ != "ED"@) by {
        assert("SA"@[0] != "ED"@[0]);
    }
    assert("SA"@ != "DAILY"@) by {
        assert("SA"@[0] != "DAILY"@[0]);
    }
    assert("SA"@ != "EVERYDAY"@) by {
        assert("SA"@[0] != "EVERYDAY"@[0]);
    }
    assert("SA"@ != "MON"@) by {
        assert("SA"@[0] != "MON"@[0]);
    }
    assert("SA"@ != "MO"@) by {
        assert("SA"@[0] != "MO"@[0]);
    }
    assert("SA"@ != "TUE"@) by {
        assert("SA"@[0] != "TUE"@[0]);
    }
    assert("SA"@ != "TU"@) by {
        assert("SA"@[0] != "TU"@[0]);
    }
    assert("SA"@ != "WED"@) by {
        assert("SA"@[0] != "WED"@[0]);
    }
    assert("SA"@ != "THU"@) by {
        assert("SA"@[0] != "THU"@[0]);
    }
    assert("SA"@ != "TH"@) by {
        assert("SA"@[0] != "TH"@[0]);
    }
    assert("SA"@ != "FRI"@) by {
        assert("SA"@[0] != "FRI"@[0]);
    }
    assert("SA"@ != "FR"@) by {
        assert("SA"@[0] != "FR"@[0]);
    }
    assert("SA"@ != "SAT"@) by {
        assert("SA"@.len() != "SAT"@.len());
    }
    assert("SUN"@ != "ED"@) by {
        assert("SUN"@[0] != "ED"@[0]);
    }
    assert("SUN"@ != "DAILY"@) by {
        assert("SUN"@[0] != "DAILY"@[0]);
    }
    assert("SUN"@ != "EVERYDAY"@) by {
        assert("SUN"@[0] != "EVERYDAY"@[0]);
    }
    assert("SUN"@ != "MON"@) by {
        assert("SUN"@[0] != "MON"@[0]);
    }
    assert("SUN"@ != "MO"@) by {
        assert("SUN"@[0] != "MO"@[0]);
    }
    assert("SUN"@ != "TUE"@) by {
        assert("SUN"@[0] != "TUE"@[0]);
    }
    assert("SUN"@ != "TU"@) by {
        assert("SUN"@[0] != "TU"@[0]);
    }
    assert("SUN"@ != "WED"@) by {
        assert("SUN"@[0] != "WED"@[0]);
    }
    assert("SUN"@ != "THU"@) by {
        assert("SUN"@[0] != "THU"@[0]);
    }
    assert("SUN"@ != "TH"@) by {
        assert("SUN"@[0] != "TH"@[0]);
    }
    assert("SUN"@ != "FRI"@) by {
        assert("SUN"@[0] != "FRI"@[0]);
    }
    assert("SUN"@ != "FR"@) by {
        assert("SUN"@[0] != "FR"@[0]);
    }
    assert("SUN"@ != "SAT"@) by {
        assert("SUN"@[1] != "SAT"@[1]);
    }
    assert("SUN"@ != "SA"@) by {
        assert("SUN"@[1] != "SA"@[1]);
    }
    assert("SU"@ != "ED"@) by {
        assert("SU"@[0] != "ED"@[0]);
    }
    assert("SU"@ != "DAILY"@) by {
        assert("SU"@[0] != "DAILY"@[0]);
    }
    assert("SU"@ != "EVERYDAY"@) by {
        assert("SU"@[0] != "EVERYDAY"@[0]);
    }
    assert("SU"@ != "MON"@) by {
        assert("SU"@[0] != "MON"@[0]);
    }
    assert("SU"@ != "MO"@) by {
        assert("SU"@[0] != "MO"@[0]);
    }
    assert("SU"@ != "TUE"@) by {
        assert("SU"@[0] != "TUE"@[0]);
    }
    assert("SU"@ != "TU"@) by {
        assert("SU"@[0] != "TU"@[0]);
    }
    assert("SU"@ != "WED"@) by {
        assert("SU"@[0] != "WED"@[0]);
    }
    assert("SU"@ != "THU"@) by {
        assert("SU"@[0] != "THU"@[0]);
    }
    assert("SU"@ != "TH"@) by {
        assert("SU"@[0] != "TH"@[0]);
    }
    assert("SU"@ != "FRI"@) by {
        assert("SU"@[0] != "FRI"@[0]);
    }
    assert("SU"@ != "FR"@) by {
        assert("SU"@[0] != "FR"@[0]);
    }
    assert("SU"@ != "SAT"@) by {
        assert("SU"@[1] != "SAT"@[1]);
    }
    assert("SU"@ != "SA"@) by {
        assert("SU"@[1] != "SA"@[1]);
    }
    assert("SU"@ != "SUN"@) by {
        assert("SU"@.len() != "SUN"@.len());
    }
    assert("WD"@ != "ED"@) by {
        assert("WD"@[0] != "ED"@[0]);
    }
    assert("WD"@ != "DAILY"@) by {
        assert("WD"@[0] != "DAILY"@[0]);
    }
    assert("WD"@ != "EVERYDAY"@) by {
        assert("WD"@[0] != "EVERYDAY"@[0]);
    }
    assert("WD"@ != "MON"@) by {
        assert("WD"@[0] != "MON"@[0]);
    }
    assert("WD"@ != "MO"@) by {
        assert("WD"@[0] != "MO"@[0]);
    }
    assert("WD"@ != "TUE"@) by {
        assert("WD"@[0] != "TUE"@[0]);
    }
    assert("WD"@ != "TU"@) by {
        assert("WD"@[0] != "TU"@[0]);
    }
    assert("WD"@ != "WED"@) by {
        assert("WD"@[1] != "WED"@[1]);
    }
    assert("WD"@ != "THU"@) by {
        assert("WD"@[0] != "THU"@[0]);
    }
    assert("WD"@ != "TH"@) by {
        assert("WD"@[0] != "TH"@[0]);
    }
    assert("WD"@ != "FRI"@) by {
        assert("WD"@[0] != "FRI"@[0]);
    }
    assert("WD"@ != "FR"@) by {
        assert("WD"@[0] != "FR"@[0]);
    }
    assert("WD"@ != "SAT"@) by {
        assert("WD"@[0] != "SAT"@[0]);
    }
    assert("WD"@ != "SA"@) by {
        assert("WD"@[0] != "SA"@[0]);
    }
    assert("WD"@ != "SUN"@) by {
        assert("WD"@[0] != "SUN"@[0]);
    }
    assert("WD"@ != "SU"@) by {
        assert("WD"@[0] != "SU"@[0]);
    }
    assert("WEEKDAY"@ != "ED"@) by {
        assert("WEEKDAY"@[0] != "ED"@[0]);
    }
    assert("WEEKDAY"@ != "DAILY"@) by {
        assert("WEEKDAY"@[0] != "DAILY"@[0]);
    }
    assert("WEEKDAY"@ != "EVERYDAY"@) by {
        assert("WEEKDAY"@[0] != "EVERYDAY"@[0]);
    }
    assert("WEEKDAY"@ != "MON"@) by {
        assert("WEEKDAY"@[0] != "MON"@[0]);
    }
    assert("WEEKDAY"@ != "MO"@) by {
        assert("WEEKDAY"@[0] != "MO"@[0]);
    }
    assert("WEEKDAY"@ != "TUE"@) by {
        assert("WEEKDAY"@[0] != "TUE"@[0]);
    }
    assert("WEEKDAY"@ != "TU"@) by {
        assert("WEEKDAY"@[0] != "TU"@[0]);
    }
    assert("WEEKDAY"@ != "WED"@) by {
        assert("WEEKDAY"@[2] != "WED"@[2]);
    }
    assert("WEEKDAY"@ != "THU"@) by {
        assert("WEEKDAY"@[0] != "THU"@[0]);
    }
    assert("WEEKDAY"@ != "TH"@) by {
        assert("WEEKDAY"@[0] != "TH"@[0]);
    }
    assert("WEEKDAY"@ != "FRI"@) by {
        assert("WEEKDAY"@[0] != "FRI"@[0]);
    }
    assert("WEEKDAY"@ != "FR"@) by {
        assert("WEEKDAY"@[0] != "FR"@[0]);
    }
    assert("WEEKDAY"@ != "SAT"@) by {
        assert("WEEKDAY"@[0] != "SAT"@[0]);
    }
    assert("WEEKDAY"@ != "SA"@) by {
        assert("WEEKDAY"@[0] != "SA"@[0]);
    }
    assert("WEEKDAY"@ != "SUN"@) by {
        assert("WEEKDAY"@[0] != "SUN"@[0]);
    }
    assert("WEEKDAY"@ != "SU"@) by {
        assert("WEEKDAY"@[0] != "SU"@[0]);
    }
    assert("WEEKDAY"@ != "WD"@) by {
        assert("WEEKDAY"@[1] != "WD"@[1]);
    }
    assert("WE"@ != "ED"@) by {
        assert("WE"@[0] != "ED"@[0]);
    }
    assert("WE"@ != "DAILY"@) by {
        assert("WE"@[0] != "DAILY"@[0]);
    }
    assert("WE"@ != "EVERYDAY"@) by {
        assert("WE"@[0] != "EVERYDAY"@[0]);
    }
    assert("WE"@ != "MON"@) by {
        assert("WE"@[0] != "MON"@[0]);
    }
    assert("WE"@ != "MO"@) by {
        assert("WE"@[0] != "MO"@[0]);
    }
    assert("WE"@ != "TUE"@) by {
        assert("WE"@[0] != "TUE"@[0]);
    }
    assert("WE"@ != "TU"@) by {
        assert("WE"@[0] != "TU"@[0]);
    }
    assert("WE"@ != "WED"@) by {
        assert("WE"@.len() != "WED"@.len());
    }
    assert("WE"@ != "THU"@) by {
        assert("WE"@[0] != "THU"@[0]);
    }
    assert("WE"@ != "TH"@) by {
        assert("WE"@[0] != "TH"@[0]);
    }
    assert("WE"@ != "FRI"@) by {
        assert("WE"@[0] != "FRI"@[0]);
    }
    assert("WE"@ != "FR"@) by {
        assert("WE"@[0] != "FR"@[0]);
    }
    assert("WE"@ != "SAT"@) by {
        assert("WE"@[0] != "SAT"@[0]);
    }
    assert("WE"@ != "SA"@) by {
        assert("WE"@[0] != "SA"@[0]);
    }
    assert("WE"@ != "SUN"@) by {
        assert("WE"@[0] != "SUN"@[0]);
    }
    assert("WE"@ != "SU"@) by {
        assert("WE"@[0] != "SU"@[0]);
    }
    assert("WE"@ != "WD"@) by {
        assert("WE"@[1] != "WD"@[1]);
    }
    assert("WE"@ != "WEEKDAY"@) by {
        assert("WE"@.len() != "WEEKDAY"@.len());
    }
    assert("WEEKEND"@ != "ED"@) by {
        assert("WEEKEND"@[0] != "ED"@[0]);
    }
    assert("WEEKEND"@ != "DAILY"@) by {
        assert("WEEKEND"@[0] != "DAILY"@[0]);
    }
    assert("WEEKEND"@ != "EVERYDAY"@) by {
        assert("WEEKEND"@[0] != "EVERYDAY"@[0]);
    }
    assert("WEEKEND"@ != "MON"@) by {
        assert("WEEKEND"@[0] != "MON"@[0]);
    }
    assert("WEEKEND"@ != "MO"@) by {
        assert("WEEKEND"@[0] != "MO"@[0]);
    }
    assert("WEEKEND"@ != "TUE"@) by {
        assert("WEEKEND"@[0] != "TUE"@[0]);
    }
    assert("WEEKEND"@ != "TU"@) by {
        assert("WEEKEND"@[0] != "TU"@[0]);
    }
    assert("WEEKEND"@ != "WED"@) by {
        assert("WEEKEND"@[2] != "WED"@[2]);
    }
    assert("WEEKEND"@ != "THU"@) by {
        assert("WEEKEND"@[0] != "THU"@[0]);
    }
    assert("WEEKEND"@ != "TH"@) by {
        assert("WEEKEND"@[0] != "TH"@[0]);
    }
    assert("WEEKEND"@ != "FRI"@) by {
        assert("WEEKEND"@[0] != "FRI"@[0]);
    }
    assert("WEEKEND"@ != "FR"@) by {
        assert("WEEKEND"@[0] != "FR"@[0]);
    }
    assert("WEEKEND"@ != "SAT"@) by {
        assert("WEEKEND"@[0] != "SAT"@[0]);
    }
    assert("WEEKEND"@ != "SA"@) by {
        assert("WEEKEND"@[0] != "SA"@[0]);
    }
    assert("WEEKEND"@ != "SUN"@) by {
        assert("WEEKEND"@[0] != "SUN"@[0]);
    }
    assert("WEEKEND"@ != "SU"@) by {
        assert("WEEKEND"@[0] != "SU"@[0]);
    }
    assert("WEEKEND"@ != "WD"@) by {
        assert("WEEKEND"@[1] != "WD"@[1]);
    }
    assert("WEEKEND"@ != "WEEKDAY"@) by {
        assert("WEEKEND"@[4] != "WEEKDAY"@[4]);
    }
    assert("WEEKEND"@ != "WE"@) by {
        assert("WEEKEND"@.len() != "WE"@.len());
    }
    assert("DAILY"@ != "ED"@) by {
        assert("DAILY"@[0] != "ED"@[0]);
    }
    assert("EVERYDAY"@ != "ED"@) by {
        assert("EVERYDAY"@[1] != "ED"@[1]);
    }
    assert("EVERYDAY"@ != "DAILY"@) by {
        assert("EVERYDAY"@[0] != "DAILY"@[0]);
    }
    assert("PH"@ != "ED"@) by {
        assert("PH"@[0] != "ED"@[0]);
    }
    assert("PH"@ != "DAILY"@) by {
        assert("PH"@[0] != "DAILY"@[0]);
    }
    assert("PH"@ != "EVERYDAY"@) by {
        assert("PH"@[0] != "EVERYDAY"@[0]);
    }
    assert("PH"@ != "MON"@) by {
        assert("PH"@[0] != "MON"@[0]);
    }
    assert("PH"@ != "MO"@) by {
        assert("PH"@[0] != "MO"@[0]);
    }
    assert("PH"@ != "TUE"@) by {
        assert("PH"@[0] != "TUE"@[0]);
    }
    assert("PH"@ != "TU"@) by {
        assert("PH"@[0] != "TU"@[0]);
    }
    assert("PH"@ != "WED"@) by {
        assert("PH"@[0] != "WED"@[0]);
    }
    assert("PH"@ != "THU"@) by {
        assert("PH"@[0] != "THU"@[0]);
    }
    assert("PH"@ != "TH"@) by {
        assert("PH"@[0] != "TH"@[0]);
    }
    assert("PH"@ != "FRI"@) by {
        assert("PH"@[0] != "FRI"@[0]);
    }
    assert("PH"@ != "FR"@) by {
        assert("PH"@[0] != "FR"@[0]);
    }
    assert("PH"@ != "SAT"@) by {
        assert("PH"@[0] != "SAT"@[0]);
    }
    assert("PH"@ != "SA"@) by {
        assert("PH"@[0] != "SA"@[0]);
    }
    assert("PH"@ != "SUN"@) by {
        assert("PH"@[0] != "SUN"@[0]);
    }
    assert("PH"@ != "SU"@) by {
        assert("PH"@[0] != "SU"@[0]);
    }
    assert("PH"@ != "WD"@) by {
        assert("PH"@[0] != "WD"@[0]);
    }
    assert("PH"@ != "WEEKDAY"@) by {
        assert("PH"@[0] != "WEEKDAY"@[0]);
    }
    assert("PH"@ != "WE"@) by {
        assert("PH"@[0] != "WE"@[0]);
    }
    assert("PH"@ != "WEEKEND"@) by {
        assert("PH"@[0] != "WEEKEND"@[0]);
    }
    assert("PUBLIC_HOLIDAY"@ != "ED"@) by {
        assert("PUBLIC_HOLIDAY"@[0] != "ED"@[0]);
    }
    assert("PUBLIC_HOLIDAY"@ != "DAILY"@) by {
        assert("PUBLIC_HOLIDAY"@[0] != "DAILY"@[0]);
    }
    assert("PUBLIC_HOLIDAY"@ != "EVERYDAY"@) by {
        assert("PUBLIC_HOLIDAY"@[0] != "EVERYDAY"@[0]);
    }
    assert("PUBLIC_HOLIDAY"@ != "MON"@) by {
        assert("PUBLIC_HOLIDAY"@[0] != "MON"@[0]);
    }
    assert("PUBLIC_HOLIDAY"@ != "MO"@) by {
        assert("PUBLIC_HOLIDAY"@[0] != "MO"@[0]);
    }
    assert("PUBLIC_HOLIDAY"@ != "TUE"@) by {
        assert("PUBLIC_HOLIDAY"@[0] != "TUE"@[0]);
    }
    assert("PUBLIC_HOLIDAY"@ != "TU"@) by {
        assert("PUBLIC_HOLIDAY"@[0] != "TU"@[0]);
    }
    assert("PUBLIC_HOLIDAY"@ != "WED"@) by {
        assert("PUBLIC_HOLIDAY"@[0] != "WED"@[0]);
    }
    assert("PUBLIC_HOLIDAY"@ != "THU"@) by {
        assert("PUBLIC_HOLIDAY"@[0] != "THU"@[0]);
    }
    assert("PUBLIC_HOLIDAY"@ != "TH"@) by {
        assert("PUBLIC_HOLIDAY"@[0] != "TH"@[0]);
    }
    assert("PUBLIC_HOLIDAY"@ != "FRI"@) by {
        assert("PUBLIC_HOLIDAY"@[0] != "FRI"@[0]);
    }
    assert("PUBLIC_HOLIDAY"@ != "FR"@) by {
        assert("PUBLIC_HOLIDAY"@[0] != "FR"@[0]);
    }
    assert("PUBLIC_HOLIDAY"@ != "SAT"@) by {
        assert("PUBLIC_HOLIDAY"@[0] != "SAT"@[0]);
    }
    assert("PUBLIC_HOLIDAY"@ != "SA"@) by {
        assert("PUBLIC_HOLIDAY"@[0] != "SA"@[0]);
    }
    assert("PUBLIC_HOLIDAY"@ != "SUN"@) by {
        assert("PUBLIC_HOLIDAY"@[0] != "SUN"@[0]);
    }
    assert("PUBLIC_HOLIDAY"@ != "SU"@) by {
        assert("PUBLIC_HOLIDAY"@[0] != "SU"@[0]);
    }
    assert("PUBLIC_HOLIDAY"@ != "WD"@) by {
        assert("PUBLIC_HOLIDAY"@[0] != "WD"@[0]);
    }
    assert("PUBLIC_HOLIDAY"@ != "WEEKDAY"@) by {
        assert("PUBLIC_HOLIDAY"@[0] != "WEEKDAY"@[0]);
    }
    assert("PUBLIC_HOLIDAY"@ != "WE"@) by {
        assert("PUBLIC_HOLIDAY"@[0] != "WE"@[0]);
    }
    assert("PUBLIC_HOLIDAY"@ != "WEEKEND"@) by {
        assert("PUBLIC_HOLIDAY"@[0] != "WEEKEND"@[0]);
    }
    assert("PUBLIC_HOLIDAY"@ != "PH"@) by {
        assert("PUBLIC_HOLIDAY"@[1] != "PH"@[1]);
    }
}

/// The bit of each day of the week, Monday the lowest.
proof fn lemma_day_bits()
    ensures
        1u8 << 0u8 == MONDAY,
        1u8 << 1u8 == TUESDAY,
        1u8 << 2u8 == WEDNESDAY,
        1u8 << 3u8 == THURSDAY,
        1u8 << 4u8 == FRIDAY,
        1u8 << 5u8 == SATURDAY,
        1u8 << 6u8 == SUNDAY,
        MONDAY | TUESDAY | WEDNESDAY | THURSDAY | FRIDAY == WEEKDAYS,
        SATURDAY | SUNDAY == WEEKEND,
        forall|i: u8, j: u8| i < 7 && j < 7 && i != j ==> #[trigger] ((1u8 << i) & (1u8 << j)) == 0u8,
{
    assert(1u8 << 0u8 == 1u8 && 1u8 << 1u8 == 2u8 && 1u8 << 2u8 == 4u8 && 1u8 << 3u8 == 8u8 && 1u8 << 4u8
        == 16u8 && 1u8 << 5u8 == 32u8 && 1u8 << 6u8 == 64u8) by (bit_vector);
    assert(1u8 | 2u8 | 4u8 | 8u8 | 16u8 == 31u8 && 32u8 | 64u8 == 96u8) by (bit_vector);
    assert forall|i: u8, j: u8| i < 7 && j < 7 && i != j implies #[trigger] ((1u8 << i) & (1u8 << j)) == 0u8 by {
        assert(i < 7 && j < 7 && i != j ==> (1u8 << i) & (1u8 << j) == 0u8) by (bit_vector);
    }
}

/// Law: a one-day code names the one bit of its day, counted from Monday
/// in the week: `SUN` and `SU` name bit six, which no other day shares.
pub proof fn lemma_single_day_code_mask(u: Seq<char>)
    requires
        week_position_of_code(u) is Some,
    ensures
        day_mask_named(u) == Some(1u8 << week_position_of_code(u)->0),
{
    lemma_day_codes_distinct();
    lemma_day_bits();
    reveal_strlit("ED");
    reveal_strlit("DAILY");
    reveal_strlit("EVERYDAY");
    reveal_strlit("MON");
    reveal_strlit("MO");
    reveal_strlit("TUE");
    reveal_strlit("TU");
    reveal_strlit("WED");
    reveal_strlit("THU");
    reveal_strlit("TH");
    reveal_strlit("FRI");
    reveal_strlit("FR");
    reveal_strlit("SAT");
    reveal_strlit("SA");
    reveal_strlit("SUN");
    reveal_strlit("SU");
    reveal_strlit("WD");
    reveal_strlit("WEEKDAY");
    reveal_strlit("WE");
    reveal_strlit("WEEKEND");
}

/// Law: codes of different days name disjoint masks, and codes of the
/// same day the same mask.
pub proof fn lemma_day_codes_disjoint(a: Seq<char>, b: Seq<char>)
    requires
        week_position_of_code(a) is Some,
        week_position_of_code(b) is Some,
    ensures
        week_position_of_code(a) != week_position_of_code(b) ==> day_mask_named(a)->0 & day_mask_named(b)->0
            == 0u8,
        week_position_of_code(a) == week_position_of_code(b) ==> day_mask_named(a) == day_mask_named(b),
{
    lemma_single_day_code_mask(a);
    lemma_single_day_code_mask(b);
    lemma_day_bits();
    let i = week_position_of_code(a)->0;
    let j = week_position_of_code(b)->0;
    assert(i < 7 && j < 7);
    if i != j {
        assert(((1u8 << i) & (1u8 << j)) == 0u8);
    }
}

/// Law: the weekend code names exactly the days of the Saturday and
/// Sunday codes, and the weekday code exactly those of Monday to Friday.
pub proof fn lemma_week_part_codes()
    ensures
        day_mask_named("WE"@)->0 == day_mask_named("SAT"@)->0 | day_mask_named("SUN"@)->0,
        day_mask_named("WEEKEND"@) == day_mask_named("WE"@),
        day_mask_named("WD"@)->0 == day_mask_named("MON"@)->0 | day_mask_named("TUE"@)->0 | day_mask_named(
            "WED"@,
        )->0 | day_mask_named("THU"@)->0 | day_mask_named("FRI"@)->0,
        day_mask_named("WEEKDAY"@) == day_mask_named("WD"@),
        day_mask_named("SAT"@)->0 & day_mask_named("SUN"@)->0 == 0u8,
{
    lemma_day_codes_distinct();
    lemma_day_bits();
    reveal_strlit("ED");
    reveal_strlit("DAILY");
    reveal_strlit("EVERYDAY");
    reveal_strlit("MON");
    reveal_strlit("MO");
    reveal_strlit("TUE");
    reveal_strlit("TU");
    reveal_strlit("WED");
    reveal_strlit("THU");
    reveal_strlit("TH");
    reveal_strlit("FRI");
    reveal_strlit("FR");
    reveal_strlit("SAT");
    reveal_strlit("SA");
    reveal_strlit("SUN");
    reveal_strlit("SU");
    reveal_strlit("WD");
    reveal_strlit("WEEKDAY");
    reveal_strlit("WE");
    reveal_strlit("WEEKEND");
    assert(week_position_of_code("SAT"@) == Some(5u8));
    assert(week_position_of_code("SUN"@) == Some(6u8));
    lemma_day_codes_disjoint("SAT"@, "SUN"@);
}

/// Law: the every-day codes name all seven days of the week and the
/// dates of an attached public-holiday calendar, the holiday codes those
/// dates alone, which no day of the week shares.
pub proof fn lemma_every_day_codes()
    ensures
        day_mask_named("ED"@)->0 == day_mask_named("MON"@)->0 | day_mask_named("TUE"@)->0 | day_mask_named(
            "WED"@,
        )->0 | day_mask_named("THU"@)->0 | day_mask_named("FRI"@)->0 | day_mask_named("SAT"@)->0
            | day_mask_named("SUN"@)->0 | day_mask_named("PH"@)->0,
        day_mask_named("DAILY"@) == day_mask_named("ED"@),
        day_mask_named("EVERYDAY"@) == day_mask_named("ED"@),
        day_mask_named("PUBLIC_HOLIDAY"@) == day_mask_named("PH"@),
        day_mask_named("PH"@)->0 & day_mask_named("WE"@)->0 == 0u8,
        day_mask_named("PH"@)->0 & day_mask_named("WD"@)->0 == 0u8,
{
    lemma_day_codes_distinct();
    reveal_strlit("ED");
    reveal_strlit("DAILY");
    reveal_strlit("EVERYDAY");
    reveal_strlit("MON");
    reveal_strlit("MO");
    reveal_strlit("TUE");
    reveal_strlit("TU");
    reveal_strlit("WED");
    reveal_strlit("THU");
    reveal_strlit("TH");
    reveal_strlit("FRI");
    reveal_strlit("FR");
    reveal_strlit("SAT");
    reveal_strlit("SA");
    reveal_strlit("SUN");
    reveal_strlit("SU");
    reveal_strlit("WD");
    reveal_strlit("WEEKDAY");
    reveal_strlit("WE");
    reveal_strlit("WEEKEND");
    reveal_strlit("PH");
    reveal_strlit("PUBLIC_HOLIDAY");
    assert(1u8 | 2u8 | 4u8 | 8u8 | 16u8 | 32u8 | 64u8 | 128u8 == 255u8 && 128u8 & 96u8 == 0u8 && 128u8 & 31u8
        == 0u8) by (bit_vector);
}

/// Law: a clock time `HHMM` with hour `h` below 24 and minute `m` below
/// 60 stands for minute `60 h + m` of the day, except that an end time of
/// `2359` stands for the end of the day; `2400` is the end of the day too.
/// Every time read lies within the day, and a start before its end.
pub proof fn lemma_hhmm_clock(h: u64, m: u64, is_end: bool)
    requires
        h < 24,
        m < 60,
    ensures
        hhmm_minutes((h * 100 + m) as u64, is_end) == if is_end && h == 23 && m == 59 {
            Ok::<u16, ScheduleError>(1440)
        } else {
            Ok::<u16, ScheduleError>((h * 60 + m) as u16)
        },
        hhmm_minutes(2400, is_end) == Ok::<u16, ScheduleError>(1440),
        (h * 60 + m) < 1440,
{
    let raw = (h * 100 + m) as u64;
    assert(h * 100 + m < 2400) by (nonlinear_arith)
        requires
            h < 24,
            m < 60,
    ;
    assert(raw / 100 == h && raw % 100 == m) by (nonlinear_arith)
        requires
            raw == h * 100 + m,
            m < 60,
    ;
    assert(h * 60 + m < 1440) by (nonlinear_arith)
        requires
            h < 24,
            m < 60,
    ;
    assert(raw != 2400) by (nonlinear_arith)
        requires
            raw == h * 100 + m,
            h < 24,
            m < 60,
    ;
    assert(raw == 2359 <==> (h == 23 && m == 59)) by (nonlinear_arith)
        requires
            raw == h * 100 + m,
            h < 24,
            m < 60,
    ;
}

/// Law: a raw time whose minutes pass 59, or whose hours pass 23 (but for
/// `2400`), is refused as out of range.
pub proof fn lemma_hhmm_out_of_range(raw: u64, is_end: bool)
    requires
        raw != 2400,
        raw % 100 > 59 || raw / 100 > 23,
    ensures
        hhmm_minutes(raw, is_end) == Err::<u16, ScheduleError>(ScheduleError::OutOfRange),
{
}

} // verus!
