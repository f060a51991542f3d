use netweevil::temporal::{
    build_access_schedule, parse_day_code, parse_hhmm, parse_polarity, schedule_is_blank, HhmmValue, MinuteInterval,
    ScheduleError, ScheduleItem, TemporalEffect, EVERY_DAY, PUBLIC_HOLIDAY, SATURDAY, SUNDAY, WEDNESDAY,
};

fn item(day: &str, from: HhmmValue, to: HhmmValue) -> ScheduleItem {
    ScheduleItem { day_code: day.to_string(), from_time: from, to_time: to }
}

#[test]
fn supports_midnight_wrapping_intervals() {
    let interval = MinuteInterval { start_minute: 22 * 60, end_minute: 2 * 60 };
    assert!(interval.contains(23 * 60));
    assert!(interval.contains(60));
    assert!(!interval.contains(12 * 60));
}

#[test]
fn parses_hhmm_every_day_and_open_polarity() {
    let rules = build_access_schedule(
        &vec![item("ED", HhmmValue::Number(Some(930)), HhmmValue::Number(Some(2359)))],
        "OPEN",
    )
    .expect("schedule");
    assert_eq!(rules.rules[0].day_mask, EVERY_DAY);
    assert_eq!(rules.rules[0].intervals[0].start_minute, 9 * 60 + 30);
    assert_eq!(rules.rules[0].intervals[0].end_minute, 1440);
    assert_eq!(rules.rules[0].effect, TemporalEffect::OpenOnly);
}

#[test]
fn preserves_midnight_wrapping_close_intervals() {
    let rules = build_access_schedule(
        &vec![item("FRI", HhmmValue::Number(Some(2200)), HhmmValue::Number(Some(600)))],
        "CLOSE",
    )
    .expect("schedule");
    let interval = rules.rules[0].intervals[0];
    assert!(interval.contains(23 * 60));
    assert!(interval.contains(5 * 60));
    assert_eq!(rules.rules[0].effect, TemporalEffect::Closed);
}

#[test]
fn parses_weekday_weekend_and_public_holiday_codes() {
    assert_eq!(parse_day_code("WD").unwrap().count_ones(), 5);
    assert_eq!(parse_day_code("WE").unwrap(), SATURDAY | SUNDAY);
    assert_eq!(parse_day_code("PH").unwrap(), PUBLIC_HOLIDAY);
}

#[test]
fn day_codes_ignore_case_and_whitespace() {
    assert_eq!(parse_day_code(" wed "), Ok(WEDNESDAY));
    assert_eq!(parse_day_code("Everyday"), Ok(EVERY_DAY));
    assert_eq!(parse_day_code("XYZ"), Err(ScheduleError::UnsupportedDayCode));
}

#[test]
fn hhmm_values_read_numbers_and_text() {
    assert_eq!(parse_hhmm(&HhmmValue::Text("09:30".to_string()), false), Ok(570));
    assert_eq!(parse_hhmm(&HhmmValue::Text("+0930".to_string()), false), Ok(570));
    assert_eq!(parse_hhmm(&HhmmValue::Number(Some(2400)), false), Ok(1440));
    assert_eq!(parse_hhmm(&HhmmValue::Number(Some(2359)), false), Ok(23 * 60 + 59));
    assert_eq!(parse_hhmm(&HhmmValue::Number(Some(2359)), true), Ok(1440));
    assert_eq!(parse_hhmm(&HhmmValue::Number(Some(2460)), false), Err(ScheduleError::OutOfRange));
    assert_eq!(parse_hhmm(&HhmmValue::Number(None), false), Err(ScheduleError::NotANonNegativeInteger));
    assert_eq!(parse_hhmm(&HhmmValue::Text("9h30".to_string()), false), Err(ScheduleError::InvalidText));
    assert_eq!(parse_hhmm(&HhmmValue::Text("".to_string()), false), Err(ScheduleError::InvalidText));
    assert_eq!(
        parse_hhmm(&HhmmValue::Text("99999999999999999999999".to_string()), false),
        Err(ScheduleError::InvalidText)
    );
    assert_eq!(parse_hhmm(&HhmmValue::Other, false), Err(ScheduleError::NotNumberOrText));
}

#[test]
fn schedules_report_the_first_problem() {
    assert_eq!(parse_polarity("open"), Ok(TemporalEffect::OpenOnly));
    assert_eq!(parse_polarity("maybe"), Err(ScheduleError::UnknownPolarity));
    let items = vec![
        item("MO", HhmmValue::Number(Some(800)), HhmmValue::Number(Some(1700))),
        item("XX", HhmmValue::Number(Some(800)), HhmmValue::Number(Some(1700))),
    ];
    assert_eq!(build_access_schedule(&items, "OPEN").err(), Some(ScheduleError::UnsupportedDayCode));
    assert_eq!(build_access_schedule(&items, "sideways").err(), Some(ScheduleError::UnknownPolarity));
    assert_eq!(build_access_schedule(&vec![], "CLOSE").map(|s| s.rules.len()), Ok(0));
}

#[test]
fn blank_schedules_hold_no_rules() {
    assert!(schedule_is_blank("  "));
    assert!(schedule_is_blank("\u{feff}[]"));
    assert!(schedule_is_blank(" NULL "));
    assert!(!schedule_is_blank("[{}]"));
}
