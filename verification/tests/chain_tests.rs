use chrono::TimeZone;

use sleepuntil::instant::LocalInstant;
use sleepuntil::parser::parse;
use sleepuntil::wait::wait_interval;

fn instant(
    year: i64,
    month: u32,
    day: u32,
    hour: u32,
    minute: u32,
    second: u32,
    offset_seconds: i64,
) -> LocalInstant {
    LocalInstant::new(year, month, day, hour, minute, second, offset_seconds).unwrap()
}

#[test]
fn nineteen_minutes_until_tonight() {
    // now = 2016-11-28T22:00:00 local; "22:19" resolves to today 22:19
    let now = instant(2016, 11, 28, 22, 0, 0, 0);
    let t = parse("22:19".to_string(), &now).unwrap();
    assert_eq!((t.year, t.month, t.day), (2016, 11, 28));
    assert_eq!((t.hour, t.minute, t.second), (22, 19, 0));
    assert_eq!(wait_interval(&t, &now).seconds, 19 * 60);
}

#[test]
fn passed_time_waits_until_tomorrow() {
    // now = 2016-11-28T23:00:00 local; "22:19" rolled over to tomorrow
    let now = instant(2016, 11, 28, 23, 0, 0, 0);
    let t = parse("22:19".to_string(), &now).unwrap();
    assert_eq!((t.year, t.month, t.day), (2016, 11, 29));
    assert_eq!((t.hour, t.minute, t.second), (22, 19, 0));
    assert_eq!(wait_interval(&t, &now).seconds, 23 * 3600 + 19 * 60);
}

#[test]
fn utc_timestamp_is_machine_independent() {
    // the absolute instant of the input does not depend on the local
    // timezone or on "now"
    let now = instant(2026, 1, 1, 0, 0, 0, 0);
    let t = parse("2016-11-28T12:00:00Z".to_string(), &now).unwrap();
    assert_eq!(t.epoch_seconds(), 1480334400);
    let far = instant(1999, 7, 4, 12, 13, 14, -3600);
    let t2 = parse("2016-11-28T12:00:00Z".to_string(), &far).unwrap();
    assert_eq!(t2.epoch_seconds(), 1480334400);
}

#[test]
fn offsets_shift_the_instant() {
    let now = instant(2026, 1, 1, 0, 0, 0, 0);
    let z = parse("2017-11-28T21:00:09Z".to_string(), &now).unwrap();
    let east = parse("2017-11-28T21:00:09+01:00".to_string(), &now).unwrap();
    assert_eq!(z.epoch_seconds() - east.epoch_seconds(), 3600);
}

#[test]
fn bad_hours_never_fall_through_to_the_timestamp_strategy() {
    let now = instant(2016, 11, 28, 22, 0, 0, 0);
    let e = parse("24:00".to_string(), &now).unwrap_err();
    assert_eq!(e, "Hours must be between 00 and 23");
}

#[test]
fn bad_minutes_never_fall_through_to_the_timestamp_strategy() {
    let now = instant(2016, 11, 28, 22, 0, 0, 0);
    let e = parse("00:61".to_string(), &now).unwrap_err();
    assert_eq!(e, "Minutes must be between 00 and 59");
}

#[test]
fn unrecognized_text_reports_no_grammar_matched() {
    let now = instant(2016, 11, 28, 22, 0, 0, 0);
    let e = parse("not-a-time".to_string(), &now).unwrap_err();
    assert_eq!(e, "Cannot parse timespec");
}

#[test]
fn rfc3339_round_trip_to_the_second() {
    let dt = chrono::Utc.with_ymd_and_hms(2020, 5, 17, 13, 45, 10).unwrap();
    let text = dt.to_rfc3339_opts(chrono::SecondsFormat::Secs, true);
    assert_eq!(text, "2020-05-17T13:45:10Z");
    let now = instant(2026, 1, 1, 0, 0, 0, 0);
    let t = parse(text, &now).unwrap();
    assert_eq!(t.epoch_seconds(), dt.timestamp());
}

#[test]
fn past_target_waits_zero_never_negative() {
    let now = instant(2026, 1, 1, 0, 0, 0, 0);
    let past = instant(2016, 11, 28, 12, 0, 0, 0);
    assert_eq!(wait_interval(&past, &now).seconds, 0);
    let just_past = instant(2025, 12, 31, 23, 59, 59, 0);
    assert_eq!(wait_interval(&just_past, &now).seconds, 0);
}

#[test]
fn wait_is_the_exact_difference() {
    let now = instant(2026, 1, 1, 0, 0, 0, 0);
    let later = instant(2026, 1, 2, 1, 2, 3, 0);
    assert_eq!(wait_interval(&later, &now).seconds, 86400 + 3600 + 120 + 3);
    assert_eq!(wait_interval(&now, &now).seconds, 0);
}

#[test]
fn epoch_of_known_instants() {
    assert_eq!(instant(1970, 1, 1, 0, 0, 0, 0).epoch_seconds(), 0);
    assert_eq!(instant(2016, 11, 28, 12, 0, 0, 0).epoch_seconds(), 1480334400);
    // an offset moves the absolute instant backwards as it moves east
    assert_eq!(instant(2016, 11, 28, 13, 0, 0, 3600).epoch_seconds(), 1480334400);
    assert_eq!(instant(1969, 12, 31, 23, 59, 59, 0).epoch_seconds(), -1);
}

#[test]
fn constructor_rejects_bad_fields() {
    assert!(LocalInstant::new(2016, 13, 1, 0, 0, 0, 0).is_none());
    assert!(LocalInstant::new(2016, 2, 30, 0, 0, 0, 0).is_none());
    assert!(LocalInstant::new(2015, 2, 29, 0, 0, 0, 0).is_none());
    assert!(LocalInstant::new(2016, 2, 29, 0, 0, 0, 0).is_some());
    assert!(LocalInstant::new(2016, 1, 1, 24, 0, 0, 0).is_none());
    assert!(LocalInstant::new(2016, 1, 1, 0, 60, 0, 0).is_none());
    assert!(LocalInstant::new(2016, 1, 1, 0, 0, 60, 0).is_none());
    assert!(LocalInstant::new(2016, 1, 1, 0, 0, 0, 86400).is_none());
    assert!(LocalInstant::new(2016, 1, 1, 0, 0, 0, -86400).is_none());
}
