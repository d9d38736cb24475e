//! Points in time and days.
use stint::clock::{Timestamp, DAY, FIRST, LAST, MAX_OFFSET, SECOND};
use stint::dates::{add_days, calendar_day, parse_date, start_of_day, start_of_week};

fn at(s: &str) -> Timestamp {
    Timestamp::parse(s).unwrap()
}

#[test]
fn reads_and_writes() {
    let t = at("2026-01-01T09:00:00Z");
    assert_eq!(t.rfc3339(), "2026-01-01T09:00:00Z");
    assert_eq!(t.parts(), (1_767_258_000 * SECOND, 0));
    assert_eq!(t.hour_minute(), "09:00");
    assert_eq!(t.date(), "2026-01-01");
    assert!(Timestamp::parse("2026-01-01").is_none());
    assert!(Timestamp::parse("").is_none());
}

#[test]
fn offsets_are_kept() {
    let t = at("2026-01-01T01:30:00.25+02:00");
    assert_eq!(t.parts().1, 7200);
    assert_eq!(t.rfc3339(), "2026-01-01T01:30:00.25+02:00");
    assert_eq!(t.unix_nanos(), at("2025-12-31T23:30:00.25Z").unix_nanos());
    assert_eq!(t.date(), "2026-01-01");
    assert_eq!(t.hour_minute(), "01:30");
}

#[test]
fn what_cannot_be_written_is_empty() {
    let early = Timestamp::new(FIRST, 0).unwrap();
    assert_eq!(early.rfc3339(), "");
    assert_eq!(early.hour_minute(), "??:??");
    let odd = Timestamp::new(0, 30).unwrap();
    assert_eq!(odd.rfc3339(), "");
    let far = Timestamp::new(0, 86_400).unwrap();
    assert_eq!(far.rfc3339(), "");
    let near = Timestamp::new(0, 86_340).unwrap();
    assert_eq!(near.rfc3339(), "1970-01-01T00:00:00+23:59");
    assert_eq!(Timestamp::new(LAST, 0).unwrap().rfc3339(), "9999-12-31T23:59:59.999999999Z");
    assert_eq!(Timestamp::new(LAST + 1, 0), None);
    assert_eq!(Timestamp::new(FIRST - 1, 0), None);
    assert!(Timestamp::new(0, MAX_OFFSET).is_some());
    assert_eq!(Timestamp::new(0, MAX_OFFSET + 1), None);
}

#[test]
fn seconds_round_toward_zero() {
    let a = at("2026-01-01T09:00:00Z");
    let b = at("2026-01-01T09:00:01.9Z");
    assert_eq!(b.seconds_since(a), 1);
    assert_eq!(a.seconds_since(b), -1);
    assert_eq!(a.seconds_since(a), 0);
    assert!(b.is_after(a));
    assert!(!a.is_after(a));
}

#[test]
fn adding_seconds_stays_in_range() {
    let t = at("2026-01-01T09:00:00Z");
    assert_eq!(t.plus_seconds(3600), Some(at("2026-01-01T10:00:00Z")));
    assert_eq!(t.minus_seconds(3600), Some(at("2026-01-01T08:00:00Z")));
    assert_eq!(t.plus_seconds(i64::MAX), None);
    assert_eq!(t.minus_seconds(i64::MAX), None);
}

#[test]
fn the_clock_runs() {
    let a = Timestamp::now_utc();
    assert_eq!(a.parts().1, 0);
    assert!(a.is_after(at("2020-01-01T00:00:00Z")));
    let b = Timestamp::now_local();
    assert!(b.is_after(at("2020-01-01T00:00:00Z")));
    assert!(b.seconds_since(a).abs() < 60);
}

#[test]
fn days_and_weeks_begin() {
    // A Thursday.
    let t = at("2026-01-01T09:30:00+02:00");
    assert_eq!(t.weekday(), 3);
    assert_eq!(start_of_day(t), at("2026-01-01T00:00:00+02:00"));
    assert_eq!(start_of_week(t), at("2025-12-29T00:00:00+02:00"));
    assert_eq!(at("2025-12-29T00:00:00Z").weekday(), 0);
    assert_eq!(at("2025-12-28T23:59:59Z").weekday(), 6);
    assert_eq!(add_days(t, 1), Some(at("2026-01-02T09:30:00+02:00")));
    assert_eq!(add_days(t, -1), Some(at("2025-12-31T09:30:00+02:00")));
    assert_eq!(add_days(Timestamp::new(LAST, 0).unwrap(), 1), None);
    assert_eq!(start_of_week(Timestamp::new(FIRST, 0).unwrap()), Timestamp::new(FIRST, 0).unwrap());
}

#[test]
fn dates_are_read() {
    let now = at("2026-01-15T12:00:00+01:00");
    assert_eq!(parse_date("today", now), Ok(at("2026-01-15T00:00:00+01:00")));
    assert_eq!(parse_date(" Yesterday ", now), Ok(at("2026-01-14T00:00:00+01:00")));
    assert_eq!(parse_date("2026-01-15", now), Ok(at("2026-01-15T00:00:00+01:00")));
    assert_eq!(parse_date("2024-02-29", now), Ok(at("2024-02-29T00:00:00+01:00")));
    // The fifteenth is a Thursday.
    assert_eq!(parse_date("last monday", now), Ok(at("2026-01-12T00:00:00+01:00")));
    assert_eq!(parse_date("last thursday", now), Ok(at("2026-01-08T00:00:00+01:00")));
    assert_eq!(parse_date("last Friday", now), Ok(at("2026-01-09T00:00:00+01:00")));
    for bad in ["", "2026-02-29", "2026-13-01", "2026-00-10", "2026-1-5", "last", "last day", "tomorrow"] {
        assert_eq!(parse_date(bad, now), Err(format!("invalid date: '{bad}'")));
    }
}

#[test]
fn the_calendar_counts_days() {
    assert_eq!(calendar_day(1970, 1, 1), Some(0));
    assert_eq!(calendar_day(2026, 1, 1), Some(20_454));
    assert_eq!(calendar_day(2000, 3, 1), Some(11_017));
    assert_eq!(calendar_day(0, 1, 1), Some(-719_528));
    assert_eq!(calendar_day(9999, 12, 31), Some(2_932_896));
    assert_eq!(calendar_day(1900, 2, 29), None);
    assert_eq!(calendar_day(10_000, 1, 1), None);
    assert_eq!(calendar_day(2026, 4, 31), None);
    assert_eq!(DAY, 86_400 * SECOND);
}

#[test]
fn a_date_as_shown_names_its_day() {
    let now = at("2026-01-07T12:00:00Z");
    for t in ["0000-02-29T10:00:00Z", "1970-01-01T00:00:00Z", "2024-02-29T23:59:59Z"] {
        let shown = at(t).date();
        assert_eq!(shown, t[..10]);
        assert_eq!(parse_date(&shown, now), Ok(start_of_day(at(t))));
    }
}

#[test]
fn the_local_clock_comes_before_utc() {
    let utc = at("2026-01-07T12:00:00Z");
    let local = at("2026-01-07T13:30:00+01:30");
    assert_eq!(Timestamp::from_local_clock(Some(local.parts()), utc), local);
    assert_eq!(Timestamp::from_local_clock(None, utc), utc);
    let (reading, offset) = Timestamp::now_local().parts();
    assert_eq!(Timestamp::new(reading, offset).map(|t| t.parts()), Some((reading, offset)));
}

#[test]
fn texts_are_written_in_full() {
    for t in [
        "0000-01-01T00:00:00Z",
        "9999-12-31T23:59:59.999999999Z",
        "2026-02-03T04:05:06.07Z",
        "2026-02-03T04:05:06.000000001Z",
        "2026-02-03T04:05:06-00:30",
        "2026-02-03T04:05:06.5+23:59",
    ] {
        assert_eq!(at(t).rfc3339(), t);
    }
    assert_eq!(Timestamp::new(FIRST, 0).unwrap().rfc3339(), "");
    assert_eq!(Timestamp::new(FIRST, 0).unwrap().date(), "-9999-01-01");
    assert_eq!(Timestamp::new(LAST, 0).unwrap().date(), "9999-12-31");
    assert_eq!(Timestamp::new(0, 1).unwrap().rfc3339(), "");
}

#[test]
fn earlier_times_have_earlier_texts() {
    let times = [
        "0999-12-31T23:59:59Z",
        "1969-12-31T23:59:59.25Z",
        "1969-12-31T23:59:59.5Z",
        "1970-01-01T00:00:00Z",
        "2024-02-29T23:59:59Z",
        "2024-03-01T00:00:00Z",
        "2024-03-01T00:00:10Z",
        "2024-03-01T00:01:00.5Z",
        "2024-03-01T01:00:00Z",
    ];
    for pair in times.windows(2) {
        assert!(at(pair[1]).is_after(at(pair[0])));
        assert!(at(pair[0]).rfc3339() < at(pair[1]).rfc3339());
    }
    // At the same offset from UTC this holds within a second too.
    assert!(at("2024-03-01T00:00:00+01:00").rfc3339() < at("2024-03-01T00:00:00.5+01:00").rfc3339());
    // In UTC a whole second is written behind its own fractions.
    assert!(at("2024-03-01T00:00:00Z").rfc3339() > at("2024-03-01T00:00:00.5Z").rfc3339());
}
