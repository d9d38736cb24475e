//! Durations, rates, tags, texts and settings.
use stint::config::{config_for_hook, idle_threshold_for_status, StintConfig};
use stint::duration::{
    format_duration_human, format_seconds, parse_cents, parse_duration, parse_duration_arg,
};
use stint::models::{
    read_entry_source, read_project_source, read_status, EntrySource, ProjectSource, ProjectStatus,
};
use stint::paths::{is_covered, same_path};
use stint::tags::parse_tags;
use stint::text::{
    contains_text, decimal_text, fold, join, pad_left, pad_right, parse_int, signed_text, string_of,
    trim,
};

#[test]
fn durations_are_written() {
    assert_eq!(format_duration_human(0), "0s");
    assert_eq!(format_duration_human(59), "59s");
    assert_eq!(format_duration_human(60), "1m");
    assert_eq!(format_duration_human(3599), "59m");
    assert_eq!(format_duration_human(3600), "1h 0m");
    assert_eq!(format_duration_human(9000), "2h 30m");
    assert_eq!(format_duration_human(-61), "-1m");
    assert_eq!(format_duration_human(i64::MIN), "-2562047788015215h 30m");
    assert_eq!(format_seconds(7200), "2h 0m");
}

#[test]
fn durations_are_read() {
    assert_eq!(parse_duration("2h30m"), Ok(9000));
    assert_eq!(parse_duration("45m"), Ok(2700));
    assert_eq!(parse_duration("1h"), Ok(3600));
    assert_eq!(parse_duration(" 10s "), Ok(10));
    assert_eq!(parse_duration_arg("1h1m1s"), Ok(3661));
    for bad in ["", "h", "5", "2h30", "1d", "-1h", "9223372036854775808s", "9223372036854775807h"] {
        assert_eq!(parse_duration(bad), Err(format!("invalid duration: '{bad}'")));
    }
    assert_eq!(parse_duration("9223372036854775807s"), Ok(i64::MAX));
}

#[test]
fn rates_are_read() {
    assert_eq!(parse_cents("150"), Ok(15000));
    assert_eq!(parse_cents("150.00"), Ok(15000));
    assert_eq!(parse_cents("19.99"), Ok(1999));
    assert_eq!(parse_cents("19.9"), Ok(1990));
    assert_eq!(parse_cents(" 5. "), Ok(500));
    assert_eq!(parse_cents("92233720368547758.07"), Ok(i64::MAX));
    assert_eq!(parse_cents(""), Err("rate cannot be empty".to_string()));
    assert_eq!(parse_cents("  "), Err("rate cannot be empty".to_string()));
    assert_eq!(parse_cents("-5"), Err("rate cannot be negative".to_string()));
    assert_eq!(parse_cents("abc"), Err("invalid rate: 'abc'".to_string()));
    assert_eq!(parse_cents(".50"), Err("invalid rate: '.50'".to_string()));
    assert_eq!(parse_cents("5.-5"), Err("invalid rate: '5.-5'".to_string()));
    assert_eq!(parse_cents("5.é"), Err("invalid rate: '5.é'".to_string()));
    assert_eq!(
        parse_cents("1.234"),
        Err("rate has too many decimal places: '1.234'".to_string())
    );
    assert_eq!(
        parse_cents("1.é1"),
        Err("rate has too many decimal places: '1.é1'".to_string())
    );
    assert_eq!(
        parse_cents("92233720368547758.08"),
        Err("invalid rate: '92233720368547758.08'".to_string())
    );
}

#[test]
fn tags_are_read() {
    assert_eq!(parse_tags("a, b ,a,,c"), vec!["a", "b", "c"]);
    assert!(parse_tags("").is_empty());
    assert!(parse_tags(" , ").is_empty());
    assert_eq!(parse_tags("one"), vec!["one"]);
}

#[test]
fn texts() {
    assert_eq!(trim("\u{a0} x y\n"), "x y");
    assert_eq!(string_of(&fold("Straße-ÄB")), "straße-Äb");
    assert_eq!(decimal_text(0), "0");
    assert_eq!(decimal_text(1234567890), "1234567890");
    assert_eq!(signed_text(i64::MIN), "-9223372036854775808");
    assert_eq!(parse_int("+7"), Some(7));
    assert_eq!(parse_int("-9223372036854775808"), Some(i64::MIN));
    assert_eq!(parse_int("9223372036854775808"), None);
    assert_eq!(parse_int("1 "), None);
    assert_eq!(parse_int("-"), None);
    assert_eq!(pad_right("ab", 4), "ab  ");
    assert_eq!(pad_left("ab", 4), "  ab");
    assert_eq!(pad_left("abcde", 4), "abcde");
    assert_eq!(join(&vec!["a".to_string(), "b".to_string()], ", "), "a, b");
    assert!(contains_text("some text", "me te"));
    assert!(contains_text("", ""));
    assert!(!contains_text("some text", "texts"));
}

#[test]
fn paths() {
    assert!(same_path("/a/b", "/a//b/"));
    assert!(same_path("/a/./b", "/a/b"));
    assert!(!same_path("./a", "a"));
    assert!(!same_path("/a/b", "a/b"));
    assert!(is_covered("/a", "/a/b"));
    assert!(is_covered("/a", "/a"));
    assert!(!is_covered("/a", "/ab"));
    assert!(!is_covered("/a/b", "/a"));
}

#[test]
fn stored_words_are_read() {
    for s in [ProjectStatus::Active, ProjectStatus::Archived] {
        assert_eq!(read_status(s.as_str()), s);
    }
    for s in [ProjectSource::Manual, ProjectSource::Discovered] {
        assert_eq!(read_project_source(s.as_str()), s);
    }
    for s in [EntrySource::Manual, EntrySource::Hook, EntrySource::Added] {
        assert_eq!(read_entry_source(s.as_str()), s);
    }
    assert_eq!(read_status("?"), ProjectStatus::Active);
    assert_eq!(read_project_source("?"), ProjectSource::Manual);
    assert_eq!(read_entry_source("?"), EntrySource::Manual);
}

#[test]
fn settings() {
    let d = StintConfig::default();
    assert_eq!(d.idle_threshold_secs, 300);
    assert!(d.auto_discover);
    assert!(d.default_tags.is_empty());
    assert_eq!(d.default_rate_cents, None);
    let c = config_for_hook(Some("60"), true);
    assert_eq!(c.idle_threshold_secs, 60);
    assert!(!c.auto_discover);
    assert_eq!(config_for_hook(Some("soon"), false), d);
    assert_eq!(config_for_hook(None, false), d);
    assert_eq!(idle_threshold_for_status(Some("600")), 600);
    assert_eq!(idle_threshold_for_status(Some("0")), 1);
    assert_eq!(idle_threshold_for_status(Some("-5")), 1);
    assert_eq!(idle_threshold_for_status(Some("x")), 300);
    assert_eq!(idle_threshold_for_status(None), 300);
}
