//! The dashboard.
use stint::cli::{cmd_add, cmd_start};
use stint::clock::{Timestamp, FIRST};
use stint::dashboard::{App, Key, Panel, TimelineView};
use stint::panels::{
    error_bar_text, error_rows, header_text, timeline_lines, timeline_title, today_lines,
    today_title, week_rows, LineStyle,
};
use stint::project_commands::cmd_project_add;
use stint::storage::Storage;

fn at(s: &str) -> Timestamp {
    Timestamp::parse(s).unwrap()
}

fn store() -> Storage {
    let mut s = Storage::open_in_memory();
    let t = at("2026-01-01T00:00:00Z");
    for name in ["alpha", "beta", "gamma"] {
        cmd_project_add(&mut s, name, &vec![], None, None, t, &format!("id-{name}"));
    }
    // The eighth is a Thursday.
    let now = at("2026-01-08T12:00:00Z");
    cmd_add(&mut s, "beta", 3600, Some("2026-01-05"), None, now, now, "a");
    cmd_add(&mut s, "alpha", 3600, Some("2026-01-06"), None, now, now, "b");
    cmd_add(&mut s, "gamma", 7200, Some("2026-01-07"), Some("call"), now, now, "c");
    cmd_add(&mut s, "gamma", 60, Some("2026-01-08"), None, now, now, "d");
    cmd_add(&mut s, "alpha", 60, Some("2026-01-01"), None, now, now, "e");
    cmd_start(&mut s, "beta", at("2026-01-08T11:00:00Z"), "f");
    s
}

fn app() -> App {
    App::new_at(&store(), at("2026-01-08T12:00:00Z"))
}

#[test]
fn panels_cycle() {
    assert_eq!(Panel::Today.next(), Panel::Timeline);
    assert_eq!(Panel::Timeline.next(), Panel::Week);
    assert_eq!(Panel::Week.next(), Panel::Today);
    assert_eq!(TimelineView::Today.next(), TimelineView::Yesterday);
    assert_eq!(TimelineView::Yesterday.next(), TimelineView::Today);
}

#[test]
fn everything_is_loaded() {
    let a = app();
    assert_eq!(a.running_timer.as_ref().unwrap().0.id, "f");
    let ids = |v: &Vec<(stint::models::TimeEntry, stint::models::Project)>| -> Vec<String> {
        v.iter().map(|p| p.0.id.clone()).collect()
    };
    assert_eq!(ids(&a.today_entries), vec!["f", "d"]);
    assert_eq!(ids(&a.yesterday_entries), vec!["c"]);
    assert_eq!(
        a.week_totals,
        vec![
            ("gamma".to_string(), 7260),
            ("alpha".to_string(), 3600),
            ("beta".to_string(), 3600)
        ]
    );
    assert_eq!(a.error_message, None);
    assert_eq!(a.selected_panel, Panel::Today);
    assert!(!a.should_quit);
}

#[test]
fn the_clock_decides_what_today_is() {
    let mut a = App::new(&Storage::open_in_memory());
    assert!(a.today_entries.is_empty());
    assert!(a.running_timer.is_none());
    a.refresh(&store());
    assert!(a.running_timer.is_some());
}

#[test]
fn a_store_that_cannot_be_read_is_noted() {
    let s = store();
    let mut rows = s.entry_table().clone();
    rows[3].created_at = "?".to_string();
    let broken = Storage::from_rows(s.project_table().clone(), rows, vec![], vec![]).unwrap();
    let mut a = app();
    a.refresh_at(&broken, at("2026-01-08T12:00:00Z"));
    assert!(a.today_entries.is_empty());
    assert_eq!(a.yesterday_entries.len(), 1);
    assert!(a.week_totals.is_empty());
    assert_eq!(a.error_message.as_deref(), Some("invalid timestamp in the database"));
    assert_eq!(
        error_bar_text(&a).as_deref(),
        Some("  ⚠ DB error: invalid timestamp in the database")
    );
    assert_eq!(error_rows(&a), 1);
    a.refresh_at(&s, at("2026-01-08T12:00:00Z"));
    assert_eq!(error_bar_text(&a), None);
    assert_eq!(error_rows(&a), 0);
}

#[test]
fn scrolling_stays_within_the_items() {
    let mut a = app();
    a.scroll_up();
    assert_eq!(a.today_scroll, 0);
    a.scroll_down();
    assert_eq!(a.today_scroll, 1);
    a.scroll_down();
    assert_eq!(a.today_scroll, 1);
    a.scroll_up();
    assert_eq!(a.today_scroll, 0);
    a.handle_key(Key::Tab, false);
    a.handle_key(Key::Down, false);
    assert_eq!(a.timeline_scroll, 1);
    assert_eq!(a.timeline_scroll_items(), 2);
    a.handle_key(Key::Tab, false);
    a.handle_key(Key::Down, false);
    a.handle_key(Key::Down, false);
    a.handle_key(Key::Down, false);
    assert_eq!(a.week_scroll, 2);
    a.handle_key(Key::Up, false);
    assert_eq!(a.week_scroll, 1);
}

#[test]
fn keys() {
    let mut a = app();
    a.handle_key(Key::Char('c'), false);
    a.handle_key(Key::Char('x'), true);
    a.handle_key(Key::Other, false);
    assert!(!a.should_quit);
    a.handle_key(Key::Char('t'), false);
    assert_eq!(a.selected_panel, Panel::Timeline);
    assert!(a.is_timeline_today());
    a.handle_key(Key::Down, false);
    a.handle_key(Key::Char('y'), false);
    assert!(!a.is_timeline_today());
    assert_eq!(a.timeline_scroll, 0);
    assert_eq!(a.timeline_entries().len(), 1);
    assert_eq!(timeline_title(&a), " Timeline (yesterday) ");
    a.handle_key(Key::Char('t'), false);
    assert!(a.is_timeline_today());
    a.handle_key(Key::Char('c'), true);
    assert!(a.should_quit);
    let mut a = app();
    a.handle_key(Key::Char('q'), true);
    assert!(a.should_quit);
    let mut a = app();
    a.handle_key(Key::Esc, false);
    assert!(a.should_quit);
}

#[test]
fn the_header() {
    let a = app();
    assert_eq!(header_text(&a, at("2026-01-08T12:30:00Z")), "  Tracking: beta  [1h 30m]");
    let idle = App::new_at(&Storage::open_in_memory(), at("2026-01-08T12:00:00Z"));
    assert_eq!(header_text(&idle, at("2026-01-08T12:30:00Z")), "  Idle — no timer running");
}

#[test]
fn today() {
    let mut a = app();
    let now = at("2026-01-08T12:00:00Z");
    assert_eq!(today_title(&a), " Today (2) ");
    let lines = today_lines(&a, now);
    assert_eq!(lines.len(), 2);
    assert_eq!(lines[0].text, " 11:00  beta            1h 0m *  manual ");
    assert_eq!(lines[0].style, LineStyle::Running);
    assert_eq!(lines[1].text, " 00:00  gamma                1m  added  ");
    assert_eq!(lines[1].style, LineStyle::Muted);
    a.scroll_down();
    let lines = today_lines(&a, now);
    assert_eq!(lines.len(), 1);
    assert_eq!(lines[0].style, LineStyle::Plain);
    a.today_scroll = 9;
    assert!(today_lines(&a, now).is_empty());
}

#[test]
fn the_timeline() {
    let mut a = app();
    assert_eq!(timeline_title(&a), " Timeline (today) ");
    assert_eq!(timeline_lines(&a), vec![" 00:00 - 00:01  gamma", " 11:00 - now  beta"]);
    a.toggle_timeline_view();
    assert_eq!(timeline_lines(&a), vec![" 00:00 - 02:00  gamma"]);
    let idle = App::new_at(&Storage::open_in_memory(), at("2026-01-08T12:00:00Z"));
    assert_eq!(timeline_lines(&idle), vec![" No entries"]);
    assert_eq!(idle.timeline_scroll_items(), 1);
}

#[test]
fn the_week() {
    let mut a = app();
    let rows = week_rows(&a, 40);
    assert_eq!(rows.len(), 3);
    assert_eq!(rows[0].name, " gamma");
    assert_eq!(rows[0].bar.chars().count(), 10);
    assert_eq!(rows[0].time, "2h 1m");
    assert_eq!(rows[1].bar, "████");
    // Every bar has a block, also without room.
    assert!(week_rows(&a, 20).iter().all(|r| r.bar == "█"));
    a.week_scroll = 2;
    assert_eq!(week_rows(&a, 40).len(), 1);
    a.week_totals = vec![("x".to_string(), 0), ("y".to_string(), -5)];
    a.week_scroll = 0;
    assert!(week_rows(&a, 40).iter().all(|r| r.bar == "█"));
    a.week_totals = vec![];
    assert!(week_rows(&a, 40).is_empty());
}

#[test]
fn a_day_without_a_day_before() {
    let first = Timestamp::new(FIRST, 0).unwrap();
    let mut a = app();
    let before = a.today_entries.len();
    a.refresh_at(&store(), first);
    assert_eq!(a.error_message, Some("time out of range".to_string()));
    assert_eq!(a.today_entries.len(), before);
    let b = App::new_at(&store(), first);
    assert!(b.running_timer.is_none() && b.today_entries.is_empty());
    assert_eq!(b.error_message, a.error_message);
}
