//! Reports.
use stint::cli::{cmd_add, Output};
use stint::clock::Timestamp;
use stint::project_commands::cmd_project_add;
use stint::report::{cmd_report, generate_report, GroupBy, Report, ReportFormat, ReportRow};
use stint::storage::Storage;

fn at(s: &str) -> Timestamp {
    Timestamp::parse(s).unwrap()
}

fn add(s: &mut Storage, project: &str, secs: i64, id: &str) {
    let now = at("2026-01-07T12:00:00Z");
    assert!(!cmd_add(s, project, secs, None, None, now, now, id).failed);
}

fn store() -> Storage {
    let mut s = Storage::open_in_memory();
    let now = at("2026-01-01T00:00:00Z");
    let none: Vec<String> = vec![];
    for name in ["beta", "al,\"pha\""] {
        assert!(!cmd_project_add(&mut s, name, &none, None, None, now, name).failed);
    }
    add(&mut s, "beta", 3600, "a");
    add(&mut s, "beta", 1800, "b");
    add(&mut s, "al,\"pha\"", 60, "c");
    let mut e = s.get_entry("a").unwrap().unwrap();
    e.tags = vec!["deep".to_string(), "rust".to_string()];
    s.update_entry(&e).unwrap();
    s
}

fn made(s: &Storage, by: &str, format: &str) -> Report {
    let now = at("2026-01-07T13:00:00Z");
    cmd_report(s, by, format, None, None, None, &vec![], now)
}

fn printed(r: Report) -> Output {
    match r {
        Report::Printed(o) => o,
        Report::Rows(_) => panic!("rows"),
    }
}

fn row(group: &str, seconds: i64, entries: usize) -> ReportRow {
    ReportRow { group: group.to_string(), seconds, entries }
}

#[test]
fn a_report_by_project() {
    let s = store();
    let rows = Report::Rows(vec![row("al,\"pha\"", 60, 1), row("beta", 5400, 2)]);
    assert_eq!(made(&s, "project", "json"), rows);
}

#[test]
fn an_entry_counts_for_each_of_its_tags() {
    let s = store();
    let rows = vec![row("(untagged)", 1860, 2), row("deep", 3600, 1), row("rust", 3600, 1)];
    assert_eq!(made(&s, "tag", "json"), Report::Rows(rows));
}

#[test]
fn a_report_as_a_table() {
    let o = printed(made(&store(), "project", "table"));
    assert_eq!(
        o.out,
        vec![
            "Project                     Time  Entries",
            "al,\"pha\"                      1m        1",
            "beta                      1h 30m        2",
        ]
    );
    assert!(!o.failed);
}

#[test]
fn a_report_as_markdown() {
    let o = printed(made(&store(), "tag", "markdown"));
    assert_eq!(
        o.out,
        vec![
            "| Tag | Time | Entries |",
            "| --- | ---: | ---: |",
            "| (untagged) | 31m | 2 |",
            "| deep | 1h 0m | 1 |",
            "| rust | 1h 0m | 1 |",
        ]
    );
}

#[test]
fn a_report_as_separated_values() {
    let o = printed(made(&store(), "project", "csv"));
    assert_eq!(o.out, vec!["Project,Seconds,Entries", "\"al,\"\"pha\"\"\",60,1", "beta,5400,2"]);
}

#[test]
fn a_report_that_cannot_be_made() {
    let s = store();
    let o = printed(made(&s, "day", "xml"));
    assert_eq!(o.err, vec!["error: unknown grouping 'day' (use project or tag)"]);
    assert!(o.failed);
    let o = printed(made(&s, "tag", "xml"));
    assert_eq!(o.err, vec!["error: unknown format 'xml' (use table, markdown, csv or json)"]);
    let now = at("2026-01-07T13:00:00Z");
    let o = printed(cmd_report(&s, "tag", "csv", None, None, Some("no"), &vec![], now));
    assert_eq!(o.err, vec!["error: project 'no' not found"]);
}

#[test]
fn words_of_reports() {
    assert_eq!(GroupBy::from_str_value("project"), Ok(GroupBy::Project));
    assert_eq!(GroupBy::from_str_value("tag"), Ok(GroupBy::Tag));
    assert_eq!(ReportFormat::from_str_value("table"), Ok(ReportFormat::Table));
    assert_eq!(ReportFormat::from_str_value("markdown"), Ok(ReportFormat::Markdown));
    assert_eq!(ReportFormat::from_str_value("csv"), Ok(ReportFormat::Csv));
    assert_eq!(ReportFormat::from_str_value("json"), Ok(ReportFormat::Json));
    assert_eq!(generate_report(&vec![], GroupBy::Tag), vec![]);
}
