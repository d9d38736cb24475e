//! The HTTP interface.
use stint::api::{
    entries, entries_at, health, projects, start, start_at, status, status_at, stop, stop_at,
    EntriesQuery, ErrorResponse, StartRequest, StatusResponse, BAD_REQUEST, CREATED,
    INTERNAL_SERVER_ERROR, MAX_LIMIT, OK,
};
use stint::cli::cmd_add;
use stint::clock::Timestamp;
use stint::models::{EntrySource, TimeEntry};
use stint::project_commands::cmd_project_add;
use stint::storage::Storage;

fn at(s: &str) -> Timestamp {
    Timestamp::parse(s).unwrap()
}

fn store() -> Storage {
    let mut s = Storage::open_in_memory();
    let paths = vec!["/x".to_string()];
    cmd_project_add(&mut s, "my-app", &paths, Some("b,a"), Some(100), at("2026-01-01T00:00:00Z"), "p");
    s
}

fn all() -> EntriesQuery {
    EntriesQuery { from: None, to: None, project: None, limit: None }
}

fn error(e: &str) -> ErrorResponse {
    ErrorResponse { error: e.to_string() }
}

fn request(name: &str) -> StartRequest {
    StartRequest { project: name.to_string() }
}

#[test]
fn health_is_ok() {
    let r = health();
    assert_eq!(r.status, OK);
    assert!(r.body.unwrap().ok);
}

#[test]
fn nothing_is_running() {
    let r = status(&store());
    assert_eq!(r.status, 200);
    assert_eq!(
        r.body,
        Ok(StatusResponse {
            tracking: false,
            project: None,
            elapsed_secs: None,
            entry_id: None,
            started_at: None
        })
    );
}

#[test]
fn starting_and_stopping() {
    let mut s = store();
    let r = start_at(&mut s, &request("My-App"), at("2026-01-05T09:00:00Z"), "e");
    assert_eq!(r.status, CREATED);
    let e = r.body.unwrap();
    assert_eq!(e.id, "e");
    assert_eq!(e.project, "my-app");
    assert_eq!(e.start, "2026-01-05T09:00:00Z");
    assert_eq!(e.end, None);
    assert_eq!(e.duration_secs, Some(0));
    assert_eq!(e.source, "manual");
    assert!(e.running);

    let r = status_at(&s, at("2026-01-05T09:01:30Z")).body.unwrap();
    assert!(r.tracking);
    assert_eq!(r.project.as_deref(), Some("my-app"));
    assert_eq!(r.elapsed_secs, Some(90));
    assert_eq!(r.entry_id.as_deref(), Some("e"));
    assert_eq!(r.started_at.as_deref(), Some("2026-01-05T09:00:00Z"));

    let r = entries_at(&s, &all(), at("2026-01-05T09:01:30Z")).body.unwrap();
    assert_eq!(r.len(), 1);
    assert!(r[0].running);
    assert_eq!(r[0].duration_secs, Some(90));

    let r = start_at(&mut s, &request("my-app"), at("2026-01-05T09:02:00Z"), "f");
    assert_eq!(r.status, BAD_REQUEST);
    assert_eq!(r.body, Err(error("timer already running for 'my-app'")));

    let r = stop_at(&mut s, at("2026-01-05T10:00:00Z"));
    assert_eq!(r.status, 200);
    let e = r.body.unwrap();
    assert_eq!(e.end.as_deref(), Some("2026-01-05T10:00:00Z"));
    assert_eq!(e.duration_secs, Some(3600));
    assert!(!e.running);

    let r = stop_at(&mut s, at("2026-01-05T10:00:00Z"));
    assert_eq!(r.status, 400);
    assert_eq!(r.body, Err(error("no timer running")));
}

#[test]
fn by_the_clock() {
    let mut s = store();
    assert_eq!(start(&mut s, &request("my-app"), "e").status, 201);
    assert!(status(&s).body.unwrap().elapsed_secs.unwrap() < 60);
    assert_eq!(entries(&s, &all()).body.unwrap().len(), 1);
    assert_eq!(stop(&mut s).status, 200);
    assert_eq!(start(&mut s, &request("nobody"), "f").status, 400);
}

#[test]
fn queries() {
    let mut s = store();
    let now = at("2026-01-08T12:00:00Z");
    cmd_add(&mut s, "my-app", 60, Some("2026-01-05"), None, now, now, "a");
    cmd_add(&mut s, "my-app", 60, Some("2026-01-06"), Some("n"), now, now, "b");
    cmd_add(&mut s, "my-app", 60, Some("2026-01-07"), None, now, now, "c");
    let found = |q: EntriesQuery| -> Vec<String> {
        entries_at(&s, &q, now).body.unwrap().into_iter().map(|e| e.id).collect()
    };
    assert_eq!(found(all()), vec!["c", "b", "a"]);
    assert_eq!(found(EntriesQuery { limit: Some(2), ..all() }), vec!["c", "b"]);
    assert!(found(EntriesQuery { limit: Some(0), ..all() }).is_empty());
    assert_eq!(
        found(EntriesQuery {
            from: Some("2026-01-06T00:00:00Z".to_string()),
            to: Some("2026-01-07T00:00:00Z".to_string()),
            project: Some("MY-APP".to_string()),
            limit: None
        }),
        vec!["b"]
    );
    let bad = |q: EntriesQuery| {
        let r = entries_at(&s, &q, now);
        assert_eq!(r.status, 400);
        r.body
    };
    assert_eq!(
        bad(EntriesQuery { from: Some("x".to_string()), ..all() }),
        Err(error("invalid 'from' date: 'x' (expected RFC 3339)"))
    );
    assert_eq!(
        bad(EntriesQuery { to: Some("y".to_string()), ..all() }),
        Err(error("invalid 'to' date: 'y' (expected RFC 3339)"))
    );
    assert_eq!(
        bad(EntriesQuery { project: Some("z".to_string()), from: Some("x".to_string()), ..all() }),
        Err(error("project 'z' not found"))
    );
}

#[test]
fn no_more_than_the_most() {
    let mut s = store();
    let t = at("2026-01-05T09:00:00Z");
    let entry = TimeEntry {
        id: "e".to_string(),
        project_id: "p".to_string(),
        session_id: None,
        start: t,
        end: Some(t),
        duration_secs: None,
        source: EntrySource::Manual,
        notes: None,
        tags: vec![],
        created_at: t,
        updated_at: t,
    };
    s.create_entry(&entry).unwrap();
    let base = s.entry_table()[0].clone();
    let rows = (0..(MAX_LIMIT + 5))
        .map(|i| {
            let mut r = base.clone();
            r.id = format!("e{i:06}");
            r
        })
        .collect();
    let s = Storage::from_rows(s.project_table().clone(), rows, vec![], vec![]).unwrap();
    let r = entries_at(&s, &all(), t).body.unwrap();
    assert_eq!(r.len(), MAX_LIMIT);
    let r = entries_at(&s, &EntriesQuery { limit: Some(MAX_LIMIT + 1), ..all() }, t).body.unwrap();
    assert_eq!(r.len(), MAX_LIMIT);
}

#[test]
fn projects_are_answered() {
    let s = store();
    let r = projects(&s);
    assert_eq!(r.status, 200);
    let p = r.body.unwrap();
    assert_eq!(p.len(), 1);
    assert_eq!(p[0].name, "my-app");
    assert_eq!(p[0].paths, vec!["/x"]);
    assert_eq!(p[0].tags, vec!["a", "b"]);
    assert_eq!(p[0].hourly_rate_cents, Some(100));
    assert_eq!(p[0].status, "active");
    assert_eq!(p[0].source, "manual");
}

#[test]
fn a_broken_store_is_a_server_error() {
    let s = store();
    let mut rows = s.project_table().clone();
    rows[0].created_at = "yesterday".to_string();
    let s = Storage::from_rows(rows, vec![], vec![], vec![]).unwrap();
    let r = projects(&s);
    assert_eq!(r.status, INTERNAL_SERVER_ERROR);
    assert_eq!(r.body, Err(error("invalid timestamp in the database")));
}
