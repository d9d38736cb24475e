//! The store.
use stint::clock::Timestamp;
use stint::db::StorageError;
use stint::models::{
    EntryFilter, EntrySource, Project, ProjectSource, ProjectStatus, ShellSession, TimeEntry,
};
use stint::storage::Storage;

fn at(s: &str) -> Timestamp {
    Timestamp::parse(s).unwrap()
}

fn test_project(name: &str, paths: Vec<&str>) -> Project {
    let now = Timestamp::now_utc();
    Project {
        id: format!("id-of-{name}-{}", paths.len() * 10 + paths.concat().len()),
        name: name.to_string(),
        paths: paths.into_iter().map(|p| p.to_string()).collect(),
        tags: vec![],
        hourly_rate_cents: None,
        status: ProjectStatus::Active,
        source: ProjectSource::Manual,
        created_at: now,
        updated_at: now,
    }
}

fn test_entry(id: &str, project_id: &str, start: &str) -> TimeEntry {
    let now = Timestamp::now_utc();
    let start = at(start);
    TimeEntry {
        id: id.to_string(),
        project_id: project_id.to_string(),
        session_id: None,
        start,
        end: Some(start.plus_seconds(3600).unwrap()),
        duration_secs: Some(3600),
        source: EntrySource::Manual,
        notes: None,
        tags: vec![],
        created_at: now,
        updated_at: now,
    }
}

fn test_session(id: &str, pid: u32, shell: Option<&str>, cwd: &str) -> ShellSession {
    let now = Timestamp::now_utc();
    ShellSession {
        id: id.to_string(),
        pid,
        shell: shell.map(|s| s.to_string()),
        cwd: cwd.to_string(),
        current_project_id: None,
        started_at: now,
        last_heartbeat: now,
        ended_at: None,
    }
}

// --- Projects ---

#[test]
fn create_and_get_project() {
    let mut storage = Storage::open_in_memory();
    let project = test_project("my-app", vec!["/home/user/projects/my-app"]);
    storage.create_project(&project).unwrap();

    let loaded = storage.get_project(&project.id).unwrap().unwrap();
    assert_eq!(loaded.name, "my-app");
    assert_eq!(loaded.paths, project.paths);
    assert_eq!(loaded, project);
}

#[test]
fn create_project_with_tags_and_rate() {
    let mut storage = Storage::open_in_memory();
    let mut project = test_project("client-work", vec!["/home/user/client"]);
    project.tags = vec!["client".to_string(), "frontend".to_string()];
    project.hourly_rate_cents = Some(15000);
    storage.create_project(&project).unwrap();

    let loaded = storage.get_project(&project.id).unwrap().unwrap();
    assert_eq!(loaded.tags, vec!["client", "frontend"]);
    assert_eq!(loaded.hourly_rate_cents, Some(15000));
}

#[test]
fn create_project_duplicate_name_errors() {
    let mut storage = Storage::open_in_memory();
    let p1 = test_project("my-app", vec!["/path/a"]);
    let p2 = test_project("my-app", vec!["/path/b"]);
    storage.create_project(&p1).unwrap();
    let result = storage.create_project(&p2);
    assert!(matches!(result, Err(StorageError::DuplicateProjectName(_))));
}

#[test]
fn get_project_by_name_case_insensitive() {
    let mut storage = Storage::open_in_memory();
    let project = test_project("My-App", vec![]);
    storage.create_project(&project).unwrap();
    let loaded = storage.get_project_by_name("my-app").unwrap().unwrap();
    assert_eq!(loaded.id, project.id);
}

#[test]
fn get_project_by_path_exact_match() {
    let mut storage = Storage::open_in_memory();
    let project = test_project("my-app", vec!["/home/user/projects/my-app"]);
    storage.create_project(&project).unwrap();
    let loaded = storage.get_project_by_path("/home/user/projects/my-app").unwrap().unwrap();
    assert_eq!(loaded.id, project.id);
}

#[test]
fn get_project_by_path_subdirectory_match() {
    let mut storage = Storage::open_in_memory();
    let project = test_project("my-app", vec!["/home/user/projects/my-app"]);
    storage.create_project(&project).unwrap();
    let loaded = storage
        .get_project_by_path("/home/user/projects/my-app/src/components")
        .unwrap()
        .unwrap();
    assert_eq!(loaded.id, project.id);
}

#[test]
fn get_project_by_path_longest_prefix_wins() {
    let mut storage = Storage::open_in_memory();
    let monorepo = test_project("monorepo", vec!["/home/user/monorepo"]);
    let frontend = test_project("frontend", vec!["/home/user/monorepo/packages/frontend"]);
    storage.create_project(&monorepo).unwrap();
    storage.create_project(&frontend).unwrap();

    let loaded = storage
        .get_project_by_path("/home/user/monorepo/packages/frontend/src/index.ts")
        .unwrap()
        .unwrap();
    assert_eq!(loaded.name, "frontend");

    let loaded = storage
        .get_project_by_path("/home/user/monorepo/packages/backend")
        .unwrap()
        .unwrap();
    assert_eq!(loaded.name, "monorepo");
}

#[test]
fn get_project_by_path_no_partial_name_match() {
    let mut storage = Storage::open_in_memory();
    let project = test_project("my-app", vec!["/home/user/project"]);
    storage.create_project(&project).unwrap();
    let loaded = storage.get_project_by_path("/home/user/project-foo").unwrap();
    assert!(loaded.is_none());
}

#[test]
fn get_project_by_path_no_match() {
    let mut storage = Storage::open_in_memory();
    let project = test_project("my-app", vec!["/home/user/projects/my-app"]);
    storage.create_project(&project).unwrap();
    let loaded = storage.get_project_by_path("/home/user/other").unwrap();
    assert!(loaded.is_none());
}

#[test]
fn list_projects_filters_by_status() {
    let mut storage = Storage::open_in_memory();
    let active = test_project("active-proj", vec![]);
    let mut archived = test_project("archived-proj", vec![]);
    archived.status = ProjectStatus::Archived;
    storage.create_project(&active).unwrap();
    storage.create_project(&archived).unwrap();

    let active_list = storage.list_projects(Some(ProjectStatus::Active)).unwrap();
    assert_eq!(active_list.len(), 1);
    assert_eq!(active_list[0].name, "active-proj");

    let archived_list = storage.list_projects(Some(ProjectStatus::Archived)).unwrap();
    assert_eq!(archived_list.len(), 1);
    assert_eq!(archived_list[0].name, "archived-proj");

    let all = storage.list_projects(None).unwrap();
    assert_eq!(all.len(), 2);
}

#[test]
fn update_project() {
    let mut storage = Storage::open_in_memory();
    let mut project = test_project("my-app", vec!["/home/user/my-app"]);
    storage.create_project(&project).unwrap();

    project.name = "renamed-app".to_string();
    project.hourly_rate_cents = Some(20000);
    project.paths = vec!["/home/user/my-app".to_string(), "/home/user/my-app-v2".to_string()];
    storage.update_project(&project).unwrap();

    let loaded = storage.get_project(&project.id).unwrap().unwrap();
    assert_eq!(loaded.name, "renamed-app");
    assert_eq!(loaded.hourly_rate_cents, Some(20000));
    assert_eq!(loaded.paths.len(), 2);
}

#[test]
fn delete_project_cascades() {
    let mut storage = Storage::open_in_memory();
    let project = test_project("my-app", vec!["/home/user/my-app"]);
    storage.create_project(&project).unwrap();
    let entry = test_entry("e", &project.id, "2026-01-01T09:00:00Z");
    storage.create_entry(&entry).unwrap();

    storage.delete_project(&project.id).unwrap();

    assert!(storage.get_project(&project.id).unwrap().is_none());
    assert!(storage.get_entry(&entry.id).unwrap().is_none());
}

#[test]
fn deleting_a_project_leaves_sessions_without_one() {
    let mut storage = Storage::open_in_memory();
    let project = test_project("my-app", vec![]);
    storage.create_project(&project).unwrap();
    let mut session = test_session("s", 1, None, "/tmp");
    session.current_project_id = Some(project.id.clone());
    storage.upsert_session(&session).unwrap();
    assert_eq!(storage.count_active_sessions_for_project(&project.id, None), 1);
    storage.delete_project(&project.id).unwrap();
    assert_eq!(storage.get_session("s").unwrap().unwrap().current_project_id, None);
    assert_eq!(storage.count_active_sessions_for_project(&project.id, None), 0);
}

#[test]
fn projects_are_listed_by_name_without_regard_to_case() {
    let mut storage = Storage::open_in_memory();
    for name in ["beta", "Alpha", "gamma", "_x"] {
        storage.create_project(&test_project(name, vec![])).unwrap();
    }
    let names: Vec<String> =
        storage.list_projects(None).unwrap().into_iter().map(|p| p.name).collect();
    assert_eq!(names, vec!["_x", "Alpha", "beta", "gamma"]);
}

#[test]
fn updates_keep_source_and_creation_time() {
    let mut storage = Storage::open_in_memory();
    let mut p = test_project("my-app", vec![]);
    p.source = ProjectSource::Discovered;
    p.created_at = at("2026-01-01T09:00:00Z");
    storage.create_project(&p).unwrap();
    p.source = ProjectSource::Manual;
    p.created_at = at("2026-02-02T09:00:00Z");
    p.tags = vec!["b".to_string(), "a".to_string()];
    storage.update_project(&p).unwrap();
    let loaded = storage.get_project(&p.id).unwrap().unwrap();
    assert_eq!(loaded.source, ProjectSource::Discovered);
    assert_eq!(loaded.created_at, at("2026-01-01T09:00:00Z"));
    assert_eq!(loaded.tags, vec!["a", "b"]);
}

#[test]
fn refused_changes_of_projects_change_nothing() {
    let mut storage = Storage::open_in_memory();
    let a = test_project("a", vec![]);
    let b = test_project("b", vec![]);
    storage.create_project(&a).unwrap();
    storage.create_project(&b).unwrap();

    let mut renamed = test_project("b", vec![]);
    renamed.name = "A".to_string();
    assert_eq!(storage.update_project(&renamed), Err(StorageError::Constraint));
    assert_eq!(storage.get_project(&b.id).unwrap().unwrap().name, "b");

    let mut same_id = test_project("c", vec![]);
    same_id.id = a.id.clone();
    assert_eq!(storage.create_project(&same_id), Err(StorageError::Constraint));

    let mut twice = test_project("d", vec!["/x", "/x"]);
    assert_eq!(storage.create_project(&twice), Err(StorageError::Constraint));
    twice.paths = vec![];
    twice.tags = vec!["t".to_string(), "t".to_string()];
    assert_eq!(storage.create_project(&twice), Err(StorageError::Constraint));

    let missing = test_project("e", vec![]);
    assert_eq!(
        storage.update_project(&missing),
        Err(StorageError::ProjectNotFound(missing.id.clone()))
    );
    assert_eq!(
        storage.delete_project("nobody"),
        Err(StorageError::ProjectNotFound("nobody".to_string()))
    );
    assert_eq!(storage.list_projects(None).unwrap().len(), 2);
}

// --- Entries ---

#[test]
fn create_and_get_entry() {
    let mut storage = Storage::open_in_memory();
    let project = test_project("my-app", vec![]);
    storage.create_project(&project).unwrap();

    let mut entry = test_entry("e", &project.id, "2026-01-01T09:00:00Z");
    entry.tags = vec!["bugfix".to_string()];
    entry.notes = Some("Fixed the login bug".to_string());
    storage.create_entry(&entry).unwrap();

    let loaded = storage.get_entry(&entry.id).unwrap().unwrap();
    assert_eq!(loaded.project_id, project.id);
    assert_eq!(loaded.tags, vec!["bugfix"]);
    assert_eq!(loaded.notes.as_deref(), Some("Fixed the login bug"));
    assert_eq!(loaded, entry);
}

#[test]
fn get_running_entry_for_project() {
    let mut storage = Storage::open_in_memory();
    let project = test_project("my-app", vec![]);
    storage.create_project(&project).unwrap();

    let mut entry = test_entry("e", &project.id, "2026-01-01T09:00:00Z");
    entry.end = None;
    entry.duration_secs = None;
    storage.create_entry(&entry).unwrap();

    let running = storage.get_running_entry(&project.id).unwrap().unwrap();
    assert_eq!(running.id, entry.id);
}

#[test]
fn get_running_entry_none_when_stopped() {
    let mut storage = Storage::open_in_memory();
    let project = test_project("my-app", vec![]);
    storage.create_project(&project).unwrap();

    let mut entry = test_entry("e", &project.id, "2026-01-01T09:00:00Z");
    entry.end = Some(at("2026-01-01T10:00:00Z"));
    entry.duration_secs = Some(3600);
    storage.create_entry(&entry).unwrap();

    let running = storage.get_running_entry(&project.id).unwrap();
    assert!(running.is_none());
}

#[test]
fn get_any_running_entry() {
    let mut storage = Storage::open_in_memory();
    let p1 = test_project("app-1", vec![]);
    let p2 = test_project("app-2", vec![]);
    storage.create_project(&p1).unwrap();
    storage.create_project(&p2).unwrap();

    let mut entry = test_entry("e", &p2.id, "2026-01-01T09:00:00Z");
    entry.end = None;
    entry.duration_secs = None;
    storage.create_entry(&entry).unwrap();

    let running = storage.get_any_running_entry().unwrap().unwrap();
    assert_eq!(running.project_id, p2.id);
}

#[test]
fn list_entries_by_project() {
    let mut storage = Storage::open_in_memory();
    let p1 = test_project("app-1", vec![]);
    let p2 = test_project("app-2", vec![]);
    storage.create_project(&p1).unwrap();
    storage.create_project(&p2).unwrap();

    let e1 = test_entry("e1", &p1.id, "2026-01-01T09:00:00Z");
    let e2 = test_entry("e2", &p2.id, "2026-01-01T10:00:00Z");
    storage.create_entry(&e1).unwrap();
    storage.create_entry(&e2).unwrap();

    let filter = EntryFilter { project_id: Some(p1.id.clone()), ..Default::default() };
    let entries = storage.list_entries(&filter).unwrap();
    assert_eq!(entries.len(), 1);
    assert_eq!(entries[0].project_id, p1.id);
}

#[test]
fn list_entries_by_date_range() {
    let mut storage = Storage::open_in_memory();
    let project = test_project("my-app", vec![]);
    storage.create_project(&project).unwrap();

    let e1 = test_entry("e1", &project.id, "2026-01-01T09:00:00Z");
    let e2 = test_entry("e2", &project.id, "2026-01-02T09:00:00Z");
    let e3 = test_entry("e3", &project.id, "2026-01-03T09:00:00Z");
    storage.create_entry(&e1).unwrap();
    storage.create_entry(&e2).unwrap();
    storage.create_entry(&e3).unwrap();

    let filter = EntryFilter {
        from: Some(at("2026-01-02T00:00:00Z")),
        to: Some(at("2026-01-03T00:00:00Z")),
        ..Default::default()
    };
    let entries = storage.list_entries(&filter).unwrap();
    assert_eq!(entries.len(), 1);
    assert_eq!(entries[0].id, e2.id);
}

#[test]
fn list_entries_by_tag() {
    let mut storage = Storage::open_in_memory();
    let project = test_project("my-app", vec![]);
    storage.create_project(&project).unwrap();

    let mut e1 = test_entry("e1", &project.id, "2026-01-01T09:00:00Z");
    e1.tags = vec!["bugfix".to_string(), "urgent".to_string()];
    let mut e2 = test_entry("e2", &project.id, "2026-01-02T09:00:00Z");
    e2.tags = vec!["feature".to_string()];
    storage.create_entry(&e1).unwrap();
    storage.create_entry(&e2).unwrap();

    let filter = EntryFilter { tags: vec!["bugfix".to_string()], ..Default::default() };
    let entries = storage.list_entries(&filter).unwrap();
    assert_eq!(entries.len(), 1);
    assert_eq!(entries[0].id, e1.id);

    let filter = EntryFilter {
        tags: vec!["bugfix".to_string(), "urgent".to_string()],
        ..Default::default()
    };
    let entries = storage.list_entries(&filter).unwrap();
    assert_eq!(entries.len(), 1);
}

#[test]
fn update_entry_stop() {
    let mut storage = Storage::open_in_memory();
    let project = test_project("my-app", vec![]);
    storage.create_project(&project).unwrap();

    let mut entry = test_entry("e", &project.id, "2026-01-01T09:00:00Z");
    storage.create_entry(&entry).unwrap();

    entry.end = Some(at("2026-01-01T10:30:00Z"));
    entry.duration_secs = Some(5400);
    storage.update_entry(&entry).unwrap();

    let loaded = storage.get_entry(&entry.id).unwrap().unwrap();
    assert!(!loaded.is_running());
    assert_eq!(loaded.duration_secs, Some(5400));
}

#[test]
fn delete_entry() {
    let mut storage = Storage::open_in_memory();
    let project = test_project("my-app", vec![]);
    storage.create_project(&project).unwrap();

    let mut entry = test_entry("e", &project.id, "2026-01-01T09:00:00Z");
    entry.tags = vec!["test".to_string()];
    storage.create_entry(&entry).unwrap();

    storage.delete_entry(&entry.id).unwrap();
    assert!(storage.get_entry(&entry.id).unwrap().is_none());
}

#[test]
fn one_running_entry_of_a_project() {
    let mut storage = Storage::open_in_memory();
    let project = test_project("my-app", vec![]);
    storage.create_project(&project).unwrap();
    let mut a = test_entry("a", &project.id, "2026-01-01T09:00:00Z");
    a.end = None;
    let mut b = test_entry("b", &project.id, "2026-01-01T10:00:00Z");
    storage.create_entry(&a).unwrap();
    storage.create_entry(&b).unwrap();
    b.end = None;
    assert_eq!(storage.update_entry(&b), Err(StorageError::Constraint));
    let mut c = test_entry("c", &project.id, "2026-01-01T11:00:00Z");
    c.end = None;
    assert_eq!(storage.create_entry(&c), Err(StorageError::Constraint));
    assert!(!storage.get_entry("b").unwrap().unwrap().is_running());
}

#[test]
fn refused_changes_of_entries() {
    let mut storage = Storage::open_in_memory();
    let project = test_project("my-app", vec![]);
    storage.create_project(&project).unwrap();
    let e = test_entry("e", &project.id, "2026-01-01T09:00:00Z");
    storage.create_entry(&e).unwrap();
    assert_eq!(storage.create_entry(&e), Err(StorageError::Constraint));
    let stray = test_entry("f", "nobody", "2026-01-01T09:00:00Z");
    assert_eq!(storage.create_entry(&stray), Err(StorageError::Constraint));
    assert_eq!(
        storage.update_entry(&stray),
        Err(StorageError::EntryNotFound("f".to_string()))
    );
    assert_eq!(
        storage.delete_entry("f"),
        Err(StorageError::EntryNotFound("f".to_string()))
    );
}

#[test]
fn entries_are_listed_from_the_latest_on() {
    let mut storage = Storage::open_in_memory();
    let project = test_project("my-app", vec![]);
    storage.create_project(&project).unwrap();
    for (id, start) in [
        ("b", "2026-01-02T09:00:00Z"),
        ("c", "2026-01-03T09:00:00Z"),
        ("a", "2026-01-01T09:00:00Z"),
    ] {
        storage.create_entry(&test_entry(id, &project.id, start)).unwrap();
    }
    let listed: Vec<String> = storage
        .list_entries(&EntryFilter::default())
        .unwrap()
        .into_iter()
        .map(|e| e.id)
        .collect();
    assert_eq!(listed, vec!["c", "b", "a"]);
    assert_eq!(storage.get_last_entry().unwrap().unwrap().id, "c");
    let filter = EntryFilter { source: Some(EntrySource::Hook), ..Default::default() };
    assert!(storage.list_entries(&filter).unwrap().is_empty());
}

#[test]
fn a_time_that_cannot_be_written_cannot_be_read() {
    let mut storage = Storage::open_in_memory();
    let mut project = test_project("my-app", vec![]);
    // A year before the first one with four digits.
    project.created_at = Timestamp::new(-62_167_219_200_000_000_001, 0).unwrap();
    storage.create_project(&project).unwrap();
    assert_eq!(storage.get_project(&project.id), Err(StorageError::InvalidTimestamp));
    assert_eq!(storage.list_projects(None), Err(StorageError::InvalidTimestamp));
}

// --- Sessions ---

#[test]
fn upsert_session_creates() {
    let mut storage = Storage::open_in_memory();
    let session = test_session("s", 12345, Some("zsh"), "/home/user/projects");
    storage.upsert_session(&session).unwrap();

    let loaded = storage.get_session(&session.id).unwrap().unwrap();
    assert_eq!(loaded.pid, 12345);
    assert_eq!(loaded.shell.as_deref(), Some("zsh"));
    assert_eq!(loaded, session);
}

#[test]
fn upsert_session_updates_heartbeat() {
    let mut storage = Storage::open_in_memory();
    let mut session = test_session("s", 12345, Some("bash"), "/home/user");
    storage.upsert_session(&session).unwrap();

    session.cwd = "/home/user/projects/my-app".to_string();
    session.last_heartbeat = session.started_at.plus_seconds(30).unwrap();
    storage.upsert_session(&session).unwrap();

    let loaded = storage.get_session(&session.id).unwrap().unwrap();
    assert_eq!(loaded.cwd, "/home/user/projects/my-app");
    assert_eq!(loaded, session);
}

#[test]
fn get_session_by_pid() {
    let mut storage = Storage::open_in_memory();
    let session = test_session("s", 99999, Some("fish"), "/tmp");
    storage.upsert_session(&session).unwrap();

    let loaded = storage.get_session_by_pid(99999).unwrap().unwrap();
    assert_eq!(loaded.id, session.id);

    storage.end_session(&session.id, session.started_at).unwrap();
    let loaded = storage.get_session_by_pid(99999).unwrap();
    assert!(loaded.is_none());
}

#[test]
fn end_session() {
    let mut storage = Storage::open_in_memory();
    let session = test_session("s", 11111, None, "/home/user");
    storage.upsert_session(&session).unwrap();
    storage.end_session(&session.id, session.started_at).unwrap();

    let loaded = storage.get_session(&session.id).unwrap().unwrap();
    assert!(loaded.ended_at.is_some());
    assert_eq!(
        storage.end_session("nobody", session.started_at),
        Err(StorageError::SessionNotFound("nobody".to_string()))
    );
}

#[test]
fn a_process_identifier_that_is_used_again_ends_the_session_before() {
    let mut storage = Storage::open_in_memory();
    let first = test_session("first", 7, None, "/a");
    let mut second = test_session("second", 7, None, "/b");
    second.started_at = at("2026-01-01T09:00:00Z");
    storage.upsert_session(&first).unwrap();
    storage.upsert_session(&second).unwrap();
    assert_eq!(storage.get_session_by_pid(7).unwrap().unwrap().id, "second");
    assert_eq!(
        storage.get_session("first").unwrap().unwrap().ended_at,
        Some(at("2026-01-01T09:00:00Z"))
    );
}

#[test]
fn refused_sessions() {
    let mut storage = Storage::open_in_memory();
    let mut s = test_session("s", 7, None, "/a");
    s.current_project_id = Some("nobody".to_string());
    assert_eq!(storage.upsert_session(&s), Err(StorageError::Constraint));
    // A stored session keeps its process, and another one is active there by now.
    storage.upsert_session(&test_session("s", 1, None, "/a")).unwrap();
    storage.upsert_session(&test_session("t", 1, None, "/a")).unwrap();
    assert_eq!(
        storage.upsert_session(&test_session("s", 2, None, "/a")),
        Err(StorageError::Constraint)
    );
    assert_eq!(storage.get_session_by_pid(1).unwrap().unwrap().id, "t");
}

// --- Ignored paths ---

#[test]
fn ignoring_paths() {
    let mut storage = Storage::open_in_memory();
    storage.add_ignored_path("/home/user/dotfiles");
    storage.add_ignored_path("/a");
    storage.add_ignored_path("/a");
    assert!(storage.is_path_ignored("/home/user/dotfiles"));
    assert!(storage.is_path_ignored("/home/user/dotfiles/vim"));
    assert!(!storage.is_path_ignored("/home/user/dotfiles-old"));
    assert!(!storage.is_path_ignored("/home/user"));
    assert_eq!(storage.list_ignored_paths(), vec!["/a", "/home/user/dotfiles"]);
    assert!(storage.remove_ignored_path("/a"));
    assert!(!storage.remove_ignored_path("/a"));
    assert_eq!(storage.list_ignored_paths(), vec!["/home/user/dotfiles"]);
}

// --- Rows ---

#[test]
fn rows_that_break_the_rules_are_not_taken() {
    let mut storage = Storage::open_in_memory();
    let project = test_project("my-app", vec!["/x"]);
    storage.create_project(&project).unwrap();
    let mut e = test_entry("e", &project.id, "2026-01-01T09:00:00Z");
    e.end = None;
    storage.create_entry(&e).unwrap();
    storage.upsert_session(&test_session("s", 1, None, "/a")).unwrap();
    storage.add_ignored_path("/a");

    let projects = storage.project_table().clone();
    let entries = storage.entry_table().clone();
    let sessions = storage.session_table().clone();
    let ignored = storage.ignored_table().clone();
    let same = Storage::from_rows(
        projects.clone(),
        entries.clone(),
        sessions.clone(),
        ignored.clone(),
    )
    .unwrap();
    assert_eq!(same.get_entry("e").unwrap(), storage.get_entry("e").unwrap());

    let mut twice = projects.clone();
    twice.push(projects[0].clone());
    assert!(Storage::from_rows(twice, entries.clone(), sessions.clone(), ignored.clone()).is_none());
    assert!(Storage::from_rows(vec![], entries.clone(), sessions.clone(), ignored.clone()).is_none());
    let mut running = entries.clone();
    let mut f = entries[0].clone();
    f.id = "f".to_string();
    running.push(f);
    assert!(
        Storage::from_rows(projects.clone(), running, sessions.clone(), ignored.clone()).is_none()
    );
    let mut active = sessions.clone();
    let mut t = sessions[0].clone();
    t.id = "t".to_string();
    active.push(t);
    assert!(
        Storage::from_rows(projects.clone(), entries.clone(), active, ignored.clone()).is_none()
    );
    let mut tagged = entries.clone();
    tagged[0].tags = vec!["b".to_string(), "a".to_string()];
    assert!(
        Storage::from_rows(projects.clone(), tagged, sessions.clone(), ignored.clone()).is_none()
    );
    let mut paths = ignored.clone();
    paths.push("/a".to_string());
    assert!(Storage::from_rows(projects, entries, sessions, paths).is_none());
}

// --- Order ---

#[test]
fn entries_are_listed_by_time() {
    let mut storage = Storage::open_in_memory();
    let project = test_project("my-app", vec!["/x"]);
    storage.create_project(&project).unwrap();
    for (id, start) in [
        ("c", "2026-01-02T00:00:00Z"),
        ("a", "2025-12-31T23:59:59Z"),
        ("d", "2026-01-02T00:00:01.5Z"),
        ("b", "2026-01-01T10:00:00Z"),
    ] {
        storage.create_entry(&test_entry(id, &project.id, start)).unwrap();
    }
    let listed = |from: Option<&str>, to: Option<&str>| -> Vec<String> {
        let filter = EntryFilter {
            project_id: None,
            from: from.map(at),
            to: to.map(at),
            source: None,
            tags: vec![],
        };
        storage.list_entries(&filter).unwrap().into_iter().map(|e| e.id).collect()
    };
    assert_eq!(listed(None, None), vec!["d", "c", "b", "a"]);
    assert_eq!(listed(Some("2026-01-01T10:00:00Z"), Some("2026-01-02T00:00:00Z")), vec!["b"]);
    assert_eq!(listed(Some("2026-01-01T10:00:01Z"), None), vec!["d", "c"]);
    assert_eq!(storage.get_last_entry().unwrap().unwrap().id, "d");
}
