//! The shell hook.
use stint::clock::{Timestamp, FIRST};
use stint::config::StintConfig;
use stint::db::StorageError;
use stint::error::StintError;
use stint::hook::{
    handle_hook, handle_hook_at, handle_hook_exit, handle_hook_exit_at, new_hook_entry,
    reap_stale_sessions, stale_seconds, wants_discovery, Discovery, FreshIds, HookAction,
};
use stint::models::{
    EntryFilter, EntrySource, Project, ProjectSource, ProjectStatus, ShellSession, TimeEntry,
};
use stint::storage::Storage;

fn test_config() -> StintConfig {
    StintConfig::default()
}

fn setup() -> Storage {
    Storage::open_in_memory()
}

fn ids(n: u32) -> FreshIds {
    FreshIds {
        session: format!("session-{n}"),
        entry: format!("entry-{n}"),
        project: format!("project-{n}"),
    }
}

fn create_project(storage: &mut Storage, name: &str, path: &str) {
    let now = Timestamp::now_utc();
    let project = Project {
        id: format!("id-of-{name}"),
        name: name.to_string(),
        paths: vec![path.to_string()],
        tags: vec![],
        hourly_rate_cents: None,
        status: ProjectStatus::Active,
        source: ProjectSource::Manual,
        created_at: now,
        updated_at: now,
    };
    storage.create_project(&project).unwrap();
}

fn prompt(storage: &mut Storage, pid: u32, cwd: &str, n: u32) -> HookAction {
    handle_hook(storage, pid, cwd, None, &test_config(), &None, &ids(n)).unwrap()
}

fn manual_entry(project_id: &str) -> TimeEntry {
    let now = Timestamp::now_utc();
    TimeEntry {
        id: "manual".to_string(),
        project_id: project_id.to_string(),
        session_id: None,
        start: now,
        end: None,
        duration_secs: None,
        source: EntrySource::Manual,
        notes: None,
        tags: vec![],
        created_at: now,
        updated_at: now,
    }
}

fn session(id: &str, pid: u32, shell: Option<&str>, project: Option<&str>, at: Timestamp) -> ShellSession {
    ShellSession {
        id: id.to_string(),
        pid,
        shell: shell.map(|s| s.to_string()),
        cwd: "/home/user/my-app".to_string(),
        current_project_id: project.map(|s| s.to_string()),
        started_at: at,
        last_heartbeat: at,
        ended_at: None,
    }
}

#[test]
fn cold_start_in_project_creates_session_and_entry() {
    let mut storage = setup();
    create_project(&mut storage, "my-app", "/home/user/my-app");

    let action = prompt(&mut storage, 1234, "/home/user/my-app/src", 1);
    assert!(matches!(action, HookAction::SessionStarted { .. }));

    let session = storage.get_session_by_pid(1234).unwrap().unwrap();
    assert!(session.current_project_id.is_some());

    let entry = storage.get_any_running_entry().unwrap().unwrap();
    assert_eq!(entry.source, EntrySource::Hook);
}

#[test]
fn cold_start_outside_project_creates_session_only() {
    let mut storage = setup();
    create_project(&mut storage, "my-app", "/home/user/my-app");

    let action = prompt(&mut storage, 1234, "/home/user/other", 1);
    assert!(matches!(action, HookAction::SessionCreated { .. }));

    let session = storage.get_session_by_pid(1234).unwrap().unwrap();
    assert!(session.current_project_id.is_none());
    assert!(storage.get_any_running_entry().unwrap().is_none());
}

#[test]
fn warm_path_same_cwd_is_heartbeat() {
    let mut storage = setup();
    create_project(&mut storage, "my-app", "/home/user/my-app");

    prompt(&mut storage, 1234, "/home/user/my-app", 1);
    let action = prompt(&mut storage, 1234, "/home/user/my-app", 2);

    assert_eq!(action, HookAction::Heartbeat);
}

#[test]
fn cwd_change_to_different_project_switches() {
    let mut storage = setup();
    create_project(&mut storage, "app-1", "/home/user/app-1");
    create_project(&mut storage, "app-2", "/home/user/app-2");

    prompt(&mut storage, 1234, "/home/user/app-1", 1);
    let action = prompt(&mut storage, 1234, "/home/user/app-2", 2);

    assert!(
        matches!(action, HookAction::Switched { from, to } if from == "app-1" && to == "app-2")
    );

    let app1 = storage.get_project_by_name("app-1").unwrap().unwrap();
    assert!(storage.get_running_entry(&app1.id).unwrap().is_none());

    let app2 = storage.get_project_by_name("app-2").unwrap().unwrap();
    assert!(storage.get_running_entry(&app2.id).unwrap().is_some());
}

#[test]
fn cwd_change_to_non_project_stops() {
    let mut storage = setup();
    create_project(&mut storage, "my-app", "/home/user/my-app");

    prompt(&mut storage, 1234, "/home/user/my-app", 1);
    let action = prompt(&mut storage, 1234, "/home/user/other", 2);

    assert!(matches!(action, HookAction::Stopped { .. }));
    assert!(storage.get_any_running_entry().unwrap().is_none());
}

#[test]
fn cwd_change_from_non_project_to_project_starts() {
    let mut storage = setup();
    create_project(&mut storage, "my-app", "/home/user/my-app");

    prompt(&mut storage, 1234, "/home/user/other", 1);
    let action = prompt(&mut storage, 1234, "/home/user/my-app", 2);

    assert!(matches!(action, HookAction::Started { .. }));
    assert!(storage.get_any_running_entry().unwrap().is_some());
}

#[test]
fn manual_start_is_not_duplicated_by_hook() {
    let mut storage = setup();
    create_project(&mut storage, "my-app", "/home/user/my-app");

    let project = storage.get_project_by_name("my-app").unwrap().unwrap();
    storage.create_entry(&manual_entry(&project.id)).unwrap();

    prompt(&mut storage, 1234, "/home/user/my-app", 1);

    let entries = storage.list_entries(&EntryFilter::default()).unwrap();
    let running: Vec<_> = entries.iter().filter(|e| e.is_running()).collect();
    assert_eq!(running.len(), 1);
    assert_eq!(running[0].source, EntrySource::Manual);
}

#[test]
fn hook_does_not_stop_manual_entry_on_exit() {
    let mut storage = setup();
    create_project(&mut storage, "my-app", "/home/user/my-app");

    let project = storage.get_project_by_name("my-app").unwrap().unwrap();
    let manual = manual_entry(&project.id);
    storage.create_entry(&manual).unwrap();

    prompt(&mut storage, 1234, "/home/user/my-app", 1);
    handle_hook_exit(&mut storage, 1234, None, &test_config()).unwrap();

    let loaded = storage.get_entry(&manual.id).unwrap().unwrap();
    assert!(loaded.is_running());
}

#[test]
fn archived_project_is_not_tracked() {
    let mut storage = setup();
    create_project(&mut storage, "old-app", "/home/user/old-app");

    let mut project = storage.get_project_by_name("old-app").unwrap().unwrap();
    project.status = ProjectStatus::Archived;
    project.updated_at = Timestamp::now_utc();
    storage.update_project(&project).unwrap();

    let action = prompt(&mut storage, 1234, "/home/user/old-app", 1);

    assert!(matches!(action, HookAction::SessionCreated { .. }));
    assert!(storage.get_any_running_entry().unwrap().is_none());
}

#[test]
fn exit_ends_session_and_stops_entry() {
    let mut storage = setup();
    create_project(&mut storage, "my-app", "/home/user/my-app");

    prompt(&mut storage, 1234, "/home/user/my-app", 1);
    assert!(storage.get_any_running_entry().unwrap().is_some());

    handle_hook_exit(&mut storage, 1234, None, &test_config()).unwrap();

    assert!(storage.get_session_by_pid(1234).unwrap().is_none());
    assert!(storage.get_any_running_entry().unwrap().is_none());
}

#[test]
fn exit_with_session_id_ends_session_and_stops_entry() {
    let mut storage = setup();
    create_project(&mut storage, "my-app", "/home/user/my-app");

    let action = prompt(&mut storage, 1234, "/home/user/my-app", 1);
    let session_id = match action {
        HookAction::SessionStarted { session_id, .. } => session_id,
        _ => panic!("expected SessionStarted"),
    };

    handle_hook_exit(&mut storage, 1234, Some(session_id.as_str()), &test_config()).unwrap();

    assert!(storage.get_session_by_pid(1234).unwrap().is_none());
    assert!(storage.get_any_running_entry().unwrap().is_none());
}

#[test]
fn exit_in_merge_mode_keeps_entry_if_other_sessions() {
    let mut storage = setup();
    create_project(&mut storage, "my-app", "/home/user/my-app");

    prompt(&mut storage, 1111, "/home/user/my-app", 1);
    prompt(&mut storage, 2222, "/home/user/my-app", 2);

    let entries = storage.list_entries(&EntryFilter::default()).unwrap();
    let running: Vec<_> = entries.iter().filter(|e| e.is_running()).collect();
    assert_eq!(running.len(), 1);

    handle_hook_exit(&mut storage, 1111, None, &test_config()).unwrap();
    assert!(storage.get_any_running_entry().unwrap().is_some());

    handle_hook_exit(&mut storage, 2222, None, &test_config()).unwrap();
    assert!(storage.get_any_running_entry().unwrap().is_none());
}

#[test]
fn switch_in_merge_mode_keeps_entry_if_other_sessions() {
    let mut storage = setup();
    create_project(&mut storage, "app-1", "/home/user/app-1");
    create_project(&mut storage, "app-2", "/home/user/app-2");

    prompt(&mut storage, 1111, "/home/user/app-1", 1);
    prompt(&mut storage, 2222, "/home/user/app-1", 2);
    prompt(&mut storage, 1111, "/home/user/app-2", 3);

    let app1 = storage.get_project_by_name("app-1").unwrap().unwrap();
    assert!(
        storage.get_running_entry(&app1.id).unwrap().is_some(),
        "app-1 entry should still be running because shell 2222 is still there"
    );
}

#[test]
fn exit_with_no_session_is_noop() {
    let mut storage = setup();
    handle_hook_exit(&mut storage, 9999, None, &test_config()).unwrap();
}

#[test]
fn stale_session_reaping() {
    let mut storage = setup();
    create_project(&mut storage, "my-app", "/home/user/my-app");

    let old_time = Timestamp::now_utc().minus_seconds(2 * 3600).unwrap();
    let project = storage.get_project_by_name("my-app").unwrap().unwrap();

    let session = session("stale", 5555, Some("bash"), Some(&project.id), old_time);
    storage.upsert_session(&session).unwrap();
    let entry = new_hook_entry("hook-entry", &project.id, &session.id, old_time);
    storage.create_entry(&entry).unwrap();

    let now = Timestamp::now_utc();
    let reaped = reap_stale_sessions(&mut storage, now, &test_config()).unwrap();
    assert_eq!(reaped, 1);

    assert!(storage.get_session_by_pid(5555).unwrap().is_none());

    let stopped = storage.get_entry(&entry.id).unwrap().unwrap();
    assert!(!stopped.is_running());
    assert_eq!(stopped.end, Some(old_time));
    assert_eq!(stopped.duration_secs, Some(0));
}

#[test]
fn stale_reaping_at_minimum_threshold() {
    let mut storage = setup();
    create_project(&mut storage, "my-app", "/home/user/my-app");

    let old_time = Timestamp::now_utc().minus_seconds(11 * 60).unwrap();
    let project = storage.get_project_by_name("my-app").unwrap().unwrap();

    let session = session("stale", 6666, Some("bash"), Some(&project.id), old_time);
    storage.upsert_session(&session).unwrap();
    let entry = new_hook_entry("hook-entry", &project.id, &session.id, old_time);
    storage.create_entry(&entry).unwrap();

    let now = Timestamp::now_utc();
    let reaped = reap_stale_sessions(&mut storage, now, &test_config()).unwrap();
    assert_eq!(reaped, 1);
    assert!(storage.get_session_by_pid(6666).unwrap().is_none());
}

#[test]
fn stale_reaping_uses_idle_threshold_times_two() {
    let mut storage = setup();
    create_project(&mut storage, "my-app", "/home/user/my-app");

    let mut config = test_config();
    config.idle_threshold_secs = 480;

    let old_time = Timestamp::now_utc().minus_seconds(17 * 60).unwrap();
    let project = storage.get_project_by_name("my-app").unwrap().unwrap();

    let first = session("first", 7777, Some("bash"), Some(&project.id), old_time);
    storage.upsert_session(&first).unwrap();
    let entry = new_hook_entry("hook-entry", &project.id, &first.id, old_time);
    storage.create_entry(&entry).unwrap();

    let now = Timestamp::now_utc();
    let reaped = reap_stale_sessions(&mut storage, now, &config).unwrap();
    assert_eq!(reaped, 1);

    let recent_time = Timestamp::now_utc().minus_seconds(15 * 60).unwrap();
    let second = session("second", 8888, None, None, recent_time);
    storage.upsert_session(&second).unwrap();

    let now = Timestamp::now_utc();
    let reaped = reap_stale_sessions(&mut storage, now, &config).unwrap();
    assert_eq!(
        reaped, 0,
        "15-min-old session should not be reaped with 16-min threshold"
    );
}

fn repository(root: &str, name: &str) -> Option<Discovery> {
    Some(Discovery { root: root.to_string(), name: name.to_string() })
}

#[test]
fn auto_discovers_git_repo() {
    let mut storage = setup();
    let dir = "/work/my-project";
    let found = repository(dir, "my-project");
    assert!(wants_discovery(&storage, dir, &test_config()));

    let action = handle_hook(&mut storage, 1234, dir, None, &test_config(), &found, &ids(1)).unwrap();
    assert!(matches!(action, HookAction::SessionStarted { .. }));

    let project = storage.get_project_by_name("my-project").unwrap().unwrap();
    assert_eq!(project.paths[0], dir);
    assert_eq!(project.source, ProjectSource::Discovered);
    assert!(storage.get_any_running_entry().unwrap().is_some());
}

#[test]
fn auto_discovers_from_subdirectory() {
    let mut storage = setup();
    let found = repository("/work/my-project", "my-project");

    handle_hook(
        &mut storage,
        1234,
        "/work/my-project/src/lib",
        None,
        &test_config(),
        &found,
        &ids(1),
    )
    .unwrap();

    let project = storage.get_project_by_name("my-project").unwrap().unwrap();
    assert_eq!(project.paths[0], "/work/my-project");
}

#[test]
fn ignored_path_prevents_discovery() {
    let mut storage = setup();
    let dir = "/work/dotfiles";
    let found = repository(dir, "dotfiles");
    storage.add_ignored_path(dir);
    assert!(!wants_discovery(&storage, dir, &test_config()));

    let action = handle_hook(&mut storage, 1234, dir, None, &test_config(), &found, &ids(1)).unwrap();

    assert!(matches!(action, HookAction::SessionCreated { .. }));
    assert!(storage.get_project_by_name("dotfiles").unwrap().is_none());
}

#[test]
fn registered_project_takes_precedence_over_discovery() {
    let mut storage = setup();
    let dir = "/work/my-project";
    let found = repository(dir, "my-project");
    create_project(&mut storage, "custom-name", dir);
    assert!(!wants_discovery(&storage, dir, &test_config()));

    handle_hook(&mut storage, 1234, dir, None, &test_config(), &found, &ids(1)).unwrap();

    assert!(storage.get_project_by_name("custom-name").unwrap().is_some());
    assert!(storage.get_project_by_name("my-project").unwrap().is_none());
}

// --- At given times ---

fn at(s: &str) -> Timestamp {
    Timestamp::parse(s).unwrap()
}

fn prompt_at(storage: &mut Storage, pid: u32, cwd: &str, now: &str, n: u32) -> HookAction {
    handle_hook_at(storage, pid, cwd, Some("zsh"), at(now), &test_config(), &None, &ids(n)).unwrap()
}

#[test]
fn idle_gap_ends_the_entry_at_the_last_heartbeat() {
    let mut storage = setup();
    create_project(&mut storage, "my-app", "/home/user/my-app");

    prompt_at(&mut storage, 1, "/home/user/my-app", "2026-01-01T09:00:00Z", 1);
    // Exactly the threshold is not idle yet.
    let action = prompt_at(&mut storage, 1, "/home/user/my-app", "2026-01-01T09:05:00Z", 2);
    assert_eq!(action, HookAction::Heartbeat);
    let action = prompt_at(&mut storage, 1, "/home/user/my-app", "2026-01-01T09:10:01Z", 3);
    assert_eq!(action, HookAction::IdleResume { project_name: "my-app".to_string() });

    let first = storage.get_entry("entry-1").unwrap().unwrap();
    assert_eq!(first.end, Some(at("2026-01-01T09:05:00Z")));
    assert_eq!(first.duration_secs, Some(300));
    let second = storage.get_entry("entry-3").unwrap().unwrap();
    assert_eq!(second.start, at("2026-01-01T09:10:01Z"));
    assert!(second.is_running());
    assert_eq!(second.session_id.as_deref(), Some("session-1"));
}

#[test]
fn idle_gap_outside_projects_is_a_heartbeat() {
    let mut storage = setup();
    prompt_at(&mut storage, 1, "/tmp", "2026-01-01T09:00:00Z", 1);
    let action = prompt_at(&mut storage, 1, "/tmp", "2026-01-01T10:00:00Z", 2);
    assert_eq!(action, HookAction::Heartbeat);
    let s = storage.get_session_by_pid(1).unwrap().unwrap();
    assert_eq!(s.last_heartbeat, at("2026-01-01T10:00:00Z"));
    assert_eq!(s.shell.as_deref(), Some("zsh"));
}

#[test]
fn moving_within_a_project_is_a_heartbeat_from_the_new_directory() {
    let mut storage = setup();
    create_project(&mut storage, "my-app", "/home/user/my-app");
    prompt_at(&mut storage, 1, "/home/user/my-app", "2026-01-01T09:00:00Z", 1);
    let action = prompt_at(&mut storage, 1, "/home/user/my-app/src", "2026-01-01T09:01:00Z", 2);
    assert_eq!(action, HookAction::Heartbeat);
    let s = storage.get_session_by_pid(1).unwrap().unwrap();
    assert_eq!(s.cwd, "/home/user/my-app/src");
}

#[test]
fn the_same_directory_written_otherwise_is_no_move() {
    let mut storage = setup();
    create_project(&mut storage, "my-app", "/home/user/my-app");
    prompt_at(&mut storage, 1, "/home/user/my-app", "2026-01-01T09:00:00Z", 1);
    let action = prompt_at(&mut storage, 1, "/home//user/./my-app/", "2026-01-01T09:01:00Z", 2);
    assert_eq!(action, HookAction::Heartbeat);
    let s = storage.get_session_by_pid(1).unwrap().unwrap();
    assert_eq!(s.cwd, "/home/user/my-app");
}

#[test]
fn leaving_stops_the_entry_now() {
    let mut storage = setup();
    create_project(&mut storage, "my-app", "/home/user/my-app");
    prompt_at(&mut storage, 1, "/home/user/my-app", "2026-01-01T09:00:00Z", 1);
    let action = prompt_at(&mut storage, 1, "/tmp", "2026-01-01T09:02:00Z", 2);
    assert_eq!(action, HookAction::Stopped { project_name: "my-app".to_string() });
    let e = storage.get_entry("entry-1").unwrap().unwrap();
    assert_eq!(e.duration_secs, Some(120));
    assert_eq!(e.updated_at, at("2026-01-01T09:02:00Z"));
}

#[test]
fn exit_is_clamped_to_the_last_heartbeat_where_idle() {
    let mut storage = setup();
    create_project(&mut storage, "my-app", "/home/user/my-app");
    prompt_at(&mut storage, 1, "/home/user/my-app", "2026-01-01T09:00:00Z", 1);
    prompt_at(&mut storage, 1, "/home/user/my-app", "2026-01-01T09:04:00Z", 2);
    handle_hook_exit_at(&mut storage, 1, None, at("2026-01-01T12:00:00Z"), &test_config()).unwrap();
    let e = storage.get_entry("entry-1").unwrap().unwrap();
    assert_eq!(e.end, Some(at("2026-01-01T09:04:00Z")));
    assert_eq!(e.duration_secs, Some(240));
    let s = storage.get_session("session-1").unwrap().unwrap();
    assert_eq!(s.ended_at, Some(at("2026-01-01T09:04:00Z")));
}

#[test]
fn exit_of_an_ended_session_leaves_a_later_one_alone() {
    let mut storage = setup();
    create_project(&mut storage, "my-app", "/home/user/my-app");
    prompt_at(&mut storage, 1, "/home/user/my-app", "2026-01-01T09:00:00Z", 1);
    handle_hook_exit_at(&mut storage, 1, None, at("2026-01-01T09:01:00Z"), &test_config()).unwrap();
    prompt_at(&mut storage, 1, "/home/user/my-app", "2026-01-01T09:02:00Z", 2);
    let config = test_config();
    handle_hook_exit_at(&mut storage, 1, Some("session-1"), at("2026-01-01T09:03:00Z"), &config).unwrap();
    handle_hook_exit_at(&mut storage, 1, Some("unknown"), at("2026-01-01T09:03:00Z"), &config).unwrap();
    assert_eq!(storage.get_session_by_pid(1).unwrap().unwrap().id, "session-2");
    assert!(storage.get_any_running_entry().unwrap().is_some());
}

#[test]
fn reaping_ends_at_the_latest_heartbeat_of_the_project() {
    let mut storage = setup();
    create_project(&mut storage, "my-app", "/home/user/my-app");
    let project = "id-of-my-app";
    for (id, pid, time) in [
        ("a", 1, "2026-01-01T09:00:00Z"),
        ("b", 2, "2026-01-01T09:30:00Z"),
        ("c", 3, "2026-01-01T09:10:00Z"),
    ] {
        storage.upsert_session(&session(id, pid, None, Some(project), at(time))).unwrap();
    }
    storage
        .create_entry(&new_hook_entry("e", project, "a", at("2026-01-01T08:00:00Z")))
        .unwrap();
    let n = reap_stale_sessions(&mut storage, at("2026-01-01T12:00:00Z"), &test_config()).unwrap();
    assert_eq!(n, 3);
    let e = storage.get_entry("e").unwrap().unwrap();
    assert_eq!(e.end, Some(at("2026-01-01T09:30:00Z")));
    assert_eq!(e.duration_secs, Some(5400));
    assert_eq!(
        storage.get_session("c").unwrap().unwrap().ended_at,
        Some(at("2026-01-01T09:10:00Z"))
    );
    let n = reap_stale_sessions(&mut storage, at("2026-01-01T12:00:00Z"), &test_config()).unwrap();
    assert_eq!(n, 0);
}

#[test]
fn reaping_keeps_the_entry_while_a_session_is_left() {
    let mut storage = setup();
    create_project(&mut storage, "my-app", "/home/user/my-app");
    let project = "id-of-my-app";
    storage.upsert_session(&session("a", 1, None, Some(project), at("2026-01-01T09:00:00Z"))).unwrap();
    storage.upsert_session(&session("b", 2, None, Some(project), at("2026-01-01T11:59:00Z"))).unwrap();
    storage
        .create_entry(&new_hook_entry("e", project, "a", at("2026-01-01T08:00:00Z")))
        .unwrap();
    let n = reap_stale_sessions(&mut storage, at("2026-01-01T12:00:00Z"), &test_config()).unwrap();
    assert_eq!(n, 1);
    assert!(storage.get_entry("e").unwrap().unwrap().is_running());
}

#[test]
fn the_stale_age_is_at_least_ten_minutes() {
    let mut config = test_config();
    assert_eq!(stale_seconds(&config), 600);
    config.idle_threshold_secs = 301;
    assert_eq!(stale_seconds(&config), 602);
    config.idle_threshold_secs = i64::MAX;
    assert_eq!(stale_seconds(&config), i64::MAX);
    config.idle_threshold_secs = i64::MIN;
    assert_eq!(stale_seconds(&config), 600);
}

#[test]
fn an_endless_idle_threshold_is_out_of_range() {
    let mut storage = setup();
    let mut config = test_config();
    config.idle_threshold_secs = i64::MAX;
    let r = handle_hook(&mut storage, 1, "/tmp", None, &config, &None, &ids(1));
    assert_eq!(r, Err(StintError::TimeOutOfRange));
    assert!(storage.get_session_by_pid(1).unwrap().is_none());
}

#[test]
fn a_repository_with_a_taken_name_needs_the_same_path() {
    let mut storage = setup();
    create_project(&mut storage, "tool", "/elsewhere/tool");
    let found = repository("/work/tool", "tool");
    let now = at("2026-01-01T09:00:00Z");
    let a = handle_hook_at(&mut storage, 1, "/work/tool", None, now, &test_config(), &found, &ids(1))
        .unwrap();
    assert!(matches!(a, HookAction::SessionCreated { .. }));

    // The path is registered, but the prompt comes from a directory that the text does not cover.
    let mut storage = setup();
    create_project(&mut storage, "tool", "/work//tool");
    let a = handle_hook_at(&mut storage, 1, "/work/tool", None, now, &test_config(), &found, &ids(1))
        .unwrap();
    assert!(matches!(a, HookAction::SessionStarted { project_name, .. } if project_name == "tool"));
}

#[test]
fn discovery_uses_the_settings() {
    let mut storage = setup();
    let mut config = test_config();
    config.default_tags = vec!["work".to_string(), "auto".to_string()];
    config.default_rate_cents = Some(5000);
    let found = repository("/work/tool", "tool");
    let now = at("2026-01-01T09:00:00Z");
    handle_hook_at(&mut storage, 1, "/work/tool", None, now, &config, &found, &ids(1)).unwrap();
    let p = storage.get_project_by_name("tool").unwrap().unwrap();
    assert_eq!(p.tags, vec!["auto", "work"]);
    assert_eq!(p.hourly_rate_cents, Some(5000));
    assert_eq!(p.id, "project-1");

    let mut storage = setup();
    config.auto_discover = false;
    handle_hook_at(&mut storage, 1, "/work/tool", None, now, &config, &found, &ids(1)).unwrap();
    assert!(storage.get_project_by_name("tool").unwrap().is_none());
}

#[test]
fn a_clash_of_identifiers_is_refused() {
    let mut storage = setup();
    create_project(&mut storage, "my-app", "/home/user/my-app");
    create_project(&mut storage, "other", "/home/user/other");
    prompt_at(&mut storage, 1, "/home/user/my-app", "2026-01-01T09:00:00Z", 1);
    let mut clashing = ids(2);
    clashing.entry = "entry-1".to_string();
    let r = handle_hook_at(
        &mut storage,
        2,
        "/home/user/other",
        None,
        at("2026-01-01T09:01:00Z"),
        &test_config(),
        &None,
        &clashing,
    );
    assert_eq!(r, Err(StintError::Storage(StorageError::Constraint)));
    // What was done before stays: the session is there.
    assert!(storage.get_session_by_pid(2).unwrap().is_some());
}

#[test]
fn a_prompt_at_the_edge_of_time() {
    let mut storage = setup();
    let first = Timestamp::new(FIRST, 0).unwrap();
    let r = handle_hook_at(&mut storage, 1, "/tmp", None, first, &test_config(), &None, &ids(1));
    assert_eq!(r, Err(StintError::TimeOutOfRange));
    assert!(storage.session_table().is_empty());
    let year_one = at("0001-01-01T00:00:00Z");
    let r = handle_hook_at(&mut storage, 1, "/tmp", None, year_one, &test_config(), &None, &ids(1));
    assert_eq!(r, Ok(HookAction::SessionCreated { session_id: "session-1".to_string() }));
    // A shell with a session needs no limit.
    let mut config = test_config();
    config.idle_threshold_secs = i64::MAX;
    let r = handle_hook_at(&mut storage, 1, "/tmp", None, year_one, &config, &None, &ids(2));
    assert_eq!(r, Ok(HookAction::Heartbeat));
}

#[test]
fn sessions_are_stale_by_age() {
    let mut storage = setup();
    let old = at("2026-01-01T08:59:59.75Z");
    let edge = at("2026-01-01T09:00:00.25Z");
    storage.upsert_session(&session("a", 1, None, None, old)).unwrap();
    storage.upsert_session(&session("b", 2, None, None, edge)).unwrap();
    let now = at("2026-01-01T09:10:00.25Z");
    assert_eq!(reap_stale_sessions(&mut storage, now, &test_config()), Ok(1));
    assert_eq!(storage.get_session("a").unwrap().unwrap().ended_at, Some(old));
    assert_eq!(storage.get_session("b").unwrap().unwrap().ended_at, None);
}
