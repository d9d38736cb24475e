//! The command line.
use stint::cli::{
    ask_delete_entry, build_filter, cmd_add, cmd_delete_entry, cmd_edit, cmd_log, cmd_start,
    cmd_status, cmd_stop, cmd_summary, confirmed, finish_delete_entry, Deletion, Output,
};
use stint::clock::{Timestamp, LAST};
use stint::config::StintConfig;
use stint::error::StintError;
use stint::hook::{handle_hook_at, FreshIds, HookAction};
use stint::models::{EntrySource, ProjectStatus};
use stint::project_commands::{
    ask_delete_project, cmd_project_add, cmd_project_archive, cmd_project_delete, cmd_project_edit,
    cmd_project_ignore, cmd_project_list, cmd_project_unignore, finish_project_delete, format_rate,
    ProjectEdit,
};
use stint::service::{add_time, get_entries, get_status, resolve_project, start_timer, stop_timer};
use stint::shell::{
    cmd_init, cmd_shell, plan_init, read_session_arg, report_init, session_to_print, Place,
};
use stint::storage::Storage;

fn at(s: &str) -> Timestamp {
    Timestamp::parse(s).unwrap()
}

fn lines(o: &Output) -> Vec<&str> {
    assert!(!o.failed, "{:?}", o);
    o.out.iter().map(|s| s.as_str()).collect()
}

fn failure(o: &Output) -> &str {
    assert!(o.failed);
    assert!(o.out.is_empty());
    assert_eq!(o.err.len(), 1);
    o.err[0].as_str()
}

fn project(storage: &mut Storage, name: &str, path: &str) {
    let o = cmd_project_add(
        storage,
        name,
        &vec![path.to_string()],
        None,
        None,
        at("2026-01-01T00:00:00Z"),
        &format!("id-of-{name}"),
    );
    assert_eq!(lines(&o), vec![format!("Created project '{name}'")]);
}

fn store() -> Storage {
    let mut s = Storage::open_in_memory();
    project(&mut s, "my-app", "/home/user/my-app");
    s
}

// --- Timers ---

#[test]
fn start_and_stop() {
    let mut s = store();
    let o = cmd_start(&mut s, "MY-APP", at("2026-01-05T09:00:00Z"), "e");
    assert_eq!(lines(&o), vec!["Started timer for 'my-app'"]);
    let (e, p) = get_status(&s).unwrap().unwrap();
    assert_eq!((e.id.as_str(), p.name.as_str()), ("e", "my-app"));
    assert_eq!(e.source, EntrySource::Manual);
    let o = cmd_start(&mut s, "my-app", at("2026-01-05T09:01:00Z"), "f");
    assert_eq!(failure(&o), "error: timer already running for 'my-app'");
    let o = cmd_stop(&mut s, at("2026-01-05T11:30:00Z"));
    assert_eq!(lines(&o), vec!["Stopped 'my-app' after 2h 30m"]);
    let o = cmd_stop(&mut s, at("2026-01-05T11:30:00Z"));
    assert_eq!(failure(&o), "error: no timer running");
    let o = cmd_start(&mut s, "nobody", at("2026-01-05T09:00:00Z"), "g");
    assert_eq!(failure(&o), "error: project 'nobody' not found");
    assert_eq!(s.get_entry("e").unwrap().unwrap().duration_secs, Some(9000));
}

#[test]
fn an_archived_project_is_not_started() {
    let mut s = store();
    let o = cmd_project_archive(&mut s, "my-app", at("2026-01-05T09:00:00Z"));
    assert_eq!(lines(&o), vec!["Archived project 'my-app'"]);
    assert_eq!(resolve_project(&s, "my-app").unwrap().status, ProjectStatus::Archived);
    assert_eq!(
        start_timer(&mut s, "my-app", at("2026-01-05T09:00:00Z"), "e"),
        Err(StintError::ProjectArchived("my-app".to_string()))
    );
    assert_eq!(stop_timer(&mut s, at("2026-01-05T09:00:00Z")), Err(StintError::NoRunningTimer));
    let o = cmd_project_archive(&mut s, "nobody", at("2026-01-05T09:00:00Z"));
    assert_eq!(failure(&o), "error: project 'nobody' not found");
}

// --- Status ---

fn prompt(s: &mut Storage, pid: u32, cwd: &str, now: &str) -> HookAction {
    let ids = FreshIds {
        session: format!("s{pid}"),
        entry: format!("e{pid}"),
        project: format!("p{pid}"),
    };
    handle_hook_at(s, pid, cwd, None, at(now), &StintConfig::default(), &None, &ids).unwrap()
}

#[test]
fn the_status_of_a_terminal() {
    let mut s = store();
    prompt(&mut s, 7, "/home/user/my-app", "2026-01-05T09:00:00Z");
    prompt(&mut s, 8, "/tmp", "2026-01-05T09:00:00Z");

    let o = cmd_status(&s, 7, 300, at("2026-01-05T09:05:00Z"));
    assert_eq!(lines(&o), vec!["Tracking 'my-app' for 5m"]);
    assert!(o.err.is_empty());

    prompt(&mut s, 7, "/home/user/my-app", "2026-01-05T09:02:00Z");
    let o = cmd_status(&s, 7, 300, at("2026-01-05T10:02:00Z"));
    assert_eq!(lines(&o), vec!["Tracking 'my-app' for 2m (idle 1h 0m)"]);
    assert_eq!(
        o.err,
        vec![
            "  Idle time will be trimmed on next activity.",
            "  To adjust: STINT_IDLE_THRESHOLD=600 or idle_threshold in ~/.config/stint/config.toml",
        ]
    );

    // A terminal outside projects tracks nothing, a terminal without a session shows any timer.
    let o = cmd_status(&s, 8, 300, at("2026-01-05T09:05:00Z"));
    assert_eq!(lines(&o), vec!["No timer running."]);
    let o = cmd_status(&s, 9, 300, at("2026-01-05T09:05:00Z"));
    assert_eq!(lines(&o), vec!["Tracking 'my-app' for 5m"]);
    let o = cmd_status(&store(), 9, 300, at("2026-01-05T09:05:00Z"));
    assert_eq!(lines(&o), vec!["No timer running."]);
}

#[test]
fn a_first_prompt_prints_its_session() {
    let mut s = store();
    let a = prompt(&mut s, 7, "/home/user/my-app", "2026-01-05T09:00:00Z");
    assert_eq!(session_to_print(a), Some("s7".to_string()));
    let a = prompt(&mut s, 8, "/tmp", "2026-01-05T09:00:00Z");
    assert_eq!(session_to_print(a), Some("s8".to_string()));
    let a = prompt(&mut s, 8, "/tmp", "2026-01-05T09:00:01Z");
    assert_eq!(session_to_print(a), None);
}

// --- Entries ---

#[test]
fn adding_time() {
    let mut s = store();
    // A Thursday.
    let now = at("2026-01-08T12:00:00Z");
    let o = cmd_add(&mut s, "my-app", 9000, Some("yesterday"), Some("call"), now, now, "a");
    assert_eq!(lines(&o), vec!["Added 2h 30m to 'my-app' (yesterday)"]);
    let e = s.get_entry("a").unwrap().unwrap();
    assert_eq!(e.start, at("2026-01-07T00:00:00Z"));
    assert_eq!(e.end, Some(at("2026-01-07T02:30:00Z")));
    assert_eq!(e.source, EntrySource::Added);
    assert_eq!(e.notes.as_deref(), Some("call"));

    let o = cmd_add(&mut s, "my-app", 60, None, None, now, now, "b");
    assert_eq!(lines(&o), vec!["Added 1m to 'my-app' (today)"]);
    let e = s.get_entry("b").unwrap().unwrap();
    assert_eq!(e.start, at("2026-01-08T11:59:00Z"));
    assert_eq!(e.end, Some(now));

    let o = cmd_add(&mut s, "my-app", 60, Some("someday"), None, now, now, "c");
    assert_eq!(failure(&o), "error: --date: invalid date: 'someday'");
    let o = cmd_add(&mut s, "nobody", 60, None, None, now, now, "c");
    assert_eq!(failure(&o), "error: project 'nobody' not found");
    assert_eq!(
        add_time(&mut s, "my-app", i64::MAX, Some(now), None, now, "c"),
        Err(StintError::TimeOutOfRange)
    );
    let o = cmd_add(&mut s, "my-app", 60, None, None, now, now, "b");
    assert_eq!(failure(&o), "error: constraint violation");

    let o = cmd_summary(&s, now, now);
    assert_eq!(
        lines(&o),
        vec!["  Idle", "  Today: 1m  (1 entries)", "  Week:  2h 31m  (2 entries)"]
    );
    cmd_start(&mut s, "my-app", at("2026-01-08T11:00:00Z"), "d");
    let o = cmd_summary(&s, now, now);
    assert_eq!(
        lines(&o),
        vec![
            "  Tracking 'my-app' for 1h 0m",
            "  Today: 1m  (2 entries)",
            "  Week:  2h 31m  (3 entries)"
        ]
    );
}

#[test]
fn editing_the_latest_entry() {
    let mut s = store();
    let now = at("2026-01-08T12:00:00Z");
    assert_eq!(lines(&cmd_edit(&mut s, Some(60), None, now)), vec!["No entries to edit."]);
    cmd_add(&mut s, "my-app", 9000, Some("2026-01-07"), None, now, now, "a");
    assert_eq!(
        lines(&cmd_edit(&mut s, None, None, now)),
        vec!["Nothing to change. Use --duration or --notes."]
    );
    let o = cmd_edit(&mut s, Some(3600), Some("shorter"), now);
    assert_eq!(lines(&o), vec!["Updated entry: 'my-app' 1h 0m"]);
    let e = s.get_entry("a").unwrap().unwrap();
    assert_eq!(e.end, Some(at("2026-01-07T01:00:00Z")));
    assert_eq!(e.notes.as_deref(), Some("shorter"));
    cmd_edit(&mut s, None, Some(""), now);
    assert_eq!(s.get_entry("a").unwrap().unwrap().notes, None);
    let o = cmd_edit(&mut s, Some(i64::MAX), None, now);
    assert_eq!(failure(&o), "error: time out of range");

    cmd_start(&mut s, "my-app", at("2026-01-08T11:00:00Z"), "b");
    let o = cmd_edit(&mut s, None, Some("now"), now);
    assert_eq!(lines(&o), vec!["Updated entry: 'my-app' running"]);
}

#[test]
fn deleting_the_latest_entry() {
    let mut s = store();
    let now = at("2026-01-08T12:00:00Z");
    assert_eq!(
        ask_delete_entry(&s),
        Deletion::Over(Output {
            out: vec!["No entries to delete.".to_string()],
            err: vec![],
            failed: false
        })
    );
    cmd_add(&mut s, "my-app", 9000, Some("2026-01-07"), None, now, now, "a");
    let (id, label) = match ask_delete_entry(&s) {
        Deletion::Ask { id, label, question } => {
            assert_eq!(question, "Delete entry: 'my-app' 2h 30m (2026-01-07)? [y/N] ");
            (id, label)
        }
        Deletion::Over(_) => panic!("expected a question"),
    };
    let o = cmd_delete_entry(&mut s, &id, &label);
    assert_eq!(lines(&o), vec!["Deleted entry: 'my-app' 2h 30m"]);
    assert!(s.get_entry("a").unwrap().is_none());
    let o = cmd_delete_entry(&mut s, &id, &label);
    assert_eq!(failure(&o), "error: entry not found: a");
}

#[test]
fn answers() {
    assert!(confirmed(Some("y\n")));
    assert!(confirmed(Some(" Y ")));
    assert!(!confirmed(Some("yes")));
    assert!(!confirmed(Some("\n")));
    assert!(!confirmed(None));
}

#[test]
fn listing_entries() {
    let mut s = store();
    let now = at("2026-01-08T12:00:00Z");
    let none = vec![];
    let o = cmd_log(&s, None, None, None, &none, now);
    assert_eq!(lines(&o), vec!["No entries found."]);
    cmd_add(&mut s, "my-app", 9000, Some("2026-01-07"), Some("call"), now, now, "a");
    cmd_start(&mut s, "my-app", at("2026-01-08T11:00:00Z"), "b");
    let o = cmd_log(&s, None, None, None, &none, now);
    assert_eq!(
        lines(&o),
        vec![
            "  2026-01-08  my-app                  0s  manual    (running)",
            "  2026-01-07  my-app              2h 30m  added    call",
        ]
    );
    // The last day counts whole.
    let o = cmd_log(&s, Some("2026-01-07"), Some("2026-01-07"), Some("My-App"), &none, now);
    assert_eq!(lines(&o), vec!["  2026-01-07  my-app              2h 30m  added    call"]);
    let o = cmd_log(&s, None, None, None, &vec!["x".to_string()], now);
    assert_eq!(lines(&o), vec!["No entries found."]);
    let o = cmd_log(&s, Some("x"), None, None, &none, now);
    assert_eq!(failure(&o), "error: --from: invalid date: 'x'");
    let o = cmd_log(&s, None, Some("x"), None, &none, now);
    assert_eq!(failure(&o), "error: --to: invalid date: 'x'");
    let o = cmd_log(&s, None, Some("9999-12-31"), None, &none, now);
    assert_eq!(failure(&o), "error: --to: time out of range");
    let o = cmd_log(&s, None, None, Some("nobody"), &none, now);
    assert_eq!(failure(&o), "error: project 'nobody' not found");
    let f = build_filter(&s, None, Some("today"), None, &none, now).unwrap();
    assert_eq!(f.to, Some(at("2026-01-09T00:00:00Z")));
    assert_eq!(get_entries(&s, &f).unwrap().len(), 2);
    assert!(Timestamp::new(LAST, 0).is_some());
}

// --- Projects ---

#[test]
fn listing_projects() {
    let mut s = Storage::open_in_memory();
    let none = "No projects registered. Use 'stint project add' to create one.";
    assert_eq!(lines(&cmd_project_list(&s, false)), vec![none]);
    assert_eq!(lines(&cmd_project_list(&s, true)), vec![none]);
    let now = at("2026-01-05T09:00:00Z");
    cmd_project_add(&mut s, "b", &vec![], Some("web, api"), Some(15005), now, "1");
    cmd_project_add(&mut s, "a", &vec!["/x".to_string(), "/y".to_string()], None, None, now, "2");
    cmd_project_add(&mut s, "c", &vec![], None, None, now, "3");
    cmd_project_archive(&mut s, "c", now);
    assert_eq!(
        lines(&cmd_project_list(&s, false)),
        vec!["  a  /x, /y", "  b  $150.05/hr  [api, web]"]
    );
    assert_eq!(
        lines(&cmd_project_list(&s, true)),
        vec!["  a  /x, /y", "  b  $150.05/hr  [api, web]", "  c (archived)"]
    );
    cmd_project_delete(&mut s, "a");
    cmd_project_delete(&mut s, "b");
    assert_eq!(
        lines(&cmd_project_list(&s, false)),
        vec!["No active projects. Use 'stint project list --all' to include archived."]
    );
    let o = cmd_project_add(&mut s, "C", &vec![], None, None, now, "4");
    assert_eq!(failure(&o), "error: project 'C' already exists");
}

#[test]
fn rates_are_shown() {
    assert_eq!(format_rate(15000), "$150.00/hr");
    assert_eq!(format_rate(1999), "$19.99/hr");
    assert_eq!(format_rate(5), "$0.05/hr");
    assert_eq!(format_rate(-5), "$0.-5/hr");
    assert_eq!(format_rate(-200), "$-2.00/hr");
    assert_eq!(format_rate(-215), "$-2.-15/hr");
}

#[test]
fn editing_projects() {
    let mut s = store();
    project(&mut s, "other", "/o");
    let now = at("2026-01-05T09:00:00Z");
    let edit = |rate: Option<i64>, clear_rate: bool, tags: Option<&str>, rename: Option<&str>| ProjectEdit {
        rate,
        clear_rate,
        tags: tags.map(|s| s.to_string()),
        rename: rename.map(|s| s.to_string()),
    };
    let o = cmd_project_edit(&mut s, "my-app", &edit(None, false, None, None), now);
    assert_eq!(
        lines(&o),
        vec!["Nothing to change. Use --rate, --clear-rate, --tags, or --rename."]
    );
    let o = cmd_project_edit(&mut s, "my-app", &edit(Some(2000), false, Some("b,a"), None), now);
    assert_eq!(lines(&o), vec!["Updated project 'my-app' ($20.00/hr)"]);
    let p = resolve_project(&s, "my-app").unwrap();
    assert_eq!(p.tags, vec!["a", "b"]);
    assert_eq!(p.updated_at, now);
    let o = cmd_project_edit(&mut s, "my-app", &edit(None, true, None, Some(" MY-App ")), now);
    assert_eq!(lines(&o), vec!["Updated project ' MY-App '"]);
    let p = resolve_project(&s, "my-app").unwrap();
    assert_eq!(p.name, "MY-App");
    assert_eq!(p.hourly_rate_cents, None);
    let o = cmd_project_edit(&mut s, "my-app", &edit(None, false, None, Some("OTHER")), now);
    assert_eq!(failure(&o), "error: project 'other' already exists");
    let o = cmd_project_edit(&mut s, "my-app", &edit(None, false, None, Some("  ")), now);
    assert_eq!(failure(&o), "error: project name cannot be empty");
    let o = cmd_project_edit(&mut s, "nobody", &edit(None, true, None, None), now);
    assert_eq!(failure(&o), "error: project 'nobody' not found");
}

#[test]
fn deleting_projects() {
    let mut s = store();
    assert_eq!(
        ask_delete_project("my-app"),
        "Delete project 'my-app' and all its entries? [y/N] "
    );
    let o = cmd_project_delete(&mut s, "MY-APP");
    assert_eq!(lines(&o), vec!["Deleted project 'my-app'"]);
    let o = cmd_project_delete(&mut s, "my-app");
    assert_eq!(failure(&o), "error: project 'my-app' not found");
}

#[test]
fn ignoring_directories() {
    let mut s = store();
    assert_eq!(lines(&cmd_project_ignore(&mut s, "/x")), vec!["Ignoring '/x'"]);
    assert!(s.is_path_ignored("/x/y"));
    assert_eq!(
        lines(&cmd_project_unignore(&mut s, "/x")),
        vec!["Removed '/x' from ignore list"]
    );
    assert_eq!(
        lines(&cmd_project_unignore(&mut s, "/x")),
        vec!["'/x' was not in the ignore list"]
    );
}

// --- Shells ---

#[test]
fn scripts() {
    assert!(cmd_shell("BASH").unwrap().contains("PROMPT_COMMAND"));
    assert!(cmd_shell("zsh").unwrap().contains("precmd_functions+=(_stint_hook)"));
    assert!(cmd_shell("fish").unwrap().starts_with("function _stint_hook --on-event fish_prompt\n"));
    assert_eq!(
        cmd_shell("tcsh"),
        Err("unsupported shell 'tcsh' (use bash, zsh, or fish)".to_string())
    );
}

#[test]
fn installing_the_hook() {
    let plan = plan_init("Bash").unwrap();
    assert_eq!(plan.place, Place::Home);
    assert_eq!(plan.fallback, ".");
    assert_eq!(plan.file, ".bashrc");
    assert_eq!(plan.line, "eval \"$(stint shell bash)\"");
    assert_eq!(plan_init("zsh").unwrap().file, ".zshrc");
    let fish = plan_init("fish").unwrap();
    assert_eq!((fish.place, fish.fallback, fish.file), (Place::Settings, ".config", "fish/config.fish"));
    assert!(plan_init("sh").is_err());

    let added = cmd_init(Some("alias x=y\n"), plan.line).unwrap();
    assert_eq!(added, "\n# Stint auto-tracking hook\neval \"$(stint shell bash)\"\n");
    let contents = format!("alias x=y\n{added}");
    assert_eq!(cmd_init(Some(&contents), plan.line), None);
    assert_eq!(cmd_init(None, plan.line), Some(added));

    let o = report_init("/home/user/.bashrc", true);
    assert_eq!(
        lines(&o),
        vec![
            "Installed Stint hook in /home/user/.bashrc",
            "Restart your shell or run: source /home/user/.bashrc"
        ]
    );
    let o = report_init("/home/user/.bashrc", false);
    assert_eq!(lines(&o), vec!["Stint hook already installed in /home/user/.bashrc"]);
}

#[test]
fn an_entry_is_deleted_when_forced_or_confirmed() {
    let now = at("2026-01-08T12:00:00Z");
    for (force, answer, gone) in [
        (true, None, true),
        (false, Some(" Y\n"), true),
        (false, Some("yes\n"), false),
        (false, Some("\n"), false),
        (false, None, false),
    ] {
        let mut s = store();
        cmd_add(&mut s, "my-app", 60, Some("2026-01-06"), None, now, now, "a");
        cmd_add(&mut s, "my-app", 60, Some("2026-01-07"), None, now, now, "b");
        let (id, label) = match ask_delete_entry(&s) {
            Deletion::Ask { id, label, .. } => (id, label),
            Deletion::Over(_) => panic!("expected a question"),
        };
        assert_eq!(id, "b");
        let o = finish_delete_entry(&mut s, &id, &label, force, answer);
        let said = if gone { "Deleted entry: 'my-app' 1m" } else { "Cancelled." };
        assert_eq!(lines(&o), vec![said]);
        assert_eq!(s.get_entry("b").unwrap().is_none(), gone);
        assert!(s.get_entry("a").unwrap().is_some());
    }
}

#[test]
fn a_project_is_deleted_when_forced_or_confirmed() {
    for (force, answer, gone) in
        [(true, None, true), (false, Some("y"), true), (false, Some("n"), false), (false, None, false)]
    {
        let mut s = store();
        let o = finish_project_delete(&mut s, "my-app", force, answer);
        let said = if gone { "Deleted project 'my-app'" } else { "Cancelled." };
        assert_eq!(lines(&o), vec![said]);
        assert_eq!(s.get_project_by_name("my-app").unwrap().is_none(), gone);
    }
}

#[test]
fn what_is_no_identifier_names_no_session() {
    let id = "0b1e6a3c-91aa-4F00-8d7e-1234567890ab";
    assert_eq!(read_session_arg(Some(id)), Some(id.to_string()));
    assert_eq!(read_session_arg(Some("")), None);
    assert_eq!(read_session_arg(Some("a b")), None);
    assert_eq!(read_session_arg(Some("$ID")), None);
    assert_eq!(read_session_arg(None), None);
}
