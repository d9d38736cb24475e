//! What the hook guarantees: laws over prompts, exits and the clearing of stale sessions.
use crate::clock::{Timestamp, FIRST, LAST, SECOND};
use crate::config::ConfigView;
use crate::db::{
    active_in, active_with_pid, entries_apart, entry_is, entry_row, entry_sound, entry_updated,
    opt_stamp_text, read_entry, read_session, running_hook_in, running_in, session_ended,
    session_is, session_sound, sessions_apart, stale_at, Db, Fault,
};
use crate::hook::{
    cold_start, detected, discovered_project, entries_stopped, exit_time, exited, exiting,
    hook_entry, id_of, idle_at, latest_heartbeat, left, lemma_projects_of, moved, name_before,
    projects_of, prompted, reap, reaped, resumed, searched, settled, stale_age, stale_limit,
    stop_hook_entry, stopped, try_hook_entry, warm_path, ActionView, DiscoveryView, HookAction,
    IdsView, MIN_STALE_THRESHOLD_SECS,
};
use crate::models::{
    EntryData, EntrySource, EntryView, ProjectStatus, ProjectView, SessionView, ShellSession, Text,
};
use crate::paths::equal_paths;
use crate::rows::{any, count, first, first_at, lemma_filter, lemma_first, lemma_first_found};
use crate::upkeep::{
    law_create_entry_keeps_rules, law_create_project_keeps_rules, law_end_session_keeps_rules,
    law_update_entry_keeps_rules, law_upsert_session_keeps_rules,
};
use vstd::prelude::*;

verus! {

/// Whether no entry that was started by hand or added changed, and none but the hook's were added.
pub open spec fn kept_by_hook(a: Seq<EntryData>, b: Seq<EntryData>) -> bool {
    &&& a.len() <= b.len()
    &&& forall|i: int|
        0 <= i < a.len() && (#[trigger] a[i]).source != EntrySource::Hook ==> b[i] == a[i]
    &&& forall|i: int|
        a.len() <= i < b.len() ==> (#[trigger] b[i]).source == EntrySource::Hook
    &&& forall|i: int|
        0 <= i < a.len() && (#[trigger] a[i]).source == EntrySource::Hook ==> b[i].source
            == EntrySource::Hook
}

/// Whether entries changed only by stopping what the hook started in a project.
pub open spec fn stops_in(a: Seq<EntryData>, b: Seq<EntryData>, project: Text, end: Text) -> bool {
    &&& a.len() == b.len()
    &&& forall|i: int|
        0 <= i < a.len() ==> (#[trigger] b[i]) == a[i] || (running_hook_in(project)(a[i])
            && b[i].end == Some(end) && b[i].source == EntrySource::Hook && b[i].id == a[i].id)
}

proof fn lemma_kept_trans(a: Seq<EntryData>, b: Seq<EntryData>, c: Seq<EntryData>)
    requires
        kept_by_hook(a, b),
        kept_by_hook(b, c),
    ensures
        kept_by_hook(a, c),
{
    assert forall|i: int|
        0 <= i < a.len() && (#[trigger] a[i]).source != EntrySource::Hook implies c[i] == a[i] by {
        assert(b[i] == a[i]);
    }
    assert forall|i: int| a.len() <= i < c.len() implies (#[trigger] c[i]).source
        == EntrySource::Hook by {
        if i < b.len() {
            assert(b[i].source == EntrySource::Hook);
        }
    }
    assert forall|i: int|
        0 <= i < a.len() && (#[trigger] a[i]).source == EntrySource::Hook implies c[i].source
        == EntrySource::Hook by {
        assert(b[i].source == EntrySource::Hook);
    }
}

/// Stopping the hook's entry of a project changes that entry only; nothing that the hook started
/// runs there afterwards.
pub proof fn lemma_stop(db: Db, project: Text, end: Timestamp)
    requires
        db.valid(),
    ensures
        ({
            let (n, r) = stop_hook_entry(db, project, end);
            &&& n.valid()
            &&& n == (Db { entries: n.entries, ..db })
            &&& stops_in(db.entries, n.entries, project, end.text())
            &&& kept_by_hook(db.entries, n.entries)
            &&& r is Ok ==> !any(n.entries, running_hook_in(project))
            &&& r is Err ==> n == db
        }),
{
    let p = running_hook_in(project);
    let (n, r) = stop_hook_entry(db, project, end);
    lemma_first(db.entries, p);
    if let Ok(Some(e)) = db.get_running_hook_entry(project) {
        let x = stopped(e, end);
        let k = choose|k: int| #[trigger] first_at(db.entries, p, k) && first(db.entries, p)
            == Some(db.entries[k]);
        let row = db.entries[k];
        assert(p(row));
        assert(read_entry(row) == Ok::<EntryView, Fault>(e));
        assert(entry_is(x.id)(row));
        assert(entry_sound(db.projects)(row));
        law_update_entry_keeps_rules(db, x);
        assert(n.entries == db.entries.map_values(entry_updated(entry_row(x))));
        assert forall|i: int| 0 <= i < db.entries.len() && i != k implies (#[trigger] n.entries[i])
            == db.entries[i] by {
            if i < k {
                assert(entries_apart()(db.entries[i], db.entries[k]));
            } else {
                assert(entries_apart()(db.entries[k], db.entries[i]));
            }
        }
        assert(n.entries[k].end == Some(end.text()));
        assert forall|i: int| 0 <= i < n.entries.len() implies !p(#[trigger] n.entries[i]) by {
            if i != k {
                assert(n.entries[i] == db.entries[i]);
                if i < k {
                    assert(entries_apart()(db.entries[i], db.entries[k]));
                } else {
                    assert(entries_apart()(db.entries[k], db.entries[i]));
                }
            }
        }
    }
}

/// After the hook tried to start an entry of a project, one is running there.
pub proof fn lemma_try(db: Db, project: Text, session: Text, now: Timestamp, id: Text)
    requires
        db.valid(),
    ensures
        ({
            let (n, r) = try_hook_entry(db, project, session, now, id);
            &&& n.valid()
            &&& n == (Db { entries: n.entries, ..db })
            &&& n.entries == db.entries || n.entries == db.entries.push(
                entry_row(hook_entry(id, project, session, now)),
            )
            &&& kept_by_hook(db.entries, n.entries)
            &&& r is Ok ==> any(n.entries, running_in(project))
            &&& any(db.entries, running_in(project)) ==> n == db
        }),
{
    let p = running_in(project);
    let e = hook_entry(id, project, session, now);
    let (n, r) = try_hook_entry(db, project, session, now, id);
    if db.get_running_entry(project) == Ok::<Option<EntryView>, Fault>(None) && r is Ok {
        law_create_entry_keeps_rules(db, e);
        assert(p(n.entries[db.entries.len() as int]));
    }
}

/// Leaving a project touches nothing but the hook's entry there, and nothing at all while another
/// session is there.
pub proof fn lemma_left(db: Db, s: SessionView, at: Timestamp)
    requires
        db.valid(),
    ensures
        ({
            let (n, r) = left(db, s, at);
            &&& n.valid()
            &&& n == (Db { entries: n.entries, ..db })
            &&& kept_by_hook(db.entries, n.entries)
            &&& n.entries.len() == db.entries.len()
            &&& r is Err ==> n == db
        }),
{
    if let Some(p) = s.current_project_id {
        lemma_stop(db, p, at);
    }
}

/// What storing a session does.
pub proof fn lemma_upsert(db: Db, s: SessionView)
    requires
        db.valid(),
        db.upsert_session(s) is Ok,
        s.ended_at is None,
        first(db.sessions, session_is(s.id)) matches Some(r) ==> r.pid == s.pid,
    ensures
        ({
            let n = db.upsert_session(s)->Ok_0;
            &&& n.valid()
            &&& n == (Db { sessions: n.sessions, ..db })
            &&& first(n.sessions, active_with_pid(s.pid)) matches Some(r) && r.id == s.id && r.cwd
                == s.cwd && r.current_project_id == s.current_project_id && r.last_heartbeat
                == s.last_heartbeat.text() && r.ended_at is None && r.pid == s.pid
        }),
{
    let n = db.upsert_session(s)->Ok_0;
    let p = active_with_pid(s.pid);
    law_upsert_session_keeps_rules(db, s);
    lemma_first(db.sessions, session_is(s.id));
    let k = if any(db.sessions, session_is(s.id)) {
        let k = choose|k: int|
            #[trigger] first_at(db.sessions, session_is(s.id), k) && first(
                db.sessions,
                session_is(s.id),
            ) == Some(db.sessions[k]);
        assert(session_is(s.id)(db.sessions[k]));
        k
    } else {
        db.sessions.len() as int
    };
    assert(n.sessions[k].id == s.id);
    assert(p(n.sessions[k]));
    assert forall|j: int| 0 <= j < k implies !p(#[trigger] n.sessions[j]) by {
        assert(sessions_apart()(n.sessions[j], n.sessions[k]));
    }
    lemma_first_found(n.sessions, p, k);
}

/// What storing a session and entering a project does.
pub proof fn lemma_settled(
    db: Db,
    s: SessionView,
    project: Option<ProjectView>,
    now: Timestamp,
    entry: Text,
    action: ActionView,
)
    requires
        db.valid(),
        s.ended_at is None,
        first(db.sessions, session_is(s.id)) matches Some(r) ==> r.pid == s.pid,
    ensures
        ({
            let (n, r) = settled(db, s, project, now, entry, action);
            &&& n.valid()
            &&& kept_by_hook(db.entries, n.entries)
            &&& n.projects == db.projects
            &&& n.ignored == db.ignored
            &&& r is Ok ==> r == Ok::<ActionView, Fault>(action)
            &&& r is Ok ==> reports(n, s)
            &&& r is Ok && project is Some ==> any(n.entries, running_in(project->Some_0.id))
            &&& project is None ==> n.entries == db.entries
        }),
{
    if let Ok(d) = db.upsert_session(s) {
        lemma_upsert(db, s);
        if let Some(p) = project {
            lemma_try(d, p.id, s.id, now, entry);
        }
    }
}

/// Whether the active session of a process is this one, as it reported.
pub open spec fn reports(db: Db, s: SessionView) -> bool {
    first(db.sessions, active_with_pid(s.pid)) matches Some(r) && r.id == s.id && r.cwd == s.cwd
        && r.current_project_id == s.current_project_id && r.last_heartbeat
        == s.last_heartbeat.text()
}

/// What detecting the project of a directory does.
pub proof fn lemma_detected(
    db: Db,
    cwd: Text,
    now: Timestamp,
    config: ConfigView,
    repository: Option<DiscoveryView>,
    id: Text,
)
    requires
        db.valid(),
    ensures
        ({
            let (n, r) = detected(db, cwd, now, config, repository, id);
            &&& n.valid()
            &&& n == (Db { projects: n.projects, ..db })
        }),
{
    if let Some(d) = repository {
        let p = discovered_project(d, now, config, id);
        if db.create_project(p) is Ok {
            law_create_project_keeps_rules(db, p);
        }
    }
}

/// Ending the stale sessions keeps the rules.
pub proof fn lemma_reaped(db: Db, limit: Timestamp)
    requires
        db.valid(),
        db.stale_sessions(limit) is Ok,
    ensures
        ({
            let n = Db { sessions: db.sessions.map_values(reaped(limit.text())), ..db };
            n.valid() && !any(n.sessions, stale_at(limit.text()))
        }),
{
    let f = reaped(limit.text());
    let n = db.sessions.map_values(f);
    let rows = db.stale_rows(limit);
    lemma_filter(db.sessions, stale_at(limit.text()));
    assert forall|i: int| 0 <= i < n.len() && stale_at(limit.text())(#[trigger] db.sessions[i])
        implies n[i].ended_at is Some by {
        let r = db.sessions[i];
        assert(db.sessions.contains(r));
        assert(rows.contains(r));
        let k = choose|k: int| 0 <= k < rows.len() && rows[k] == r;
        assert(crate::db::session_readable()(rows[k]));
    }
    assert forall|i: int, j: int| 0 <= i < j < n.len() implies sessions_apart()(
        #[trigger] n[i],
        #[trigger] n[j],
    ) by {
        assert(sessions_apart()(db.sessions[i], db.sessions[j]));
    }
    assert forall|i: int| 0 <= i < n.len() implies session_sound(db.projects)(#[trigger] n[i]) by {
        assert(session_sound(db.projects)(db.sessions[i]));
    }
    assert forall|i: int| 0 <= i < n.len() implies !stale_at(limit.text())(#[trigger] n[i]) by {
        if stale_at(limit.text())(db.sessions[i]) {
            assert(n[i].ended_at is Some);
        }
    }
}

/// Stopping entries changes nothing else, and keeps the rules.
pub proof fn lemma_entries_stopped(db: Db, projects: Seq<Text>, s: Seq<SessionView>)
    requires
        db.valid(),
    ensures
        ({
            let (n, r) = entries_stopped(db, projects, s);
            &&& n.valid()
            &&& n == (Db { entries: n.entries, ..db })
            &&& kept_by_hook(db.entries, n.entries)
            &&& n.entries.len() == db.entries.len()
        }),
    decreases projects.len(),
{
    if projects.len() > 0 {
        lemma_entries_stopped(db, projects.drop_last(), s);
        let (d, r) = entries_stopped(db, projects.drop_last(), s);
        if let Some(t) = latest_heartbeat(s, projects.last()) {
            lemma_stop(d, projects.last(), t);
            lemma_kept_trans(
                db.entries,
                d.entries,
                stop_hook_entry(d, projects.last(), t).0.entries,
            );
        }
    }
}

/// After stale sessions were cleared none is left, the number is that of those there were, the rules
/// hold, and entries that the hook did not start are as before.
pub proof fn law_reaping(db: Db, limit: Timestamp)
    requires
        db.valid(),
    ensures
        ({
            let (n, r) = reap(db, limit);
            &&& n.valid()
            &&& n.projects == db.projects
            &&& n.ignored == db.ignored
            &&& kept_by_hook(db.entries, n.entries)
            &&& r is Ok ==> !any(n.sessions, stale_at(limit.text()))
            &&& r matches Ok(k) ==> k == count(db.sessions, stale_at(limit.text()))
            &&& n.sessions.len() == db.sessions.len()
            &&& forall|i: int|
                0 <= i < db.sessions.len() && !stale_at(limit.text())(
                    #[trigger] db.sessions[i],
                ) ==> n.sessions[i] == db.sessions[i]
        }),
{
    if let Ok(stale) = db.stale_sessions(limit) {
        let ended = Db { sessions: db.sessions.map_values(reaped(limit.text())), ..db };
        lemma_reaped(db, limit);
        lemma_entries_stopped(ended, projects_of(stale), stale);
        lemma_filter(db.sessions, stale_at(limit.text()));
    }
}

/// Whether an entry changed only by ending with the last of the stale sessions of its project.
pub open spec fn ended_with(
    a: EntryData,
    b: EntryData,
    projects: Seq<Text>,
    stale: Seq<SessionView>,
    ended: Db,
) -> bool {
    exists|k: int|
        0 <= k < projects.len() && running_hook_in(#[trigger] projects[k])(a)
            && ended.active_sessions(projects[k], None) == 0 && b.end == opt_stamp_text(
            latest_heartbeat(stale, projects[k]),
        ) && b.id == a.id && b.end is Some
}

proof fn lemma_stopped_where(db: Db, projects: Seq<Text>, stale: Seq<SessionView>)
    requires
        db.valid(),
    ensures
        ({
            let (n, r) = entries_stopped(db, projects, stale);
            &&& n == (Db { entries: n.entries, ..db })
            &&& n.entries.len() == db.entries.len()
            &&& forall|i: int|
                0 <= i < db.entries.len() ==> (#[trigger] n.entries[i]) == db.entries[i]
                    || ended_with(db.entries[i], n.entries[i], projects, stale, db)
            &&& r is Ok ==> forall|k: int|
                0 <= k < projects.len() && latest_heartbeat(stale, #[trigger] projects[k]) is Some
                    && db.active_sessions(projects[k], None) == 0 ==> !any(
                    n.entries,
                    running_hook_in(projects[k]),
                )
        }),
    decreases projects.len(),
{
    let (n, r) = entries_stopped(db, projects, stale);
    lemma_entries_stopped(db, projects, stale);
    if projects.len() > 0 {
        let rest = projects.drop_last();
        let p = projects.last();
        lemma_stopped_where(db, rest, stale);
        lemma_entries_stopped(db, rest, stale);
        let (d, done) = entries_stopped(db, rest, stale);
        if let Some(t) = latest_heartbeat(stale, p) {
            lemma_stop(d, p, t);
        }
        assert forall|i: int| 0 <= i < db.entries.len() implies (#[trigger] n.entries[i])
            == db.entries[i] || ended_with(db.entries[i], n.entries[i], projects, stale, db) by {
            if n.entries[i] != d.entries[i] {
                assert(running_hook_in(p)(d.entries[i]));
                assert(d.entries[i] == db.entries[i]);
                assert(projects[projects.len() - 1] == p);
            } else if d.entries[i] != db.entries[i] {
                let k = choose|k: int|
                    0 <= k < rest.len() && running_hook_in(#[trigger] rest[k])(db.entries[i])
                        && db.active_sessions(rest[k], None) == 0 && d.entries[i].end
                        == opt_stamp_text(latest_heartbeat(stale, rest[k])) && d.entries[i].id
                        == db.entries[i].id && d.entries[i].end is Some;
                assert(projects[k] == rest[k]);
            }
        }
        if r is Ok {
            assert forall|k: int|
                0 <= k < projects.len() && latest_heartbeat(stale, #[trigger] projects[k]) is Some
                    && db.active_sessions(projects[k], None) == 0 implies !any(
                n.entries,
                running_hook_in(projects[k]),
            ) by {
                let q = running_hook_in(projects[k]);
                if k < rest.len() {
                    assert(rest[k] == projects[k]);
                    assert forall|i: int| 0 <= i < n.entries.len() implies !q(
                        #[trigger] n.entries[i],
                    ) by {
                        assert(!q(d.entries[i]));
                    }
                }
            }
        }
    }
}

/// Clearing stale sessions stops what the hook started in their projects, where no active session
/// is left, at the latest of their heartbeats there; other entries stay as they are.
pub proof fn law_reaping_stops(db: Db, limit: Timestamp, stale: Seq<SessionView>)
    requires
        db.valid(),
        db.stale_sessions(limit) == Ok::<Seq<SessionView>, Fault>(stale),
    ensures
        ({
            let (n, r) = reap(db, limit);
            let projects = projects_of(stale);
            &&& n.entries.len() == db.entries.len()
            &&& forall|i: int|
                0 <= i < db.entries.len() ==> (#[trigger] n.entries[i]) == db.entries[i]
                    || ended_with(db.entries[i], n.entries[i], projects, stale, n)
            &&& r is Ok ==> forall|k: int|
                0 <= k < projects.len() && n.active_sessions(#[trigger] projects[k], None) == 0
                    ==> !any(n.entries, running_hook_in(projects[k]))
        }),
{
    let (n, r) = reap(db, limit);
    let projects = projects_of(stale);
    let ended = Db { sessions: db.sessions.map_values(reaped(limit.text())), ..db };
    lemma_reaped(db, limit);
    lemma_stopped_where(ended, projects, stale);
    assert(n.sessions == ended.sessions);
    assert forall|i: int| 0 <= i < db.entries.len() implies (#[trigger] n.entries[i])
        == db.entries[i] || ended_with(db.entries[i], n.entries[i], projects, stale, n) by {
        if n.entries[i] != db.entries[i] {
            assert(ended_with(db.entries[i], n.entries[i], projects, stale, ended));
        }
    }
    assert forall|k: int| 0 <= k < projects.len() implies latest_heartbeat(
        stale,
        #[trigger] projects[k],
    ) is Some by {
        lemma_projects_of(stale, projects[k]);
        assert(projects.contains(projects[k]));
    }
}

/// No session is stale before it is idle: the stale age is at least ten minutes and at least the
/// idle threshold.
pub proof fn law_stale_after_idle(config: ConfigView)
    ensures
        stale_age(config) >= MIN_STALE_THRESHOLD_SECS,
        stale_age(config) >= config.idle_threshold_secs,
        config.idle_threshold_secs > 300 && config.idle_threshold_secs * 2 <= i64::MAX ==> stale_age(
            config,
        ) == config.idle_threshold_secs * 2,
{
}

/// A session is stale after twice the idle threshold without a prompt, and not before ten minutes: so
/// long before the present time lies the limit.
pub proof fn law_stale_limit(now: Timestamp, config: ConfigView)
    requires
        FIRST <= now.local() <= LAST,
    ensures
        ({
            let limit = stale_limit(now, config);
            let twice = config.idle_threshold_secs * 2;
            &&& limit.offset() == now.offset()
            &&& twice <= 600 ==> limit.local() == now.local() - 600 * SECOND
            &&& 600 <= twice <= i64::MAX ==> limit.local() == now.local() - twice * SECOND
        }),
{
    Timestamp::lemma_at((now.local() - stale_age(config) * SECOND) as i128, now.offset());
}

// ---------------------------------------------------------------------------
// Prompts
// ---------------------------------------------------------------------------
/// Whether an action says that a project is tracked now.
pub open spec fn tracks(a: ActionView) -> bool {
    a is Started || a is Switched || a is SessionStarted || a is IdleResume
}

/// Whether an action says that no project is tracked now.
pub open spec fn rests(a: ActionView) -> bool {
    a is Stopped || a is SessionCreated
}

/// The session that a prompt finds is the only row with its identifier, and is active.
pub proof fn lemma_session_found(db: Db, pid: u32, s: SessionView)
    requires
        db.valid(),
        db.get_session_by_pid(pid) == Ok::<Option<SessionView>, Fault>(Some(s)),
    ensures
        s.pid == pid,
        s.ended_at is None,
        first(db.sessions, session_is(s.id)) matches Some(r) && r.pid == pid && r.ended_at is None
            && read_session(r) == Ok::<SessionView, Fault>(s),
{
    let p = active_with_pid(pid);
    lemma_first(db.sessions, p);
    let k = choose|k: int|
        #[trigger] first_at(db.sessions, p, k) && first(db.sessions, p) == Some(db.sessions[k]);
    assert(p(db.sessions[k]));
    lemma_session_at(db, k);
}

/// A stored session is the first with its identifier.
pub proof fn lemma_session_at(db: Db, k: int)
    requires
        db.valid(),
        0 <= k < db.sessions.len(),
    ensures
        first(db.sessions, session_is(db.sessions[k].id)) == Some(db.sessions[k]),
{
    let p = session_is(db.sessions[k].id);
    assert forall|j: int| 0 <= j < k implies !p(#[trigger] db.sessions[j]) by {
        assert(sessions_apart()(db.sessions[j], db.sessions[k]));
    }
    lemma_first_found(db.sessions, p, k);
}

/// What a prompt with a known project does: the session reports from the directory, and where the
/// action says so, the project that it is in is tracked.
spec fn well_answered(
    db: Db,
    n: Db,
    r: Result<ActionView, Fault>,
    pid: u32,
    cwd: Text,
    now: Timestamp,
) -> bool {
    &&& n.valid()
    &&& kept_by_hook(db.entries, n.entries)
    &&& n.ignored == db.ignored
    &&& r matches Ok(a) ==> at_prompt(n, a, pid, cwd, now)
}

/// Whether the shell is where it is and the action says what is tracked.
pub open spec fn at_prompt(n: Db, a: ActionView, pid: u32, cwd: Text, now: Timestamp) -> bool {
    first(n.sessions, active_with_pid(pid)) matches Some(x) && {
        &&& x.last_heartbeat == now.text()
        &&& equal_paths(x.cwd, cwd)
        &&& tracks(a) ==> (x.current_project_id matches Some(p) && any(n.entries, running_in(p)))
        &&& rests(a) ==> x.current_project_id is None
        &&& a matches HookAction::SessionCreated { session_id } ==> x.id == session_id
        &&& a matches HookAction::SessionStarted { session_id, .. } ==> x.id == session_id
    }
}

proof fn lemma_cold(
    db: Db,
    pid: u32,
    cwd: Text,
    shell: Option<Text>,
    now: Timestamp,
    config: ConfigView,
    repository: Option<DiscoveryView>,
    ids: IdsView,
)
    requires
        db.valid(),
        !any(db.sessions, session_is(ids.session)),
    ensures
        ({
            let (n, r) = cold_start(db, pid, cwd, shell, now, config, repository, ids);
            well_answered(db, n, r, pid, cwd, now)
        }),
{
    let limit = stale_limit(now, config);
    let cleared = reap(db, limit).0;
    law_reaping(db, limit);
    lemma_detected(cleared, cwd, now, config, repository, ids.project);
    let (d, found) = detected(cleared, cwd, now, config, repository, ids.project);
    assert forall|i: int| 0 <= i < d.sessions.len() implies !session_is(ids.session)(
        #[trigger] d.sessions[i],
    ) by {
        assert(!session_is(ids.session)(db.sessions[i]));
        lemma_reap_ids(db, limit, i);
    }
    if let Ok(project) = found {
        let s = ShellSession {
            id: ids.session,
            pid,
            shell,
            cwd,
            current_project_id: id_of(project),
            started_at: now,
            last_heartbeat: now,
            ended_at: None,
        };
        let a = match project {
            Some(p) => HookAction::SessionStarted { project_name: p.name, session_id: ids.session },
            None => HookAction::SessionCreated { session_id: ids.session },
        };
        lemma_settled(d, s, project, now, ids.entry, a);
        lemma_kept_trans(db.entries, d.entries, settled(d, s, project, now, ids.entry, a).0.entries);
    }
}

/// Clearing stale sessions leaves their identifiers.
proof fn lemma_reap_ids(db: Db, limit: Timestamp, i: int)
    requires
        db.valid(),
        0 <= i < db.sessions.len(),
    ensures
        reap(db, limit).0.sessions.len() == db.sessions.len(),
        reap(db, limit).0.sessions[i].id == db.sessions[i].id,
{
    if let Ok(stale) = db.stale_sessions(limit) {
        let ended = Db { sessions: db.sessions.map_values(reaped(limit.text())), ..db };
        lemma_reaped(db, limit);
        lemma_entries_stopped(ended, projects_of(stale), stale);
    }
}

proof fn lemma_resumed(
    db: Db,
    s: SessionView,
    cwd: Text,
    now: Timestamp,
    project: Option<ProjectView>,
    entry: Text,
)
    requires
        db.valid(),
        s.ended_at is None,
        first(db.sessions, session_is(s.id)) matches Some(r) ==> r.pid == s.pid,
    ensures
        ({
            let (n, r) = resumed(db, s, cwd, now, project, entry);
            well_answered(db, n, r, s.pid, cwd, now)
        }),
{
    lemma_left(db, s, s.last_heartbeat);
    let (d, done) = left(db, s, s.last_heartbeat);
    let t = ShellSession { cwd, current_project_id: id_of(project), last_heartbeat: now, ..s };
    let a = match project {
        Some(p) => HookAction::IdleResume { project_name: p.name },
        None => HookAction::Heartbeat,
    };
    lemma_settled(d, t, project, now, entry, a);
    lemma_kept_trans(db.entries, d.entries, settled(d, t, project, now, entry, a).0.entries);
}

proof fn lemma_moved(
    db: Db,
    s: SessionView,
    cwd: Text,
    now: Timestamp,
    project: Option<ProjectView>,
    entry: Text,
)
    requires
        db.valid(),
        s.ended_at is None,
        first(db.sessions, session_is(s.id)) matches Some(r) ==> r.pid == s.pid,
    ensures
        ({
            let (n, r) = moved(db, s, cwd, now, project, entry);
            well_answered(db, n, r, s.pid, cwd, now)
        }),
{
    if id_of(project) == s.current_project_id {
        let t = ShellSession { cwd, last_heartbeat: now, ..s };
        lemma_settled(db, t, None, now, entry, HookAction::Heartbeat);
    } else if let Ok(from) = name_before(db, s) {
        lemma_left(db, s, now);
        let (d, done) = left(db, s, now);
        let t = ShellSession { cwd, current_project_id: id_of(project), last_heartbeat: now, ..s };
        let a = match (from, project) {
            (Some(from), Some(p)) => HookAction::Switched { from, to: p.name },
            (Some(from), None) => HookAction::Stopped { project_name: from },
            (None, Some(p)) => HookAction::Started { project_name: p.name },
            (None, None) => HookAction::Heartbeat,
        };
        lemma_settled(d, t, project, now, entry, a);
        lemma_kept_trans(db.entries, d.entries, settled(d, t, project, now, entry, a).0.entries);
    }
}

/// A prompt keeps the rules of the store and leaves entries that the hook did not start as they
/// are. Where it is answered, the shell has an active session that reported now from the directory;
/// where the answer says that a project is tracked, the session is in a project with a running
/// entry, and where it says that nothing is, it is in none.
pub proof fn law_prompt(
    db: Db,
    pid: u32,
    cwd: Text,
    shell: Option<Text>,
    now: Timestamp,
    config: ConfigView,
    repository: Option<DiscoveryView>,
    ids: IdsView,
)
    requires
        db.valid(),
        !any(db.sessions, session_is(ids.session)),
    ensures
        ({
            let (n, r) = prompted(db, pid, cwd, shell, now, config, repository, ids);
            &&& n.valid()
            &&& kept_by_hook(db.entries, n.entries)
            &&& n.ignored == db.ignored
            &&& r matches Ok(a) ==> at_prompt(n, a, pid, cwd, now)
        }),
{
    match db.get_session_by_pid(pid) {
        Ok(None) => {
            lemma_cold(db, pid, cwd, shell, now, config, repository, ids);
        },
        Ok(Some(s)) => {
            lemma_session_found(db, pid, s);
            if !idle_at(s, now, config) && equal_paths(s.cwd, cwd) {
                let t = ShellSession { last_heartbeat: now, ..s };
                lemma_settled(db, t, None, now, ids.entry, HookAction::Heartbeat);
            } else {
                lemma_detected(db, cwd, now, config, repository, ids.project);
                let (d, found) = detected(db, cwd, now, config, repository, ids.project);
                if let Ok(project) = found {
                    lemma_resumed(d, s, cwd, now, project, ids.entry);
                    lemma_moved(d, s, cwd, now, project, ids.entry);
                }
            }
        },
        Err(e) => {},
    }
}

/// A prompt in the same directory without an idle gap is a heartbeat: no project and no entry
/// changes.
pub proof fn law_heartbeat(
    db: Db,
    s: SessionView,
    cwd: Text,
    now: Timestamp,
    config: ConfigView,
    repository: Option<DiscoveryView>,
    ids: IdsView,
)
    requires
        !idle_at(s, now, config),
        equal_paths(s.cwd, cwd),
    ensures
        ({
            let (n, r) = warm_path(db, s, cwd, now, config, repository, ids);
            &&& n == (Db { sessions: n.sessions, ..db })
            &&& r matches Ok(a) ==> a is Heartbeat
        }),
{
}

/// While another session is in the project that a shell leaves, no entry is stopped: entries are
/// only added.
pub proof fn law_merge_mode(
    db: Db,
    s: SessionView,
    p: Text,
    cwd: Text,
    now: Timestamp,
    project: Option<ProjectView>,
    entry: Text,
)
    requires
        db.valid(),
        s.current_project_id == Some(p),
        db.active_sessions(p, Some(s.id)) > 0,
        s.ended_at is None,
        first(db.sessions, session_is(s.id)) matches Some(r) ==> r.pid == s.pid,
    ensures
        db.entries.is_prefix_of(resumed(db, s, cwd, now, project, entry).0.entries),
        db.entries.is_prefix_of(moved(db, s, cwd, now, project, entry).0.entries),
{
    lemma_moved_entries(db, s, cwd, now, project, entry);
}

/// How entries change when a shell leaves a project: first some may stop, then one may start.
proof fn lemma_moved_entries(
    db: Db,
    s: SessionView,
    cwd: Text,
    now: Timestamp,
    project: Option<ProjectView>,
    entry: Text,
)
    requires
        db.valid(),
        s.ended_at is None,
        first(db.sessions, session_is(s.id)) matches Some(r) ==> r.pid == s.pid,
    ensures
        left(db, s, s.last_heartbeat).0.entries.is_prefix_of(
            resumed(db, s, cwd, now, project, entry).0.entries,
        ),
        id_of(project) == s.current_project_id ==> moved(
            db,
            s,
            cwd,
            now,
            project,
            entry,
        ).0.entries == db.entries,
        id_of(project) != s.current_project_id && name_before(db, s) is Ok ==> left(
            db,
            s,
            now,
        ).0.entries.is_prefix_of(moved(db, s, cwd, now, project, entry).0.entries),
        name_before(db, s) is Err ==> moved(db, s, cwd, now, project, entry).0.entries
            == db.entries,
{
    let t = ShellSession { cwd, current_project_id: id_of(project), last_heartbeat: now, ..s };
    lemma_left(db, s, s.last_heartbeat);
    lemma_left(db, s, now);
    let d = left(db, s, s.last_heartbeat).0;
    let e = left(db, s, now).0;
    if d.upsert_session(t) is Ok {
        lemma_upsert(d, t);
    }
    if e.upsert_session(t) is Ok {
        lemma_upsert(e, t);
    }
    if let Some(p) = project {
        if d.upsert_session(t) is Ok {
            lemma_try(d.upsert_session(t)->Ok_0, p.id, s.id, now, entry);
        }
        if e.upsert_session(t) is Ok {
            lemma_try(e.upsert_session(t)->Ok_0, p.id, s.id, now, entry);
        }
    }
}

/// Where no other session is in the project that a shell leaves, what the hook started there ends:
/// after an idle gap at the last heartbeat, so that idle time is not counted, and otherwise now.
pub proof fn law_leaving_stops(
    db: Db,
    s: SessionView,
    p: Text,
    cwd: Text,
    now: Timestamp,
    project: Option<ProjectView>,
    entry: Text,
    i: int,
)
    requires
        db.valid(),
        s.current_project_id == Some(p),
        db.active_sessions(p, Some(s.id)) == 0,
        s.ended_at is None,
        first(db.sessions, session_is(s.id)) matches Some(r) ==> r.pid == s.pid,
        0 <= i < db.entries.len(),
        running_hook_in(p)(db.entries[i]),
    ensures
        resumed(db, s, cwd, now, project, entry).1 is Ok ==> resumed(
            db,
            s,
            cwd,
            now,
            project,
            entry,
        ).0.entries[i].end == Some(s.last_heartbeat.text()),
        id_of(project) != Some(p) && moved(db, s, cwd, now, project, entry).1 is Ok ==> moved(
            db,
            s,
            cwd,
            now,
            project,
            entry,
        ).0.entries[i].end == Some(now.text()),
{
    lemma_moved_entries(db, s, cwd, now, project, entry);
    lemma_stop(db, p, s.last_heartbeat);
    lemma_stop(db, p, now);
    let d = stop_hook_entry(db, p, s.last_heartbeat).0;
    let e = stop_hook_entry(db, p, now).0;
    let q = running_hook_in(p);
    if resumed(db, s, cwd, now, project, entry).1 is Ok {
        assert(!q(d.entries[i]));
        let n = resumed(db, s, cwd, now, project, entry).0.entries;
        assert(n[i] == d.entries[i]);
    }
    if id_of(project) != Some(p) && moved(db, s, cwd, now, project, entry).1 is Ok {
        assert(!q(e.entries[i]));
        let n = moved(db, s, cwd, now, project, entry).0.entries;
        assert(n[i] == e.entries[i]);
    }
}

// ---------------------------------------------------------------------------
// Detection
// ---------------------------------------------------------------------------
/// A registered project decides alone: an archived one is not tracked, an active one is, and no
/// repository is looked at.
pub proof fn law_registered_first(
    db: Db,
    p: ProjectView,
    cwd: Text,
    now: Timestamp,
    config: ConfigView,
    repository: Option<DiscoveryView>,
    id: Text,
)
    requires
        db.get_project_by_path(cwd) == Ok::<Option<ProjectView>, Fault>(Some(p)),
    ensures
        detected(db, cwd, now, config, repository, id) == (
            db,
            Ok::<Option<ProjectView>, Fault>(
                if p.status == ProjectStatus::Active {
                    Some(p)
                } else {
                    None
                },
            ),
        ),
{
}

/// What is not to be searched is not discovered: with discovery off, in an ignored directory or in a
/// registered project, a repository makes no difference.
pub proof fn law_unsearched(
    db: Db,
    cwd: Text,
    now: Timestamp,
    config: ConfigView,
    repository: Option<DiscoveryView>,
    id: Text,
)
    requires
        !searched(db, cwd, config),
    ensures
        detected(db, cwd, now, config, repository, id) == detected(db, cwd, now, config, None, id),
        detected(db, cwd, now, config, repository, id).0 == db,
{
}

/// A repository that is ignored, or whose directory is, does not become a project.
pub proof fn law_ignored_not_discovered(
    db: Db,
    cwd: Text,
    now: Timestamp,
    config: ConfigView,
    repository: DiscoveryView,
    id: Text,
)
    requires
        db.is_path_ignored(cwd) || db.is_path_ignored(repository.root),
    ensures
        detected(db, cwd, now, config, Some(repository), id).0 == db,
        db.get_project_by_path(cwd) == Ok::<Option<ProjectView>, Fault>(None) ==> detected(
            db,
            cwd,
            now,
            config,
            Some(repository),
            id,
        ).1 == Ok::<Option<ProjectView>, Fault>(None),
{
}

// ---------------------------------------------------------------------------
// Exit
// ---------------------------------------------------------------------------
proof fn lemma_count_map<R>(s: Seq<R>, f: spec_fn(R) -> R, p: spec_fn(R) -> bool)
    requires
        forall|i: int| 0 <= i < s.len() ==> p(f(#[trigger] s[i])) == p(s[i]),
    ensures
        count(s.map_values(f), p) == count(s, p),
    decreases s.len(),
{
    if s.len() > 0 {
        assert(s.map_values(f).drop_last() =~= s.drop_last().map_values(f));
        assert forall|i: int| 0 <= i < s.drop_last().len() implies p(f(#[trigger] s.drop_last()[i]))
            == p(s.drop_last()[i]) by {
            assert(s.drop_last()[i] == s[i]);
        }
        lemma_count_map(s.drop_last(), f, p);
        assert(s.last() == s[s.len() - 1]);
    }
}

/// An exit that is about no session, or about one that has ended, does nothing.
pub proof fn law_exit_without_session(
    db: Db,
    pid: u32,
    session_id: Option<Text>,
    now: Timestamp,
    config: ConfigView,
)
    requires
        exiting(db, pid, session_id) == Ok::<Option<SessionView>, Fault>(None),
    ensures
        exited(db, pid, session_id, now, config) == (db, Ok::<(), Fault>(())),
{
}

/// An exit keeps the rules of the store and leaves entries that the hook did not start as they are.
/// The session ends at the exit time, which is its last heartbeat where it was idle. While another
/// session is in its project no entry changes; otherwise what the hook started there ends at the
/// exit time.
pub proof fn law_exit(
    db: Db,
    pid: u32,
    session_id: Option<Text>,
    now: Timestamp,
    config: ConfigView,
    s: SessionView,
)
    requires
        db.valid(),
        exiting(db, pid, session_id) == Ok::<Option<SessionView>, Fault>(Some(s)),
    ensures
        ({
            let (n, r) = exited(db, pid, session_id, now, config);
            let at = exit_time(s, now, config);
            &&& n.valid()
            &&& n.projects == db.projects && n.ignored == db.ignored
            &&& kept_by_hook(db.entries, n.entries)
            &&& first(n.sessions, session_is(s.id)) matches Some(x) && x.ended_at == Some(
                at.text(),
            )
            &&& !any(n.sessions, active_with_pid(s.pid))
            &&& s.current_project_id is None ==> r is Ok && n.entries == db.entries
            &&& s.current_project_id matches Some(p) ==> if db.active_sessions(p, Some(s.id)) > 0 {
                r is Ok && n.entries == db.entries
            } else {
                &&& r is Ok ==> !any(n.entries, running_hook_in(p))
                &&& stops_in(db.entries, n.entries, p, at.text())
            }
        }),
{
    let (n, r) = exited(db, pid, session_id, now, config);
    let at = exit_time(s, now, config);
    let f = session_ended(s.id, at.text());
    match session_id {
        Some(id) => {
            lemma_first(db.sessions, session_is(id));
            let k = choose|k: int|
                #[trigger] first_at(db.sessions, session_is(id), k) && first(
                    db.sessions,
                    session_is(id),
                ) == Some(db.sessions[k]);
            assert(session_is(id)(db.sessions[k]));
            lemma_session_at(db, k);
        },
        None => {
            lemma_session_found(db, pid, s);
        },
    }
    lemma_first(db.sessions, session_is(s.id));
    let k = choose|k: int|
        #[trigger] first_at(db.sessions, session_is(s.id), k) && first(
            db.sessions,
            session_is(s.id),
        ) == Some(db.sessions[k]);
    assert(session_is(s.id)(db.sessions[k]));
    assert(db.sessions[k].pid == s.pid && db.sessions[k].ended_at is None);
    law_end_session_keeps_rules(db, s.id, at);
    let d = db.end_session(s.id, at)->Ok_0;
    assert(d.sessions[k].id == s.id);
    lemma_session_at(d, k);
    assert forall|j: int| 0 <= j < d.sessions.len() implies !active_with_pid(s.pid)(
        #[trigger] d.sessions[j],
    ) by {
        if j < k {
            assert(sessions_apart()(db.sessions[j], db.sessions[k]));
        } else if k < j {
            assert(sessions_apart()(db.sessions[k], db.sessions[j]));
        }
    }
    lemma_left(d, s, at);
    if let Some(p) = s.current_project_id {
        lemma_stop(d, p, at);
        lemma_count_map(db.sessions, f, active_in(p, Some(s.id)));
    }
}

/// A project has at most one running entry and a process at most one active session.
pub proof fn law_at_most_one(db: Db, project: Text, pid: u32, i: int, j: int)
    requires
        db.valid(),
    ensures
        0 <= i < db.entries.len() && 0 <= j < db.entries.len() && running_in(project)(
            db.entries[i],
        ) && running_in(project)(db.entries[j]) ==> i == j,
        0 <= i < db.sessions.len() && 0 <= j < db.sessions.len() && active_with_pid(pid)(
            db.sessions[i],
        ) && active_with_pid(pid)(db.sessions[j]) ==> i == j,
{
    if 0 <= i < j < db.entries.len() {
        assert(entries_apart()(db.entries[i], db.entries[j]));
    }
    if 0 <= j < i < db.entries.len() {
        assert(entries_apart()(db.entries[j], db.entries[i]));
    }
    if 0 <= i < j < db.sessions.len() {
        assert(sessions_apart()(db.sessions[i], db.sessions[j]));
    }
    if 0 <= j < i < db.sessions.len() {
        assert(sessions_apart()(db.sessions[j], db.sessions[i]));
    }
}

} // verus!
