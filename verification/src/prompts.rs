//! What a prompt and an exit lead to: where the session is then, what is said, and which times the
//! entries get.
use crate::accounts::sum_of;
use crate::clock::{stamp_of, Timestamp, SECOND};
use crate::config::ConfigView;
use crate::db::{
    active_in, active_with_pid, by_text, deepest_at, entries_apart, entry_is, entry_readable,
    entry_row, entry_sound, entry_updated, path_covers, project_is, project_named, project_readable,
    projects_apart, read_entry, read_project, read_session, running_hook_in, running_in, session_is,
    session_readable, session_sound, sessions_apart, stale_at, Db, Fault,
};
use crate::hook::{
    cold_start, detected, discovered_project, entries_stopped, exited, exiting, id_of, idle_at,
    latest_heartbeat, left, lemma_projects_of, name_before, projects_of, prompted, reap, reaped,
    settled, stale_limit, stop_hook_entry, stopped, warm_path, ActionView, DiscoveryView,
    HookAction, IdsView,
};
use crate::models::{
    EntryData, EntrySource, EntryView, ProjectSource, ProjectStatus, ProjectView, SessionData,
    SessionView, ShellSession, Text,
};
use crate::paths::{covers, equal_paths};
use crate::readback::{
    law_covered_is_found, law_longest_prefix, lemma_depth_bound, lemma_depth_reached,
};
use crate::rows::{
    all, any, count, first, first_at, lemma_count_zero, lemma_filter, lemma_first,
    lemma_first_found, lemma_sorted,
};
use crate::text::{before, folded};
use crate::tracking::{
    law_reaping, lemma_detected, lemma_entries_stopped, lemma_left, lemma_reaped, lemma_session_at,
    lemma_session_found, lemma_settled, lemma_stop, lemma_try, lemma_upsert,
};
use crate::upkeep::law_end_session_keeps_rules;
use vstd::prelude::*;

verus! {

// ---------------------------------------------------------------------------
// Words
// ---------------------------------------------------------------------------
/// Whether a stretch of time is longer than a number of whole seconds.
pub open spec fn exceeds(nanos: int, secs: int) -> bool {
    if secs >= 0 {
        nanos >= (secs + 1) * SECOND
    } else {
        nanos > secs * SECOND
    }
}

/// Whether a stretch of time has so many whole seconds, counted toward zero.
pub open spec fn has_seconds(nanos: int, secs: int) -> bool {
    if nanos >= 0 {
        secs * SECOND <= nanos < (secs + 1) * SECOND
    } else {
        (secs - 1) * SECOND < nanos <= secs * SECOND
    }
}

/// Whether it takes so many whole seconds from one time to another; times that are further apart than
/// can be counted are left out.
pub open spec fn lasts(from: Timestamp, to: Timestamp, secs: i64) -> bool {
    let nanos = to.instant() - from.instant();
    i64::MIN * SECOND <= nanos <= i64::MAX * SECOND ==> has_seconds(nanos, secs as int)
}

/// The project that an answer says is tracked from now on.
pub open spec fn entered(a: ActionView) -> Option<Text> {
    match a {
        HookAction::Started { project_name } => Some(project_name),
        HookAction::Switched { to, .. } => Some(to),
        HookAction::SessionStarted { project_name, .. } => Some(project_name),
        HookAction::IdleResume { project_name } => Some(project_name),
        _ => None,
    }
}

/// The project that an answer says was left.
pub open spec fn departed(a: ActionView) -> Option<Text> {
    match a {
        HookAction::Switched { from, .. } => Some(from),
        HookAction::Stopped { project_name } => Some(project_name),
        _ => None,
    }
}

/// Whether a row is a running entry of a project that the hook started.
pub open spec fn open_hook(r: EntryData, project: Text) -> bool {
    r.end is None && r.project_id == project && r.source == EntrySource::Hook
}

/// Whether no session but this one is active in a project.
pub open spec fn alone(db: Db, id: Text, project: Text) -> bool {
    forall|j: int|
        0 <= j < db.sessions.len() && (#[trigger] db.sessions[j]).ended_at is None
            && db.sessions[j].current_project_id == Some(project) ==> db.sessions[j].id == id
}

/// Whether a row is that of another one, ended at a given time: its length is that from its start to
/// that time, and nothing else changed.
pub open spec fn ended_row(a: EntryData, b: EntryData, at: Timestamp) -> bool {
    &&& b.id == a.id
    &&& b.project_id == a.project_id
    &&& b.session_id == a.session_id
    &&& b.source == a.source
    &&& b.notes == a.notes
    &&& b.tags.to_multiset() == a.tags.to_multiset()
    &&& b.created_at == a.created_at
    &&& b.end == Some(at.text())
    &&& b.updated_at == at.text()
    &&& stamp_of(a.start) matches Some(start) && b.start == start.text() && (
    b.duration_secs matches Some(d) && lasts(start, at, d))
}

/// Whether a row is that of an entry that the hook starts.
pub open spec fn started_row(
    r: EntryData,
    id: Text,
    project: Text,
    session: Text,
    at: Timestamp,
) -> bool {
    &&& r.id == id
    &&& r.project_id == project
    &&& r.session_id == Some(session)
    &&& r.start == at.text()
    &&& r.end is None
    &&& r.duration_secs is None
    &&& r.source == EntrySource::Hook
    &&& r.notes is None
    &&& r.tags.len() == 0
    &&& r.created_at == at.text()
    &&& r.updated_at == at.text()
}

// ---------------------------------------------------------------------------
// Steps
// ---------------------------------------------------------------------------
proof fn lemma_idle(s: SessionView, now: Timestamp, config: ConfigView)
    ensures
        idle_at(s, now, config) <==> exceeds(
            now.instant() - s.last_heartbeat.instant(),
            config.idle_threshold_secs as int,
        ),
{
}

proof fn lemma_alone(db: Db, id: Text, project: Text)
    ensures
        db.active_sessions(project, Some(id)) == 0 <==> alone(db, id, project),
{
    let p = active_in(project, Some(id));
    lemma_count_zero(db.sessions, p);
    if any(db.sessions, p) {
        let j = choose|j: int| 0 <= j < db.sessions.len() && p(#[trigger] db.sessions[j]);
        assert(!alone(db, id, project));
    }
    if !alone(db, id, project) {
        let j = choose|j: int|
            0 <= j < db.sessions.len() && (#[trigger] db.sessions[j]).ended_at is None
                && db.sessions[j].current_project_id == Some(project) && db.sessions[j].id != id;
        assert(p(db.sessions[j]));
    }
}

/// Stopping what the hook started in a project ends exactly that row.
proof fn lemma_stop_rows(db: Db, project: Text, at: Timestamp)
    requires
        db.valid(),
        stop_hook_entry(db, project, at).1 is Ok,
    ensures
        ({
            let n = stop_hook_entry(db, project, at).0;
            &&& n == (Db { entries: n.entries, ..db })
            &&& n.entries.len() == db.entries.len()
            &&& forall|i: int|
                0 <= i < db.entries.len() ==> if open_hook(db.entries[i], project) {
                    ended_row(db.entries[i], #[trigger] n.entries[i], at)
                } else {
                    n.entries[i] == db.entries[i]
                }
        }),
{
    let p = running_hook_in(project);
    let (n, r) = stop_hook_entry(db, project, at);
    lemma_stop(db, project, at);
    lemma_first(db.entries, p);
    if let Ok(Some(e)) = db.get_running_hook_entry(project) {
        let k = choose|k: int| #[trigger] first_at(db.entries, p, k) && first(db.entries, p)
            == Some(db.entries[k]);
        let row = db.entries[k];
        assert(p(row));
        assert(read_entry(row) == Ok::<EntryView, Fault>(e));
        let x = stopped(e, at);
        assert(n.entries == db.entries.map_values(entry_updated(entry_row(x))));
        lemma_sorted(e.tags, by_text());
        assert(ended_row(row, n.entries[k], at));
        assert forall|i: int| 0 <= i < db.entries.len() implies if open_hook(
            db.entries[i],
            project,
        ) {
            ended_row(db.entries[i], #[trigger] n.entries[i], at)
        } else {
            n.entries[i] == db.entries[i]
        } by {
            if i < k {
                assert(entries_apart()(db.entries[i], db.entries[k]));
            } else if k < i {
                assert(entries_apart()(db.entries[k], db.entries[i]));
            }
        }
    } else {
        assert forall|i: int| 0 <= i < db.entries.len() implies !open_hook(
            #[trigger] db.entries[i],
            project,
        ) by {
            assert(!p(db.entries[i]));
        }
    }
}

/// Leaving the project of a session ends what the hook started there, where the session was the only
/// one; otherwise nothing changes.
proof fn lemma_leave(db: Db, s: SessionView, at: Timestamp)
    requires
        db.valid(),
        left(db, s, at).1 is Ok,
    ensures
        ({
            let n = left(db, s, at).0;
            &&& n == (Db { entries: n.entries, ..db })
            &&& n.valid()
            &&& n.entries.len() == db.entries.len()
            &&& forall|i: int|
                0 <= i < db.entries.len() ==> if s.current_project_id matches Some(q) && alone(
                    db,
                    s.id,
                    q,
                ) && open_hook(db.entries[i], q) {
                    ended_row(db.entries[i], #[trigger] n.entries[i], at)
                } else {
                    n.entries[i] == db.entries[i]
                }
        }),
{
    lemma_left(db, s, at);
    if let Some(q) = s.current_project_id {
        lemma_alone(db, s.id, q);
        if db.active_sessions(q, Some(s.id)) == 0 {
            lemma_stop_rows(db, q, at);
        }
    }
}

/// Entering a project starts an entry there, where none is running; otherwise nothing changes.
proof fn lemma_settle_rows(
    db: Db,
    s: SessionView,
    project: Option<ProjectView>,
    now: Timestamp,
    entry: Text,
    action: ActionView,
)
    requires
        db.valid(),
        s.ended_at is None,
        first(db.sessions, session_is(s.id)) matches Some(r) ==> r.pid == s.pid,
        settled(db, s, project, now, entry, action).1 is Ok,
    ensures
        ({
            let n = settled(db, s, project, now, entry, action).0;
            let d = db.upsert_session(s)->Ok_0;
            &&& db.upsert_session(s) is Ok
            &&& n == (Db { entries: n.entries, ..d })
            &&& d == (Db { sessions: d.sessions, ..db })
            &&& match project {
                Some(p) => if any(db.entries, running_in(p.id)) {
                    n.entries == db.entries
                } else {
                    n.entries.len() == db.entries.len() + 1 && n.entries.drop_last() == db.entries
                        && started_row(n.entries.last(), entry, p.id, s.id, now)
                },
                None => n.entries == db.entries,
            }
        }),
{
    let n = settled(db, s, project, now, entry, action).0;
    lemma_upsert(db, s);
    let d = db.upsert_session(s)->Ok_0;
    if let Some(p) = project {
        lemma_try(d, p.id, s.id, now, entry);
        lemma_first(d.entries, running_in(p.id));
        if n.entries != db.entries {
            assert(n.entries.drop_last() =~= db.entries);
        }
    }
}

// ---------------------------------------------------------------------------
// Later prompts
// ---------------------------------------------------------------------------
/// The project that belongs to the directory of a prompt.
pub open spec fn project_here(
    db: Db,
    cwd: Text,
    now: Timestamp,
    config: ConfigView,
    repository: Option<DiscoveryView>,
    id: Text,
) -> Option<ProjectView> {
    detected(db, cwd, now, config, repository, id).1->Ok_0
}

/// The identifier of a project, where there is one.
pub open spec fn id_in(project: Option<ProjectView>) -> Option<Text> {
    match project {
        Some(p) => Some(p.id),
        None => None,
    }
}

/// Whether a prompt comes after more than the idle threshold without one.
pub open spec fn after_gap(s: SessionView, now: Timestamp, config: ConfigView) -> bool {
    exceeds(now.instant() - s.last_heartbeat.instant(), config.idle_threshold_secs as int)
}

/// A prompt of a shell with a session, after an idle gap or in another directory: the session is in
/// the project of the directory then, whatever it was in before. Where it comes into that project,
/// or back to it after a gap, the answer names it and an entry of it is running; where it leaves one
/// without a gap, the answer names that one. A prompt without a gap in the same directory changes
/// nothing but the heartbeat. Other sessions stay as they are.
pub proof fn law_prompt_follows(
    db: Db,
    pid: u32,
    cwd: Text,
    shell: Option<Text>,
    now: Timestamp,
    config: ConfigView,
    repository: Option<DiscoveryView>,
    ids: IdsView,
    s: SessionView,
    a: ActionView,
)
    requires
        db.valid(),
        db.get_session_by_pid(pid) == Ok::<Option<SessionView>, Fault>(Some(s)),
        prompted(db, pid, cwd, shell, now, config, repository, ids).1 == Ok::<ActionView, Fault>(a),
    ensures
        ({
            let n = prompted(db, pid, cwd, shell, now, config, repository, ids).0;
            let gap = after_gap(s, now, config);
            let project = project_here(db, cwd, now, config, repository, ids.project);
            &&& n.sessions.len() == db.sessions.len()
            &&& forall|i: int|
                0 <= i < db.sessions.len() ==> {
                    let from = db.sessions[i];
                    let to = #[trigger] n.sessions[i];
                    if from.id != s.id {
                        to == from
                    } else {
                        &&& to.id == from.id && to.pid == from.pid && to.shell == from.shell
                        &&& to.started_at == from.started_at && to.ended_at is None
                        &&& to.last_heartbeat == now.text()
                        &&& equal_paths(to.cwd, cwd)
                        &&& to.current_project_id == if gap || !equal_paths(s.cwd, cwd) {
                            id_in(project)
                        } else {
                            s.current_project_id
                        }
                    }
                }
            &&& if gap || !equal_paths(s.cwd, cwd) {
                &&& match project {
                    Some(p) => if gap || s.current_project_id != Some(p.id) {
                        &&& entered(a) == Some(p.name)
                        &&& exists|i: int|
                            0 <= i < n.entries.len() && (#[trigger] n.entries[i]).end is None
                                && n.entries[i].project_id == p.id
                    } else {
                        a is Heartbeat
                    },
                    None => entered(a) is None,
                }
                &&& gap ==> departed(a) is None && (project is Some <==> a is IdleResume)
                &&& !gap ==> forall|k: int|
                    0 <= k < db.projects.len() && s.current_project_id == Some(
                        (#[trigger] db.projects[k]).id,
                    ) && id_in(project) != Some(db.projects[k].id) ==> departed(a) == Some(
                        db.projects[k].name,
                    )
                &&& s.current_project_id is None ==> departed(a) is None
            } else {
                &&& a is Heartbeat
                &&& n == (Db { sessions: n.sessions, ..db })
            }
        }),
{
    let (n, r) = prompted(db, pid, cwd, shell, now, config, repository, ids);
    lemma_session_found(db, pid, s);
    lemma_idle(s, now, config);
    if !idle_at(s, now, config) && equal_paths(s.cwd, cwd) {
        let t = ShellSession { last_heartbeat: now, ..s };
        lemma_settle_rows(db, t, None, now, ids.entry, HookAction::Heartbeat);
        lemma_same_session(db, s, t);
    } else {
        lemma_detected(db, cwd, now, config, repository, ids.project);
        let (d, found) = detected(db, cwd, now, config, repository, ids.project);
        let project = found->Ok_0;
        if idle_at(s, now, config) {
            lemma_left(d, s, s.last_heartbeat);
            let e = left(d, s, s.last_heartbeat).0;
            let t = ShellSession { cwd, current_project_id: id_of(project), last_heartbeat: now, ..s };
            lemma_settled(e, t, project, now, ids.entry, a);
            lemma_settle_rows(e, t, project, now, ids.entry, a);
            lemma_same_session(e, s, t);
            lemma_runs(n, project);
        } else if id_of(project) == s.current_project_id {
            let t = ShellSession { cwd, last_heartbeat: now, ..s };
            lemma_settle_rows(d, t, None, now, ids.entry, HookAction::Heartbeat);
            lemma_same_session(d, s, t);
            lemma_kept_names(db, cwd, now, config, repository, ids.project, s);
        } else {
            lemma_left(d, s, now);
            let e = left(d, s, now).0;
            let t = ShellSession { cwd, current_project_id: id_of(project), last_heartbeat: now, ..s };
            lemma_settled(e, t, project, now, ids.entry, a);
            lemma_settle_rows(e, t, project, now, ids.entry, a);
            lemma_same_session(e, s, t);
            lemma_runs(n, project);
            lemma_kept_names(db, cwd, now, config, repository, ids.project, s);
        }
    }
}

proof fn lemma_runs(n: Db, project: Option<ProjectView>)
    requires
        project matches Some(p) ==> any(n.entries, running_in(p.id)),
    ensures
        match project {
            Some(p) => exists|i: int|
                0 <= i < n.entries.len() && (#[trigger] n.entries[i]).end is None
                    && n.entries[i].project_id == p.id,
            None => true,
        },
{
    if let Some(p) = project {
        let i = choose|i: int|
            0 <= i < n.entries.len() && running_in(p.id)(#[trigger] n.entries[i]);
        assert(n.entries[i].end is None);
    }
}

/// A session that was found and reports changes its own row only.
proof fn lemma_same_session(db: Db, s: SessionView, t: SessionView)
    requires
        db.valid(),
        first(db.sessions, session_is(s.id)) matches Some(r) && r.pid == s.pid && r.ended_at is None
            && read_session(r) == Ok::<SessionView, Fault>(s),
        t.id == s.id,
        t.pid == s.pid,
        t.ended_at is None,
        db.upsert_session(t) is Ok,
    ensures
        ({
            let n = db.upsert_session(t)->Ok_0;
            &&& n.sessions.len() == db.sessions.len()
            &&& forall|i: int|
                0 <= i < db.sessions.len() ==> (#[trigger] n.sessions[i])
                    == if db.sessions[i].id == s.id {
                    ShellSession {
                        cwd: t.cwd,
                        current_project_id: t.current_project_id,
                        last_heartbeat: t.last_heartbeat.text(),
                        ended_at: None,
                        ..db.sessions[i]
                    }
                } else {
                    db.sessions[i]
                }
        }),
{
    let n = db.upsert_session(t)->Ok_0;
    lemma_first(db.sessions, session_is(s.id));
    let k = choose|k: int|
        #[trigger] first_at(db.sessions, session_is(s.id), k) && first(
            db.sessions,
            session_is(s.id),
        ) == Some(db.sessions[k]);
    assert(session_is(s.id)(db.sessions[k]));
    assert forall|i: int| 0 <= i < db.sessions.len() && i != k implies !(db.sessions[i].pid == s.pid
        && (#[trigger] db.sessions[i]).ended_at is None) && db.sessions[i].id != s.id by {
        if i < k {
            assert(sessions_apart()(db.sessions[i], db.sessions[k]));
        } else {
            assert(sessions_apart()(db.sessions[k], db.sessions[i]));
        }
    }
}

/// What a session was in keeps its name while the project of a directory is detected.
proof fn lemma_kept_names(
    db: Db,
    cwd: Text,
    now: Timestamp,
    config: ConfigView,
    repository: Option<DiscoveryView>,
    id: Text,
    s: SessionView,
)
    requires
        db.valid(),
    ensures
        ({
            let d = detected(db, cwd, now, config, repository, id).0;
            name_before(d, s) matches Ok(from) ==> forall|k: int|
                0 <= k < db.projects.len() && s.current_project_id == Some(
                    (#[trigger] db.projects[k]).id,
                ) ==> from == Some(db.projects[k].name)
        }),
{
    let d = detected(db, cwd, now, config, repository, id).0;
    lemma_detected(db, cwd, now, config, repository, id);
    if let Ok(from) = name_before(d, s) {
        assert forall|k: int|
            0 <= k < db.projects.len() && s.current_project_id == Some(
                (#[trigger] db.projects[k]).id,
            ) implies from == Some(db.projects[k].name) by {
            let q = project_is(db.projects[k].id);
            assert(d.projects[k] == db.projects[k]);
            assert(q(d.projects[k]));
            assert forall|j: int| 0 <= j < k implies !q(#[trigger] d.projects[j]) by {
                assert(projects_apart()(d.projects[j], d.projects[k]));
            }
            lemma_first_found(d.projects, q, k);
        }
    }
}

/// The times of entries at a prompt of a shell with a session. Where the shell leaves its project, or
/// comes back after an idle gap, and no other session is there, what the hook started there ends: at
/// the last heartbeat after a gap, otherwise now. Every other entry stays as it is. What is added is
/// one entry of the project of the directory, started now.
pub proof fn law_prompt_times(
    db: Db,
    pid: u32,
    cwd: Text,
    shell: Option<Text>,
    now: Timestamp,
    config: ConfigView,
    repository: Option<DiscoveryView>,
    ids: IdsView,
    s: SessionView,
)
    requires
        db.valid(),
        db.get_session_by_pid(pid) == Ok::<Option<SessionView>, Fault>(Some(s)),
        prompted(db, pid, cwd, shell, now, config, repository, ids).1 is Ok,
    ensures
        ({
            let n = prompted(db, pid, cwd, shell, now, config, repository, ids).0;
            let gap = after_gap(s, now, config);
            let project = project_here(db, cwd, now, config, repository, ids.project);
            let leaves = gap || (!equal_paths(s.cwd, cwd) && s.current_project_id != id_in(project));
            let end = if gap {
                s.last_heartbeat
            } else {
                now
            };
            &&& db.entries.len() <= n.entries.len() <= db.entries.len() + 1
            &&& forall|i: int|
                0 <= i < db.entries.len() ==> if leaves && (s.current_project_id matches Some(q)
                    && alone(db, s.id, q) && open_hook(db.entries[i], q)) {
                    ended_row(db.entries[i], #[trigger] n.entries[i], end)
                } else {
                    n.entries[i] == db.entries[i]
                }
            &&& n.entries.len() > db.entries.len() ==> leaves && (project matches Some(p)
                && started_row(n.entries.last(), ids.entry, p.id, s.id, now))
        }),
{
    let (n, r) = prompted(db, pid, cwd, shell, now, config, repository, ids);
    lemma_session_found(db, pid, s);
    lemma_idle(s, now, config);
    if !idle_at(s, now, config) && equal_paths(s.cwd, cwd) {
        let t = ShellSession { last_heartbeat: now, ..s };
        lemma_settle_rows(db, t, None, now, ids.entry, HookAction::Heartbeat);
    } else {
        lemma_detected(db, cwd, now, config, repository, ids.project);
        let (d, found) = detected(db, cwd, now, config, repository, ids.project);
        let project = found->Ok_0;
        let a = r->Ok_0;
        if let Some(q) = s.current_project_id {
            assert(alone(d, s.id, q) == alone(db, s.id, q));
        }
        let t = ShellSession { cwd, current_project_id: id_of(project), last_heartbeat: now, ..s };
        if idle_at(s, now, config) {
            lemma_leave(d, s, s.last_heartbeat);
            let e = left(d, s, s.last_heartbeat).0;
            lemma_settle_rows(e, t, project, now, ids.entry, a);
            lemma_prefix(e.entries, n.entries);
        } else if id_of(project) == s.current_project_id {
            let t = ShellSession { cwd, last_heartbeat: now, ..s };
            lemma_settle_rows(d, t, None, now, ids.entry, HookAction::Heartbeat);
        } else {
            lemma_leave(d, s, now);
            let e = left(d, s, now).0;
            lemma_settle_rows(e, t, project, now, ids.entry, a);
            lemma_prefix(e.entries, n.entries);
        }
    }
}

proof fn lemma_prefix(a: Seq<EntryData>, b: Seq<EntryData>)
    ensures
        b.len() == a.len() + 1 && b.drop_last() == a ==> forall|i: int|
            0 <= i < a.len() ==> #[trigger] b[i] == a[i],
{
    if b.len() == a.len() + 1 && b.drop_last() == a {
        assert forall|i: int| 0 <= i < a.len() implies #[trigger] b[i] == a[i] by {
            assert(b.drop_last()[i] == b[i]);
        }
    }
}

// ---------------------------------------------------------------------------
// First prompts
// ---------------------------------------------------------------------------
/// What belongs to a directory depends on the projects and the ignored paths only.
proof fn lemma_same_detection(
    a: Db,
    b: Db,
    cwd: Text,
    now: Timestamp,
    config: ConfigView,
    repository: Option<DiscoveryView>,
    id: Text,
)
    requires
        a.projects == b.projects,
        a.ignored == b.ignored,
    ensures
        detected(a, cwd, now, config, repository, id).1 == detected(
            b,
            cwd,
            now,
            config,
            repository,
            id,
        ).1,
        detected(a, cwd, now, config, repository, id).0.projects == detected(
            b,
            cwd,
            now,
            config,
            repository,
            id,
        ).0.projects,
{
}

/// The first prompt of a shell, once stale sessions are cleared: a session is added, with the
/// identifier that is answered, in the project of the directory. Where there is one the answer names
/// it and an entry of it is running; the only entry that is added is one of it, started now.
pub proof fn law_first_prompt(
    db: Db,
    pid: u32,
    cwd: Text,
    shell: Option<Text>,
    now: Timestamp,
    config: ConfigView,
    repository: Option<DiscoveryView>,
    ids: IdsView,
    a: ActionView,
)
    requires
        db.valid(),
        db.get_session_by_pid(pid) == Ok::<Option<SessionView>, Fault>(None),
        !any(db.sessions, session_is(ids.session)),
        prompted(db, pid, cwd, shell, now, config, repository, ids).1 == Ok::<ActionView, Fault>(a),
    ensures
        ({
            let n = prompted(db, pid, cwd, shell, now, config, repository, ids).0;
            let cleared = reap(db, stale_limit(now, config)).0;
            let project = project_here(db, cwd, now, config, repository, ids.project);
            &&& n.sessions == cleared.sessions.push(
                ShellSession {
                    id: ids.session,
                    pid,
                    shell,
                    cwd,
                    current_project_id: id_in(project),
                    started_at: now.text(),
                    last_heartbeat: now.text(),
                    ended_at: None,
                },
            )
            &&& match project {
                Some(p) => {
                    &&& a == (HookAction::SessionStarted {
                        project_name: p.name,
                        session_id: ids.session,
                    })
                    &&& exists|i: int|
                        0 <= i < n.entries.len() && (#[trigger] n.entries[i]).end is None
                            && n.entries[i].project_id == p.id
                    &&& n.entries == cleared.entries || (n.entries.len() == cleared.entries.len() + 1
                        && n.entries.drop_last() == cleared.entries && started_row(
                        n.entries.last(),
                        ids.entry,
                        p.id,
                        ids.session,
                        now,
                    ))
                },
                None => a == (HookAction::<Text>::SessionCreated { session_id: ids.session })
                    && n.entries == cleared.entries,
            }
        }),
{
    let n = prompted(db, pid, cwd, shell, now, config, repository, ids).0;
    let limit = stale_limit(now, config);
    let cleared = reap(db, limit).0;
    law_reaping(db, limit);
    lemma_reap_rows(db, limit);
    lemma_detected(cleared, cwd, now, config, repository, ids.project);
    lemma_same_detection(cleared, db, cwd, now, config, repository, ids.project);
    let (d, found) = detected(cleared, cwd, now, config, repository, ids.project);
    let project = found->Ok_0;
    let s = ShellSession {
        id: ids.session,
        pid,
        shell,
        cwd,
        current_project_id: id_of(project),
        started_at: now,
        last_heartbeat: now,
        ended_at: None,
    };
    lemma_first(db.sessions, active_with_pid(pid));
    assert forall|i: int| 0 <= i < cleared.sessions.len() implies !session_is(ids.session)(
        #[trigger] cleared.sessions[i],
    ) && !active_with_pid(pid)(cleared.sessions[i]) by {
        assert(!session_is(ids.session)(db.sessions[i]));
        assert(!active_with_pid(pid)(db.sessions[i]));
    }
    lemma_settle_rows(d, s, project, now, ids.entry, a);
    lemma_settled(d, s, project, now, ids.entry, a);
    lemma_runs(n, project);
    let e = d.upsert_session(s)->Ok_0;
    assert(e.sessions =~= cleared.sessions.push(crate::db::session_row(s)));
}

/// Clearing stale sessions leaves identifiers and processes, and makes none active.
proof fn lemma_reap_rows(db: Db, limit: Timestamp)
    requires
        db.valid(),
    ensures
        ({
            let n = reap(db, limit).0;
            &&& n.sessions.len() == db.sessions.len()
            &&& forall|i: int|
                0 <= i < db.sessions.len() ==> (#[trigger] n.sessions[i]).id == db.sessions[i].id
                    && n.sessions[i].pid == db.sessions[i].pid && (n.sessions[i].ended_at is None
                    ==> db.sessions[i].ended_at is None)
        }),
{
    if let Ok(stale) = db.stale_sessions(limit) {
        let ended = Db { sessions: db.sessions.map_values(reaped(limit.text())), ..db };
        lemma_reaped(db, limit);
        lemma_entries_stopped(ended, projects_of(stale), stale);
    }
}

/// A repository that is searched for and found becomes a project, where its name is free: active,
/// discovered, with the directory of the repository, and with the tags and the rate of the settings.
/// Where the name is taken, the project that has it is meant only if it is active and has that
/// directory.
pub proof fn law_discovered(
    db: Db,
    cwd: Text,
    now: Timestamp,
    config: ConfigView,
    repository: DiscoveryView,
    id: Text,
)
    requires
        db.valid(),
        db.get_project_by_path(cwd) == Ok::<Option<ProjectView>, Fault>(None),
        config.auto_discover,
        forall|k: int| 0 <= k < db.ignored.len() ==> !covers(#[trigger] db.ignored[k], cwd),
        forall|k: int|
            0 <= k < db.ignored.len() ==> !covers(#[trigger] db.ignored[k], repository.root),
        config.default_tags.no_duplicates(),
        forall|k: int| 0 <= k < db.projects.len() ==> (#[trigger] db.projects[k]).id != id,
    ensures
        ({
            let (n, r) = detected(db, cwd, now, config, Some(repository), id);
            if forall|k: int|
                0 <= k < db.projects.len() ==> folded((#[trigger] db.projects[k]).name) != folded(
                    repository.name,
                ) {
                &&& n.projects.len() == db.projects.len() + 1 && n.projects.drop_last()
                    == db.projects
                &&& r matches Ok(Some(p)) && p.id == id && p.name == repository.name && p.paths
                    == seq![repository.root] && p.tags == config.default_tags
                    && p.hourly_rate_cents == config.default_rate_cents && p.status
                    == ProjectStatus::Active && p.source == ProjectSource::Discovered
                    && p.created_at == now && p.updated_at == now
                &&& n.projects.last().id == id && n.projects.last().name == repository.name
                    && n.projects.last().paths == seq![repository.root]
                    && n.projects.last().hourly_rate_cents == config.default_rate_cents
                    && n.projects.last().status == ProjectStatus::Active
                    && n.projects.last().source == ProjectSource::Discovered
            } else {
                &&& n == db
                &&& r matches Ok(Some(p)) ==> folded(p.name) == folded(repository.name) && p.status
                    == ProjectStatus::Active && exists|i: int|
                    0 <= i < p.paths.len() && equal_paths(#[trigger] p.paths[i], repository.root)
                &&& forall|q: ProjectView| #[trigger]
                    db.get_project_by_name(repository.name) == Ok::<Option<ProjectView>, Fault>(
                        Some(q),
                    ) && q.status == ProjectStatus::Active && q.paths.contains(repository.root)
                        ==> r == Ok::<Option<ProjectView>, Fault>(Some(q))
            }
        }),
{
    let (n, r) = detected(db, cwd, now, config, Some(repository), id);
    let p = discovered_project(repository, now, config, id);
    assert(!any(db.ignored, path_covers(cwd)));
    assert(!any(db.ignored, path_covers(repository.root)));
    assert(!any(db.projects, project_is(id)));
    lemma_first(db.projects, project_named(repository.name));
    if any(db.projects, project_named(repository.name)) {
        let k = choose|k: int|
            0 <= k < db.projects.len() && project_named(repository.name)(#[trigger] db.projects[k]);
        assert(folded(db.projects[k].name) == folded(repository.name));
        assert forall|q: ProjectView| #[trigger]
            db.get_project_by_name(repository.name) == Ok::<Option<ProjectView>, Fault>(Some(q))
                && q.status == ProjectStatus::Active && q.paths.contains(
                repository.root,
            ) implies r == Ok::<Option<ProjectView>, Fault>(Some(q)) by {
            let i = choose|i: int| 0 <= i < q.paths.len() && q.paths[i] == repository.root;
            assert(equal_paths(q.paths[i], repository.root));
        }
    } else {
        assert forall|k: int| 0 <= k < db.projects.len() implies folded(
            (#[trigger] db.projects[k]).name,
        ) != folded(repository.name) by {
            assert(!project_named(repository.name)(db.projects[k]));
        }
        assert(n.projects.drop_last() =~= db.projects);
    }
}

/// Whether the directory at a position of a project is the one that a path belongs to: it covers the
/// path, no other that does is longer, and no earlier project has one of the same length.
pub open spec fn is_home(db: Db, path: Text, k: int, m: int) -> bool {
    &&& 0 <= k < db.projects.len()
    &&& 0 <= m < db.projects[k].paths.len()
    &&& covers(db.projects[k].paths[m], path)
    &&& forall|j: int, i: int|
        0 <= j < db.projects.len() && 0 <= i < db.projects[j].paths.len() && covers(
            #[trigger] db.projects[j].paths[i],
            path,
        ) ==> db.projects[j].paths[i].len() < db.projects[k].paths[m].len() || (
        db.projects[j].paths[i].len() == db.projects[k].paths[m].len() && k <= j)
}

/// A directory belongs to the project with the longest path that covers it, if that project is active,
/// and to none if it is archived, whatever repository is there; nothing is registered then. One that
/// no path covers belongs to none where nothing is searched for or found, or where it or the
/// repository is ignored.
pub proof fn law_belonging(
    db: Db,
    cwd: Text,
    now: Timestamp,
    config: ConfigView,
    repository: Option<DiscoveryView>,
    id: Text,
    k: int,
    m: int,
)
    requires
        db.valid(),
        all(db.projects, project_readable()),
    ensures
        is_home(db, cwd, k, m) ==> detected(db, cwd, now, config, repository, id) == (
            db,
            Ok::<Option<ProjectView>, Fault>(
                if db.projects[k].status == ProjectStatus::Active {
                    Some(read_project(db.projects[k])->Ok_0)
                } else {
                    None
                },
            ),
        ),
        is_homeless(db, cwd) && (!config.auto_discover || repository is None || is_shunned(db, cwd)
            || is_shunned(db, repository->Some_0.root)) ==> detected(
            db,
            cwd,
            now,
            config,
            repository,
            id,
        ) == (db, Ok::<Option<ProjectView>, Fault>(None)),
{
    if is_home(db, cwd, k, m) {
        law_covered_is_found(db, cwd);
        let i = choose|i: int| deepest_at(db.projects, cwd, i);
        let r = db.projects[i];
        assert(covers(db.projects[k].paths[m], cwd));
        law_longest_prefix(db, cwd, r, k, m);
        let n = choose|n: int|
            0 <= n < r.paths.len() && covers(#[trigger] r.paths[n], cwd)
                && db.projects[k].paths[m].len() <= r.paths[n].len();
        assert(covers(db.projects[i].paths[n], cwd));
        lemma_depth_bound(db.projects[k].paths, cwd, m);
        if k < i {
            lemma_depth_reached(r.paths, cwd);
            let x = choose|x: int|
                0 <= x < r.paths.len() && covers(#[trigger] r.paths[x], cwd) && r.paths[x].len()
                    == crate::db::depth(r.paths, cwd);
            assert(covers(db.projects[i].paths[x], cwd));
        }
        assert(i == k);
        assert(project_readable()(db.projects[k]));
    }
    if is_homeless(db, cwd) {
        law_covered_is_found(db, cwd);
        if is_shunned(db, cwd) {
            let j = choose|j: int|
                0 <= j < db.ignored.len() && covers(#[trigger] db.ignored[j], cwd);
            assert(path_covers(cwd)(db.ignored[j]));
        }
        if let Some(d) = repository {
            if is_shunned(db, d.root) {
                let j = choose|j: int|
                    0 <= j < db.ignored.len() && covers(#[trigger] db.ignored[j], d.root);
                assert(path_covers(d.root)(db.ignored[j]));
            }
        }
    }
}

/// Whether no path of a project covers a path.
pub open spec fn is_homeless(db: Db, path: Text) -> bool {
    forall|j: int, i: int|
        0 <= j < db.projects.len() && 0 <= i < db.projects[j].paths.len() ==> !covers(
            #[trigger] db.projects[j].paths[i],
            path,
        )
}

/// Whether an ignored directory covers a path.
pub open spec fn is_shunned(db: Db, path: Text) -> bool {
    exists|j: int| 0 <= j < db.ignored.len() && covers(#[trigger] db.ignored[j], path)
}

// ---------------------------------------------------------------------------
// Exits
// ---------------------------------------------------------------------------
/// Which session an exit is about: the one that is named, while it is active, whatever process it
/// has; without a name the active one of the process.
pub proof fn law_exit_about(db: Db, pid: u32, k: int, s: SessionView)
    requires
        db.valid(),
        0 <= k < db.sessions.len(),
        read_session(db.sessions[k]) == Ok::<SessionView, Fault>(s),
    ensures
        s.ended_at is None ==> exiting(db, pid, Some(s.id)) == Ok::<Option<SessionView>, Fault>(
            Some(s),
        ),
        s.ended_at is Some ==> exiting(db, pid, Some(s.id)) == Ok::<Option<SessionView>, Fault>(
            None,
        ),
        s.ended_at is None && s.pid == pid ==> exiting(db, pid, None) == Ok::<
            Option<SessionView>,
            Fault,
        >(Some(s)),
{
    lemma_session_at(db, k);
    if s.ended_at is None && s.pid == pid {
        let p = active_with_pid(pid);
        assert(db.sessions[k].ended_at is None);
        assert(p(db.sessions[k]));
        assert forall|j: int| 0 <= j < k implies !p(#[trigger] db.sessions[j]) by {
            assert(sessions_apart()(db.sessions[j], db.sessions[k]));
        }
        lemma_first_found(db.sessions, p, k);
    }
}

/// The times of an exit. The session ends now where the whole seconds since its last heartbeat are
/// not more than the idle threshold, and at the last heartbeat where they are more. Where no other
/// session is in its project, what the hook started there ends at the same time; every other entry
/// and every other session stays as it is.
pub proof fn law_exit_times(
    db: Db,
    pid: u32,
    session_id: Option<Text>,
    now: Timestamp,
    config: ConfigView,
    s: SessionView,
)
    requires
        db.valid(),
        exiting(db, pid, session_id) == Ok::<Option<SessionView>, Fault>(Some(s)),
        exited(db, pid, session_id, now, config).1 is Ok,
    ensures
        ({
            let n = exited(db, pid, session_id, now, config).0;
            let end = if exceeds(
                now.instant() - s.last_heartbeat.instant(),
                config.idle_threshold_secs as int,
            ) {
                s.last_heartbeat
            } else {
                now
            };
            &&& n.projects == db.projects && n.ignored == db.ignored
            &&& n.sessions.len() == db.sessions.len()
            &&& forall|i: int|
                0 <= i < db.sessions.len() ==> (#[trigger] n.sessions[i])
                    == if db.sessions[i].id == s.id {
                    ShellSession { ended_at: Some(end.text()), ..db.sessions[i] }
                } else {
                    db.sessions[i]
                }
            &&& n.entries.len() == db.entries.len()
            &&& forall|i: int|
                0 <= i < db.entries.len() ==> if s.current_project_id matches Some(q) && alone(
                    db,
                    s.id,
                    q,
                ) && open_hook(db.entries[i], q) {
                    ended_row(db.entries[i], #[trigger] n.entries[i], end)
                } else {
                    n.entries[i] == db.entries[i]
                }
        }),
{
    let end = if exceeds(
        now.instant() - s.last_heartbeat.instant(),
        config.idle_threshold_secs as int,
    ) {
        s.last_heartbeat
    } else {
        now
    };
    lemma_idle(s, now, config);
    law_end_session_keeps_rules(db, s.id, end);
    let d = db.end_session(s.id, end)->Ok_0;
    lemma_leave(d, s, end);
    if let Some(q) = s.current_project_id {
        assert(alone(d, s.id, q) == alone(db, s.id, q)) by {
            if alone(db, s.id, q) {
                assert forall|j: int|
                    0 <= j < d.sessions.len() && (#[trigger] d.sessions[j]).ended_at is None
                        && d.sessions[j].current_project_id == Some(q) implies d.sessions[j].id
                    == s.id by {
                    assert(db.sessions[j].ended_at is None);
                }
            }
            if alone(d, s.id, q) {
                assert forall|j: int|
                    0 <= j < db.sessions.len() && (#[trigger] db.sessions[j]).ended_at is None
                        && db.sessions[j].current_project_id == Some(q) implies db.sessions[j].id
                    == s.id by {
                    if db.sessions[j].id != s.id {
                        assert(d.sessions[j] == db.sessions[j]);
                    }
                }
            }
        }
    }
}

// ---------------------------------------------------------------------------
// Stale sessions
// ---------------------------------------------------------------------------
/// Whether a time is the latest heartbeat of some sessions in a project.
pub open spec fn latest_of(s: Seq<SessionView>, project: Text, t: Timestamp) -> bool {
    &&& exists|j: int|
        0 <= j < s.len() && (#[trigger] s[j]).current_project_id == Some(project)
            && s[j].last_heartbeat == t
    &&& forall|j: int|
        0 <= j < s.len() && (#[trigger] s[j]).current_project_id == Some(project)
            ==> s[j].last_heartbeat.instant() <= t.instant()
}

proof fn lemma_latest_of(s: Seq<SessionView>, project: Text)
    ensures
        match latest_heartbeat(s, project) {
            Some(t) => latest_of(s, project, t),
            None => forall|j: int|
                0 <= j < s.len() ==> (#[trigger] s[j]).current_project_id != Some(project),
        },
    decreases s.len(),
{
    if s.len() > 0 {
        let r = s.drop_last();
        lemma_latest_of(r, project);
        assert forall|j: int| 0 <= j < r.len() implies #[trigger] s[j] == r[j] by {}
        if let Some(t) = latest_heartbeat(s, project) {
            if s.last().current_project_id == Some(project) && s.last().last_heartbeat == t {
                assert(s[s.len() - 1].last_heartbeat == t);
            } else {
                let j = choose|j: int|
                    0 <= j < r.len() && (#[trigger] r[j]).current_project_id == Some(project)
                        && r[j].last_heartbeat == t;
                assert(s[j] == r[j]);
            }
            assert forall|j: int|
                0 <= j < s.len() && (#[trigger] s[j]).current_project_id == Some(
                    project,
                ) implies s[j].last_heartbeat.instant() <= t.instant() by {
                if j < r.len() {
                    assert(r[j] == s[j]);
                }
            }
        } else {
            assert forall|j: int| 0 <= j < s.len() implies (#[trigger] s[j]).current_project_id
                != Some(project) by {
                if j < r.len() {
                    assert(r[j] == s[j]);
                }
            }
        }
    }
}

/// Whether nobody is active in a project.
pub open spec fn deserted(db: Db, project: Text) -> bool {
    forall|j: int|
        0 <= j < db.sessions.len() && (#[trigger] db.sessions[j]).ended_at is None
            ==> db.sessions[j].current_project_id != Some(project)
}

proof fn lemma_deserted(db: Db, project: Text)
    ensures
        db.active_sessions(project, None) == 0 <==> deserted(db, project),
{
    let p = active_in(project, None);
    lemma_count_zero(db.sessions, p);
    if any(db.sessions, p) {
        let j = choose|j: int| 0 <= j < db.sessions.len() && p(#[trigger] db.sessions[j]);
        assert(!deserted(db, project));
    }
    if !deserted(db, project) {
        let j = choose|j: int|
            0 <= j < db.sessions.len() && (#[trigger] db.sessions[j]).ended_at is None
                && db.sessions[j].current_project_id == Some(project);
        assert(p(db.sessions[j]));
    }
}

/// What becomes of an entry when the stale sessions of some projects ended.
spec fn cleared_row(
    db: Db,
    a: EntryData,
    b: EntryData,
    projects: Seq<Text>,
    stale: Seq<SessionView>,
) -> bool {
    if projects.contains(a.project_id) && deserted(db, a.project_id) && open_hook(
        a,
        a.project_id,
    ) {
        exists|t: Timestamp| #[trigger] latest_of(stale, a.project_id, t) && ended_row(a, b, t)
    } else {
        b == a
    }
}

proof fn lemma_cleared(db: Db, projects: Seq<Text>, stale: Seq<SessionView>)
    requires
        db.valid(),
        projects.no_duplicates(),
        forall|k: int|
            0 <= k < projects.len() ==> latest_heartbeat(stale, #[trigger] projects[k]) is Some,
        entries_stopped(db, projects, stale).1 is Ok,
    ensures
        ({
            let n = entries_stopped(db, projects, stale).0;
            &&& n == (Db { entries: n.entries, ..db })
            &&& n.entries.len() == db.entries.len()
            &&& forall|i: int|
                0 <= i < db.entries.len() ==> cleared_row(
                    db,
                    db.entries[i],
                    #[trigger] n.entries[i],
                    projects,
                    stale,
                )
        }),
    decreases projects.len(),
{
    let n = entries_stopped(db, projects, stale).0;
    if projects.len() > 0 {
        let rest = projects.drop_last();
        let q = projects.last();
        assert(projects[projects.len() - 1] == q);
        assert forall|k: int| 0 <= k < rest.len() implies latest_heartbeat(
            stale,
            #[trigger] rest[k],
        ) is Some by {
            assert(rest[k] == projects[k]);
        }
        lemma_cleared(db, rest, stale);
        lemma_entries_stopped(db, rest, stale);
        let d = entries_stopped(db, rest, stale).0;
        lemma_deserted(db, q);
        lemma_deserted(d, q);
        lemma_latest_of(stale, q);
        let t = latest_heartbeat(stale, q)->Some_0;
        if deserted(d, q) {
            lemma_stop_rows(d, q, t);
        }
        assert forall|i: int| 0 <= i < db.entries.len() implies cleared_row(
            db,
            db.entries[i],
            #[trigger] n.entries[i],
            projects,
            stale,
        ) by {
            let a = db.entries[i];
            assert(cleared_row(db, a, d.entries[i], rest, stale));
            if a.project_id == q {
                assert(!rest.contains(q)) by {
                    if rest.contains(q) {
                        let j = choose|j: int| 0 <= j < rest.len() && rest[j] == q;
                        assert(projects[j] == q);
                    }
                }
                assert(d.entries[i] == a);
                assert(latest_of(stale, q, t));
            } else {
                assert(d.entries[i].project_id == a.project_id);
                if projects.contains(a.project_id) {
                    let j = choose|j: int| 0 <= j < projects.len() && projects[j] == a.project_id;
                    assert(rest[j] == a.project_id);
                }
                if rest.contains(a.project_id) {
                    let j = choose|j: int| 0 <= j < rest.len() && rest[j] == a.project_id;
                    assert(projects[j] == a.project_id);
                }
                assert(n.entries[i] == d.entries[i]);
            }
        }
    }
}

/// What clearing stale sessions does to entries: what the hook started in the project of a stale
/// session ends, where nobody is active there any more, at the latest heartbeat of the stale sessions
/// in that project. Every other entry stays as it is.
pub proof fn law_reaping_times(db: Db, limit: Timestamp, stale: Seq<SessionView>)
    requires
        db.valid(),
        db.stale_sessions(limit) == Ok::<Seq<SessionView>, Fault>(stale),
        reap(db, limit).1 is Ok,
    ensures
        ({
            let n = reap(db, limit).0;
            &&& n.entries.len() == db.entries.len()
            &&& forall|i: int|
                0 <= i < db.entries.len() ==> {
                    let q = db.entries[i].project_id;
                    if deserted(n, q) && open_hook(db.entries[i], q) && (exists|j: int|
                        0 <= j < stale.len() && (#[trigger] stale[j]).current_project_id == Some(
                            q,
                        )) {
                        exists|t: Timestamp| #[trigger]
                            latest_of(stale, q, t) && ended_row(
                                db.entries[i],
                                #[trigger] n.entries[i],
                                t,
                            )
                    } else {
                        n.entries[i] == db.entries[i]
                    }
                }
        }),
{
    let n = reap(db, limit).0;
    let ended = Db { sessions: db.sessions.map_values(reaped(limit.text())), ..db };
    let projects = projects_of(stale);
    lemma_reaped(db, limit);
    lemma_entries_stopped(ended, projects, stale);
    assert forall|k: int| 0 <= k < projects.len() implies latest_heartbeat(
        stale,
        #[trigger] projects[k],
    ) is Some by {
        lemma_projects_of(stale, projects[k]);
        assert(projects.contains(projects[k]));
    }
    lemma_projects_of(stale, Seq::empty());
    lemma_cleared(ended, projects, stale);
    assert forall|i: int| 0 <= i < db.entries.len() implies {
        let q = db.entries[i].project_id;
        if deserted(n, q) && open_hook(db.entries[i], q) && (exists|j: int|
            0 <= j < stale.len() && (#[trigger] stale[j]).current_project_id == Some(q)) {
            exists|t: Timestamp| #[trigger]
                latest_of(stale, q, t) && ended_row(db.entries[i], #[trigger] n.entries[i], t)
        } else {
            n.entries[i] == db.entries[i]
        }
    } by {
        let q = db.entries[i].project_id;
        lemma_projects_of(stale, q);
        lemma_latest_of(stale, q);
        assert(cleared_row(ended, ended.entries[i], n.entries[i], projects, stale));
        assert(deserted(n, q) == deserted(ended, q));
    }
}

/// Whether a session is active and its last heartbeat is written before a limit.
pub open spec fn is_overdue(r: SessionData, limit: Timestamp) -> bool {
    r.ended_at is None && before(r.last_heartbeat, limit.text())
}

/// What clearing stale sessions does to sessions: the active ones whose last heartbeat lies before the
/// limit end, each at its last heartbeat, and every other stays as it is. The number that is answered
/// is that of those that ended.
pub proof fn law_reaped_sessions(db: Db, limit: Timestamp)
    requires
        db.valid(),
        db.readable(),
    ensures
        ({
            let (n, r) = reap(db, limit);
            &&& n.sessions.len() == db.sessions.len()
            &&& forall|i: int|
                0 <= i < db.sessions.len() ==> if is_overdue(db.sessions[i], limit) {
                    #[trigger] n.sessions[i] == (SessionData {
                        ended_at: Some(stamp_of(db.sessions[i].last_heartbeat)->Some_0.text()),
                        ..db.sessions[i]
                    })
                } else {
                    n.sessions[i] == db.sessions[i]
                }
            &&& r matches Ok(k) && k == sum_of(
                db.sessions,
                |s: SessionData|
                    if is_overdue(s, limit) {
                        1int
                    } else {
                        0
                    },
            )
        }),
{
    law_exit_answered(db, 0, None, limit, crate::config::default_config(), limit);
    law_reaping(db, limit);
    let rows = db.stale_rows(limit);
    lemma_filter(db.sessions, stale_at(limit.text()));
    lemma_overdue(db.sessions, limit);
    assert(all(rows, session_readable()));
    let stale = db.stale_sessions(limit)->Ok_0;
    let ended = Db { sessions: db.sessions.map_values(reaped(limit.text())), ..db };
    lemma_reaped(db, limit);
    lemma_entries_stopped(ended, projects_of(stale), stale);
    assert forall|i: int| 0 <= i < db.sessions.len() implies session_readable()(
        #[trigger] db.sessions[i],
    ) by {}
}

proof fn lemma_overdue(s: Seq<SessionData>, limit: Timestamp)
    ensures
        count(s, stale_at(limit.text())) == sum_of(
            s,
            |s: SessionData|
                if is_overdue(s, limit) {
                    1int
                } else {
                    0
                },
        ),
    decreases s.len(),
{
    if s.len() > 0 {
        lemma_overdue(s.drop_last(), limit);
    }
}

// ---------------------------------------------------------------------------
// When prompts and exits are answered
// ---------------------------------------------------------------------------
/// Whether the entries that run can be read.
pub open spec fn running_readable(db: Db) -> bool {
    forall|i: int|
        0 <= i < db.entries.len() && (#[trigger] db.entries[i]).end is None ==> entry_readable()(
            db.entries[i],
        )
}

proof fn lemma_stop_ok(db: Db, project: Text, at: Timestamp)
    requires
        db.valid(),
        running_readable(db),
    ensures
        stop_hook_entry(db, project, at).1 is Ok,
        running_readable(stop_hook_entry(db, project, at).0),
        stop_hook_entry(db, project, at).0.entries.len() == db.entries.len(),
        forall|i: int|
            0 <= i < db.entries.len() ==> (#[trigger] stop_hook_entry(
                db,
                project,
                at,
            ).0.entries[i]).id == db.entries[i].id,
{
    let p = running_hook_in(project);
    lemma_first(db.entries, p);
    if any(db.entries, p) {
        let k = choose|k: int| #[trigger] first_at(db.entries, p, k) && first(db.entries, p)
            == Some(db.entries[k]);
        assert(p(db.entries[k]));
        assert(entry_readable()(db.entries[k]));
        let e = read_entry(db.entries[k])->Ok_0;
        let x = stopped(e, at);
        assert(entry_is(x.id)(db.entries[k]));
        assert(entry_sound(db.projects)(db.entries[k]));
    }
    lemma_stop_rows(db, project, at);
}

proof fn lemma_leave_ok(db: Db, s: SessionView, at: Timestamp)
    requires
        db.valid(),
        running_readable(db),
    ensures
        left(db, s, at).1 is Ok,
        running_readable(left(db, s, at).0),
        left(db, s, at).0.entries.len() == db.entries.len(),
        forall|i: int|
            0 <= i < db.entries.len() ==> (#[trigger] left(db, s, at).0.entries[i]).id
                == db.entries[i].id,
{
    if let Some(q) = s.current_project_id {
        lemma_stop_ok(db, q, at);
    }
}

proof fn lemma_settle_ok(
    db: Db,
    s: SessionView,
    project: Option<ProjectView>,
    now: Timestamp,
    entry: Text,
    action: ActionView,
)
    requires
        db.valid(),
        running_readable(db),
        s.ended_at is None,
        first(db.sessions, session_is(s.id)) matches Some(r) ==> r.pid == s.pid,
        s.current_project_id matches Some(p) ==> any(db.projects, project_is(p)),
        project matches Some(p) ==> any(db.projects, project_is(p.id)),
        !any(db.entries, entry_is(entry)),
    ensures
        settled(db, s, project, now, entry, action).1 is Ok,
{
    lemma_first(db.sessions, session_is(s.id));
    assert(db.upsert_session(s) is Ok);
    let d = db.upsert_session(s)->Ok_0;
    if let Some(p) = project {
        let q = running_in(p.id);
        lemma_first(d.entries, q);
        if any(d.entries, q) {
            let k = choose|k: int|
                #[trigger] first_at(d.entries, q, k) && first(d.entries, q) == Some(d.entries[k]);
            assert(q(d.entries[k]));
            assert(entry_readable()(db.entries[k]));
        }
    }
}

/// Detection in a readable store is answered, and what it finds is stored then.
proof fn lemma_detected_ok(
    db: Db,
    cwd: Text,
    now: Timestamp,
    config: ConfigView,
    repository: Option<DiscoveryView>,
    id: Text,
)
    requires
        db.valid(),
        all(db.projects, project_readable()),
        config.default_tags.no_duplicates(),
        !any(db.projects, project_is(id)),
    ensures
        ({
            let (d, r) = detected(db, cwd, now, config, repository, id);
            &&& r is Ok
            &&& r matches Ok(Some(p)) ==> any(d.projects, project_is(p.id))
            &&& forall|q: Text| #[trigger]
                any(db.projects, project_is(q)) ==> any(d.projects, project_is(q))
        }),
{
    let (d, r) = detected(db, cwd, now, config, repository, id);
    if exists|i: int| deepest_at(db.projects, cwd, i) {
        let i = choose|i: int| deepest_at(db.projects, cwd, i);
        assert(project_readable()(db.projects[i]));
        let p = read_project(db.projects[i])->Ok_0;
        assert(project_is(p.id)(db.projects[i]));
    } else if let Some(x) = repository {
        let p = discovered_project(x, now, config, id);
        let q = project_named(x.name);
        lemma_first(db.projects, q);
        if any(db.projects, q) {
            let k = choose|k: int|
                #[trigger] first_at(db.projects, q, k) && first(db.projects, q) == Some(
                    db.projects[k],
                );
            assert(q(db.projects[k]));
            assert(project_readable()(db.projects[k]));
            let y = read_project(db.projects[k])->Ok_0;
            assert(project_is(y.id)(db.projects[k]));
        } else if d != db {
            assert(project_is(id)(d.projects[db.projects.len() as int]));
            assert forall|z: Text| #[trigger] any(db.projects, project_is(z)) implies any(
                d.projects,
                project_is(z),
            ) by {
                let k = choose|k: int|
                    0 <= k < db.projects.len() && project_is(z)(#[trigger] db.projects[k]);
                assert(project_is(z)(d.projects[k]));
            }
        }
    }
}

/// Every prompt is answered, in a store whose times can be read, where the identifiers for what it
/// may create are fresh and no tag of the settings comes twice.
pub proof fn law_prompt_answered(
    db: Db,
    pid: u32,
    cwd: Text,
    shell: Option<Text>,
    now: Timestamp,
    config: ConfigView,
    repository: Option<DiscoveryView>,
    ids: IdsView,
)
    requires
        db.valid(),
        db.readable(),
        !any(db.sessions, session_is(ids.session)),
        !any(db.entries, entry_is(ids.entry)),
        !any(db.projects, project_is(ids.project)),
        config.default_tags.no_duplicates(),
    ensures
        prompted(db, pid, cwd, shell, now, config, repository, ids).1 is Ok,
{
    lemma_first(db.sessions, active_with_pid(pid));
    assert(running_readable(db)) by {
        assert forall|i: int|
            0 <= i < db.entries.len() && (#[trigger] db.entries[i]).end
                is None implies entry_readable()(db.entries[i]) by {}
    }
    if any(db.sessions, active_with_pid(pid)) {
        let k = choose|k: int|
            #[trigger] first_at(db.sessions, active_with_pid(pid), k) && first(
                db.sessions,
                active_with_pid(pid),
            ) == Some(db.sessions[k]);
        assert(session_readable()(db.sessions[k]));
        let s = read_session(db.sessions[k])->Ok_0;
        assert(session_sound(db.projects)(db.sessions[k]));
        lemma_session_found(db, pid, s);
        lemma_warm_ok(db, s, cwd, now, config, repository, ids);
    } else {
        lemma_cold_ok(db, pid, cwd, shell, now, config, repository, ids);
    }
}

proof fn lemma_warm_ok(
    db: Db,
    s: SessionView,
    cwd: Text,
    now: Timestamp,
    config: ConfigView,
    repository: Option<DiscoveryView>,
    ids: IdsView,
)
    requires
        db.valid(),
        all(db.projects, project_readable()),
        running_readable(db),
        s.ended_at is None,
        first(db.sessions, session_is(s.id)) matches Some(r) ==> r.pid == s.pid,
        s.current_project_id matches Some(p) ==> any(db.projects, project_is(p)),
        !any(db.entries, entry_is(ids.entry)),
        !any(db.projects, project_is(ids.project)),
        config.default_tags.no_duplicates(),
    ensures
        warm_path(db, s, cwd, now, config, repository, ids).1 is Ok,
{
    if !idle_at(s, now, config) && equal_paths(s.cwd, cwd) {
        let t = ShellSession { last_heartbeat: now, ..s };
        lemma_settle_ok(db, t, None, now, ids.entry, HookAction::Heartbeat);
    } else {
        lemma_detected_ok(db, cwd, now, config, repository, ids.project);
        lemma_detected(db, cwd, now, config, repository, ids.project);
        let (d, found) = detected(db, cwd, now, config, repository, ids.project);
        let project = found->Ok_0;
        let t = ShellSession { cwd, current_project_id: id_of(project), last_heartbeat: now, ..s };
        if idle_at(s, now, config) {
            let a = match project {
                Some(p) => HookAction::IdleResume { project_name: p.name },
                None => HookAction::Heartbeat,
            };
            lemma_leave_ok(d, s, s.last_heartbeat);
            lemma_leave(d, s, s.last_heartbeat);
            let e = left(d, s, s.last_heartbeat).0;
            lemma_still_fresh(db.entries, e.entries, ids.entry);
            lemma_settle_ok(e, t, project, now, ids.entry, a);
        } else if id_of(project) == s.current_project_id {
            let t = ShellSession { cwd, last_heartbeat: now, ..s };
            lemma_settle_ok(d, t, None, now, ids.entry, HookAction::Heartbeat);
        } else {
            lemma_name_ok(db, d, s);
            let from = name_before(d, s)->Ok_0;
            let a = match (from, project) {
                (Some(from), Some(p)) => HookAction::Switched { from, to: p.name },
                (Some(from), None) => HookAction::Stopped { project_name: from },
                (None, Some(p)) => HookAction::Started { project_name: p.name },
                (None, None) => HookAction::Heartbeat,
            };
            lemma_leave_ok(d, s, now);
            lemma_leave(d, s, now);
            let e = left(d, s, now).0;
            lemma_still_fresh(db.entries, e.entries, ids.entry);
            lemma_settle_ok(e, t, project, now, ids.entry, a);
        }
    }
}

/// The name of the project that a session was in can be read.
proof fn lemma_name_ok(db: Db, d: Db, s: SessionView)
    requires
        all(db.projects, project_readable()),
        d.valid(),
        s.current_project_id matches Some(p) ==> any(db.projects, project_is(p)),
        db.projects.len() <= d.projects.len(),
        forall|k: int| 0 <= k < db.projects.len() ==> #[trigger] d.projects[k] == db.projects[k],
    ensures
        name_before(d, s) is Ok,
{
    if let Some(p) = s.current_project_id {
        let q = project_is(p);
        let k = choose|k: int| 0 <= k < db.projects.len() && q(#[trigger] db.projects[k]);
        assert(q(d.projects[k]));
        assert forall|j: int| 0 <= j < k implies !q(#[trigger] d.projects[j]) by {
            assert(projects_apart()(d.projects[j], d.projects[k]));
        }
        lemma_first_found(d.projects, q, k);
        assert(project_readable()(db.projects[k]));
    }
}

proof fn lemma_still_fresh(a: Seq<EntryData>, b: Seq<EntryData>, id: Text)
    requires
        a.len() == b.len(),
        forall|i: int| 0 <= i < a.len() ==> (#[trigger] b[i]).id == a[i].id,
        !any(a, entry_is(id)),
    ensures
        !any(b, entry_is(id)),
{
    assert forall|i: int| 0 <= i < b.len() implies !entry_is(id)(#[trigger] b[i]) by {
        assert(!entry_is(id)(a[i]));
    }
}

proof fn lemma_cold_ok(
    db: Db,
    pid: u32,
    cwd: Text,
    shell: Option<Text>,
    now: Timestamp,
    config: ConfigView,
    repository: Option<DiscoveryView>,
    ids: IdsView,
)
    requires
        db.valid(),
        db.readable(),
        running_readable(db),
        !any(db.sessions, session_is(ids.session)),
        !any(db.entries, entry_is(ids.entry)),
        !any(db.projects, project_is(ids.project)),
        config.default_tags.no_duplicates(),
    ensures
        cold_start(db, pid, cwd, shell, now, config, repository, ids).1 is Ok,
{
    let limit = stale_limit(now, config);
    let cleared = reap(db, limit).0;
    law_reaping(db, limit);
    lemma_reap_rows(db, limit);
    lemma_reap_entries(db, limit);
    lemma_still_fresh(db.entries, cleared.entries, ids.entry);
    lemma_detected_ok(cleared, cwd, now, config, repository, ids.project);
    lemma_detected(cleared, cwd, now, config, repository, ids.project);
    let (d, found) = detected(cleared, cwd, now, config, repository, ids.project);
    let project = found->Ok_0;
    assert forall|i: int| 0 <= i < d.sessions.len() implies !session_is(ids.session)(
        #[trigger] d.sessions[i],
    ) by {
        assert(!session_is(ids.session)(db.sessions[i]));
    }
    lemma_first(d.sessions, session_is(ids.session));
    let s = ShellSession {
        id: ids.session,
        pid,
        shell,
        cwd,
        current_project_id: id_of(project),
        started_at: now,
        last_heartbeat: now,
        ended_at: None,
    };
    let a = match project {
        Some(p) => HookAction::SessionStarted { project_name: p.name, session_id: ids.session },
        None => HookAction::SessionCreated { session_id: ids.session },
    };
    lemma_settle_ok(d, s, project, now, ids.entry, a);
}

proof fn lemma_reap_entries(db: Db, limit: Timestamp)
    requires
        db.valid(),
        running_readable(db),
    ensures
        ({
            let n = reap(db, limit).0;
            &&& running_readable(n)
            &&& n.entries.len() == db.entries.len()
            &&& forall|i: int|
                0 <= i < db.entries.len() ==> (#[trigger] n.entries[i]).id == db.entries[i].id
        }),
{
    if let Ok(stale) = db.stale_sessions(limit) {
        let ended = Db { sessions: db.sessions.map_values(reaped(limit.text())), ..db };
        lemma_reaped(db, limit);
        lemma_stopped_ids(ended, projects_of(stale), stale);
    }
}

proof fn lemma_stopped_ids(db: Db, projects: Seq<Text>, s: Seq<SessionView>)
    requires
        db.valid(),
        running_readable(db),
    ensures
        ({
            let n = entries_stopped(db, projects, s).0;
            &&& entries_stopped(db, projects, s).1 is Ok
            &&& running_readable(n)
            &&& n.entries.len() == db.entries.len()
            &&& forall|i: int|
                0 <= i < db.entries.len() ==> (#[trigger] n.entries[i]).id == db.entries[i].id
        }),
    decreases projects.len(),
{
    if projects.len() > 0 {
        lemma_stopped_ids(db, projects.drop_last(), s);
        lemma_entries_stopped(db, projects.drop_last(), s);
        let d = entries_stopped(db, projects.drop_last(), s).0;
        if let Some(t) = latest_heartbeat(s, projects.last()) {
            lemma_stop_ok(d, projects.last(), t);
        }
    }
}

/// Every exit is answered, in a store whose times can be read; so is the clearing of stale sessions.
pub proof fn law_exit_answered(
    db: Db,
    pid: u32,
    session_id: Option<Text>,
    now: Timestamp,
    config: ConfigView,
    limit: Timestamp,
)
    requires
        db.valid(),
        db.readable(),
    ensures
        exited(db, pid, session_id, now, config).1 is Ok,
        reap(db, limit).1 is Ok,
{
    assert(running_readable(db)) by {
        assert forall|i: int|
            0 <= i < db.entries.len() && (#[trigger] db.entries[i]).end
                is None implies entry_readable()(db.entries[i]) by {}
    }
    lemma_first(db.sessions, active_with_pid(pid));
    if let Some(id) = session_id {
        lemma_first(db.sessions, session_is(id));
    }
    assert forall|k: int| 0 <= k < db.sessions.len() implies session_readable()(
        #[trigger] db.sessions[k],
    ) by {}
    if let Ok(Some(s)) = exiting(db, pid, session_id) {
        let at = crate::hook::exit_time(s, now, config);
        if session_id is None {
            lemma_session_found(db, pid, s);
        }
        lemma_first(db.sessions, session_is(s.id));
        if any(db.sessions, session_is(s.id)) {
            law_end_session_keeps_rules(db, s.id, at);
            let d = db.end_session(s.id, at)->Ok_0;
            lemma_leave_ok(d, s, at);
        } else {
            if let Some(id) = session_id {
                let k = choose|k: int|
                    #[trigger] first_at(db.sessions, session_is(id), k) && first(
                        db.sessions,
                        session_is(id),
                    ) == Some(db.sessions[k]);
                assert(session_is(s.id)(db.sessions[k]));
            }
        }
    }
    let rows = db.stale_rows(limit);
    lemma_filter(db.sessions, stale_at(limit.text()));
    assert(all(rows, session_readable()));
    let stale = db.stale_sessions(limit)->Ok_0;
    let ended = Db { sessions: db.sessions.map_values(reaped(limit.text())), ..db };
    lemma_reaped(db, limit);
    lemma_stopped_ids(ended, projects_of(stale), stale);
}

} // verus!
