//! What the store accepts, which rows a change leaves as they are, and which rows a search finds.
use crate::accounts::sum_of;
use crate::clock::Timestamp;
use crate::db::{
    active_in, active_with_pid, by_text, entries_apart, entry_is, entry_is_not, entry_readable,
    entry_sound, other_project_named, other_running_in, project_is, project_named, project_readable,
    project_sound, projects_apart, read_entry, read_project, read_session, running, running_hook_in,
    running_in, session_is, session_readable, session_sound, sessions_apart, tags_kept, Db, Fault,
    StorageError,
};
use crate::models::{EntryData, EntrySource, EntryView, ProjectView, SessionData, SessionView, Text};
use crate::rows::{all, any, count, first, first_at, lemma_filter, lemma_first, lemma_first_found};
use crate::text::{before, folded, lemma_before_total};
use vstd::prelude::*;

verus! {

/// Whether a project with an identifier is stored.
pub open spec fn has_project(db: Db, id: Text) -> bool {
    exists|k: int| 0 <= k < db.projects.len() && (#[trigger] db.projects[k]).id == id
}

/// Whether an entry with an identifier is stored.
pub open spec fn has_entry(db: Db, id: Text) -> bool {
    exists|k: int| 0 <= k < db.entries.len() && (#[trigger] db.entries[k]).id == id
}

/// Whether a session with an identifier is stored.
pub open spec fn has_session(db: Db, id: Text) -> bool {
    exists|k: int| 0 <= k < db.sessions.len() && (#[trigger] db.sessions[k]).id == id
}

/// Whether an entry of a project runs, other than the one with an identifier.
pub open spec fn is_busy(db: Db, project: Text, except: Option<Text>) -> bool {
    exists|k: int|
        0 <= k < db.entries.len() && (#[trigger] db.entries[k]).end is None
            && db.entries[k].project_id == project && except != Some(db.entries[k].id)
}

proof fn lemma_has(db: Db, id: Text)
    ensures
        any(db.projects, project_is(id)) == has_project(db, id),
        any(db.entries, entry_is(id)) == has_entry(db, id),
        any(db.sessions, session_is(id)) == has_session(db, id),
{
    if has_project(db, id) {
        let k = choose|k: int| 0 <= k < db.projects.len() && (#[trigger] db.projects[k]).id == id;
        assert(project_is(id)(db.projects[k]));
    }
    if has_entry(db, id) {
        let k = choose|k: int| 0 <= k < db.entries.len() && (#[trigger] db.entries[k]).id == id;
        assert(entry_is(id)(db.entries[k]));
    }
    if has_session(db, id) {
        let k = choose|k: int| 0 <= k < db.sessions.len() && (#[trigger] db.sessions[k]).id == id;
        assert(session_is(id)(db.sessions[k]));
    }
}

proof fn lemma_busy(db: Db, id: Text, project: Text)
    ensures
        any(db.entries, running_in(project)) == is_busy(db, project, None),
        any(db.entries, other_running_in(id, project)) == is_busy(db, project, Some(id)),
{
    if is_busy(db, project, None) {
        let k = choose|k: int|
            0 <= k < db.entries.len() && (#[trigger] db.entries[k]).end is None
                && db.entries[k].project_id == project;
        assert(running_in(project)(db.entries[k]));
    }
    if is_busy(db, project, Some(id)) {
        let k = choose|k: int|
            0 <= k < db.entries.len() && (#[trigger] db.entries[k]).end is None
                && db.entries[k].project_id == project && Some(id) != Some(db.entries[k].id);
        assert(other_running_in(id, project)(db.entries[k]));
    }
    if any(db.entries, running_in(project)) {
        let k = choose|k: int|
            0 <= k < db.entries.len() && running_in(project)(#[trigger] db.entries[k]);
        assert(db.entries[k].end is None);
    }
    if any(db.entries, other_running_in(id, project)) {
        let k = choose|k: int|
            0 <= k < db.entries.len() && other_running_in(id, project)(#[trigger] db.entries[k]);
        assert(db.entries[k].end is None);
    }
}

// ---------------------------------------------------------------------------
// Entries
// ---------------------------------------------------------------------------
/// A new entry is stored exactly where its identifier is free, its project is stored, none of its tags
/// comes twice, and, if it runs, no other entry of its project does. It is put behind the others, and
/// nothing else changes.
pub proof fn law_entry_created(db: Db, e: EntryView)
    ensures
        db.create_entry(e) is Ok <==> {
            &&& !has_entry(db, e.id)
            &&& has_project(db, e.project_id)
            &&& e.tags.no_duplicates()
            &&& e.end is None ==> !is_busy(db, e.project_id, None)
        },
        db.create_entry(e) matches Ok(n) ==> {
            &&& n == (Db { entries: n.entries, ..db })
            &&& n.entries.len() == db.entries.len() + 1
            &&& n.entries.drop_last() == db.entries
            &&& n.entries.last().id == e.id
            &&& n.entries.last().project_id == e.project_id
        },
{
    lemma_has(db, e.id);
    lemma_has(db, e.project_id);
    lemma_busy(db, e.id, e.project_id);
    if let Ok(n) = db.create_entry(e) {
        assert(n.entries.drop_last() =~= db.entries);
    }
}

/// An entry is replaced exactly where it and its project are stored, none of its tags comes twice, and,
/// if it runs, no other entry of its project does. Every other entry stays, and so does all else; where
/// it is not stored, that is said.
pub proof fn law_entry_replaced(db: Db, e: EntryView)
    ensures
        db.update_entry(e) is Ok <==> {
            &&& has_entry(db, e.id)
            &&& has_project(db, e.project_id)
            &&& e.tags.no_duplicates()
            &&& e.end is None ==> !is_busy(db, e.project_id, Some(e.id))
        },
        !has_entry(db, e.id) ==> db.update_entry(e) == Err::<Db, Fault>(
            StorageError::EntryNotFound(e.id),
        ),
        db.update_entry(e) matches Ok(n) ==> {
            &&& n == (Db { entries: n.entries, ..db })
            &&& n.entries.len() == db.entries.len()
            &&& forall|k: int|
                0 <= k < db.entries.len() ==> if db.entries[k].id == e.id {
                    (#[trigger] n.entries[k]).id == e.id && n.entries[k].created_at
                        == db.entries[k].created_at && n.entries[k].start == e.start.text()
                        && n.entries[k].project_id == e.project_id && n.entries[k].duration_secs
                        == e.duration_secs && n.entries[k].notes == e.notes
                } else {
                    n.entries[k] == db.entries[k]
                }
        },
{
    lemma_has(db, e.id);
    lemma_has(db, e.project_id);
    lemma_busy(db, e.id, e.project_id);
}

/// An entry is deleted exactly where it is stored; every other stays, in its order, and so does all
/// else.
pub proof fn law_entry_removed(db: Db, id: Text)
    ensures
        db.delete_entry(id) is Ok <==> has_entry(db, id),
        !has_entry(db, id) ==> db.delete_entry(id) == Err::<Db, Fault>(
            StorageError::EntryNotFound(id),
        ),
        db.delete_entry(id) matches Ok(n) ==> {
            &&& n == (Db { entries: n.entries, ..db })
            &&& !has_entry(n, id)
            &&& forall|r: EntryData| #[trigger]
                n.entries.contains(r) <==> db.entries.contains(r) && r.id != id
        },
{
    lemma_has(db, id);
    lemma_filter(db.entries, entry_is_not(id));
    if let Ok(n) = db.delete_entry(id) {
        if has_entry(n, id) {
            let k = choose|k: int| 0 <= k < n.entries.len() && (#[trigger] n.entries[k]).id == id;
            assert(n.entries.contains(n.entries[k]));
        }
    }
}

// ---------------------------------------------------------------------------
// Projects
// ---------------------------------------------------------------------------
/// Whether a stored project has a name, in whatever case, other than the one with an identifier.
pub open spec fn is_named(db: Db, name: Text, except: Option<Text>) -> bool {
    exists|k: int|
        0 <= k < db.projects.len() && folded((#[trigger] db.projects[k]).name) == folded(name)
            && except != Some(db.projects[k].id)
}

proof fn lemma_named(db: Db, id: Text, name: Text)
    ensures
        any(db.projects, project_named(name)) == is_named(db, name, None),
        any(db.projects, other_project_named(id, name)) == is_named(db, name, Some(id)),
{
    if is_named(db, name, None) {
        let k = choose|k: int|
            0 <= k < db.projects.len() && folded((#[trigger] db.projects[k]).name) == folded(name);
        assert(project_named(name)(db.projects[k]));
    }
    if is_named(db, name, Some(id)) {
        let k = choose|k: int|
            0 <= k < db.projects.len() && folded((#[trigger] db.projects[k]).name) == folded(name)
                && Some(id) != Some(db.projects[k].id);
        assert(other_project_named(id, name)(db.projects[k]));
    }
    if any(db.projects, project_named(name)) {
        let k = choose|k: int|
            0 <= k < db.projects.len() && project_named(name)(#[trigger] db.projects[k]);
        assert(folded(db.projects[k].name) == folded(name));
    }
    if any(db.projects, other_project_named(id, name)) {
        let k = choose|k: int|
            0 <= k < db.projects.len() && other_project_named(id, name)(#[trigger] db.projects[k]);
        assert(folded(db.projects[k].name) == folded(name));
    }
}

/// A project is registered exactly where its name, in whatever case, and its identifier are free and
/// neither a directory nor a tag of it comes twice; a taken name is named as the reason.
pub proof fn law_project_created(db: Db, p: ProjectView)
    ensures
        db.create_project(p) is Ok <==> {
            &&& !is_named(db, p.name, None)
            &&& !has_project(db, p.id)
            &&& p.paths.no_duplicates()
            &&& p.tags.no_duplicates()
        },
        is_named(db, p.name, None) ==> db.create_project(p) == Err::<Db, Fault>(
            StorageError::DuplicateProjectName(p.name),
        ),
        db.create_project(p) matches Ok(n) ==> {
            &&& n == (Db { projects: n.projects, ..db })
            &&& n.projects.len() == db.projects.len() + 1
            &&& n.projects.drop_last() == db.projects
            &&& n.projects.last().id == p.id
            &&& n.projects.last().name == p.name
        },
{
    lemma_has(db, p.id);
    lemma_named(db, p.id, p.name);
    if let Ok(n) = db.create_project(p) {
        assert(n.projects.drop_last() =~= db.projects);
    }
}

/// A project is replaced exactly where it is stored, no other has its name, and neither a directory nor
/// a tag of it comes twice. Every other project stays, and so does all else.
pub proof fn law_project_replaced(db: Db, p: ProjectView)
    ensures
        db.update_project(p) is Ok <==> {
            &&& has_project(db, p.id)
            &&& !is_named(db, p.name, Some(p.id))
            &&& p.paths.no_duplicates()
            &&& p.tags.no_duplicates()
        },
        !has_project(db, p.id) ==> db.update_project(p) == Err::<Db, Fault>(
            StorageError::ProjectNotFound(p.id),
        ),
        db.update_project(p) matches Ok(n) ==> {
            &&& n == (Db { projects: n.projects, ..db })
            &&& n.projects.len() == db.projects.len()
            &&& forall|k: int|
                0 <= k < db.projects.len() ==> if db.projects[k].id == p.id {
                    (#[trigger] n.projects[k]).id == p.id && n.projects[k].name == p.name
                        && n.projects[k].paths == p.paths && n.projects[k].status == p.status
                        && n.projects[k].hourly_rate_cents == p.hourly_rate_cents
                } else {
                    n.projects[k] == db.projects[k]
                }
        },
{
    lemma_has(db, p.id);
    lemma_named(db, p.id, p.name);
}

// ---------------------------------------------------------------------------
// Sessions
// ---------------------------------------------------------------------------
/// A new session is stored exactly where its project, if it has one, is stored. Other active sessions
/// of its process end when it started; every other session stays, and so does all else.
pub proof fn law_session_created(db: Db, s: SessionView)
    requires
        !has_session(db, s.id),
    ensures
        db.upsert_session(s) is Ok <==> (s.current_project_id matches Some(p) ==> has_project(db, p)),
        db.upsert_session(s) matches Ok(n) ==> {
            &&& n == (Db { sessions: n.sessions, ..db })
            &&& n.sessions.len() == db.sessions.len() + 1
            &&& n.sessions.last().id == s.id
            &&& n.sessions.last().pid == s.pid
            &&& n.sessions.last().cwd == s.cwd
            &&& n.sessions.last().current_project_id == s.current_project_id
            &&& n.sessions.last().last_heartbeat == s.last_heartbeat.text()
            &&& forall|k: int|
                0 <= k < db.sessions.len() ==> if db.sessions[k].pid == s.pid
                    && db.sessions[k].ended_at is None {
                    (#[trigger] n.sessions[k]).ended_at == Some(s.started_at.text())
                        && n.sessions[k].id == db.sessions[k].id && n.sessions[k].current_project_id
                        == db.sessions[k].current_project_id
                } else {
                    n.sessions[k] == db.sessions[k]
                }
        },
{
    lemma_has(db, s.id);
    if let Some(p) = s.current_project_id {
        lemma_has(db, p);
    }
    lemma_first(db.sessions, session_is(s.id));
    assert forall|k: int| 0 <= k < db.sessions.len() implies (#[trigger] db.sessions[k]).id
        != s.id by {}
}

/// A stored session that reports again is replaced exactly where its project, if it has one, is stored:
/// its directory, project, heartbeat and end are those that it reported, and its process, shell and
/// start stay. Other active sessions of its process end when it started; every other session stays.
pub proof fn law_session_replaced(db: Db, s: SessionView, k: int)
    requires
        db.valid(),
        0 <= k < db.sessions.len(),
        db.sessions[k].id == s.id,
        db.sessions[k].pid == s.pid,
    ensures
        db.upsert_session(s) is Ok <==> (s.current_project_id matches Some(p) ==> has_project(db, p)),
        db.upsert_session(s) matches Ok(n) ==> {
            &&& n == (Db { sessions: n.sessions, ..db })
            &&& n.sessions.len() == db.sessions.len()
            &&& n.sessions[k] == (SessionData {
                cwd: s.cwd,
                current_project_id: s.current_project_id,
                last_heartbeat: s.last_heartbeat.text(),
                ended_at: match s.ended_at {
                    Some(t) => Some(t.text()),
                    None => None,
                },
                ..db.sessions[k]
            })
            &&& forall|j: int|
                0 <= j < db.sessions.len() && j != k ==> if db.sessions[j].pid == s.pid
                    && db.sessions[j].ended_at is None {
                    (#[trigger] n.sessions[j]).ended_at == Some(s.started_at.text())
                        && n.sessions[j].id == db.sessions[j].id
                } else {
                    n.sessions[j] == db.sessions[j]
                }
        },
{
    lemma_has(db, s.id);
    if let Some(p) = s.current_project_id {
        lemma_has(db, p);
    }
    assert forall|j: int| 0 <= j < db.sessions.len() && j != k implies (
    #[trigger] db.sessions[j]).id != s.id by {
        if j < k {
            assert(sessions_apart()(db.sessions[j], db.sessions[k]));
        } else {
            assert(sessions_apart()(db.sessions[k], db.sessions[j]));
        }
    }
    assert(session_is(s.id)(db.sessions[k]));
    lemma_first_found(db.sessions, session_is(s.id), k);
}

/// A session is ended exactly where it is stored. Every other stays, and of it only its end changes.
pub proof fn law_session_ends(db: Db, id: Text, at: Timestamp)
    ensures
        db.end_session(id, at) is Ok <==> has_session(db, id),
        db.end_session(id, at) matches Ok(n) ==> {
            &&& n == (Db { sessions: n.sessions, ..db })
            &&& n.sessions.len() == db.sessions.len()
            &&& forall|k: int|
                0 <= k < db.sessions.len() ==> if db.sessions[k].id == id {
                    #[trigger] n.sessions[k] == (SessionData {
                        ended_at: Some(at.text()),
                        ..db.sessions[k]
                    })
                } else {
                    n.sessions[k] == db.sessions[k]
                }
        },
{
    lemma_has(db, id);
}

/// How many active sessions are in a project, apart from one: it is the number of the rows without an
/// end that have the project and another identifier.
pub proof fn law_active_sessions(db: Db, project: Text, except: Option<Text>)
    ensures
        db.active_sessions(project, except) == sum_of(
            db.sessions,
            |r: SessionData|
                if r.ended_at is None && r.current_project_id == Some(project) && except != Some(
                    r.id,
                ) {
                    1int
                } else {
                    0
                },
        ),
{
    lemma_count_sum(db.sessions, project, except);
}

proof fn lemma_count_sum(s: Seq<SessionData>, project: Text, except: Option<Text>)
    ensures
        count(s, active_in(project, except)) == sum_of(
            s,
            |r: SessionData|
                if r.ended_at is None && r.current_project_id == Some(project) && except != Some(
                    r.id,
                ) {
                    1int
                } else {
                    0
                },
        ),
    decreases s.len(),
{
    if s.len() > 0 {
        lemma_count_sum(s.drop_last(), project, except);
    }
}

// ---------------------------------------------------------------------------
// Searches
// ---------------------------------------------------------------------------
/// Whether an entry is read from a row that is stored.
pub open spec fn is_entry(db: Db, e: EntryView) -> bool {
    exists|k: int|
        0 <= k < db.entries.len() && read_entry(#[trigger] db.entries[k]) == Ok::<EntryView, Fault>(e)
}

/// Whether a session is read from a row that is stored.
pub open spec fn is_session(db: Db, s: SessionView) -> bool {
    exists|k: int|
        0 <= k < db.sessions.len() && read_session(#[trigger] db.sessions[k]) == Ok::<
            SessionView,
            Fault,
        >(s)
}

/// An entry that is found is stored and is one that was searched for; where none is found, none such
/// is stored: by identifier, a running one of a project, one that the shell hook made, or any that
/// runs.
pub proof fn law_entry_found(db: Db, id: Text)
    requires
        all(db.entries, entry_readable()),
    ensures
        match db.get_entry(id) {
            Ok(Some(e)) => is_entry(db, e) && e.id == id,
            Ok(None) => forall|k: int| 0 <= k < db.entries.len() ==> (#[trigger] db.entries[k]).id != id,
            Err(_) => false,
        },
        match db.get_running_entry(id) {
            Ok(Some(e)) => is_entry(db, e) && e.project_id == id && e.end is None,
            Ok(None) => forall|k: int|
                0 <= k < db.entries.len() && (#[trigger] db.entries[k]).project_id == id
                    ==> db.entries[k].end is Some,
            Err(_) => false,
        },
        match db.get_running_hook_entry(id) {
            Ok(Some(e)) => is_entry(db, e) && e.project_id == id && e.end is None && e.source
                == EntrySource::Hook,
            Ok(None) => forall|k: int|
                0 <= k < db.entries.len() && (#[trigger] db.entries[k]).project_id == id
                    && db.entries[k].source == EntrySource::Hook ==> db.entries[k].end is Some,
            Err(_) => false,
        },
        match db.get_any_running_entry() {
            Ok(Some(e)) => is_entry(db, e) && e.end is None,
            Ok(None) => forall|k: int|
                0 <= k < db.entries.len() ==> (#[trigger] db.entries[k]).end is Some,
            Err(_) => false,
        },
{
    lemma_search(db, entry_is(id));
    lemma_search(db, running_in(id));
    lemma_search(db, running_hook_in(id));
    lemma_search(db, running());
    assert forall|k: int| 0 <= k < db.entries.len() implies (entry_is(id)(#[trigger] db.entries[k])
        <==> db.entries[k].id == id) by {}
    assert forall|k: int| 0 <= k < db.entries.len() implies (running_in(id)(
        #[trigger] db.entries[k],
    ) <==> db.entries[k].end is None && db.entries[k].project_id == id) by {}
    assert forall|k: int| 0 <= k < db.entries.len() implies (running_hook_in(id)(
        #[trigger] db.entries[k],
    ) <==> db.entries[k].end is None && db.entries[k].project_id == id && db.entries[k].source
        == EntrySource::Hook) by {}
    assert forall|k: int| 0 <= k < db.entries.len() implies (running()(#[trigger] db.entries[k])
        <==> db.entries[k].end is None) by {}
}

proof fn lemma_search(db: Db, p: spec_fn(EntryData) -> bool)
    requires
        all(db.entries, entry_readable()),
    ensures
        match first(db.entries, p) {
            Some(r) => p(r) && read_entry(r) is Ok && is_entry(db, read_entry(r)->Ok_0),
            None => forall|k: int| 0 <= k < db.entries.len() ==> !p(#[trigger] db.entries[k]),
        },
{
    lemma_first(db.entries, p);
    if any(db.entries, p) {
        let k = choose|k: int|
            #[trigger] first_at(db.entries, p, k) && first(db.entries, p) == Some(db.entries[k]);
        assert(entry_readable()(db.entries[k]));
        let e = read_entry(db.entries[k])->Ok_0;
        assert(read_entry(db.entries[k]) == Ok::<EntryView, Fault>(e));
    }
}

/// A session that is found is stored and is one that was searched for; where none is found, none such
/// is stored: by identifier, or the active one of a process.
pub proof fn law_session_found(db: Db, id: Text, pid: u32)
    requires
        all(db.sessions, session_readable()),
    ensures
        match db.get_session(id) {
            Ok(Some(s)) => is_session(db, s) && s.id == id,
            Ok(None) => forall|k: int|
                0 <= k < db.sessions.len() ==> (#[trigger] db.sessions[k]).id != id,
            Err(_) => false,
        },
        match db.get_session_by_pid(pid) {
            Ok(Some(s)) => is_session(db, s) && s.pid == pid && s.ended_at is None,
            Ok(None) => forall|k: int|
                0 <= k < db.sessions.len() && (#[trigger] db.sessions[k]).pid == pid
                    ==> db.sessions[k].ended_at is Some,
            Err(_) => false,
        },
{
    lemma_session_search(db, session_is(id));
    lemma_session_search(db, active_with_pid(pid));
    assert forall|k: int| 0 <= k < db.sessions.len() implies (session_is(id)(
        #[trigger] db.sessions[k],
    ) <==> db.sessions[k].id == id) by {}
    assert forall|k: int| 0 <= k < db.sessions.len() implies (active_with_pid(pid)(
        #[trigger] db.sessions[k],
    ) <==> db.sessions[k].ended_at is None && db.sessions[k].pid == pid) by {}
}

proof fn lemma_session_search(db: Db, p: spec_fn(SessionData) -> bool)
    requires
        all(db.sessions, session_readable()),
    ensures
        match first(db.sessions, p) {
            Some(r) => p(r) && read_session(r) is Ok && is_session(db, read_session(r)->Ok_0),
            None => forall|k: int| 0 <= k < db.sessions.len() ==> !p(#[trigger] db.sessions[k]),
        },
{
    lemma_first(db.sessions, p);
    if any(db.sessions, p) {
        let k = choose|k: int|
            #[trigger] first_at(db.sessions, p, k) && first(db.sessions, p) == Some(db.sessions[k]);
        assert(session_readable()(db.sessions[k]));
        let s = read_session(db.sessions[k])->Ok_0;
        assert(read_session(db.sessions[k]) == Ok::<SessionView, Fault>(s));
    }
}

/// A project that is found by its identifier is stored and has it; where none is found, none has it.
pub proof fn law_project_found(db: Db, id: Text)
    requires
        all(db.projects, project_readable()),
    ensures
        match db.get_project(id) {
            Ok(Some(p)) => p.id == id && exists|k: int|
                0 <= k < db.projects.len() && read_project(#[trigger] db.projects[k]) == Ok::<
                    ProjectView,
                    Fault,
                >(p),
            Ok(None) => !has_project(db, id),
            Err(_) => false,
        },
{
    lemma_has(db, id);
    lemma_first(db.projects, project_is(id));
    if any(db.projects, project_is(id)) {
        let k = choose|k: int|
            #[trigger] first_at(db.projects, project_is(id), k) && first(
                db.projects,
                project_is(id),
            ) == Some(db.projects[k]);
        assert(project_readable()(db.projects[k]));
        assert(project_is(id)(db.projects[k]));
        let p = read_project(db.projects[k])->Ok_0;
        assert(read_project(db.projects[k]) == Ok::<ProjectView, Fault>(p));
    }
}

// ---------------------------------------------------------------------------
// Rules
// ---------------------------------------------------------------------------
/// Whether a list has nothing twice.
pub open spec fn each_once(s: Seq<Text>) -> bool {
    forall|i: int, j: int| 0 <= i < j < s.len() ==> #[trigger] s[i] != #[trigger] s[j]
}

/// Whether tags come each once and in order.
pub open spec fn ascending(s: Seq<Text>) -> bool {
    forall|i: int, j: int| 0 <= i < j < s.len() ==> before(#[trigger] s[i], #[trigger] s[j])
}

/// A store keeps the rules exactly where no two projects have one identifier or, in whatever case, one
/// name; where no two entries have one identifier, and no two that run one project; where no two
/// sessions have one identifier, and no two that are active one process; where every entry and every
/// session in a project has a stored one; and where directories, tags and ignored paths come each
/// once, and tags in order.
pub proof fn law_rules(db: Db)
    ensures
        db.valid() <==> {
            &&& forall|i: int, j: int|
                0 <= i < j < db.projects.len() ==> (#[trigger] db.projects[i]).id != (
                #[trigger] db.projects[j]).id && folded(db.projects[i].name) != folded(
                    db.projects[j].name,
                )
            &&& forall|i: int|
                0 <= i < db.projects.len() ==> each_once((#[trigger] db.projects[i]).paths)
                    && ascending(db.projects[i].tags)
            &&& forall|i: int, j: int|
                0 <= i < j < db.entries.len() ==> (#[trigger] db.entries[i]).id != (
                #[trigger] db.entries[j]).id && !(db.entries[i].end is None && db.entries[j].end
                    is None && db.entries[i].project_id == db.entries[j].project_id)
            &&& forall|i: int|
                0 <= i < db.entries.len() ==> has_project(db, (#[trigger] db.entries[i]).project_id)
                    && ascending(db.entries[i].tags)
            &&& forall|i: int, j: int|
                0 <= i < j < db.sessions.len() ==> (#[trigger] db.sessions[i]).id != (
                #[trigger] db.sessions[j]).id && !(db.sessions[i].ended_at is None
                    && db.sessions[j].ended_at is None && db.sessions[i].pid == db.sessions[j].pid)
            &&& forall|i: int|
                0 <= i < db.sessions.len() ==> ((#[trigger] db.sessions[i]).current_project_id matches Some(
                    p,
                ) ==> has_project(db, p))
            &&& each_once(db.ignored)
        },
{
    assert forall|i: int| 0 <= i < db.projects.len() implies (project_sound()(
        #[trigger] db.projects[i],
    ) <==> each_once(db.projects[i].paths) && ascending(db.projects[i].tags)) by {
        lemma_each_once(db.projects[i].paths);
        lemma_ascending(db.projects[i].tags);
    }
    assert forall|i: int| 0 <= i < db.entries.len() implies (entry_sound(db.projects)(
        #[trigger] db.entries[i],
    ) <==> has_project(db, db.entries[i].project_id) && ascending(db.entries[i].tags)) by {
        lemma_has(db, db.entries[i].project_id);
        lemma_ascending(db.entries[i].tags);
    }
    assert forall|i: int| 0 <= i < db.sessions.len() implies (session_sound(db.projects)(
        #[trigger] db.sessions[i],
    ) <==> (db.sessions[i].current_project_id matches Some(p) ==> has_project(db, p))) by {
        if let Some(p) = db.sessions[i].current_project_id {
            lemma_has(db, p);
        }
    }
    assert forall|i: int, j: int| 0 <= i < j < db.projects.len() implies (projects_apart()(
        #[trigger] db.projects[i],
        #[trigger] db.projects[j],
    ) <==> db.projects[i].id != db.projects[j].id && folded(db.projects[i].name) != folded(
        db.projects[j].name,
    )) by {}
    assert forall|i: int, j: int| 0 <= i < j < db.entries.len() implies (entries_apart()(
        #[trigger] db.entries[i],
        #[trigger] db.entries[j],
    ) <==> db.entries[i].id != db.entries[j].id && !(db.entries[i].end is None
        && db.entries[j].end is None && db.entries[i].project_id == db.entries[j].project_id)) by {}
    assert forall|i: int, j: int| 0 <= i < j < db.sessions.len() implies (sessions_apart()(
        #[trigger] db.sessions[i],
        #[trigger] db.sessions[j],
    ) <==> db.sessions[i].id != db.sessions[j].id && !(db.sessions[i].ended_at is None
        && db.sessions[j].ended_at is None && db.sessions[i].pid == db.sessions[j].pid)) by {}
    lemma_each_once(db.ignored);
}

proof fn lemma_each_once(s: Seq<Text>)
    ensures
        s.no_duplicates() <==> each_once(s),
{
    if each_once(s) {
        assert forall|i: int, j: int| 0 <= i < s.len() && 0 <= j < s.len() && i != j implies s[i]
            != s[j] by {
            if i < j {
                assert(s[i] != s[j]);
            } else {
                assert(s[j] != s[i]);
            }
        }
    }
}

proof fn lemma_ascending(s: Seq<Text>)
    ensures
        tags_kept(s) <==> ascending(s),
{
    if tags_kept(s) {
        assert forall|i: int, j: int| 0 <= i < j < s.len() implies before(
            #[trigger] s[i],
            #[trigger] s[j],
        ) by {
            assert(!by_text()(s[j], s[i]));
            lemma_before_total(s[i], s[j]);
        }
    }
    if ascending(s) {
        assert forall|i: int, j: int| 0 <= i < j < s.len() implies #[trigger] s[i] != #[trigger] s[j]
            && !by_text()(s[j], s[i]) by {
            lemma_before_total(s[i], s[j]);
        }
        lemma_each_once(s);
    }
}

} // verus!
