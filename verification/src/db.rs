//! What the tracker stores, as tables of rows, and what each operation does to them.
use crate::clock::{stamp_of, Timestamp};
use crate::models::{
    EntryData, EntrySource, EntryView, FilterView, Project, ProjectData, ProjectStatus, ProjectView,
    SessionData, SessionView, ShellSession, Text, TimeEntry,
};
use crate::paths::covers;
use crate::rows::{all, any, count, first, in_order, pairwise, sorted_by};
use crate::text::{before, folded};
use vstd::prelude::*;

verus! {

/// Why an operation on the store was refused.
#[derive(Clone, PartialEq, Eq, Debug)]
pub enum StorageError<S = String> {
    /// A project with this name exists.
    DuplicateProjectName(S),
    /// No project has this identifier.
    ProjectNotFound(S),
    /// No entry has this identifier.
    EntryNotFound(S),
    /// No session has this identifier.
    SessionNotFound(S),
    /// A row would break a rule of the tables: a key used twice, a reference to a project that does
    /// not exist, a second running entry of a project, a second active session of a process.
    Constraint,
    /// A stored time is not in RFC 3339.
    InvalidTimestamp,
}

/// A refusal in contracts.
pub type Fault = StorageError<Text>;

impl View for StorageError {
    type V = Fault;

    open spec fn view(&self) -> Fault {
        match *self {
            StorageError::DuplicateProjectName(s) => StorageError::DuplicateProjectName(s@),
            StorageError::ProjectNotFound(s) => StorageError::ProjectNotFound(s@),
            StorageError::EntryNotFound(s) => StorageError::EntryNotFound(s@),
            StorageError::SessionNotFound(s) => StorageError::SessionNotFound(s@),
            StorageError::Constraint => StorageError::Constraint,
            StorageError::InvalidTimestamp => StorageError::InvalidTimestamp,
        }
    }
}

/// The tables.
#[verifier::ext_equal]
pub struct Db {
    pub projects: Seq<ProjectData>,
    pub entries: Seq<EntryData>,
    pub sessions: Seq<SessionData>,
    pub ignored: Seq<Text>,
}

// ---------------------------------------------------------------------------
// Conditions on rows
// ---------------------------------------------------------------------------
pub open spec fn project_is(id: Text) -> spec_fn(ProjectData) -> bool {
    |r: ProjectData| r.id == id
}

pub open spec fn project_is_not(id: Text) -> spec_fn(ProjectData) -> bool {
    |r: ProjectData| r.id != id
}

pub open spec fn entry_is_not(id: Text) -> spec_fn(EntryData) -> bool {
    |r: EntryData| r.id != id
}

pub open spec fn entry_outside(project: Text) -> spec_fn(EntryData) -> bool {
    |r: EntryData| r.project_id != project
}

pub open spec fn path_is_not(path: Text) -> spec_fn(Text) -> bool {
    |p: Text| p != path
}

pub open spec fn path_covers(path: Text) -> spec_fn(Text) -> bool {
    |p: Text| covers(p, path)
}

pub open spec fn project_named(name: Text) -> spec_fn(ProjectData) -> bool {
    |r: ProjectData| folded(r.name) == folded(name)
}

pub open spec fn other_project_named(id: Text, name: Text) -> spec_fn(ProjectData) -> bool {
    |r: ProjectData| r.id != id && folded(r.name) == folded(name)
}

pub open spec fn project_has(status: Option<ProjectStatus>) -> spec_fn(ProjectData) -> bool {
    |r: ProjectData| status is None || status == Some(r.status)
}

pub open spec fn entry_is(id: Text) -> spec_fn(EntryData) -> bool {
    |r: EntryData| r.id == id
}

pub open spec fn running() -> spec_fn(EntryData) -> bool {
    |r: EntryData| r.end is None
}

pub open spec fn running_in(project: Text) -> spec_fn(EntryData) -> bool {
    |r: EntryData| r.end is None && r.project_id == project
}

pub open spec fn running_hook_in(project: Text) -> spec_fn(EntryData) -> bool {
    |r: EntryData| r.end is None && r.project_id == project && r.source == EntrySource::Hook
}

pub open spec fn other_running_in(id: Text, project: Text) -> spec_fn(EntryData) -> bool {
    |r: EntryData| r.id != id && r.end is None && r.project_id == project
}

pub open spec fn session_is(id: Text) -> spec_fn(SessionData) -> bool {
    |r: SessionData| r.id == id
}

pub open spec fn active_with_pid(pid: u32) -> spec_fn(SessionData) -> bool {
    |r: SessionData| r.ended_at is None && r.pid == pid
}

pub open spec fn other_active_with_pid(id: Text, pid: u32) -> spec_fn(SessionData) -> bool {
    |r: SessionData| r.id != id && r.ended_at is None && r.pid == pid
}

/// Active sessions in a project, apart from the one named.
pub open spec fn active_in(project: Text, except: Option<Text>) -> spec_fn(SessionData) -> bool {
    |r: SessionData|
        r.ended_at is None && r.current_project_id == Some(project) && except != Some(r.id)
}

/// Active sessions whose last heartbeat is written before the given text.
pub open spec fn stale_at(limit: Text) -> spec_fn(SessionData) -> bool {
    |r: SessionData| r.ended_at is None && before(r.last_heartbeat, limit)
}

/// The entries that a filter lets through. Times are compared as they are written.
pub open spec fn selected(f: FilterView) -> spec_fn(EntryData) -> bool {
    |r: EntryData|
        {
            &&& f.project_id matches Some(p) ==> r.project_id == p
            &&& f.from matches Some(t) ==> !before(r.start, t.text())
            &&& f.to matches Some(t) ==> before(r.start, t.text())
            &&& f.source matches Some(x) ==> r.source == x
            &&& forall|i: int| 0 <= i < f.tags.len() ==> r.tags.contains(#[trigger] f.tags[i])
        }
}

/// The order of project lists: by name, without regard to case.
pub open spec fn by_name() -> spec_fn(ProjectData, ProjectData) -> bool {
    |a: ProjectData, b: ProjectData| before(folded(a.name), folded(b.name))
}

/// The order of entry lists: the latest start first.
pub open spec fn latest_first() -> spec_fn(EntryData, EntryData) -> bool {
    |a: EntryData, b: EntryData| before(b.start, a.start)
}

/// The order of texts.
pub open spec fn by_text() -> spec_fn(Text, Text) -> bool {
    |a: Text, b: Text| before(a, b)
}

// ---------------------------------------------------------------------------
// Rules of the tables
// ---------------------------------------------------------------------------
pub open spec fn projects_apart() -> spec_fn(ProjectData, ProjectData) -> bool {
    |a: ProjectData, b: ProjectData| a.id != b.id && folded(a.name) != folded(b.name)
}

/// Whether tags are kept as they should be: each once, and in order.
pub open spec fn tags_kept(tags: Seq<Text>) -> bool {
    tags.no_duplicates() && in_order(tags, by_text())
}

pub open spec fn project_sound() -> spec_fn(ProjectData) -> bool {
    |r: ProjectData| r.paths.no_duplicates() && tags_kept(r.tags)
}

pub open spec fn entries_apart() -> spec_fn(EntryData, EntryData) -> bool {
    |a: EntryData, b: EntryData|
        a.id != b.id && !(a.end is None && b.end is None && a.project_id == b.project_id)
}

pub open spec fn entry_sound(projects: Seq<ProjectData>) -> spec_fn(EntryData) -> bool {
    |r: EntryData| any(projects, project_is(r.project_id)) && tags_kept(r.tags)
}

pub open spec fn sessions_apart() -> spec_fn(SessionData, SessionData) -> bool {
    |a: SessionData, b: SessionData|
        a.id != b.id && !(a.ended_at is None && b.ended_at is None && a.pid == b.pid)
}

pub open spec fn session_sound(projects: Seq<ProjectData>) -> spec_fn(SessionData) -> bool {
    |r: SessionData| r.current_project_id matches Some(p) ==> any(projects, project_is(p))
}

// ---------------------------------------------------------------------------
// Between records and rows
// ---------------------------------------------------------------------------
/// An optional time as it is written.
pub open spec fn opt_stamp_text(t: Option<Timestamp>) -> Option<Text> {
    match t {
        Some(t) => Some(t.text()),
        None => None,
    }
}

/// Whether an optional text is absent or stands for a time.
pub open spec fn opt_readable(t: Option<Text>) -> bool {
    t matches Some(s) ==> stamp_of(s) is Some
}

/// The time that an optional text stands for.
pub open spec fn opt_stamp(t: Option<Text>) -> Option<Timestamp> {
    match t {
        Some(s) => stamp_of(s),
        None => None,
    }
}

/// The row of a project. Tags are kept in order.
pub open spec fn project_row(p: ProjectView) -> ProjectData {
    Project {
        id: p.id,
        name: p.name,
        paths: p.paths,
        tags: sorted_by(p.tags, by_text()),
        hourly_rate_cents: p.hourly_rate_cents,
        status: p.status,
        source: p.source,
        created_at: p.created_at.text(),
        updated_at: p.updated_at.text(),
    }
}

/// The project of a row, if its times can be read.
pub open spec fn read_project(r: ProjectData) -> Result<ProjectView, Fault> {
    match (stamp_of(r.created_at), stamp_of(r.updated_at)) {
        (Some(created_at), Some(updated_at)) => Ok(
            Project {
                id: r.id,
                name: r.name,
                paths: r.paths,
                tags: r.tags,
                hourly_rate_cents: r.hourly_rate_cents,
                status: r.status,
                source: r.source,
                created_at,
                updated_at,
            },
        ),
        _ => Err(StorageError::InvalidTimestamp),
    }
}

/// The row of an entry. Tags are kept in order.
pub open spec fn entry_row(e: EntryView) -> EntryData {
    TimeEntry {
        id: e.id,
        project_id: e.project_id,
        session_id: e.session_id,
        start: e.start.text(),
        end: opt_stamp_text(e.end),
        duration_secs: e.duration_secs,
        source: e.source,
        notes: e.notes,
        tags: sorted_by(e.tags, by_text()),
        created_at: e.created_at.text(),
        updated_at: e.updated_at.text(),
    }
}

/// The entry of a row, if its times can be read.
pub open spec fn read_entry(r: EntryData) -> Result<EntryView, Fault> {
    match (stamp_of(r.start), stamp_of(r.created_at), stamp_of(r.updated_at)) {
        (Some(start), Some(created_at), Some(updated_at)) => if opt_readable(r.end) {
            Ok(
                TimeEntry {
                    id: r.id,
                    project_id: r.project_id,
                    session_id: r.session_id,
                    start,
                    end: opt_stamp(r.end),
                    duration_secs: r.duration_secs,
                    source: r.source,
                    notes: r.notes,
                    tags: r.tags,
                    created_at,
                    updated_at,
                },
            )
        } else {
            Err(StorageError::InvalidTimestamp)
        },
        _ => Err(StorageError::InvalidTimestamp),
    }
}

/// The row of a session.
pub open spec fn session_row(s: SessionView) -> SessionData {
    ShellSession {
        id: s.id,
        pid: s.pid,
        shell: s.shell,
        cwd: s.cwd,
        current_project_id: s.current_project_id,
        started_at: s.started_at.text(),
        last_heartbeat: s.last_heartbeat.text(),
        ended_at: opt_stamp_text(s.ended_at),
    }
}

/// The session of a row, if its times can be read.
pub open spec fn read_session(r: SessionData) -> Result<SessionView, Fault> {
    match (stamp_of(r.started_at), stamp_of(r.last_heartbeat)) {
        (Some(started_at), Some(last_heartbeat)) => if opt_readable(r.ended_at) {
            Ok(
                ShellSession {
                    id: r.id,
                    pid: r.pid,
                    shell: r.shell,
                    cwd: r.cwd,
                    current_project_id: r.current_project_id,
                    started_at,
                    last_heartbeat,
                    ended_at: opt_stamp(r.ended_at),
                },
            )
        } else {
            Err(StorageError::InvalidTimestamp)
        },
        _ => Err(StorageError::InvalidTimestamp),
    }
}

/// The project of a row that may be absent.
pub open spec fn found_project(r: Option<ProjectData>) -> Result<Option<ProjectView>, Fault> {
    match r {
        Some(r) => match read_project(r) {
            Ok(p) => Ok(Some(p)),
            Err(e) => Err(e),
        },
        None => Ok(None),
    }
}

/// The entry of a row that may be absent.
pub open spec fn found_entry(r: Option<EntryData>) -> Result<Option<EntryView>, Fault> {
    match r {
        Some(r) => match read_entry(r) {
            Ok(e) => Ok(Some(e)),
            Err(e) => Err(e),
        },
        None => Ok(None),
    }
}

/// The session of a row that may be absent.
pub open spec fn found_session(r: Option<SessionData>) -> Result<Option<SessionView>, Fault> {
    match r {
        Some(r) => match read_session(r) {
            Ok(s) => Ok(Some(s)),
            Err(e) => Err(e),
        },
        None => Ok(None),
    }
}

/// Whether the times of a project row can be read.
pub open spec fn project_readable() -> spec_fn(ProjectData) -> bool {
    |r: ProjectData| read_project(r) is Ok
}

/// Whether the times of an entry row can be read.
pub open spec fn entry_readable() -> spec_fn(EntryData) -> bool {
    |r: EntryData| read_entry(r) is Ok
}

/// Whether the times of a session row can be read.
pub open spec fn session_readable() -> spec_fn(SessionData) -> bool {
    |r: SessionData| read_session(r) is Ok
}

/// The projects of some rows, if all their times can be read.
pub open spec fn read_projects(rows: Seq<ProjectData>) -> Result<Seq<ProjectView>, Fault> {
    if all(rows, project_readable()) {
        Ok(Seq::new(rows.len(), |i: int| read_project(rows[i])->Ok_0))
    } else {
        Err(StorageError::InvalidTimestamp)
    }
}

/// The entries of some rows, if all their times can be read.
pub open spec fn read_entries(rows: Seq<EntryData>) -> Result<Seq<EntryView>, Fault> {
    if all(rows, entry_readable()) {
        Ok(Seq::new(rows.len(), |i: int| read_entry(rows[i])->Ok_0))
    } else {
        Err(StorageError::InvalidTimestamp)
    }
}

/// The sessions of some rows, if all their times can be read.
pub open spec fn read_sessions(rows: Seq<SessionData>) -> Result<Seq<SessionView>, Fault> {
    if all(rows, session_readable()) {
        Ok(Seq::new(rows.len(), |i: int| read_session(rows[i])->Ok_0))
    } else {
        Err(StorageError::InvalidTimestamp)
    }
}

// ---------------------------------------------------------------------------
// Paths
// ---------------------------------------------------------------------------
/// The length of the longest of some paths that covers a path, and minus one if none does.
pub open spec fn depth(paths: Seq<Text>, path: Text) -> int
    decreases paths.len(),
{
    if paths.len() == 0 {
        -1
    } else {
        let d = depth(paths.drop_last(), path);
        if covers(paths.last(), path) && paths.last().len() > d {
            paths.last().len() as int
        } else {
            d
        }
    }
}

/// Whether the project at `i` has the longest registered path that covers `path`, and is the
/// earliest of those.
pub open spec fn deepest_at(projects: Seq<ProjectData>, path: Text, i: int) -> bool {
    &&& 0 <= i < projects.len()
    &&& depth(projects[i].paths, path) >= 0
    &&& forall|j: int|
        0 <= j < projects.len() ==> depth((#[trigger] projects[j]).paths, path) <= depth(
            projects[i].paths,
            path,
        )
    &&& forall|j: int|
        0 <= j < i ==> depth((#[trigger] projects[j]).paths, path) < depth(projects[i].paths, path)
}

/// The project that a path belongs to.
pub open spec fn project_at(projects: Seq<ProjectData>, path: Text) -> Option<ProjectData> {
    if exists|i: int| deepest_at(projects, path, i) {
        Some(projects[choose|i: int| deepest_at(projects, path, i)])
    } else {
        None
    }
}

/// Whether the entry at `i` has the latest start, and is the last one stored of those.
pub open spec fn latest_at(entries: Seq<EntryData>, i: int) -> bool {
    &&& 0 <= i < entries.len()
    &&& forall|j: int|
        0 <= j < entries.len() ==> !before(entries[i].start, (#[trigger] entries[j]).start)
    &&& forall|j: int|
        i < j < entries.len() ==> before((#[trigger] entries[j]).start, entries[i].start)
}

/// The entry with the latest start.
pub open spec fn latest_entry(entries: Seq<EntryData>) -> Option<EntryData> {
    if exists|i: int| latest_at(entries, i) {
        Some(entries[choose|i: int| latest_at(entries, i)])
    } else {
        None
    }
}

// ---------------------------------------------------------------------------
// Changes to rows
// ---------------------------------------------------------------------------
/// A project row after an update: the identifier, the source and the creation time stay.
pub open spec fn project_updated(p: ProjectData) -> spec_fn(ProjectData) -> ProjectData {
    |r: ProjectData|
        if r.id == p.id {
            Project { source: r.source, created_at: r.created_at, ..p }
        } else {
            r
        }
}

/// An entry row after an update: the identifier and the creation time stay.
pub open spec fn entry_updated(e: EntryData) -> spec_fn(EntryData) -> EntryData {
    |r: EntryData|
        if r.id == e.id {
            TimeEntry { created_at: r.created_at, ..e }
        } else {
            r
        }
}

/// A session row after its project was deleted.
pub open spec fn session_without(project: Text) -> spec_fn(SessionData) -> SessionData {
    |r: SessionData|
        if r.current_project_id == Some(project) {
            ShellSession { current_project_id: None, ..r }
        } else {
            r
        }
}

/// A session row after another session with the same process identifier reported.
pub open spec fn session_superseded(s: SessionData) -> spec_fn(SessionData) -> SessionData {
    |r: SessionData|
        if r.id != s.id && r.pid == s.pid && r.ended_at is None {
            ShellSession { ended_at: Some(s.started_at), ..r }
        } else {
            r
        }
}

/// A session row after it reported again: directory, project, heartbeat and end change.
pub open spec fn session_updated(s: SessionData) -> spec_fn(SessionData) -> SessionData {
    |r: SessionData|
        if r.id == s.id {
            ShellSession {
                cwd: s.cwd,
                current_project_id: s.current_project_id,
                last_heartbeat: s.last_heartbeat,
                ended_at: s.ended_at,
                ..r
            }
        } else {
            r
        }
}

/// A session row after it was ended.
pub open spec fn session_ended(id: Text, at: Text) -> spec_fn(SessionData) -> SessionData {
    |r: SessionData|
        if r.id == id {
            ShellSession { ended_at: Some(at), ..r }
        } else {
            r
        }
}

impl Db {
    /// No row at all.
    pub open spec fn empty() -> Db {
        Db {
            projects: Seq::empty(),
            entries: Seq::empty(),
            sessions: Seq::empty(),
            ignored: Seq::empty(),
        }
    }

    /// Whether the rules of the tables hold: keys are not used twice, names differ in more than
    /// case, references lead to a project, tags are in order, a project has at most one running entry
    /// and a process at most one active session.
    pub open spec fn valid(self) -> bool {
        &&& pairwise(self.projects, projects_apart())
        &&& all(self.projects, project_sound())
        &&& pairwise(self.entries, entries_apart())
        &&& all(self.entries, entry_sound(self.projects))
        &&& pairwise(self.sessions, sessions_apart())
        &&& all(self.sessions, session_sound(self.projects))
        &&& self.ignored.no_duplicates()
    }

    /// Whether every stored time can be read.
    pub open spec fn readable(self) -> bool {
        &&& all(self.projects, project_readable())
        &&& all(self.entries, entry_readable())
        &&& all(self.sessions, session_readable())
    }

    // --- Projects ---
    /// Registers a project.
    pub open spec fn create_project(self, p: ProjectView) -> Result<Db, Fault> {
        if any(self.projects, project_named(p.name)) {
            Err(StorageError::DuplicateProjectName(p.name))
        } else if any(self.projects, project_is(p.id)) || !p.paths.no_duplicates()
            || !p.tags.no_duplicates() {
            Err(StorageError::Constraint)
        } else {
            Ok(Db { projects: self.projects.push(project_row(p)), ..self })
        }
    }

    pub open spec fn get_project(self, id: Text) -> Result<Option<ProjectView>, Fault> {
        found_project(first(self.projects, project_is(id)))
    }

    pub open spec fn get_project_by_name(self, name: Text) -> Result<Option<ProjectView>, Fault> {
        found_project(first(self.projects, project_named(name)))
    }

    pub open spec fn get_project_by_path(self, path: Text) -> Result<Option<ProjectView>, Fault> {
        found_project(project_at(self.projects, path))
    }

    /// The rows that a project listing reads.
    pub open spec fn project_rows(self, status: Option<ProjectStatus>) -> Seq<ProjectData> {
        sorted_by(self.projects.filter(project_has(status)), by_name())
    }

    /// The projects with a status, by name.
    pub open spec fn list_projects(self, status: Option<ProjectStatus>) -> Result<
        Seq<ProjectView>,
        Fault,
    > {
        read_projects(self.project_rows(status))
    }

    /// Replaces a project.
    pub open spec fn update_project(self, p: ProjectView) -> Result<Db, Fault> {
        if !any(self.projects, project_is(p.id)) {
            Err(StorageError::ProjectNotFound(p.id))
        } else if any(self.projects, other_project_named(p.id, p.name)) || !p.paths.no_duplicates()
            || !p.tags.no_duplicates() {
            Err(StorageError::Constraint)
        } else {
            Ok(
                Db {
                    projects: self.projects.map_values(project_updated(project_row(p))),
                    ..self
                },
            )
        }
    }

    /// Deletes a project with its entries; sessions in it are left without a project.
    pub open spec fn delete_project(self, id: Text) -> Result<Db, Fault> {
        if !any(self.projects, project_is(id)) {
            Err(StorageError::ProjectNotFound(id))
        } else {
            Ok(
                Db {
                    projects: self.projects.filter(project_is_not(id)),
                    entries: self.entries.filter(entry_outside(id)),
                    sessions: self.sessions.map_values(session_without(id)),
                    ..self
                },
            )
        }
    }

    // --- Time entries ---
    /// Stores a new entry.
    pub open spec fn create_entry(self, e: EntryView) -> Result<Db, Fault> {
        if any(self.entries, entry_is(e.id)) || !any(self.projects, project_is(e.project_id))
            || !e.tags.no_duplicates() || (e.end is None && any(
            self.entries,
            running_in(e.project_id),
        )) {
            Err(StorageError::Constraint)
        } else {
            Ok(Db { entries: self.entries.push(entry_row(e)), ..self })
        }
    }

    pub open spec fn get_entry(self, id: Text) -> Result<Option<EntryView>, Fault> {
        found_entry(first(self.entries, entry_is(id)))
    }

    pub open spec fn get_running_entry(self, project: Text) -> Result<Option<EntryView>, Fault> {
        found_entry(first(self.entries, running_in(project)))
    }

    pub open spec fn get_running_hook_entry(self, project: Text) -> Result<
        Option<EntryView>,
        Fault,
    > {
        found_entry(first(self.entries, running_hook_in(project)))
    }

    pub open spec fn get_any_running_entry(self) -> Result<Option<EntryView>, Fault> {
        found_entry(first(self.entries, running()))
    }

    /// The rows that an entry listing reads.
    pub open spec fn entry_rows(self, f: FilterView) -> Seq<EntryData> {
        sorted_by(self.entries.filter(selected(f)).reverse(), latest_first())
    }

    /// The entries that a filter lets through, the latest start first.
    pub open spec fn list_entries(self, f: FilterView) -> Result<Seq<EntryView>, Fault> {
        read_entries(self.entry_rows(f))
    }

    pub open spec fn get_last_entry(self) -> Result<Option<EntryView>, Fault> {
        found_entry(latest_entry(self.entries))
    }

    /// Replaces an entry.
    pub open spec fn update_entry(self, e: EntryView) -> Result<Db, Fault> {
        if !any(self.entries, entry_is(e.id)) {
            Err(StorageError::EntryNotFound(e.id))
        } else if !any(self.projects, project_is(e.project_id)) || !e.tags.no_duplicates() || (
        e.end is None && any(self.entries, other_running_in(e.id, e.project_id))) {
            Err(StorageError::Constraint)
        } else {
            Ok(Db { entries: self.entries.map_values(entry_updated(entry_row(e))), ..self })
        }
    }

    /// Deletes an entry.
    pub open spec fn delete_entry(self, id: Text) -> Result<Db, Fault> {
        if !any(self.entries, entry_is(id)) {
            Err(StorageError::EntryNotFound(id))
        } else {
            Ok(Db { entries: self.entries.filter(entry_is_not(id)), ..self })
        }
    }

    // --- Sessions ---
    /// Whether storing this session would leave two active sessions with one process identifier: a
    /// stored session keeps the identifier that it was created with.
    pub open spec fn pid_clash(self, s: SessionView) -> bool {
        match first(self.sessions, session_is(s.id)) {
            Some(r) => s.ended_at is None && r.pid != s.pid && any(
                self.sessions,
                other_active_with_pid(s.id, r.pid),
            ),
            None => false,
        }
    }

    /// Stores a session or updates it. Other active sessions with its process identifier end when it
    /// started.
    pub open spec fn upsert_session(self, s: SessionView) -> Result<Db, Fault> {
        if (s.current_project_id matches Some(p) && !any(self.projects, project_is(p)))
            || self.pid_clash(s) {
            Err(StorageError::Constraint)
        } else {
            let row = session_row(s);
            let rest = self.sessions.map_values(session_superseded(row));
            Ok(
                Db {
                    sessions: if any(self.sessions, session_is(s.id)) {
                        rest.map_values(session_updated(row))
                    } else {
                        rest.push(row)
                    },
                    ..self
                },
            )
        }
    }

    pub open spec fn get_session(self, id: Text) -> Result<Option<SessionView>, Fault> {
        found_session(first(self.sessions, session_is(id)))
    }

    pub open spec fn get_session_by_pid(self, pid: u32) -> Result<Option<SessionView>, Fault> {
        found_session(first(self.sessions, active_with_pid(pid)))
    }

    /// Ends a session.
    pub open spec fn end_session(self, id: Text, at: Timestamp) -> Result<Db, Fault> {
        if !any(self.sessions, session_is(id)) {
            Err(StorageError::SessionNotFound(id))
        } else {
            Ok(Db { sessions: self.sessions.map_values(session_ended(id, at.text())), ..self })
        }
    }

    /// How many active sessions are in a project, apart from the one named.
    pub open spec fn active_sessions(self, project: Text, except: Option<Text>) -> nat {
        count(self.sessions, active_in(project, except))
    }

    /// The rows of the sessions that are stale.
    pub open spec fn stale_rows(self, limit: Timestamp) -> Seq<SessionData> {
        self.sessions.filter(stale_at(limit.text()))
    }

    /// The sessions that are stale.
    pub open spec fn stale_sessions(self, limit: Timestamp) -> Result<Seq<SessionView>, Fault> {
        read_sessions(self.stale_rows(limit))
    }

    // --- Ignored paths ---
    pub open spec fn add_ignored_path(self, path: Text) -> Db {
        if self.ignored.contains(path) {
            self
        } else {
            Db { ignored: self.ignored.push(path), ..self }
        }
    }

    pub open spec fn remove_ignored_path(self, path: Text) -> Db {
        Db { ignored: self.ignored.filter(path_is_not(path)), ..self }
    }

    /// Whether a path or a directory above it is ignored.
    pub open spec fn is_path_ignored(self, path: Text) -> bool {
        any(self.ignored, path_covers(path))
    }
}

} // verus!
