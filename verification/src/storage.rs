//! The store: tables of projects, time entries, sessions and ignored paths.
use crate::clock::{stamp_of, Timestamp};
use crate::db::{
    active_in, active_with_pid, by_name, by_text, deepest_at, depth, entries_apart, entry_is,
    entry_is_not, entry_outside, entry_readable, entry_row, entry_updated, latest_at, latest_first,
    opt_readable, opt_stamp, opt_stamp_text, other_active_with_pid, other_project_named,
    other_running_in, path_covers, path_is_not, project_has, project_is, project_is_not,
    project_named, project_readable, project_row, projects_apart, read_entry, read_project,
    read_session, running, running_hook_in, running_in, selected, session_ended, session_is,
    session_readable, session_row, session_superseded, session_updated, session_without, stale_at,
    Db, Fault, StorageError,
};
use crate::models::{
    EntryFilter, EntryRow, EntrySource, EntryView, Project, ProjectRow, ProjectStatus, ProjectView,
    SessionRow, SessionView, ShellSession, Text, TimeEntry,
};
use crate::paths::is_covered;
use crate::loading::rules_hold;
use crate::readback::{
    entry_replaced, entry_storable, law_created_entry, law_created_project, law_ended_session,
    law_new_session, law_session_reports, law_updated_entry, law_updated_project, opt_reads_back,
    opt_storable, project_replaced, reads_back, session_closed, session_reported, session_storable,
    storable, stored_entry, stored_project,
};
use crate::rows::{
    any, count_rows, find_row, first, keep_rows, lemma_placed_at, picked, positions, sort_positions,
    sorted_by, views, within,
};
use crate::text::{
    opt_str, before, chars_of, clone_opt, clone_texts, fold, is_before, opt_text, same_folded,
    same_text, texts, lemma_before_total, lemma_before_trans,
};
use crate::upkeep::{
    law_create_entry_keeps_rules, law_create_project_keeps_rules, law_delete_entry_keeps_rules,
    law_delete_project_keeps_rules, law_end_session_keeps_rules, law_ignored_paths_keep_rules,
    law_update_entry_keeps_rules, law_update_project_keeps_rules, law_upsert_session_keeps_rules,
};
use vstd::prelude::*;

verus! {

/// Whether a change came out as stated: done, or refused with nothing changed.
pub open spec fn changed(
    r: Result<(), StorageError>,
    step: Result<Db, Fault>,
    from: Db,
    to: Db,
) -> bool {
    match step {
        Ok(db) => r is Ok && to == db,
        Err(e) => to == from && (r matches Err(x) && x@ == e),
    }
}

/// Whether a query that finds at most one record came out as stated.
pub open spec fn found<T: View>(
    r: Result<Option<T>, StorageError>,
    expected: Result<Option<T::V>, Fault>,
) -> bool {
    match r {
        Ok(Some(x)) => expected == Ok::<Option<T::V>, Fault>(Some(x@)),
        Ok(None) => expected == Ok::<Option<T::V>, Fault>(None),
        Err(e) => expected == Err::<Option<T::V>, Fault>(e@),
    }
}

/// Whether a row was read as stated.
pub open spec fn as_read<T: View>(
    r: Result<T, StorageError>,
    expected: Result<T::V, Fault>,
) -> bool {
    match r {
        Ok(x) => expected == Ok::<T::V, Fault>(x@),
        Err(e) => expected == Err::<T::V, Fault>(e@),
    }
}

/// Whether a query that finds a list of records came out as stated.
pub open spec fn listed<T: View>(
    r: Result<Vec<T>, StorageError>,
    expected: Result<Seq<T::V>, Fault>,
) -> bool {
    match r {
        Ok(v) => expected == Ok::<Seq<T::V>, Fault>(views(v@)),
        Err(e) => expected == Err::<Seq<T::V>, Fault>(e@),
    }
}

// ---------------------------------------------------------------------------
// Texts in rows
// ---------------------------------------------------------------------------
/// Whether one text precedes another.
fn text_before(a: &str, b: &str) -> (r: bool)
    ensures
        r == before(a@, b@),
{
    is_before(&chars_of(a), &chars_of(b))
}

/// Whether a list of texts holds a text.
fn has_text(v: &Vec<String>, s: &str) -> (r: bool)
    ensures
        r == texts(v@).contains(s@),
{
    for i in 0..v.len()
        invariant
            forall|j: int| 0 <= j < i ==> (#[trigger] v@[j])@ != s@,
    {
        if same_text(v[i].as_str(), s) {
            assert(texts(v@)[i as int] == s@);
            return true;
        }
    }
    assert forall|j: int| 0 <= j < texts(v@).len() implies texts(v@)[j] != s@ by {
        assert(v@[j]@ != s@);
    }
    false
}

/// Whether a list of texts holds no text twice.
fn distinct(v: &Vec<String>) -> (r: bool)
    ensures
        r == texts(v@).no_duplicates(),
{
    let ghost t = texts(v@);
    for i in 0..v.len()
        invariant
            t == texts(v@),
            forall|a: int, b: int| 0 <= a < b < i ==> t[a] != t[b],
    {
        for j in 0..i
            invariant
                t == texts(v@),
                i < v@.len(),
                forall|a: int| 0 <= a < j ==> t[a] != t[i as int],
        {
            if same_text(v[j].as_str(), v[i].as_str()) {
                assert(t[j as int] == t[i as int]);
                return false;
            }
        }
    }
    assert forall|a: int, b: int| 0 <= a < t.len() && 0 <= b < t.len() && a != b implies t[a]
        != t[b] by {
        if a < b {
            assert(t[a] != t[b]);
        } else {
            assert(t[b] != t[a]);
        }
    }
    true
}

/// Brings texts in order.
pub fn sort_texts(v: &Vec<String>) -> (r: Vec<String>)
    ensures
        texts(r@) == sorted_by(texts(v@), by_text()),
{
    let ghost t = texts(v@);
    let mut r: Vec<String> = Vec::new();
    assert(texts(r@) =~= sorted_by(t.take(0), by_text()));
    for i in 0..v.len()
        invariant
            t == texts(v@),
            texts(r@) == sorted_by(t.take(i as int), by_text()),
    {
        let ghost s = texts(r@);
        let ghost x = t[i as int];
        let mut pos: usize = r.len();
        while pos > 0 && text_before(v[i].as_str(), r[pos - 1].as_str())
            invariant
                i < v@.len(),
                pos <= r@.len(),
                s == texts(r@),
                x == v@[i as int]@,
                forall|k: int| pos <= k < s.len() ==> by_text()(x, #[trigger] s[k]),
            decreases pos,
        {
            pos = pos - 1;
        }
        let ghost old_r = r@;
        r.insert(pos, v[i].clone());
        proof {
            lemma_placed_at(s, x, by_text(), pos as int);
            assert(t.take(i + 1).drop_last() =~= t.take(i as int));
            assert(texts(r@) =~= s.insert(pos as int, x));
        }
    }
    assert(t.take(v@.len() as int) =~= t);
    r
}

// ---------------------------------------------------------------------------
// Between records and rows
// ---------------------------------------------------------------------------
/// Reads a stored time.
fn parse_ts(raw: &str) -> (r: Result<Timestamp, StorageError>)
    ensures
        match r {
            Ok(t) => stamp_of(raw@) == Some(t),
            Err(e) => stamp_of(raw@) is None && e@ == StorageError::<Text>::InvalidTimestamp,
        },
{
    match Timestamp::parse(raw) {
        Some(t) => Ok(t),
        None => Err(StorageError::InvalidTimestamp),
    }
}

/// Reads a stored time that may be absent.
fn parse_opt_ts(raw: &Option<String>) -> (r: Result<Option<Timestamp>, StorageError>)
    ensures
        match r {
            Ok(t) => opt_readable(opt_text(*raw)) && opt_stamp(opt_text(*raw)) == t,
            Err(e) => !opt_readable(opt_text(*raw)) && e@
                == StorageError::<Text>::InvalidTimestamp,
        },
{
    match raw {
        Some(s) => match parse_ts(s.as_str()) {
            Ok(t) => Ok(Some(t)),
            Err(e) => Err(e),
        },
        None => Ok(None),
    }
}

/// Writes a time that may be absent.
fn fmt_opt_ts(t: &Option<Timestamp>) -> (r: Option<String>)
    ensures
        opt_text(r) == opt_stamp_text(*t),
        opt_storable(*t) ==> opt_reads_back(*t),
{
    match t {
        Some(t) => Some(t.rfc3339()),
        None => None,
    }
}

/// Reads a project.
pub fn project_from_row(r: &ProjectRow) -> (p: Result<Project, StorageError>)
    ensures
        as_read(p, read_project(r@)),
{
    let created_at = match parse_ts(r.created_at.as_str()) {
        Ok(t) => t,
        Err(e) => return Err(e),
    };
    let updated_at = match parse_ts(r.updated_at.as_str()) {
        Ok(t) => t,
        Err(e) => return Err(e),
    };
    Ok(
        Project {
            id: r.id.clone(),
            name: r.name.clone(),
            paths: clone_texts(&r.paths),
            tags: clone_texts(&r.tags),
            hourly_rate_cents: r.hourly_rate_cents,
            status: r.status,
            source: r.source,
            created_at,
            updated_at,
        },
    )
}

/// Writes a project.
pub fn project_to_row(p: &Project) -> (r: ProjectRow)
    ensures
        r@ == project_row(p@),
        storable(p.created_at) ==> reads_back(p.created_at),
        storable(p.updated_at) ==> reads_back(p.updated_at),
{
    Project {
        id: p.id.clone(),
        name: p.name.clone(),
        paths: clone_texts(&p.paths),
        tags: sort_texts(&p.tags),
        hourly_rate_cents: p.hourly_rate_cents,
        status: p.status,
        source: p.source,
        created_at: p.created_at.rfc3339(),
        updated_at: p.updated_at.rfc3339(),
    }
}

/// Reads an entry.
pub fn entry_from_row(r: &EntryRow) -> (e: Result<TimeEntry, StorageError>)
    ensures
        as_read(e, read_entry(r@)),
{
    let start = match parse_ts(r.start.as_str()) {
        Ok(t) => t,
        Err(e) => return Err(e),
    };
    let end = match parse_opt_ts(&r.end) {
        Ok(t) => t,
        Err(e) => return Err(e),
    };
    let created_at = match parse_ts(r.created_at.as_str()) {
        Ok(t) => t,
        Err(e) => return Err(e),
    };
    let updated_at = match parse_ts(r.updated_at.as_str()) {
        Ok(t) => t,
        Err(e) => return Err(e),
    };
    Ok(
        TimeEntry {
            id: r.id.clone(),
            project_id: r.project_id.clone(),
            session_id: clone_opt(&r.session_id),
            start,
            end,
            duration_secs: r.duration_secs,
            source: r.source,
            notes: clone_opt(&r.notes),
            tags: clone_texts(&r.tags),
            created_at,
            updated_at,
        },
    )
}

/// Writes an entry.
pub fn entry_to_row(e: &TimeEntry) -> (r: EntryRow)
    ensures
        r@ == entry_row(e@),
        storable(e.start) ==> reads_back(e.start),
        opt_storable(e.end) ==> opt_reads_back(e.end),
        storable(e.created_at) ==> reads_back(e.created_at),
        storable(e.updated_at) ==> reads_back(e.updated_at),
{
    TimeEntry {
        id: e.id.clone(),
        project_id: e.project_id.clone(),
        session_id: clone_opt(&e.session_id),
        start: e.start.rfc3339(),
        end: fmt_opt_ts(&e.end),
        duration_secs: e.duration_secs,
        source: e.source,
        notes: clone_opt(&e.notes),
        tags: sort_texts(&e.tags),
        created_at: e.created_at.rfc3339(),
        updated_at: e.updated_at.rfc3339(),
    }
}

/// Reads a session.
pub fn session_from_row(r: &SessionRow) -> (s: Result<ShellSession, StorageError>)
    ensures
        as_read(s, read_session(r@)),
{
    let started_at = match parse_ts(r.started_at.as_str()) {
        Ok(t) => t,
        Err(e) => return Err(e),
    };
    let last_heartbeat = match parse_ts(r.last_heartbeat.as_str()) {
        Ok(t) => t,
        Err(e) => return Err(e),
    };
    let ended_at = match parse_opt_ts(&r.ended_at) {
        Ok(t) => t,
        Err(e) => return Err(e),
    };
    Ok(
        ShellSession {
            id: r.id.clone(),
            pid: r.pid,
            shell: clone_opt(&r.shell),
            cwd: r.cwd.clone(),
            current_project_id: clone_opt(&r.current_project_id),
            started_at,
            last_heartbeat,
            ended_at,
        },
    )
}

/// Writes a session.
pub fn session_to_row(s: &ShellSession) -> (r: SessionRow)
    ensures
        r@ == session_row(s@),
        storable(s.started_at) ==> reads_back(s.started_at),
        storable(s.last_heartbeat) ==> reads_back(s.last_heartbeat),
        opt_storable(s.ended_at) ==> opt_reads_back(s.ended_at),
{
    ShellSession {
        id: s.id.clone(),
        pid: s.pid,
        shell: clone_opt(&s.shell),
        cwd: s.cwd.clone(),
        current_project_id: clone_opt(&s.current_project_id),
        started_at: s.started_at.rfc3339(),
        last_heartbeat: s.last_heartbeat.rfc3339(),
        ended_at: fmt_opt_ts(&s.ended_at),
    }
}

/// The length of the longest of some paths that covers a path.
fn path_depth(paths: &Vec<String>, path: &str) -> (r: Option<usize>)
    ensures
        match r {
            Some(d) => depth(texts(paths@), path@) == d,
            None => depth(texts(paths@), path@) == -1,
        },
{
    let ghost t = texts(paths@);
    let mut best: Option<usize> = None;
    for i in 0..paths.len()
        invariant
            t == texts(paths@),
            match best {
                Some(d) => depth(t.take(i as int), path@) == d,
                None => depth(t.take(i as int), path@) == -1,
            },
    {
        proof {
            assert(t.take(i + 1).drop_last() =~= t.take(i as int));
            assert(t.take(i + 1).last() == paths@[i as int]@);
        }
        if is_covered(paths[i].as_str(), path) {
            let n = paths[i].as_str().unicode_len();
            match best {
                Some(d) => {
                    if n > d {
                        best = Some(n);
                    }
                },
                None => {
                    best = Some(n);
                },
            }
        }
    }
    assert(t.take(paths@.len() as int) =~= t);
    best
}

/// Whether a session is in a project.
fn in_project(r: &SessionRow, id: &str) -> (b: bool)
    ensures
        b == (r@.current_project_id == Some(id@)),
{
    match &r.current_project_id {
        Some(p) => same_text(p.as_str(), id),
        None => false,
    }
}

/// Leaves the sessions of a project without one.
fn leave_project(v: &mut Vec<SessionRow>, id: &str)
    ensures
        views(final(v)@) == views(old(v)@).map_values(session_without(id@)),
{
    let ghost before = v@;
    let n: usize = v.len();
    for i in 0..n
        invariant
            n == v@.len(),
            v@.len() == before.len(),
            forall|k: int| 0 <= k < i ==> (#[trigger] v@[k])@ == session_without(id@)(before[k]@),
            forall|k: int| i <= k < n ==> #[trigger] v@[k] == before[k],
    {
        if in_project(&v[i], id) {
            v[i].current_project_id = None;
        }
    }
    assert(views(v@) =~= views(before).map_values(session_without(id@)));
}

/// Ends the other active sessions of the same process.
fn supersede(v: &mut Vec<SessionRow>, s: &SessionRow)
    ensures
        views(final(v)@) == views(old(v)@).map_values(session_superseded(s@)),
{
    let ghost before = v@;
    let n: usize = v.len();
    for i in 0..n
        invariant
            n == v@.len(),
            v@.len() == before.len(),
            forall|k: int| 0 <= k < i ==> (#[trigger] v@[k])@ == session_superseded(s@)(before[k]@),
            forall|k: int| i <= k < n ==> #[trigger] v@[k] == before[k],
    {
        if !same_text(v[i].id.as_str(), s.id.as_str()) && v[i].pid == s.pid && v[i].ended_at.is_none() {
            v[i].ended_at = Some(s.started_at.clone());
        }
    }
    assert(views(v@) =~= views(before).map_values(session_superseded(s@)));
}

/// Takes over what a session reports.
fn report_again(v: &mut Vec<SessionRow>, s: &SessionRow)
    ensures
        views(final(v)@) == views(old(v)@).map_values(session_updated(s@)),
{
    let ghost before = v@;
    let n: usize = v.len();
    for i in 0..n
        invariant
            n == v@.len(),
            v@.len() == before.len(),
            forall|k: int| 0 <= k < i ==> (#[trigger] v@[k])@ == session_updated(s@)(before[k]@),
            forall|k: int| i <= k < n ==> #[trigger] v@[k] == before[k],
    {
        if same_text(v[i].id.as_str(), s.id.as_str()) {
            v[i].cwd = s.cwd.clone();
            v[i].current_project_id = clone_opt(&s.current_project_id);
            v[i].last_heartbeat = s.last_heartbeat.clone();
            v[i].ended_at = clone_opt(&s.ended_at);
        }
    }
    assert(views(v@) =~= views(before).map_values(session_updated(s@)));
}

/// Ends a session.
fn end_row(v: &mut Vec<SessionRow>, id: &str, at: &str)
    ensures
        views(final(v)@) == views(old(v)@).map_values(session_ended(id@, at@)),
{
    let ghost before = v@;
    let n: usize = v.len();
    for i in 0..n
        invariant
            n == v@.len(),
            v@.len() == before.len(),
            forall|k: int| 0 <= k < i ==> (#[trigger] v@[k])@ == session_ended(id@, at@)(before[k]@),
            forall|k: int| i <= k < n ==> #[trigger] v@[k] == before[k],
    {
        if same_text(v[i].id.as_str(), id) {
            v[i].ended_at = Some(at.to_owned());
        }
    }
    assert(views(v@) =~= views(before).map_values(session_ended(id@, at@)));
}

/// Whether a filter lets an entry through; `from` and `to` are its limits as they are written.
fn lets_through(f: &EntryFilter, from: &Option<String>, to: &Option<String>, r: &EntryRow) -> (b:
    bool)
    requires
        opt_text(*from) == opt_stamp_text(f.from),
        opt_text(*to) == opt_stamp_text(f.to),
    ensures
        b == selected(f@)(r@),
{
    if let Some(p) = &f.project_id {
        if !same_text(r.project_id.as_str(), p.as_str()) {
            return false;
        }
    }
    if let Some(t) = from {
        if text_before(r.start.as_str(), t.as_str()) {
            return false;
        }
    }
    if let Some(t) = to {
        if !text_before(r.start.as_str(), t.as_str()) {
            return false;
        }
    }
    if let Some(x) = f.source {
        if r.source != x {
            return false;
        }
    }
    for i in 0..f.tags.len()
        invariant
            forall|k: int| 0 <= k < i ==> r@.tags.contains(#[trigger] f@.tags[k]),
    {
        if !has_text(&r.tags, f.tags[i].as_str()) {
            assert(!r@.tags.contains(f@.tags[i as int]));
            return false;
        }
    }
    true
}

/// Positions in the opposite order.
fn reversed(v: &Vec<usize>) -> (r: Vec<usize>)
    ensures
        r@ == v@.reverse(),
{
    let mut r: Vec<usize> = Vec::new();
    let n: usize = v.len();
    for i in 0..n
        invariant
            n == v@.len(),
            r@.len() == i,
            forall|k: int| 0 <= k < i ==> r@[k] == v@[n - 1 - k],
    {
        r.push(v[n - 1 - i]);
    }
    r
}

// ---------------------------------------------------------------------------
// The store
// ---------------------------------------------------------------------------
/// The tables, with the rules that hold between their rows.
pub struct Storage {
    projects: Vec<ProjectRow>,
    entries: Vec<EntryRow>,
    sessions: Vec<SessionRow>,
    ignored: Vec<String>,
}

impl View for Storage {
    type V = Db;

    closed spec fn view(&self) -> Db {
        Db {
            projects: views(self.projects@),
            entries: views(self.entries@),
            sessions: views(self.sessions@),
            ignored: views(self.ignored@),
        }
    }
}

impl Storage {
    /// Whether the rules of the tables hold.
    pub open spec fn wf(self) -> bool {
        self@.valid()
    }

    /// A store with the given rows, if they keep the rules of the tables.
    pub fn from_rows(
        projects: Vec<ProjectRow>,
        entries: Vec<EntryRow>,
        sessions: Vec<SessionRow>,
        ignored: Vec<String>,
    ) -> (r: Option<Storage>)
        ensures
            ({
                let db = Db {
                    projects: views(projects@),
                    entries: views(entries@),
                    sessions: views(sessions@),
                    ignored: views(ignored@),
                };
                match r {
                    Some(s) => s.wf() && s@ == db,
                    None => !db.valid(),
                }
            }),
    {
        if rules_hold(&projects, &entries, &sessions, &ignored) {
            Some(Storage { projects, entries, sessions, ignored })
        } else {
            None
        }
    }

    /// The rows of the projects, in the order in which they were stored.
    pub fn project_table(&self) -> (r: &Vec<ProjectRow>)
        ensures
            views(r@) == self@.projects,
    {
        &self.projects
    }

    /// The rows of the entries, in the order in which they were stored.
    pub fn entry_table(&self) -> (r: &Vec<EntryRow>)
        ensures
            views(r@) == self@.entries,
    {
        &self.entries
    }

    /// The rows of the sessions, in the order in which they were stored.
    pub fn session_table(&self) -> (r: &Vec<SessionRow>)
        ensures
            views(r@) == self@.sessions,
    {
        &self.sessions
    }

    /// The ignored paths, in the order in which they were stored.
    pub fn ignored_table(&self) -> (r: &Vec<String>)
        ensures
            views(r@) == self@.ignored,
    {
        &self.ignored
    }

    /// A store without rows.
    pub fn open_in_memory() -> (r: Storage)
        ensures
            r.wf(),
            r@ == Db::empty(),
    {
        let r = Storage {
            projects: Vec::new(),
            entries: Vec::new(),
            sessions: Vec::new(),
            ignored: Vec::new(),
        };
        assert(r@ =~= Db::empty());
        r
    }

    // --- Projects ---
    /// The position of a project.
    fn project_index(&self, id: &str) -> (r: Option<usize>)
        ensures
            match r {
                Some(i) => i < self.projects@.len() && self.projects@[i as int]@.id == id@ && any(
                    self@.projects,
                    project_is(id@),
                ) && first(self@.projects, project_is(id@)) == Some(self.projects@[i as int]@),
                None => !any(self@.projects, project_is(id@)) && first(
                    self@.projects,
                    project_is(id@),
                ) is None,
            },
    {
        let test = |r: &ProjectRow| -> (b: bool)
            ensures
                b == project_is(id@)(r@),
        {
            same_text(r.id.as_str(), id)
        };
        find_row(&self.projects, test, Ghost(project_is(id@)))
    }

    /// Registers a project. A name that differs from an existing one only in case is refused.
    pub fn create_project(&mut self, project: &Project) -> (r: Result<(), StorageError>)
        requires
            old(self).wf(),
        ensures
            final(self).wf(),
            changed(r, old(self)@.create_project(project@), old(self)@, final(self)@),
            r is Ok && storable(project.created_at) && storable(project.updated_at)
                ==> final(self)@.get_project(project.id@) == Ok::<Option<ProjectView>, Fault>(
                Some(stored_project(project@)),
            ),
    {
        let name = project.name.as_str();
        let test = |r: &ProjectRow| -> (b: bool)
            ensures
                b == project_named(name@)(r@),
        {
            same_folded(r.name.as_str(), name)
        };
        let namesake = find_row(&self.projects, test, Ghost(project_named(name@)));
        if namesake.is_some() {
            return Err(StorageError::DuplicateProjectName(project.name.clone()));
        }
        if self.project_index(project.id.as_str()).is_some() || !distinct(&project.paths)
            || !distinct(&project.tags) {
            return Err(StorageError::Constraint);
        }
        proof {
            law_create_project_keeps_rules(self@, project@);
        }
        self.projects.push(project_to_row(project));
        assert(self@ =~= old(self)@.create_project(project@)->Ok_0);
        proof {
            if storable(project.created_at) && storable(project.updated_at) {
                law_created_project(old(self)@, project@, project@.name);
            }
        }
        Ok(())
    }

    /// The project with this identifier.
    pub fn get_project(&self, id: &str) -> (r: Result<Option<Project>, StorageError>)
        requires
            self.wf(),
        ensures
            found(r, self@.get_project(id@)),
    {
        match self.project_index(id) {
            Some(i) => match project_from_row(&self.projects[i]) {
                Ok(p) => Ok(Some(p)),
                Err(e) => Err(e),
            },
            None => Ok(None),
        }
    }

    /// The project with this name, without regard to case.
    pub fn get_project_by_name(&self, name: &str) -> (r: Result<Option<Project>, StorageError>)
        requires
            self.wf(),
        ensures
            found(r, self@.get_project_by_name(name@)),
    {
        let test = |r: &ProjectRow| -> (b: bool)
            ensures
                b == project_named(name@)(r@),
        {
            same_folded(r.name.as_str(), name)
        };
        let found = find_row(&self.projects, test, Ghost(project_named(name@)));
        match found {
            Some(i) => match project_from_row(&self.projects[i]) {
                Ok(p) => Ok(Some(p)),
                Err(e) => Err(e),
            },
            None => Ok(None),
        }
    }

    /// The project with the longest registered path that is the given path or a directory above it.
    pub fn get_project_by_path(&self, path: &str) -> (r: Result<Option<Project>, StorageError>)
        requires
            self.wf(),
        ensures
            found(r, self@.get_project_by_path(path@)),
    {
        let ghost projects = self@.projects;
        let mut best: Option<usize> = None;
        let mut length: usize = 0;
        for i in 0..self.projects.len()
            invariant
                projects == self@.projects,
                match best {
                    Some(b) => {
                        &&& b < i
                        &&& depth(projects[b as int].paths, path@) == length
                        &&& forall|j: int|
                            0 <= j < i ==> depth((#[trigger] projects[j]).paths, path@) <= length
                        &&& forall|j: int|
                            0 <= j < b ==> depth((#[trigger] projects[j]).paths, path@) < length
                    },
                    None => forall|j: int|
                        0 <= j < i ==> depth((#[trigger] projects[j]).paths, path@) < 0,
                },
        {
            assert(projects[i as int] == self.projects@[i as int]@);
            if let Some(d) = path_depth(&self.projects[i].paths, path) {
                if best.is_none() || d > length {
                    best = Some(i);
                    length = d;
                }
            }
        }
        match best {
            Some(b) => {
                proof {
                    assert(deepest_at(projects, path@, b as int));
                    let k = choose|k: int| deepest_at(projects, path@, k);
                    assert(depth(projects[k].paths, path@) == length);
                    assert(k == b);
                    assert(projects[b as int] == self.projects@[b as int]@);
                }
                match project_from_row(&self.projects[b]) {
                    Ok(p) => Ok(Some(p)),
                    Err(e) => Err(e),
                }
            },
            None => {
                assert forall|k: int| !deepest_at(projects, path@, k) by {
                    if 0 <= k < projects.len() {
                        assert(depth(projects[k].paths, path@) < 0);
                    }
                }
                Ok(None)
            },
        }
    }

    /// The projects with a status, or all of them, by name.
    pub fn list_projects(&self, status: Option<ProjectStatus>) -> (r: Result<
        Vec<Project>,
        StorageError,
    >)
        requires
            self.wf(),
        ensures
            listed(r, self@.list_projects(status)),
    {
        let test = |r: &ProjectRow| -> (b: bool)
            ensures
                b == project_has(status)(r@),
        {
            match status {
                Some(s) => s == r.status,
                None => true,
            }
        };
        let some = positions(&self.projects, test, Ghost(project_has(status)));
        let precedes = |a: &ProjectRow, b: &ProjectRow| -> (r: bool)
            ensures
                r == by_name()(a@, b@),
        {
            is_before(&fold(a.name.as_str()), &fold(b.name.as_str()))
        };
        let order = sort_positions(&self.projects, &some, precedes, Ghost(by_name()));
        let ghost rows = self@.project_rows(status);
        assert(picked(self.projects@, some@) =~= self@.projects.filter(project_has(status)));
        let mut out: Vec<Project> = Vec::new();
        for i in 0..order.len()
            invariant
                rows == self@.project_rows(status),
                rows == picked(self.projects@, order@),
                within(order@, self.projects@.len()),
                out@.len() == i,
                forall|k: int|
                    0 <= k < i ==> read_project(rows[k]) == Ok::<ProjectView, Fault>(
                        (#[trigger] out@[k])@,
                    ),
        {
            match project_from_row(&self.projects[order[i]]) {
                Ok(p) => out.push(p),
                Err(e) => {
                    assert(!project_readable()(rows[i as int]));
                    return Err(e);
                },
            }
        }
        proof {
            assert forall|k: int| 0 <= k < rows.len() implies project_readable()(
                #[trigger] rows[k],
            ) by {
                assert(read_project(rows[k]) == Ok::<ProjectView, Fault>(out@[k]@));
            }
            assert(views(out@) =~= Seq::new(rows.len(), |i: int| read_project(rows[i])->Ok_0));
        }
        Ok(out)
    }

    /// Replaces the project with the same identifier, but for its source and creation time.
    pub fn update_project(&mut self, project: &Project) -> (r: Result<(), StorageError>)
        requires
            old(self).wf(),
        ensures
            final(self).wf(),
            changed(r, old(self)@.update_project(project@), old(self)@, final(self)@),
            r is Ok && storable(project.updated_at) ==> project_replaced(
                old(self)@,
                final(self)@,
                project@,
            ),
    {
        let id = project.id.as_str();
        let name = project.name.as_str();
        let i: usize = match self.project_index(id) {
            Some(i) => i,
            None => return Err(StorageError::ProjectNotFound(project.id.clone())),
        };
        let test = |r: &ProjectRow| -> (b: bool)
            ensures
                b == other_project_named(id@, name@)(r@),
        {
            !same_text(r.id.as_str(), id) && same_folded(r.name.as_str(), name)
        };
        let namesake = find_row(
            &self.projects,
            test,
            Ghost(other_project_named(id@, name@)),
        );
        if namesake.is_some() || !distinct(&project.paths) || !distinct(&project.tags) {
            return Err(StorageError::Constraint);
        }
        proof {
            law_update_project_keeps_rules(self@, project@);
            self.lemma_project_ids(i as int);
        }
        let mut row = project_to_row(project);
        row.source = self.projects[i].source;
        row.created_at = self.projects[i].created_at.clone();
        self.projects.set(i, row);
        assert(self@ =~= old(self)@.update_project(project@)->Ok_0);
        proof {
            if storable(project.updated_at) {
                if let Ok(Some(was)) = old(self)@.get_project(project.id@) {
                    law_updated_project(old(self)@, project@, was);
                }
            }
        }
        Ok(())
    }

    /// Deletes a project with its entries. Sessions in it are left without a project.
    pub fn delete_project(&mut self, id: &str) -> (r: Result<(), StorageError>)
        requires
            old(self).wf(),
        ensures
            final(self).wf(),
            changed(r, old(self)@.delete_project(id@), old(self)@, final(self)@),
    {
        if self.project_index(id).is_none() {
            return Err(StorageError::ProjectNotFound(id.to_owned()));
        }
        proof {
            law_delete_project_keeps_rules(self@, id@);
        }
        let other = |r: &ProjectRow| -> (b: bool)
            ensures
                b == project_is_not(id@)(r@),
        {
            !same_text(r.id.as_str(), id)
        };
        keep_rows(&mut self.projects, other, Ghost(project_is_not(id@)));
        let outside = |r: &EntryRow| -> (b: bool)
            ensures
                b == entry_outside(id@)(r@),
        {
            !same_text(r.project_id.as_str(), id)
        };
        keep_rows(&mut self.entries, outside, Ghost(entry_outside(id@)));
        leave_project(&mut self.sessions, id);
        assert(self@ =~= old(self)@.delete_project(id@)->Ok_0);
        Ok(())
    }

    /// No other project has the identifier of the one at `i`.
    proof fn lemma_project_ids(&self, i: int)
        requires
            self.wf(),
            0 <= i < self.projects@.len(),
        ensures
            forall|k: int|
                0 <= k < self.projects@.len() && k != i ==> (#[trigger] self.projects@[k])@.id
                    != self.projects@[i]@.id,
    {
        assert forall|k: int| 0 <= k < self.projects@.len() && k != i implies (
        #[trigger] self.projects@[k])@.id != self.projects@[i]@.id by {
            let s = self@.projects;
            if k < i {
                assert(projects_apart()(s[k], s[i]));
            } else {
                assert(projects_apart()(s[i], s[k]));
            }
        }
    }

    // --- Time entries ---
    /// Whether a project has a running entry, apart from the one named.
    fn has_other_running(&self, id: &str, project: &str) -> (r: bool)
        ensures
            r == any(self@.entries, other_running_in(id@, project@)),
    {
        let test = |r: &EntryRow| -> (b: bool)
            ensures
                b == other_running_in(id@, project@)(r@),
        {
            !same_text(r.id.as_str(), id) && r.end.is_none() && same_text(
                r.project_id.as_str(),
                project,
            )
        };
        find_row(&self.entries, test, Ghost(other_running_in(id@, project@))).is_some()
    }

    /// The position of an entry.
    fn entry_index(&self, id: &str) -> (r: Option<usize>)
        ensures
            match r {
                Some(i) => i < self.entries@.len() && self.entries@[i as int]@.id == id@ && any(
                    self@.entries,
                    entry_is(id@),
                ),
                None => !any(self@.entries, entry_is(id@)),
            },
    {
        let test = |r: &EntryRow| -> (b: bool)
            ensures
                b == entry_is(id@)(r@),
        {
            same_text(r.id.as_str(), id)
        };
        find_row(&self.entries, test, Ghost(entry_is(id@)))
    }

    /// Stores a new entry. It is refused where its identifier is in use, its project does not
    /// exist, a tag is given twice, or it runs while another entry of the project does.
    pub fn create_entry(&mut self, entry: &TimeEntry) -> (r: Result<(), StorageError>)
        requires
            old(self).wf(),
        ensures
            final(self).wf(),
            changed(r, old(self)@.create_entry(entry@), old(self)@, final(self)@),
            r is Ok && entry_storable(entry@) ==> final(self)@.get_entry(entry.id@) == Ok::<
                Option<EntryView>,
                Fault,
            >(Some(stored_entry(entry@))),
    {
        let project = entry.project_id.as_str();
        let test = |r: &EntryRow| -> (b: bool)
            ensures
                b == running_in(project@)(r@),
        {
            r.end.is_none() && same_text(r.project_id.as_str(), project)
        };
        let taken = self.entry_index(entry.id.as_str()).is_some();
        let known = self.project_index(project).is_some();
        let busy = find_row(&self.entries, test, Ghost(running_in(project@))).is_some();
        if taken || !known || !distinct(&entry.tags) || (entry.end.is_none() && busy) {
            return Err(StorageError::Constraint);
        }
        proof {
            law_create_entry_keeps_rules(self@, entry@);
        }
        self.entries.push(entry_to_row(entry));
        assert(self@ =~= old(self)@.create_entry(entry@)->Ok_0);
        proof {
            if entry_storable(entry@) {
                law_created_entry(old(self)@, entry@);
            }
        }
        Ok(())
    }

    /// The entry with this identifier.
    pub fn get_entry(&self, id: &str) -> (r: Result<Option<TimeEntry>, StorageError>)
        requires
            self.wf(),
        ensures
            found(r, self@.get_entry(id@)),
    {
        let test = |r: &EntryRow| -> (b: bool)
            ensures
                b == entry_is(id@)(r@),
        {
            same_text(r.id.as_str(), id)
        };
        match find_row(&self.entries, test, Ghost(entry_is(id@))) {
            Some(i) => match entry_from_row(&self.entries[i]) {
                Ok(x) => Ok(Some(x)),
                Err(e) => Err(e),
            },
            None => Ok(None),
        }
    }

    /// The running entry of a project.
    pub fn get_running_entry(&self, project_id: &str) -> (r: Result<Option<TimeEntry>, StorageError>)
        requires
            self.wf(),
        ensures
            found(r, self@.get_running_entry(project_id@)),
    {
        let test = |r: &EntryRow| -> (b: bool)
            ensures
                b == running_in(project_id@)(r@),
        {
            r.end.is_none() && same_text(r.project_id.as_str(), project_id)
        };
        match find_row(&self.entries, test, Ghost(running_in(project_id@))) {
            Some(i) => match entry_from_row(&self.entries[i]) {
                Ok(x) => Ok(Some(x)),
                Err(e) => Err(e),
            },
            None => Ok(None),
        }
    }

    /// The running entry of a project, if the hook started it.
    pub fn get_running_hook_entry(&self, project_id: &str) -> (r: Result<Option<TimeEntry>, StorageError>)
        requires
            self.wf(),
        ensures
            found(r, self@.get_running_hook_entry(project_id@)),
    {
        let test = |r: &EntryRow| -> (b: bool)
            ensures
                b == running_hook_in(project_id@)(r@),
        {
            r.end.is_none() && same_text(r.project_id.as_str(), project_id) && r.source
                == EntrySource::Hook
        };
        match find_row(&self.entries, test, Ghost(running_hook_in(project_id@))) {
            Some(i) => match entry_from_row(&self.entries[i]) {
                Ok(x) => Ok(Some(x)),
                Err(e) => Err(e),
            },
            None => Ok(None),
        }
    }

    /// A running entry of any project.
    pub fn get_any_running_entry(&self) -> (r: Result<Option<TimeEntry>, StorageError>)
        requires
            self.wf(),
        ensures
            found(r, self@.get_any_running_entry()),
    {
        let test = |r: &EntryRow| -> (b: bool)
            ensures
                b == running()(r@),
        {
            r.end.is_none()
        };
        match find_row(&self.entries, test, Ghost(running())) {
            Some(i) => match entry_from_row(&self.entries[i]) {
                Ok(x) => Ok(Some(x)),
                Err(e) => Err(e),
            },
            None => Ok(None),
        }
    }

    /// The entries that a filter lets through, the latest start first.
    pub fn list_entries(&self, filter: &EntryFilter) -> (r: Result<Vec<TimeEntry>, StorageError>)
        requires
            self.wf(),
        ensures
            listed(r, self@.list_entries(filter@)),
    {
        let from = fmt_opt_ts(&filter.from);
        let to = fmt_opt_ts(&filter.to);
        let test = |r: &EntryRow| -> (b: bool)
            ensures
                b == selected(filter@)(r@),
        {
            lets_through(filter, &from, &to, r)
        };
        let some = positions(&self.entries, test, Ghost(selected(filter@)));
        let ghost forward = some@;
        assert(picked(self.entries@, forward) =~= self@.entries.filter(selected(filter@)));
        let back = reversed(&some);
        assert(picked(self.entries@, back@) =~= self@.entries.filter(selected(filter@)).reverse());
        let precedes = |a: &EntryRow, b: &EntryRow| -> (r: bool)
            ensures
                r == latest_first()(a@, b@),
        {
            text_before(b.start.as_str(), a.start.as_str())
        };
        let order = sort_positions(&self.entries, &back, precedes, Ghost(latest_first()));
        let ghost rows = self@.entry_rows(filter@);
        let mut out: Vec<TimeEntry> = Vec::new();
        for i in 0..order.len()
            invariant
                rows == self@.entry_rows(filter@),
                rows == picked(self.entries@, order@),
                within(order@, self.entries@.len()),
                out@.len() == i,
                forall|k: int|
                    0 <= k < i ==> read_entry(rows[k]) == Ok::<EntryView, Fault>(
                        (#[trigger] out@[k])@,
                    ),
        {
            match entry_from_row(&self.entries[order[i]]) {
                Ok(e) => out.push(e),
                Err(e) => {
                    assert(!entry_readable()(rows[i as int]));
                    return Err(e);
                },
            }
        }
        proof {
            assert forall|k: int| 0 <= k < rows.len() implies entry_readable()(
                #[trigger] rows[k],
            ) by {
                assert(read_entry(rows[k]) == Ok::<EntryView, Fault>(out@[k]@));
            }
            assert(views(out@) =~= Seq::new(rows.len(), |i: int| read_entry(rows[i])->Ok_0));
        }
        Ok(out)
    }

    /// The entry with the latest start.
    pub fn get_last_entry(&self) -> (r: Result<Option<TimeEntry>, StorageError>)
        requires
            self.wf(),
        ensures
            found(r, self@.get_last_entry()),
    {
        let ghost entries = self@.entries;
        if self.entries.len() == 0 {
            assert(forall|k: int| !latest_at(entries, k));
            return Ok(None);
        }
        let mut best: usize = 0;
        proof {
            lemma_before_total(entries[0].start, entries[0].start);
        }
        for i in 1..self.entries.len()
            invariant
                entries == self@.entries,
                best < i,
                i <= entries.len(),
                forall|j: int|
                    0 <= j < i ==> !before(
                        entries[best as int].start,
                        (#[trigger] entries[j]).start,
                    ),
                forall|j: int|
                    best < j < i ==> before(
                        (#[trigger] entries[j]).start,
                        entries[best as int].start,
                    ),
        {
            let ghost b = entries[best as int].start;
            let ghost x = entries[i as int].start;
            assert(x == self.entries@[i as int]@.start && b == self.entries@[best as int]@.start);
            if !text_before(self.entries[i].start.as_str(), self.entries[best].start.as_str()) {
                proof {
                    assert forall|j: int| 0 <= j < i + 1 implies !before(
                        x,
                        (#[trigger] entries[j]).start,
                    ) by {
                        let y = entries[j].start;
                        lemma_before_total(x, y);
                        lemma_before_total(b, y);
                        lemma_before_total(x, b);
                        if before(x, y) && j < i {
                            if x != b {
                                lemma_before_trans(b, x, y);
                            }
                        }
                    }
                }
                best = i;
            } else {
                proof {
                    lemma_before_total(x, b);
                }
            }
        }
        proof {
            assert(latest_at(entries, best as int));
            let k = choose|k: int| latest_at(entries, k);
            lemma_before_total(entries[k].start, entries[best as int].start);
            assert(entries[best as int] == self.entries@[best as int]@);
        }
        match entry_from_row(&self.entries[best]) {
            Ok(e) => Ok(Some(e)),
            Err(e) => Err(e),
        }
    }

    /// Replaces the entry with the same identifier, but for its creation time.
    pub fn update_entry(&mut self, entry: &TimeEntry) -> (r: Result<(), StorageError>)
        requires
            old(self).wf(),
        ensures
            final(self).wf(),
            changed(r, old(self)@.update_entry(entry@), old(self)@, final(self)@),
            r is Ok && entry_storable(entry@) ==> entry_replaced(
                old(self)@,
                final(self)@,
                entry@,
            ),
    {
        let i: usize = match self.entry_index(entry.id.as_str()) {
            Some(i) => i,
            None => return Err(StorageError::EntryNotFound(entry.id.clone())),
        };
        let known = self.project_index(entry.project_id.as_str()).is_some();
        if !known || !distinct(&entry.tags) || (entry.end.is_none() && self.has_other_running(
            entry.id.as_str(),
            entry.project_id.as_str(),
        )) {
            return Err(StorageError::Constraint);
        }
        proof {
            law_update_entry_keeps_rules(self@, entry@);
            let s = self@.entries;
            assert forall|k: int| 0 <= k < s.len() && k != i implies (#[trigger] s[k]).id
                != entry@.id by {
                assert(s[i as int] == self.entries@[i as int]@);
                if k < i {
                    assert(entries_apart()(s[k], s[i as int]));
                } else {
                    assert(entries_apart()(s[i as int], s[k]));
                }
            }
        }
        let mut row = entry_to_row(entry);
        row.created_at = self.entries[i].created_at.clone();
        self.entries.set(i, row);
        assert(self@ =~= old(self)@.update_entry(entry@)->Ok_0) by {
            let s = old(self)@.entries;
            let f = entry_updated(entry_row(entry@));
            assert forall|k: int| 0 <= k < s.len() implies self@.entries[k] == #[trigger] f(s[k]) by {
                assert(s[k] == old(self).entries@[k]@);
            }
            assert(self@.entries =~= s.map_values(f));
        }
        proof {
            if entry_storable(entry@) {
                if let Ok(Some(was)) = old(self)@.get_entry(entry.id@) {
                    law_updated_entry(old(self)@, entry@, was);
                }
            }
        }
        Ok(())
    }

    /// Deletes an entry.
    pub fn delete_entry(&mut self, id: &str) -> (r: Result<(), StorageError>)
        requires
            old(self).wf(),
        ensures
            final(self).wf(),
            changed(r, old(self)@.delete_entry(id@), old(self)@, final(self)@),
    {
        if self.entry_index(id).is_none() {
            return Err(StorageError::EntryNotFound(id.to_owned()));
        }
        proof {
            law_delete_entry_keeps_rules(self@, id@);
        }
        let other = |r: &EntryRow| -> (b: bool)
            ensures
                b == entry_is_not(id@)(r@),
        {
            !same_text(r.id.as_str(), id)
        };
        keep_rows(&mut self.entries, other, Ghost(entry_is_not(id@)));
        assert(self@ =~= old(self)@.delete_entry(id@)->Ok_0);
        Ok(())
    }

    // --- Sessions ---
    /// The position of a session.
    fn session_index(&self, id: &str) -> (r: Option<usize>)
        ensures
            match r {
                Some(i) => i < self.sessions@.len() && any(self@.sessions, session_is(id@))
                    && first(self@.sessions, session_is(id@)) == Some(self.sessions@[i as int]@),
                None => !any(self@.sessions, session_is(id@)) && first(
                    self@.sessions,
                    session_is(id@),
                ) is None,
            },
    {
        let test = |r: &SessionRow| -> (b: bool)
            ensures
                b == session_is(id@)(r@),
        {
            same_text(r.id.as_str(), id)
        };
        find_row(&self.sessions, test, Ghost(session_is(id@)))
    }

    /// Stores a session, or updates its directory, project, heartbeat and end if it is stored.
    /// Other active sessions with its process identifier end when it started.
    pub fn upsert_session(&mut self, session: &ShellSession) -> (r: Result<(), StorageError>)
        requires
            old(self).wf(),
        ensures
            final(self).wf(),
            changed(r, old(self)@.upsert_session(session@), old(self)@, final(self)@),
            r is Ok && session_storable(session@) ==> session_reported(
                old(self)@,
                final(self)@,
                session@,
            ),
    {
        if let Some(p) = &session.current_project_id {
            if self.project_index(p.as_str()).is_none() {
                return Err(StorageError::Constraint);
            }
        }
        let id = session.id.as_str();
        let stored = self.session_index(id);
        if let Some(i) = stored {
            let pid = self.sessions[i].pid;
            let test = |r: &SessionRow| -> (b: bool)
                ensures
                    b == other_active_with_pid(id@, pid)(r@),
            {
                !same_text(r.id.as_str(), id) && r.ended_at.is_none() && r.pid == pid
            };
            let clash = find_row(
                &self.sessions,
                test,
                Ghost(other_active_with_pid(id@, pid)),
            ).is_some();
            if session.ended_at.is_none() && pid != session.pid && clash {
                return Err(StorageError::Constraint);
            }
        }
        proof {
            law_upsert_session_keeps_rules(self@, session@);
        }
        let row = session_to_row(session);
        supersede(&mut self.sessions, &row);
        match stored {
            Some(_) => report_again(&mut self.sessions, &row),
            None => {
                let ghost rest = self.sessions@;
                self.sessions.push(row);
                assert(views(self.sessions@) =~= views(rest).push(session_row(session@)));
            },
        }
        assert(self@ =~= old(self)@.upsert_session(session@)->Ok_0);
        proof {
            if session_storable(session@) {
                match old(self)@.get_session(session.id@) {
                    Ok(Some(was)) => {
                        law_session_reports(old(self)@, session@, was);
                    },
                    Ok(None) => {
                        law_new_session(old(self)@, session@);
                    },
                    Err(_) => {},
                }
            }
        }
        Ok(())
    }

    /// The session with this identifier.
    pub fn get_session(&self, id: &str) -> (r: Result<Option<ShellSession>, StorageError>)
        requires
            self.wf(),
        ensures
            found(r, self@.get_session(id@)),
    {
        let test = |r: &SessionRow| -> (b: bool)
            ensures
                b == session_is(id@)(r@),
        {
            same_text(r.id.as_str(), id)
        };
        match find_row(&self.sessions, test, Ghost(session_is(id@))) {
            Some(i) => match session_from_row(&self.sessions[i]) {
                Ok(x) => Ok(Some(x)),
                Err(e) => Err(e),
            },
            None => Ok(None),
        }
    }

    /// The active session of a process.
    pub fn get_session_by_pid(&self, pid: u32) -> (r: Result<Option<ShellSession>, StorageError>)
        requires
            self.wf(),
        ensures
            found(r, self@.get_session_by_pid(pid)),
    {
        let test = |r: &SessionRow| -> (b: bool)
            ensures
                b == active_with_pid(pid)(r@),
        {
            r.ended_at.is_none() && r.pid == pid
        };
        match find_row(&self.sessions, test, Ghost(active_with_pid(pid))) {
            Some(i) => match session_from_row(&self.sessions[i]) {
                Ok(x) => Ok(Some(x)),
                Err(e) => Err(e),
            },
            None => Ok(None),
        }
    }

    /// Ends a session.
    pub fn end_session(&mut self, id: &str, ended_at: Timestamp) -> (r: Result<(), StorageError>)
        requires
            old(self).wf(),
        ensures
            final(self).wf(),
            changed(r, old(self)@.end_session(id@, ended_at), old(self)@, final(self)@),
            r is Ok && storable(ended_at) ==> session_closed(
                old(self)@,
                final(self)@,
                id@,
                ended_at,
            ),
    {
        if self.session_index(id).is_none() {
            return Err(StorageError::SessionNotFound(id.to_owned()));
        }
        proof {
            law_end_session_keeps_rules(self@, id@, ended_at);
        }
        end_row(&mut self.sessions, id, ended_at.rfc3339().as_str());
        assert(self@ =~= old(self)@.end_session(id@, ended_at)->Ok_0);
        proof {
            if storable(ended_at) {
                if let Ok(Some(was)) = old(self)@.get_session(id@) {
                    law_ended_session(old(self)@, id@, ended_at, was);
                }
            }
        }
        Ok(())
    }

    /// How many active sessions are in a project, apart from the one named.
    pub fn count_active_sessions_for_project(
        &self,
        project_id: &str,
        exclude_session_id: Option<&str>,
    ) -> (r: usize)
        requires
            self.wf(),
        ensures
            r == self@.active_sessions(project_id@, opt_str(exclude_session_id)),
    {
        let test = |r: &SessionRow| -> (b: bool)
            ensures
                b == active_in(project_id@, opt_str(exclude_session_id))(r@),
        {
            let excluded = match exclude_session_id {
                Some(id) => same_text(r.id.as_str(), id),
                None => false,
            };
            r.ended_at.is_none() && in_project(r, project_id) && !excluded
        };
        count_rows(&self.sessions, test, Ghost(active_in(project_id@, opt_str(exclude_session_id))))
    }

    /// The active sessions whose last heartbeat is before the given time, as times are written.
    pub fn get_stale_sessions(&self, older_than: Timestamp) -> (r: Result<
        Vec<ShellSession>,
        StorageError,
    >)
        requires
            self.wf(),
        ensures
            listed(r, self@.stale_sessions(older_than)),
    {
        let limit = older_than.rfc3339();
        let test = |r: &SessionRow| -> (b: bool)
            ensures
                b == stale_at(limit@)(r@),
        {
            r.ended_at.is_none() && text_before(r.last_heartbeat.as_str(), limit.as_str())
        };
        let some = positions(&self.sessions, test, Ghost(stale_at(limit@)));
        let ghost rows = self@.stale_rows(older_than);
        let mut out: Vec<ShellSession> = Vec::new();
        for i in 0..some.len()
            invariant
                rows == self@.stale_rows(older_than),
                some@.len() == rows.len(),
                forall|k: int|
                    0 <= k < some@.len() ==> (#[trigger] some@[k]) < self.sessions@.len()
                        && self.sessions@[some@[k] as int]@ == rows[k],
                out@.len() == i,
                forall|k: int|
                    0 <= k < i ==> read_session(rows[k]) == Ok::<SessionView, Fault>(
                        (#[trigger] out@[k])@,
                    ),
        {
            match session_from_row(&self.sessions[some[i]]) {
                Ok(s) => out.push(s),
                Err(e) => {
                    assert(!session_readable()(rows[i as int]));
                    return Err(e);
                },
            }
        }
        proof {
            assert forall|k: int| 0 <= k < rows.len() implies session_readable()(
                #[trigger] rows[k],
            ) by {
                assert(read_session(rows[k]) == Ok::<SessionView, Fault>(out@[k]@));
            }
            assert(views(out@) =~= Seq::new(rows.len(), |i: int| read_session(rows[i])->Ok_0));
        }
        Ok(out)
    }

    // --- Ignored paths ---
    /// Ignores a path and what lies below it.
    pub fn add_ignored_path(&mut self, path: &str)
        requires
            old(self).wf(),
        ensures
            final(self).wf(),
            final(self)@ == old(self)@.add_ignored_path(path@),
    {
        proof {
            law_ignored_paths_keep_rules(self@, path@);
        }
        if !has_text(&self.ignored, path) {
            self.ignored.push(path.to_owned());
            assert(self@.ignored =~= old(self)@.ignored.push(path@));
        }
        assert(self@ =~= old(self)@.add_ignored_path(path@));
    }

    /// Ignores a path no longer, and tells whether it was ignored.
    pub fn remove_ignored_path(&mut self, path: &str) -> (r: bool)
        requires
            old(self).wf(),
        ensures
            final(self).wf(),
            final(self)@ == old(self)@.remove_ignored_path(path@),
            r == old(self)@.ignored.contains(path@),
    {
        proof {
            law_ignored_paths_keep_rules(self@, path@);
        }
        let known = has_text(&self.ignored, path);
        let other = |r: &String| -> (b: bool)
            ensures
                b == path_is_not(path@)(r@),
        {
            !same_text(r.as_str(), path)
        };
        keep_rows(&mut self.ignored, other, Ghost(path_is_not(path@)));
        assert(self@ =~= old(self)@.remove_ignored_path(path@));
        known
    }

    /// Whether a path or a directory above it is ignored.
    pub fn is_path_ignored(&self, path: &str) -> (r: bool)
        requires
            self.wf(),
        ensures
            r == self@.is_path_ignored(path@),
    {
        let test = |r: &String| -> (b: bool)
            ensures
                b == path_covers(path@)(r@),
        {
            is_covered(r.as_str(), path)
        };
        find_row(&self.ignored, test, Ghost(path_covers(path@))).is_some()
    }

    /// The ignored paths, in order.
    pub fn list_ignored_paths(&self) -> (r: Vec<String>)
        requires
            self.wf(),
        ensures
            texts(r@) == sorted_by(self@.ignored, by_text()),
    {
        sort_texts(&self.ignored)
    }
}

} // verus!
