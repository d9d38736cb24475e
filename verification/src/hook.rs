//! The shell hook: what happens in the store on every prompt, and when a shell exits.
use crate::clock::{stamp_of, whole_seconds, Timestamp, FIRST, LAST, SECOND};
use crate::config::{ConfigView, StintConfig};
use crate::db::{
    opt_stamp_text, read_session, session_is, session_readable, sessions_apart, stale_at, Db, Fault,
    StorageError,
};
use crate::rows::{all, any, lemma_filter, pairwise, views};
use crate::error::StintError;
use crate::models::{
    EntrySource, EntryView, Project, ProjectSource, ProjectStatus, ProjectView, SessionData,
    SessionView, ShellSession, Text, TimeEntry,
};
use crate::paths::{equal_paths, same_path};
use crate::storage::{as_read, found, Storage};
use crate::text::{clone_texts, opt_str, same_opt, same_text, texts};
use vstd::prelude::*;

verus! {

/// The least age of a stale session, in seconds. The age asked for is twice the idle threshold,
/// where that is more, so that no session is stale before it is idle.
pub const MIN_STALE_THRESHOLD_SECS: i64 = 600;

/// What happened as a result of the hook firing.
#[derive(PartialEq, Eq, Debug)]
pub enum HookAction<S = String> {
    /// The session reported; nothing else changed.
    Heartbeat,
    /// Started tracking a project.
    Started { project_name: S },
    /// Switched from one project to another.
    Switched { from: S, to: S },
    /// Stopped tracking: the shell left the project.
    Stopped { project_name: S },
    /// New session, in no project.
    SessionCreated { session_id: S },
    /// New session in a project, which is tracked.
    SessionStarted { project_name: S, session_id: S },
    /// The shell was idle: the entry before ended at the last heartbeat, and a new one began.
    IdleResume { project_name: S },
}

/// An action in contracts.
pub type ActionView = HookAction<Text>;

impl View for HookAction {
    type V = ActionView;

    open spec fn view(&self) -> ActionView {
        match *self {
            HookAction::Heartbeat => HookAction::Heartbeat,
            HookAction::Started { project_name } => HookAction::Started {
                project_name: project_name@,
            },
            HookAction::Switched { from, to } => HookAction::Switched { from: from@, to: to@ },
            HookAction::Stopped { project_name } => HookAction::Stopped {
                project_name: project_name@,
            },
            HookAction::SessionCreated { session_id } => HookAction::SessionCreated {
                session_id: session_id@,
            },
            HookAction::SessionStarted {
                project_name,
                session_id,
            } => HookAction::SessionStarted {
                project_name: project_name@,
                session_id: session_id@,
            },
            HookAction::IdleResume { project_name } => HookAction::IdleResume {
                project_name: project_name@,
            },
        }
    }
}

/// A repository found at or above a directory.
#[derive(PartialEq, Eq, Debug)]
pub struct Discovery<S = String> {
    /// The directory of the repository.
    pub root: S,
    /// The name that a project there gets.
    pub name: S,
}

/// Identifiers for what the hook may create. They are fresh: nothing stored has them.
#[derive(PartialEq, Eq, Debug)]
pub struct FreshIds<S = String> {
    pub session: S,
    pub entry: S,
    pub project: S,
}

/// A repository in contracts.
pub type DiscoveryView = Discovery<Text>;

/// Identifiers in contracts.
pub type IdsView = FreshIds<Text>;

impl View for Discovery {
    type V = DiscoveryView;

    open spec fn view(&self) -> DiscoveryView {
        Discovery { root: self.root@, name: self.name@ }
    }
}

impl View for FreshIds {
    type V = IdsView;

    open spec fn view(&self) -> IdsView {
        FreshIds { session: self.session@, entry: self.entry@, project: self.project@ }
    }
}

/// A repository that may be absent, in contracts.
pub open spec fn opt_discovery(d: Option<Discovery>) -> Option<DiscoveryView> {
    match d {
        Some(d) => Some(d@),
        None => None,
    }
}

// ---------------------------------------------------------------------------
// Entries
// ---------------------------------------------------------------------------
/// A change of the store as a step: what is stored then, and whether it was done.
pub open spec fn step(db: Db, r: Result<Db, Fault>) -> (Db, Result<(), Fault>) {
    match r {
        Ok(d) => (d, Ok(())),
        Err(e) => (db, Err(e)),
    }
}

/// An entry that was stopped.
pub open spec fn stopped(e: EntryView, end: Timestamp) -> EntryView {
    TimeEntry {
        end: Some(end),
        duration_secs: Some(whole_seconds(end.instant() - e.start.instant()) as i64),
        updated_at: end,
        ..e
    }
}

/// Stops the running entry of a project, if the hook started it.
pub open spec fn stop_hook_entry(db: Db, project: Text, end: Timestamp) -> (
    Db,
    Result<(), Fault>,
) {
    match db.get_running_hook_entry(project) {
        Ok(Some(e)) => step(db, db.update_entry(stopped(e, end))),
        Ok(None) => (db, Ok(())),
        Err(e) => (db, Err(e)),
    }
}

/// An entry that the hook starts.
pub open spec fn hook_entry(id: Text, project: Text, session: Text, now: Timestamp) -> EntryView {
    TimeEntry {
        id,
        project_id: project,
        session_id: Some(session),
        start: now,
        end: None,
        duration_secs: None,
        source: EntrySource::Hook,
        notes: None,
        tags: Seq::empty(),
        created_at: now,
        updated_at: now,
    }
}

/// Starts an entry of a project, where none is running.
pub open spec fn try_hook_entry(
    db: Db,
    project: Text,
    session: Text,
    now: Timestamp,
    id: Text,
) -> (Db, Result<(), Fault>) {
    match db.get_running_entry(project) {
        Ok(Some(_)) => (db, Ok(())),
        Ok(None) => step(db, db.create_entry(hook_entry(id, project, session, now))),
        Err(e) => (db, Err(e)),
    }
}

/// Leaves the project of a session: its entry stops, unless another session is there.
pub open spec fn left(db: Db, s: SessionView, at: Timestamp) -> (Db, Result<(), Fault>) {
    match s.current_project_id {
        Some(p) => if db.active_sessions(p, Some(s.id)) == 0 {
            stop_hook_entry(db, p, at)
        } else {
            (db, Ok(()))
        },
        None => (db, Ok(())),
    }
}

/// Stores a session and starts an entry of the project that it entered.
pub open spec fn settled(
    db: Db,
    s: SessionView,
    project: Option<ProjectView>,
    now: Timestamp,
    entry: Text,
    action: ActionView,
) -> (Db, Result<ActionView, Fault>) {
    match db.upsert_session(s) {
        Ok(d) => match project {
            Some(p) => match try_hook_entry(d, p.id, s.id, now, entry) {
                (d2, Ok(_)) => (d2, Ok(action)),
                (d2, Err(e)) => (d2, Err(e)),
            },
            None => (d, Ok(action)),
        },
        Err(e) => (db, Err(e)),
    }
}

/// Stops the running entry of a project, if the hook started it. Entries that were started by hand
/// are left alone.
pub fn stop_hook_entry_for_project(storage: &mut Storage, project_id: &str, end_time: Timestamp) -> (r:
    Result<(), StorageError>)
    requires
        old(storage).wf(),
    ensures
        final(storage).wf(),
        final(storage)@ == stop_hook_entry(old(storage)@, project_id@, end_time).0,
        as_read(r, stop_hook_entry(old(storage)@, project_id@, end_time).1),
{
    match storage.get_running_hook_entry(project_id) {
        Ok(Some(entry)) => {
            let mut entry = entry;
            let secs: i64 = end_time.seconds_since(entry.start);
            entry.end = Some(end_time);
            entry.duration_secs = Some(secs);
            entry.updated_at = end_time;
            storage.update_entry(&entry)
        },
        Ok(None) => Ok(()),
        Err(e) => Err(e),
    }
}

/// A new entry that the hook starts.
pub fn new_hook_entry(id: &str, project_id: &str, session_id: &str, now: Timestamp) -> (r:
    TimeEntry)
    ensures
        r@ == hook_entry(id@, project_id@, session_id@, now),
{
    let r = TimeEntry {
        id: id.to_owned(),
        project_id: project_id.to_owned(),
        session_id: Some(session_id.to_owned()),
        start: now,
        end: None,
        duration_secs: None,
        source: EntrySource::Hook,
        notes: None,
        tags: Vec::new(),
        created_at: now,
        updated_at: now,
    };
    assert(texts(r.tags@) =~= Seq::<Text>::empty());
    r
}

/// Starts an entry of a project, unless one is running.
pub fn try_create_hook_entry(
    storage: &mut Storage,
    project_id: &str,
    session_id: &str,
    now: Timestamp,
    id: &str,
) -> (r: Result<(), StorageError>)
    requires
        old(storage).wf(),
    ensures
        final(storage).wf(),
        final(storage)@ == try_hook_entry(old(storage)@, project_id@, session_id@, now, id@).0,
        as_read(r, try_hook_entry(old(storage)@, project_id@, session_id@, now, id@).1),
{
    match storage.get_running_entry(project_id) {
        Ok(Some(_)) => Ok(()),
        Ok(None) => storage.create_entry(&new_hook_entry(id, project_id, session_id, now)),
        Err(e) => Err(e),
    }
}

/// Leaves the project of a session.
fn leave(storage: &mut Storage, session: &ShellSession, at: Timestamp) -> (r: Result<
    (),
    StorageError,
>)
    requires
        old(storage).wf(),
    ensures
        final(storage).wf(),
        final(storage)@ == left(old(storage)@, session@, at).0,
        as_read(r, left(old(storage)@, session@, at).1),
{
    match &session.current_project_id {
        Some(p) => {
            let others: usize = storage.count_active_sessions_for_project(
                p.as_str(),
                Some(session.id.as_str()),
            );
            if others == 0 {
                stop_hook_entry_for_project(storage, p.as_str(), at)
            } else {
                Ok(())
            }
        },
        None => Ok(()),
    }
}

/// Stores a session and starts an entry of the project that it entered.
fn settle(
    storage: &mut Storage,
    session: &ShellSession,
    project: Option<&Project>,
    now: Timestamp,
    entry: &str,
    action: HookAction,
) -> (r: Result<HookAction, StorageError>)
    requires
        old(storage).wf(),
    ensures
        final(storage).wf(),
        ({
            let s = settled(
                old(storage)@,
                session@,
                match project {
                    Some(p) => Some(p@),
                    None => None,
                },
                now,
                entry@,
                action@,
            );
            final(storage)@ == s.0 && as_read(r, s.1)
        }),
{
    match storage.upsert_session(session) {
        Ok(_) => {},
        Err(e) => return Err(e),
    }
    match project {
        Some(p) => match try_create_hook_entry(
            storage,
            p.id.as_str(),
            session.id.as_str(),
            now,
            entry,
        ) {
            Ok(_) => Ok(action),
            Err(e) => Err(e),
        },
        None => Ok(action),
    }
}


// ---------------------------------------------------------------------------
// Projects
// ---------------------------------------------------------------------------
/// The project that a discovered repository becomes.
pub open spec fn discovered_project(
    d: DiscoveryView,
    now: Timestamp,
    config: ConfigView,
    id: Text,
) -> ProjectView {
    Project {
        id,
        name: d.name,
        paths: seq![d.root],
        tags: config.default_tags,
        hourly_rate_cents: config.default_rate_cents,
        status: ProjectStatus::Active,
        source: ProjectSource::Discovered,
        created_at: now,
        updated_at: now,
    }
}

/// Whether a project is active.
pub open spec fn in_use(p: ProjectView) -> bool {
    p.status == ProjectStatus::Active
}

/// Whether a directory in no registered project may be searched for a repository.
pub open spec fn searched(db: Db, cwd: Text, config: ConfigView) -> bool {
    &&& db.get_project_by_path(cwd) == Ok::<Option<ProjectView>, Fault>(None)
    &&& config.auto_discover
    &&& !db.is_path_ignored(cwd)
}

/// Whether one of a project's paths is the given one.
pub open spec fn located(paths: Seq<Text>, root: Text) -> bool {
    exists|i: int| 0 <= i < paths.len() && equal_paths(#[trigger] paths[i], root)
}

/// The project of a repository: registered where its name is free, else the one that has the name,
/// if that is active and has this path.
pub open spec fn adopted(
    db: Db,
    d: DiscoveryView,
    now: Timestamp,
    config: ConfigView,
    id: Text,
) -> (Db, Result<Option<ProjectView>, Fault>) {
    let p = discovered_project(d, now, config, id);
    match db.create_project(p) {
        Ok(next) => (next, Ok(Some(p))),
        Err(StorageError::DuplicateProjectName(_)) => match db.get_project_by_name(d.name) {
            Ok(Some(q)) => (
                db,
                Ok(
                    if in_use(q) && located(q.paths, d.root) {
                        Some(q)
                    } else {
                        None
                    },
                ),
            ),
            Ok(None) => (db, Ok(None)),
            Err(e) => (db, Err(e)),
        },
        Err(e) => (db, Err(e)),
    }
}

/// The project of a directory: the registered one, if it is active; else that of the repository
/// there, where discovery is on and neither the directory nor the repository is ignored.
pub open spec fn detected(
    db: Db,
    cwd: Text,
    now: Timestamp,
    config: ConfigView,
    repository: Option<DiscoveryView>,
    id: Text,
) -> (Db, Result<Option<ProjectView>, Fault>) {
    match db.get_project_by_path(cwd) {
        Ok(Some(p)) => (
            db,
            Ok(
                if in_use(p) {
                    Some(p)
                } else {
                    None
                },
            ),
        ),
        Ok(None) => match repository {
            Some(d) => if config.auto_discover && !db.is_path_ignored(cwd) && !db.is_path_ignored(
                d.root,
            ) {
                adopted(db, d, now, config, id)
            } else {
                (db, Ok(None))
            },
            None => (db, Ok(None)),
        },
        Err(e) => (db, Err(e)),
    }
}

/// Whether a directory is to be searched for a repository before the hook handles it.
pub fn wants_discovery(storage: &Storage, cwd: &str, config: &StintConfig) -> (r: bool)
    requires
        storage.wf(),
    ensures
        r == searched(storage@, cwd@, config@),
{
    match storage.get_project_by_path(cwd) {
        Ok(None) => config.auto_discover && !storage.is_path_ignored(cwd),
        _ => false,
    }
}

/// Whether one of a project's paths is the given one.
fn is_located(paths: &Vec<String>, root: &str) -> (r: bool)
    ensures
        r == located(texts(paths@), root@),
{
    for i in 0..paths.len()
        invariant
            forall|k: int| 0 <= k < i ==> !equal_paths(#[trigger] texts(paths@)[k], root@),
    {
        if same_path(paths[i].as_str(), root) {
            assert(equal_paths(texts(paths@)[i as int], root@));
            return true;
        }
    }
    false
}

/// The project of a repository.
fn adopt(
    storage: &mut Storage,
    d: &Discovery,
    now: Timestamp,
    config: &StintConfig,
    id: &str,
) -> (r: Result<Option<Project>, StorageError>)
    requires
        old(storage).wf(),
    ensures
        final(storage).wf(),
        final(storage)@ == adopted(old(storage)@, d@, now, config@, id@).0,
        found(r, adopted(old(storage)@, d@, now, config@, id@).1),
{
    let mut paths: Vec<String> = Vec::new();
    paths.push(d.root.clone());
    let project = Project {
        id: id.to_owned(),
        name: d.name.clone(),
        paths,
        tags: clone_texts(&config.default_tags),
        hourly_rate_cents: config.default_rate_cents,
        status: ProjectStatus::Active,
        source: ProjectSource::Discovered,
        created_at: now,
        updated_at: now,
    };
    assert(texts(project.paths@) =~= seq![d@.root]);
    assert(project@ == discovered_project(d@, now, config@, id@));
    match storage.create_project(&project) {
        Ok(_) => Ok(Some(project)),
        Err(StorageError::DuplicateProjectName(_)) => match storage.get_project_by_name(
            d.name.as_str(),
        ) {
            Ok(Some(q)) => {
                if q.status == ProjectStatus::Active && is_located(&q.paths, d.root.as_str()) {
                    Ok(Some(q))
                } else {
                    Ok(None)
                }
            },
            Ok(None) => Ok(None),
            Err(e) => Err(e),
        },
        Err(e) => Err(e),
    }
}

/// Detects the project of a directory: the registered one, or that of the repository found there.
pub fn detect_or_discover(
    storage: &mut Storage,
    cwd: &str,
    now: Timestamp,
    config: &StintConfig,
    repository: &Option<Discovery>,
    id: &str,
) -> (r: Result<Option<Project>, StorageError>)
    requires
        old(storage).wf(),
    ensures
        final(storage).wf(),
        final(storage)@ == detected(
            old(storage)@,
            cwd@,
            now,
            config@,
            opt_discovery(*repository),
            id@,
        ).0,
        found(
            r,
            detected(old(storage)@, cwd@, now, config@, opt_discovery(*repository), id@).1,
        ),
{
    match storage.get_project_by_path(cwd) {
        Ok(Some(p)) => {
            if p.status == ProjectStatus::Active {
                return Ok(Some(p));
            }
            return Ok(None);
        },
        Ok(None) => {},
        Err(e) => return Err(e),
    }
    if !config.auto_discover {
        return Ok(None);
    }
    if storage.is_path_ignored(cwd) {
        return Ok(None);
    }
    match repository {
        Some(d) => {
            if storage.is_path_ignored(d.root.as_str()) {
                return Ok(None);
            }
            adopt(storage, d, now, config, id)
        },
        None => Ok(None),
    }
}

// ---------------------------------------------------------------------------
// Stale sessions
// ---------------------------------------------------------------------------
/// The age at which a session is stale, in seconds.
pub open spec fn stale_age(config: ConfigView) -> i64 {
    let twice = config.idle_threshold_secs * 2;
    if twice > i64::MAX {
        i64::MAX
    } else if twice > MIN_STALE_THRESHOLD_SECS {
        twice as i64
    } else {
        MIN_STALE_THRESHOLD_SECS
    }
}

/// Whether the time before which sessions are stale lies in the supported years.
pub open spec fn limit_in_range(now: Timestamp, config: ConfigView) -> bool {
    FIRST <= now.local() - stale_age(config) * SECOND <= LAST
}

/// The time before which the last heartbeat of a stale session lies.
pub open spec fn stale_limit(now: Timestamp, config: ConfigView) -> Timestamp {
    Timestamp::at((now.local() - stale_age(config) * SECOND) as i128, now.offset())
}

/// A session row after the stale sessions ended, each at its last heartbeat.
pub open spec fn reaped(limit: Text) -> spec_fn(SessionData) -> SessionData {
    |r: SessionData|
        if stale_at(limit)(r) {
            ShellSession {
                ended_at: opt_stamp_text(stamp_of(r.last_heartbeat)),
                ..r
            }
        } else {
            r
        }
}

/// The projects of some sessions, each once.
pub open spec fn projects_of(s: Seq<SessionView>) -> Seq<Text>
    decreases s.len(),
{
    if s.len() == 0 {
        Seq::empty()
    } else {
        let rest = projects_of(s.drop_last());
        match s.last().current_project_id {
            Some(p) => if rest.contains(p) {
                rest
            } else {
                rest.push(p)
            },
            None => rest,
        }
    }
}

/// The latest heartbeat of the sessions in a project.
pub open spec fn latest_heartbeat(s: Seq<SessionView>, project: Text) -> Option<Timestamp>
    decreases s.len(),
{
    if s.len() == 0 {
        None
    } else {
        let m = latest_heartbeat(s.drop_last(), project);
        if s.last().current_project_id == Some(project) {
            match m {
                Some(t) => if s.last().last_heartbeat.instant() > t.instant() {
                    Some(s.last().last_heartbeat)
                } else {
                    m
                },
                None => Some(s.last().last_heartbeat),
            }
        } else {
            m
        }
    }
}

/// Stops the entries of the projects that no active session is in any more, each at the latest
/// heartbeat of the given sessions.
pub open spec fn entries_stopped(db: Db, projects: Seq<Text>, s: Seq<SessionView>) -> (
    Db,
    Result<(), Fault>,
)
    decreases projects.len(),
{
    if projects.len() == 0 {
        (db, Ok(()))
    } else {
        match entries_stopped(db, projects.drop_last(), s) {
            (d, Ok(_)) => match latest_heartbeat(s, projects.last()) {
                Some(t) => if d.active_sessions(projects.last(), None) == 0 {
                    stop_hook_entry(d, projects.last(), t)
                } else {
                    (d, Ok(()))
                },
                None => (d, Ok(())),
            },
            (d, Err(e)) => (d, Err(e)),
        }
    }
}

/// Ends the sessions that are stale at a limit, each at its last heartbeat, and stops the entries of
/// the projects that no active session is in any more. The number is that of the ended sessions.
pub open spec fn reap(db: Db, limit: Timestamp) -> (Db, Result<nat, Fault>) {
    match db.stale_sessions(limit) {
        Ok(stale) => {
            let ended = Db { sessions: db.sessions.map_values(reaped(limit.text())), ..db };
            match entries_stopped(ended, projects_of(stale), stale) {
                (d, Ok(_)) => (d, Ok(stale.len())),
                (d, Err(e)) => (d, Err(e)),
            }
        },
        Err(e) => (db, Err(e)),
    }
}

/// The age at which a session is stale, in seconds: twice the idle threshold, and not less than the
/// minimum.
pub fn stale_seconds(config: &StintConfig) -> (r: i64)
    ensures
        r == stale_age(config@),
{
    let twice: i128 = (config.idle_threshold_secs as i128) * 2;
    let max: i64 = i64::MAX;
    if twice > max as i128 {
        i64::MAX
    } else if twice > MIN_STALE_THRESHOLD_SECS as i128 {
        twice as i64
    } else {
        MIN_STALE_THRESHOLD_SECS
    }
}

/// The time before which the last heartbeat of a stale session lies, where it is in the supported
/// years.
fn limit_of(now: Timestamp, config: &StintConfig) -> (r: Option<Timestamp>)
    ensures
        match r {
            Some(t) => limit_in_range(now, config@) && t == stale_limit(now, config@),
            None => !limit_in_range(now, config@),
        },
{
    match now.minus_seconds(stale_seconds(config)) {
        Some(t) => {
            proof {
                t.lemma_parts();
            }
            Some(t)
        },
        None => None,
    }
}


/// Whether some groups are the projects of some sessions with the latest heartbeat there.
spec fn grouped(g: Seq<(String, Timestamp)>, s: Seq<SessionView>) -> bool {
    &&& g.len() == projects_of(s).len()
    &&& forall|k: int|
        0 <= k < g.len() ==> (#[trigger] g[k]).0@ == projects_of(s)[k] && Some(g[k].1)
            == latest_heartbeat(s, g[k].0@)
}

/// Whether one of the first `n` rows has this identifier.
spec fn among(rows: Seq<SessionData>, n: int, id: Text) -> bool {
    exists|k: int| 0 <= k < n && (#[trigger] rows[k]).id == id
}

/// A stale row is among the stale ones, and nothing else has the identifier of one.
proof fn lemma_among(db: Db, limit: Timestamp)
    requires
        db.valid(),
    ensures
        ({
            let rows = db.stale_rows(limit);
            forall|j: int|
                0 <= j < db.sessions.len() ==> (among(rows, rows.len() as int, (
                #[trigger] db.sessions[j]).id) <==> stale_at(limit.text())(db.sessions[j]))
        }),
        forall|k: int|
            0 <= k < db.stale_rows(limit).len() ==> db.sessions.contains(
                #[trigger] db.stale_rows(limit)[k],
            ),
        all(db.stale_rows(limit), stale_at(limit.text())),
{
    let p = stale_at(limit.text());
    let rows = db.stale_rows(limit);
    lemma_filter(db.sessions, p);
    assert forall|k: int| 0 <= k < rows.len() implies db.sessions.contains(#[trigger] rows[k]) by {
        assert(rows.contains(rows[k]));
    }
    assert forall|j: int| 0 <= j < db.sessions.len() implies (among(rows, rows.len() as int, (
    #[trigger] db.sessions[j]).id) <==> p(db.sessions[j])) by {
        let r = db.sessions[j];
        if p(r) {
            assert(db.sessions.contains(r));
            assert(rows.contains(r));
            let k = choose|k: int| 0 <= k < rows.len() && rows[k] == r;
            assert(rows[k].id == r.id);
        }
        if among(rows, rows.len() as int, r.id) {
            let k = choose|k: int| 0 <= k < rows.len() && (#[trigger] rows[k]).id == r.id;
            assert(db.sessions.contains(rows[k]));
            let i = choose|i: int| 0 <= i < db.sessions.len() && db.sessions[i] == rows[k];
            if i < j {
                assert(sessions_apart()(db.sessions[i], db.sessions[j]));
            } else if j < i {
                assert(sessions_apart()(db.sessions[j], db.sessions[i]));
            }
            assert(p(rows[k]));
        }
    }
}

/// Ends stale sessions, each at its last heartbeat.
fn end_all(storage: &mut Storage, stale: &Vec<ShellSession>, Ghost(limit): Ghost<Timestamp>) -> (r:
    Result<(), StorageError>)
    requires
        old(storage).wf(),
        old(storage)@.stale_sessions(limit) == Ok::<Seq<SessionView>, Fault>(views(stale@)),
    ensures
        final(storage).wf(),
        r is Ok,
        final(storage)@ == (Db {
            sessions: old(storage)@.sessions.map_values(reaped(limit.text())),
            ..old(storage)@
        }),
{
    let ghost db = storage@;
    let ghost rows = db.stale_rows(limit);
    let ghost f = reaped(limit.text());
    proof {
        lemma_among(db, limit);
        let read = db.stale_sessions(limit)->Ok_0;
        assert(read == views(stale@));
        assert(read.len() == rows.len());
        assert forall|k: int| 0 <= k < rows.len() implies (#[trigger] stale@[k])@ == read_session(
            rows[k],
        )->Ok_0 by {
            assert(views(stale@)[k] == read[k]);
        }
    }
    for i in 0..stale.len()
        invariant
            storage.wf(),
            rows == db.stale_rows(limit),
            f == reaped(limit.text()),
            rows.len() == stale@.len(),
            all(rows, session_readable()),
            all(rows, stale_at(limit.text())),
            forall|k: int|
                0 <= k < rows.len() ==> (#[trigger] stale@[k])@ == read_session(rows[k])->Ok_0,
            forall|k: int| 0 <= k < rows.len() ==> db.sessions.contains(#[trigger] rows[k]),
            pairwise(db.sessions, sessions_apart()),
            storage@ == (Db { sessions: storage@.sessions, ..db }),
            storage@.sessions.len() == db.sessions.len(),
            forall|j: int|
                0 <= j < db.sessions.len() ==> (#[trigger] storage@.sessions[j]) == if among(
                    rows,
                    i as int,
                    db.sessions[j].id,
                ) {
                    f(db.sessions[j])
                } else {
                    db.sessions[j]
                },
    {
        let ghost before = storage@;
        let ghost x = rows[i as int];
        proof {
            assert(session_readable()(x));
            assert(stale@[i as int]@ == read_session(x)->Ok_0);
            assert(db.sessions.contains(x));
            let j = choose|j: int| 0 <= j < db.sessions.len() && db.sessions[j] == x;
            assert(before.sessions[j].id == x.id);
            assert(session_is(x.id)(before.sessions[j]));
            assert(any(before.sessions, session_is(x.id)));
        }
        let done = storage.end_session(stale[i].id.as_str(), stale[i].last_heartbeat);
        proof {
            assert(done is Ok);
            assert forall|j: int| 0 <= j < db.sessions.len() implies (
            #[trigger] storage@.sessions[j]) == if among(rows, i + 1, db.sessions[j].id) {
                f(db.sessions[j])
            } else {
                db.sessions[j]
            } by {
                let r = db.sessions[j];
                let m = before.sessions[j];
                assert(m.id == r.id);
                if r.id == x.id {
                    let n = choose|n: int| 0 <= n < db.sessions.len() && db.sessions[n] == x;
                    if n < j {
                        assert(sessions_apart()(db.sessions[n], db.sessions[j]));
                    } else if j < n {
                        assert(sessions_apart()(db.sessions[j], db.sessions[n]));
                    }
                    assert(r == x);
                    assert(rows[i as int].id == r.id);
                    assert(among(rows, i + 1, r.id));
                    assert(stale_at(limit.text())(rows[i as int]));
                    assert(storage@.sessions[j] == f(r));
                } else {
                    assert(among(rows, i + 1, r.id) == among(rows, i as int, r.id)) by {
                        if among(rows, i as int, r.id) {
                            let k = choose|k: int|
                                0 <= k < i && (#[trigger] rows[k]).id == r.id;
                            assert(rows[k].id == r.id);
                        }
                    }
                }
            }
        }
    }
    proof {
        lemma_among(db, limit);
        assert(storage@.sessions =~= db.sessions.map_values(f));
    }
    Ok(())
}

/// The projects of some sessions are those with a latest heartbeat, and each is there once.
pub proof fn lemma_projects_of(s: Seq<SessionView>, p: Text)
    ensures
        latest_heartbeat(s, p) is Some <==> projects_of(s).contains(p),
        projects_of(s).no_duplicates(),
    decreases s.len(),
{
    if s.len() > 0 {
        let rest = projects_of(s.drop_last());
        lemma_projects_of(s.drop_last(), p);
        if let Some(q) = s.last().current_project_id {
            if !rest.contains(q) {
                let v = rest.push(q);
                assert(v[rest.len() as int] == q);
                if rest.contains(p) {
                    let j = choose|j: int| 0 <= j < rest.len() && rest[j] == p;
                    assert(v[j] == p);
                }
                if v.contains(p) && p != q {
                    let j = choose|j: int| 0 <= j < v.len() && v[j] == p;
                    assert(rest[j] == p);
                }
            }
        }
    }
}

/// The projects of some sessions, each once, with the latest heartbeat there.
fn group(stale: &Vec<ShellSession>) -> (r: Vec<(String, Timestamp)>)
    ensures
        grouped(r@, views(stale@)),
{
    let ghost s = views(stale@);
    let mut r: Vec<(String, Timestamp)> = Vec::new();
    assert(s.take(0) =~= Seq::empty());
    for i in 0..stale.len()
        invariant
            s == views(stale@),
            grouped(r@, s.take(i as int)),
    {
        let ghost t = s.take(i as int);
        let ghost u = s.take(i + 1);
        let ghost ps = projects_of(t);
        proof {
            assert(u.drop_last() =~= t);
            assert(u.last() == stale@[i as int]@);
        }
        if let Some(p) = &stale[i].current_project_id {
            let at = stale[i].last_heartbeat;
            proof {
                lemma_projects_of(t, p@);
            }
            let mut k: usize = 0;
            while k < r.len() && !same_text(r[k].0.as_str(), p.as_str())
                invariant
                    k <= r@.len(),
                    forall|j: int| 0 <= j < k ==> (#[trigger] r@[j]).0@ != p@,
                decreases r@.len() - k,
            {
                k = k + 1;
            }
            let ghost g = r@;
            if k < r.len() {
                assert(ps[k as int] == p@);
                assert(ps.contains(p@));
                let latest = r[k].1;
                if at.is_after(latest) {
                    let name = r[k].0.clone();
                    r.set(k, (name, at));
                }
                assert forall|j: int| 0 <= j < r@.len() implies (#[trigger] r@[j]).0@
                    == projects_of(u)[j] && Some(r@[j].1) == latest_heartbeat(u, r@[j].0@) by {
                    assert(g[j].0@ == ps[j]);
                    if j != k {
                        assert(ps[j] != ps[k as int]);
                    }
                }
            } else {
                proof {
                    if ps.contains(p@) {
                        let j = choose|j: int| 0 <= j < ps.len() && ps[j] == p@;
                        assert(r@[j].0@ == p@);
                    }
                }
                r.push((p.clone(), at));
                assert forall|j: int| 0 <= j < r@.len() implies (#[trigger] r@[j]).0@
                    == projects_of(u)[j] && Some(r@[j].1) == latest_heartbeat(u, r@[j].0@) by {
                    if j < g.len() {
                        assert(g[j].0@ == ps[j]);
                        assert(ps.contains(ps[j]));
                    }
                }
            }
        } else {
            assert forall|j: int| 0 <= j < r@.len() implies (#[trigger] r@[j]).0@ == projects_of(
                u,
            )[j] && Some(r@[j].1) == latest_heartbeat(u, r@[j].0@) by {}
        }
    }
    assert(s.take(stale@.len() as int) =~= s);
    r
}

/// Stops the entries of the projects that no active session is in any more.
fn stop_all(storage: &mut Storage, groups: &Vec<(String, Timestamp)>, Ghost(s): Ghost<
    Seq<SessionView>,
>) -> (r: Result<(), StorageError>)
    requires
        old(storage).wf(),
        grouped(groups@, s),
    ensures
        final(storage).wf(),
        final(storage)@ == entries_stopped(old(storage)@, projects_of(s), s).0,
        as_read(r, entries_stopped(old(storage)@, projects_of(s), s).1),
{
    let ghost db = storage@;
    let ghost ps = projects_of(s);
    for i in 0..groups.len()
        invariant
            storage.wf(),
            db == old(storage)@,
            ps == projects_of(s),
            grouped(groups@, s),
            entries_stopped(db, ps.take(i as int), s) == (storage@, Ok::<(), Fault>(())),
    {
        proof {
            assert(ps.take(i + 1).drop_last() =~= ps.take(i as int));
            assert(ps.take(i + 1).last() == groups@[i as int].0@);
        }
        if storage.count_active_sessions_for_project(groups[i].0.as_str(), None) == 0 {
            match stop_hook_entry_for_project(storage, groups[i].0.as_str(), groups[i].1) {
                Ok(_) => {},
                Err(e) => {
                    proof {
                        lemma_stopped_early(db, ps, s, i + 1);
                    }
                    return Err(e);
                },
            }
        }
    }
    assert(ps.take(groups@.len() as int) =~= ps);
    Ok(())
}

/// After a refusal no further entry is stopped.
proof fn lemma_stopped_early(db: Db, projects: Seq<Text>, s: Seq<SessionView>, n: int)
    requires
        0 <= n <= projects.len(),
        entries_stopped(db, projects.take(n), s).1 is Err,
    ensures
        entries_stopped(db, projects, s) == entries_stopped(db, projects.take(n), s),
    decreases projects.len() - n,
{
    if n < projects.len() {
        assert(projects.take(n + 1).drop_last() =~= projects.take(n));
        lemma_stopped_early(db, projects, s, n + 1);
    } else {
        assert(projects.take(n) =~= projects);
    }
}

/// Ends the sessions that are stale at a limit.
fn reap_before(storage: &mut Storage, limit: Timestamp) -> (r: Result<usize, StorageError>)
    requires
        old(storage).wf(),
    ensures
        final(storage).wf(),
        final(storage)@ == reap(old(storage)@, limit).0,
        match r {
            Ok(n) => reap(old(storage)@, limit).1 == Ok::<nat, Fault>(n as nat),
            Err(e) => reap(old(storage)@, limit).1 == Err::<nat, Fault>(e@),
        },
{
    let stale = match storage.get_stale_sessions(limit) {
        Ok(v) => v,
        Err(e) => return Err(e),
    };
    let n: usize = stale.len();
    let groups = group(&stale);
    match end_all(storage, &stale, Ghost(limit)) {
        Ok(_) => {},
        Err(e) => return Err(e),
    }
    match stop_all(storage, &groups, Ghost(views(stale@))) {
        Ok(_) => Ok(n),
        Err(e) => Err(e),
    }
}

/// Ends the sessions whose last heartbeat is older than the stale age, each at its last heartbeat,
/// then stops the entries that the hook started in projects that no active session is in any more.
/// Returns how many sessions ended.
pub fn reap_stale_sessions(storage: &mut Storage, now: Timestamp, config: &StintConfig) -> (r:
    Result<usize, StintError>)
    requires
        old(storage).wf(),
        limit_in_range(now, config@),
    ensures
        final(storage).wf(),
        ({
            let s = reap(old(storage)@, stale_limit(now, config@));
            final(storage)@ == s.0 && match r {
                Ok(n) => s.1 == Ok::<nat, Fault>(n as nat),
                Err(e) => s.1 is Err && e@ == StintError::Storage(s.1->Err_0),
            }
        }),
{
    match limit_of(now, config) {
        Some(limit) => match reap_before(storage, limit) {
            Ok(n) => Ok(n),
            Err(e) => Err(StintError::Storage(e)),
        },
        None => Ok(0),
    }
}

// ---------------------------------------------------------------------------
// Prompts
// ---------------------------------------------------------------------------
/// The identifier of a project that may be absent.
pub open spec fn id_of(p: Option<ProjectView>) -> Option<Text> {
    match p {
        Some(p) => Some(p.id),
        None => None,
    }
}

/// The first prompt of a shell: stale sessions end, and a session begins, in the project of the
/// directory if there is one.
pub open spec fn cold_start(
    db: Db,
    pid: u32,
    cwd: Text,
    shell: Option<Text>,
    now: Timestamp,
    config: ConfigView,
    repository: Option<DiscoveryView>,
    ids: IdsView,
) -> (Db, Result<ActionView, Fault>) {
    let cleared = reap(db, stale_limit(now, config)).0;
    match detected(cleared, cwd, now, config, repository, ids.project) {
        (d, Ok(project)) => settled(
            d,
            ShellSession {
                id: ids.session,
                pid,
                shell,
                cwd,
                current_project_id: id_of(project),
                started_at: now,
                last_heartbeat: now,
                ended_at: None,
            },
            project,
            now,
            ids.entry,
            match project {
                Some(p) => HookAction::SessionStarted {
                    project_name: p.name,
                    session_id: ids.session,
                },
                None => HookAction::SessionCreated { session_id: ids.session },
            },
        ),
        (d, Err(e)) => (d, Err(e)),
    }
}

/// Whether a session was without a prompt for longer than the idle threshold.
pub open spec fn idle_at(s: SessionView, now: Timestamp, config: ConfigView) -> bool {
    whole_seconds(now.instant() - s.last_heartbeat.instant()) > config.idle_threshold_secs
}

/// A prompt after an idle gap: the project before is left at the last heartbeat, and the project
/// now, if any, is entered anew.
pub open spec fn resumed(
    db: Db,
    s: SessionView,
    cwd: Text,
    now: Timestamp,
    project: Option<ProjectView>,
    entry: Text,
) -> (Db, Result<ActionView, Fault>) {
    match left(db, s, s.last_heartbeat) {
        (d, Ok(_)) => settled(
            d,
            ShellSession { cwd, current_project_id: id_of(project), last_heartbeat: now, ..s },
            project,
            now,
            entry,
            match project {
                Some(p) => HookAction::IdleResume { project_name: p.name },
                None => HookAction::Heartbeat,
            },
        ),
        (d, Err(e)) => (d, Err(e)),
    }
}

/// The name of the project that a session was in.
pub open spec fn name_before(db: Db, s: SessionView) -> Result<Option<Text>, Fault> {
    match s.current_project_id {
        Some(id) => match db.get_project(id) {
            Ok(Some(p)) => Ok(Some(p.name)),
            Ok(None) => Ok(None),
            Err(e) => Err(e),
        },
        None => Ok(None),
    }
}

/// A prompt in another directory: where the project is another, the one before is left and the new
/// one, if any, is entered.
pub open spec fn moved(
    db: Db,
    s: SessionView,
    cwd: Text,
    now: Timestamp,
    project: Option<ProjectView>,
    entry: Text,
) -> (Db, Result<ActionView, Fault>) {
    if id_of(project) == s.current_project_id {
        settled(
            db,
            ShellSession { cwd, last_heartbeat: now, ..s },
            None,
            now,
            entry,
            HookAction::Heartbeat,
        )
    } else {
        match name_before(db, s) {
            Ok(from) => match left(db, s, now) {
                (d, Ok(_)) => settled(
                    d,
                    ShellSession {
                        cwd,
                        current_project_id: id_of(project),
                        last_heartbeat: now,
                        ..s
                    },
                    project,
                    now,
                    entry,
                    match (from, project) {
                        (Some(from), Some(p)) => HookAction::Switched { from, to: p.name },
                        (Some(from), None) => HookAction::Stopped { project_name: from },
                        (None, Some(p)) => HookAction::Started { project_name: p.name },
                        (None, None) => HookAction::Heartbeat,
                    },
                ),
                (d, Err(e)) => (d, Err(e)),
            },
            Err(e) => (db, Err(e)),
        }
    }
}

/// A later prompt of a shell. In the same directory without an idle gap it is a heartbeat only.
pub open spec fn warm_path(
    db: Db,
    s: SessionView,
    cwd: Text,
    now: Timestamp,
    config: ConfigView,
    repository: Option<DiscoveryView>,
    ids: IdsView,
) -> (Db, Result<ActionView, Fault>) {
    if !idle_at(s, now, config) && equal_paths(s.cwd, cwd) {
        settled(
            db,
            ShellSession { last_heartbeat: now, ..s },
            None,
            now,
            ids.entry,
            HookAction::Heartbeat,
        )
    } else {
        match detected(db, cwd, now, config, repository, ids.project) {
            (d, Ok(project)) => if idle_at(s, now, config) {
                resumed(d, s, cwd, now, project, ids.entry)
            } else {
                moved(d, s, cwd, now, project, ids.entry)
            },
            (d, Err(e)) => (d, Err(e)),
        }
    }
}

/// A prompt at a given time.
pub open spec fn prompted(
    db: Db,
    pid: u32,
    cwd: Text,
    shell: Option<Text>,
    now: Timestamp,
    config: ConfigView,
    repository: Option<DiscoveryView>,
    ids: IdsView,
) -> (Db, Result<ActionView, Fault>) {
    match db.get_session_by_pid(pid) {
        Ok(None) => cold_start(db, pid, cwd, shell, now, config, repository, ids),
        Ok(Some(s)) => warm_path(db, s, cwd, now, config, repository, ids),
        Err(e) => (db, Err(e)),
    }
}

/// Handles the first prompt of a shell.
pub fn handle_cold_start(
    storage: &mut Storage,
    pid: u32,
    cwd: &str,
    shell: Option<&str>,
    now: Timestamp,
    config: &StintConfig,
    repository: &Option<Discovery>,
    ids: &FreshIds,
) -> (r: Result<HookAction, StorageError>)
    requires
        old(storage).wf(),
        limit_in_range(now, config@),
    ensures
        final(storage).wf(),
        ({
            let s = cold_start(
                old(storage)@,
                pid,
                cwd@,
                opt_str(shell),
                now,
                config@,
                opt_discovery(*repository),
                ids@,
            );
            final(storage)@ == s.0 && as_read(r, s.1)
        }),
{
    let _ = reap_stale_sessions(storage, now, config);
    let project = match detect_or_discover(
        storage,
        cwd,
        now,
        config,
        repository,
        ids.project.as_str(),
    ) {
        Ok(p) => p,
        Err(e) => return Err(e),
    };
    let session = ShellSession {
        id: ids.session.clone(),
        pid,
        shell: match shell {
            Some(s) => Some(s.to_owned()),
            None => None,
        },
        cwd: cwd.to_owned(),
        current_project_id: match &project {
            Some(p) => Some(p.id.clone()),
            None => None,
        },
        started_at: now,
        last_heartbeat: now,
        ended_at: None,
    };
    match &project {
        Some(p) => {
            let action = HookAction::SessionStarted {
                project_name: p.name.clone(),
                session_id: ids.session.clone(),
            };
            settle(storage, &session, Some(p), now, ids.entry.as_str(), action)
        },
        None => {
            let action = HookAction::SessionCreated { session_id: ids.session.clone() };
            settle(storage, &session, None, now, ids.entry.as_str(), action)
        },
    }
}

/// A prompt after an idle gap.
fn resume(
    storage: &mut Storage,
    session: ShellSession,
    cwd: &str,
    now: Timestamp,
    project: &Option<Project>,
    entry: &str,
) -> (r: Result<HookAction, StorageError>)
    requires
        old(storage).wf(),
    ensures
        final(storage).wf(),
        ({
            let s = resumed(old(storage)@, session@, cwd@, now, opt_project(*project), entry@);
            final(storage)@ == s.0 && as_read(r, s.1)
        }),
{
    let mut session = session;
    let at = session.last_heartbeat;
    match leave(storage, &session, at) {
        Ok(_) => {},
        Err(e) => return Err(e),
    }
    session.cwd = cwd.to_owned();
    session.last_heartbeat = now;
    match project {
        Some(p) => {
            session.current_project_id = Some(p.id.clone());
            let action = HookAction::IdleResume { project_name: p.name.clone() };
            settle(storage, &session, Some(p), now, entry, action)
        },
        None => {
            session.current_project_id = None;
            settle(storage, &session, None, now, entry, HookAction::Heartbeat)
        },
    }
}

/// A project that may be absent, in contracts.
pub open spec fn opt_project(p: Option<Project>) -> Option<ProjectView> {
    match p {
        Some(p) => Some(p@),
        None => None,
    }
}

/// A prompt in another directory.
fn move_on(
    storage: &mut Storage,
    session: ShellSession,
    cwd: &str,
    now: Timestamp,
    project: &Option<Project>,
    entry: &str,
) -> (r: Result<HookAction, StorageError>)
    requires
        old(storage).wf(),
    ensures
        final(storage).wf(),
        ({
            let s = moved(old(storage)@, session@, cwd@, now, opt_project(*project), entry@);
            final(storage)@ == s.0 && as_read(r, s.1)
        }),
{
    let mut session = session;
    let id = match project {
        Some(p) => Some(p.id.clone()),
        None => None,
    };
    if same_opt(&id, &session.current_project_id) {
        session.cwd = cwd.to_owned();
        session.last_heartbeat = now;
        return settle(storage, &session, None, now, entry, HookAction::Heartbeat);
    }
    let from: Option<String> = match &session.current_project_id {
        Some(old) => match storage.get_project(old.as_str()) {
            Ok(Some(p)) => Some(p.name),
            Ok(None) => None,
            Err(e) => return Err(e),
        },
        None => None,
    };
    match leave(storage, &session, now) {
        Ok(_) => {},
        Err(e) => return Err(e),
    }
    session.cwd = cwd.to_owned();
    session.last_heartbeat = now;
    session.current_project_id = id;
    match project {
        Some(p) => {
            let action = match from {
                Some(from) => HookAction::Switched { from, to: p.name.clone() },
                None => HookAction::Started { project_name: p.name.clone() },
            };
            settle(storage, &session, Some(p), now, entry, action)
        },
        None => {
            let action = match from {
                Some(from) => HookAction::Stopped { project_name: from },
                None => HookAction::Heartbeat,
            };
            settle(storage, &session, None, now, entry, action)
        },
    }
}

/// Handles later prompts of a shell.
pub fn handle_warm_path(
    storage: &mut Storage,
    session: ShellSession,
    cwd: &str,
    now: Timestamp,
    config: &StintConfig,
    repository: &Option<Discovery>,
    ids: &FreshIds,
) -> (r: Result<HookAction, StorageError>)
    requires
        old(storage).wf(),
    ensures
        final(storage).wf(),
        ({
            let s = warm_path(
                old(storage)@,
                session@,
                cwd@,
                now,
                config@,
                opt_discovery(*repository),
                ids@,
            );
            final(storage)@ == s.0 && as_read(r, s.1)
        }),
{
    let mut session = session;
    let idle_gap: i64 = now.seconds_since(session.last_heartbeat);
    let is_idle = idle_gap > config.idle_threshold_secs;
    if !is_idle && same_path(session.cwd.as_str(), cwd) {
        session.last_heartbeat = now;
        return settle(
            storage,
            &session,
            None,
            now,
            ids.entry.as_str(),
            HookAction::Heartbeat,
        );
    }
    let project = match detect_or_discover(
        storage,
        cwd,
        now,
        config,
        repository,
        ids.project.as_str(),
    ) {
        Ok(p) => p,
        Err(e) => return Err(e),
    };
    if is_idle {
        resume(storage, session, cwd, now, &project, ids.entry.as_str())
    } else {
        move_on(storage, session, cwd, now, &project, ids.entry.as_str())
    }
}

/// Handles a prompt at a given time. On the first prompt of a shell the time before which sessions
/// are stale has to lie in the supported years; where it does not, nothing is done.
pub fn handle_hook_at(
    storage: &mut Storage,
    pid: u32,
    cwd: &str,
    shell: Option<&str>,
    now: Timestamp,
    config: &StintConfig,
    repository: &Option<Discovery>,
    ids: &FreshIds,
) -> (r: Result<HookAction, StintError>)
    requires
        old(storage).wf(),
    ensures
        final(storage).wf(),
        handled(
            old(storage)@,
            pid,
            cwd@,
            opt_str(shell),
            now,
            config@,
            opt_discovery(*repository),
            ids@,
            r,
            final(storage)@,
        ),
{
    let r = match storage.get_session_by_pid(pid) {
        Ok(None) => {
            if limit_of(now, config).is_none() {
                return Err(StintError::TimeOutOfRange);
            }
            handle_cold_start(storage, pid, cwd, shell, now, config, repository, ids)
        },
        Ok(Some(s)) => handle_warm_path(storage, s, cwd, now, config, repository, ids),
        Err(e) => Err(e),
    };
    match r {
        Ok(a) => Ok(a),
        Err(e) => Err(StintError::Storage(e)),
    }
}

/// Whether a request was answered as the store came out.
pub open spec fn answered<T: View>(
    r: Result<T, StintError>,
    expected: Result<T::V, Fault>,
) -> bool {
    match r {
        Ok(x) => expected == Ok::<T::V, Fault>(x@),
        Err(e) => expected is Err && e@ == StintError::Storage(expected->Err_0),
    }
}

/// Handles a prompt: detects the project of the directory, keeps the session of the shell, and
/// starts, stops and switches timers. `repository` is what a search of the directory and those
/// above it found.
///
/// The time is that of the clock.
pub fn handle_hook(
    storage: &mut Storage,
    pid: u32,
    cwd: &str,
    shell: Option<&str>,
    config: &StintConfig,
    repository: &Option<Discovery>,
    ids: &FreshIds,
) -> (r: Result<HookAction, StintError>)
    requires
        old(storage).wf(),
    ensures
        final(storage).wf(),
        exists|now: Timestamp| #[trigger]
            now.offset() == 0 && handled(
                old(storage)@,
                pid,
                cwd@,
                opt_str(shell),
                now,
                config@,
                opt_discovery(*repository),
                ids@,
                r,
                final(storage)@,
            ),
{
    let now = Timestamp::now_utc();
    let r = handle_hook_at(storage, pid, cwd, shell, now, config, repository, ids);
    assert(now.offset() == 0);
    r
}

/// Whether a prompt at a given time was handled.
pub open spec fn handled(
    db: Db,
    pid: u32,
    cwd: Text,
    shell: Option<Text>,
    now: Timestamp,
    config: ConfigView,
    repository: Option<DiscoveryView>,
    ids: IdsView,
    r: Result<HookAction, StintError>,
    to: Db,
) -> bool {
    if !limit_in_range(now, config) && db.get_session_by_pid(pid) == Ok::<
        Option<SessionView>,
        Fault,
    >(None) {
        to == db && r is Err && r->Err_0 is TimeOutOfRange
    } else {
        let s = prompted(db, pid, cwd, shell, now, config, repository, ids);
        to == s.0 && answered(r, s.1)
    }
}

// ---------------------------------------------------------------------------
// Exit
// ---------------------------------------------------------------------------
/// The session that an exit is about: the one named, if it is still active; without a name the
/// active one of the process.
pub open spec fn exiting(db: Db, pid: u32, session_id: Option<Text>) -> Result<
    Option<SessionView>,
    Fault,
> {
    match session_id {
        Some(id) => match db.get_session(id) {
            Ok(Some(s)) => Ok(
                if s.ended_at is None {
                    Some(s)
                } else {
                    None
                },
            ),
            Ok(None) => Ok(None),
            Err(e) => Err(e),
        },
        None => db.get_session_by_pid(pid),
    }
}

/// When an exiting session ends: at its last heartbeat where it was idle.
pub open spec fn exit_time(s: SessionView, now: Timestamp, config: ConfigView) -> Timestamp {
    if idle_at(s, now, config) {
        s.last_heartbeat
    } else {
        now
    }
}

/// The exit of a shell at a given time: its session ends and its project is left.
pub open spec fn exited(
    db: Db,
    pid: u32,
    session_id: Option<Text>,
    now: Timestamp,
    config: ConfigView,
) -> (Db, Result<(), Fault>) {
    match exiting(db, pid, session_id) {
        Ok(Some(s)) => {
            let at = exit_time(s, now, config);
            match db.end_session(s.id, at) {
                Ok(d) => left(d, s, at),
                Err(e) => (db, Err(e)),
            }
        },
        Ok(None) => (db, Ok(())),
        Err(e) => (db, Err(e)),
    }
}

/// Handles the exit of a shell at a given time.
pub fn handle_hook_exit_at(
    storage: &mut Storage,
    pid: u32,
    session_id: Option<&str>,
    now: Timestamp,
    config: &StintConfig,
) -> (r: Result<(), StintError>)
    requires
        old(storage).wf(),
    ensures
        final(storage).wf(),
        ({
            let s = exited(old(storage)@, pid, opt_str(session_id), now, config@);
            final(storage)@ == s.0 && answered(r, s.1)
        }),
{
    let known = match session_id {
        Some(id) => storage.get_session(id),
        None => storage.get_session_by_pid(pid),
    };
    let session = match known {
        Ok(Some(s)) => s,
        Ok(None) => return Ok(()),
        Err(e) => return Err(StintError::Storage(e)),
    };
    if session_id.is_some() && session.ended_at.is_some() {
        return Ok(());
    }
    let idle_gap: i64 = now.seconds_since(session.last_heartbeat);
    let at = if idle_gap > config.idle_threshold_secs {
        session.last_heartbeat
    } else {
        now
    };
    match storage.end_session(session.id.as_str(), at) {
        Ok(_) => {},
        Err(e) => return Err(StintError::Storage(e)),
    }
    match leave(storage, &session, at) {
        Ok(_) => Ok(()),
        Err(e) => Err(StintError::Storage(e)),
    }
}

/// Handles the exit of a shell: ends its session and stops the timer of its project, unless another
/// session is there. `session_id` is what the first prompt of the shell gave out; it keeps an exit
/// from ending the session of a later process with the same identifier. The time is that of the
/// clock.
pub fn handle_hook_exit(
    storage: &mut Storage,
    pid: u32,
    session_id: Option<&str>,
    config: &StintConfig,
) -> (r: Result<(), StintError>)
    requires
        old(storage).wf(),
    ensures
        final(storage).wf(),
        exists|now: Timestamp|
            {
                let s = #[trigger] exited(old(storage)@, pid, opt_str(session_id), now, config@);
                now.offset() == 0 && final(storage)@ == s.0 && answered(r, s.1)
            },
{
    let now = Timestamp::now_utc();
    handle_hook_exit_at(storage, pid, session_id, now, config)
}

} // verus!
