//! The records that the tracker keeps.
//!
//! Each record is generic in how it writes text (`S`), lists of text (`L`) and points in time
//! (`T`). With the defaults it is the record that callers handle. With `String` for `T` it is a
//! stored row, whose times are RFC 3339 texts.
use crate::clock::{whole_seconds, Timestamp};
use crate::text::{clone_opt, clone_texts, opt_text, same_text, texts};
use vstd::prelude::*;

verus! {

/// A text in contracts.
pub type Text = Seq<char>;

/// Identifies a project.
pub type ProjectId = String;

/// Identifies a time entry.
pub type EntryId = String;

/// Identifies a shell session.
pub type SessionId = String;

/// Whether a project is in use.
#[derive(Clone, Copy, PartialEq, Eq, Structural, Debug)]
pub enum ProjectStatus {
    /// Tracked and listed.
    Active,
    /// Hidden from the default listing, and not tracked.
    Archived,
}

/// How a project came to be registered.
#[derive(Clone, Copy, PartialEq, Eq, Structural, Debug)]
pub enum ProjectSource {
    /// Registered by the user.
    Manual,
    /// Found through a repository directory.
    Discovered,
}

/// How a time entry came to be.
#[derive(Clone, Copy, PartialEq, Eq, Structural, Debug)]
pub enum EntrySource {
    /// Started by the user.
    Manual,
    /// Started by the shell hook.
    Hook,
    /// Added after the fact.
    Added,
}

/// A project.
#[derive(Clone, PartialEq, Eq, Debug)]
pub struct Project<S = String, L = Vec<String>, T = Timestamp> {
    pub id: S,
    pub name: S,
    pub paths: L,
    pub tags: L,
    pub hourly_rate_cents: Option<i64>,
    pub status: ProjectStatus,
    pub source: ProjectSource,
    pub created_at: T,
    pub updated_at: T,
}

/// A span of tracked time, still running where it has no end.
#[derive(Clone, PartialEq, Eq, Debug)]
pub struct TimeEntry<S = String, L = Vec<String>, T = Timestamp> {
    pub id: S,
    pub project_id: S,
    pub session_id: Option<S>,
    pub start: T,
    pub end: Option<T>,
    pub duration_secs: Option<i64>,
    pub source: EntrySource,
    pub notes: Option<S>,
    pub tags: L,
    pub created_at: T,
    pub updated_at: T,
}

/// A shell that reports its prompts, still active where it has no end.
#[derive(Clone, PartialEq, Eq, Debug)]
pub struct ShellSession<S = String, T = Timestamp> {
    pub id: S,
    pub pid: u32,
    pub shell: Option<S>,
    pub cwd: S,
    pub current_project_id: Option<S>,
    pub started_at: T,
    pub last_heartbeat: T,
    pub ended_at: Option<T>,
}

/// Which entries to list. What is absent or empty does not restrict.
#[derive(Clone, PartialEq, Eq, Debug)]
pub struct EntryFilter<S = String, L = Vec<String>, T = Timestamp> {
    pub project_id: Option<S>,
    pub from: Option<T>,
    pub to: Option<T>,
    pub source: Option<EntrySource>,
    pub tags: L,
}

/// A project in contracts.
pub type ProjectView = Project<Text, Seq<Text>, Timestamp>;

/// A time entry in contracts.
pub type EntryView = TimeEntry<Text, Seq<Text>, Timestamp>;

/// A session in contracts.
pub type SessionView = ShellSession<Text, Timestamp>;

/// A filter in contracts.
pub type FilterView = EntryFilter<Text, Seq<Text>, Timestamp>;

/// A stored project in contracts.
pub type ProjectData = Project<Text, Seq<Text>, Text>;

/// A stored time entry in contracts.
pub type EntryData = TimeEntry<Text, Seq<Text>, Text>;

/// A stored session in contracts.
pub type SessionData = ShellSession<Text, Text>;

/// A stored project.
pub type ProjectRow = Project<String, Vec<String>, String>;

/// A stored time entry.
pub type EntryRow = TimeEntry<String, Vec<String>, String>;

/// A stored session.
pub type SessionRow = ShellSession<String, String>;

impl View for Project {
    type V = ProjectView;

    open spec fn view(&self) -> ProjectView {
        Project {
            id: self.id@,
            name: self.name@,
            paths: texts(self.paths@),
            tags: texts(self.tags@),
            hourly_rate_cents: self.hourly_rate_cents,
            status: self.status,
            source: self.source,
            created_at: self.created_at,
            updated_at: self.updated_at,
        }
    }
}

impl View for Project<String, Vec<String>, String> {
    type V = ProjectData;

    open spec fn view(&self) -> ProjectData {
        Project {
            id: self.id@,
            name: self.name@,
            paths: texts(self.paths@),
            tags: texts(self.tags@),
            hourly_rate_cents: self.hourly_rate_cents,
            status: self.status,
            source: self.source,
            created_at: self.created_at@,
            updated_at: self.updated_at@,
        }
    }
}

impl View for TimeEntry {
    type V = EntryView;

    open spec fn view(&self) -> EntryView {
        TimeEntry {
            id: self.id@,
            project_id: self.project_id@,
            session_id: opt_text(self.session_id),
            start: self.start,
            end: self.end,
            duration_secs: self.duration_secs,
            source: self.source,
            notes: opt_text(self.notes),
            tags: texts(self.tags@),
            created_at: self.created_at,
            updated_at: self.updated_at,
        }
    }
}

impl View for TimeEntry<String, Vec<String>, String> {
    type V = EntryData;

    open spec fn view(&self) -> EntryData {
        TimeEntry {
            id: self.id@,
            project_id: self.project_id@,
            session_id: opt_text(self.session_id),
            start: self.start@,
            end: opt_text(self.end),
            duration_secs: self.duration_secs,
            source: self.source,
            notes: opt_text(self.notes),
            tags: texts(self.tags@),
            created_at: self.created_at@,
            updated_at: self.updated_at@,
        }
    }
}

impl View for ShellSession {
    type V = SessionView;

    open spec fn view(&self) -> SessionView {
        ShellSession {
            id: self.id@,
            pid: self.pid,
            shell: opt_text(self.shell),
            cwd: self.cwd@,
            current_project_id: opt_text(self.current_project_id),
            started_at: self.started_at,
            last_heartbeat: self.last_heartbeat,
            ended_at: self.ended_at,
        }
    }
}

impl View for ShellSession<String, String> {
    type V = SessionData;

    open spec fn view(&self) -> SessionData {
        ShellSession {
            id: self.id@,
            pid: self.pid,
            shell: opt_text(self.shell),
            cwd: self.cwd@,
            current_project_id: opt_text(self.current_project_id),
            started_at: self.started_at@,
            last_heartbeat: self.last_heartbeat@,
            ended_at: opt_text(self.ended_at),
        }
    }
}

impl View for EntryFilter {
    type V = FilterView;

    open spec fn view(&self) -> FilterView {
        EntryFilter {
            project_id: opt_text(self.project_id),
            from: self.from,
            to: self.to,
            source: self.source,
            tags: texts(self.tags@),
        }
    }
}

impl ProjectStatus {
    /// The stored name.
    pub open spec fn word(self) -> Text {
        match self {
            ProjectStatus::Active => "active"@,
            ProjectStatus::Archived => "archived"@,
        }
    }

    /// The stored name.
    pub fn as_str(self) -> (r: &'static str)
        ensures
            r@ == self.word(),
    {
        match self {
            ProjectStatus::Active => "active",
            ProjectStatus::Archived => "archived",
        }
    }
}

impl ProjectSource {
    /// The stored name.
    pub open spec fn word(self) -> Text {
        match self {
            ProjectSource::Manual => "manual"@,
            ProjectSource::Discovered => "discovered"@,
        }
    }

    /// The stored name.
    pub fn as_str(self) -> (r: &'static str)
        ensures
            r@ == self.word(),
    {
        match self {
            ProjectSource::Manual => "manual",
            ProjectSource::Discovered => "discovered",
        }
    }
}

impl EntrySource {
    /// The stored name.
    pub open spec fn word(self) -> Text {
        match self {
            EntrySource::Manual => "manual"@,
            EntrySource::Hook => "hook"@,
            EntrySource::Added => "added"@,
        }
    }

    /// The stored name.
    pub fn as_str(self) -> (r: &'static str)
        ensures
            r@ == self.word(),
    {
        match self {
            EntrySource::Manual => "manual",
            EntrySource::Hook => "hook",
            EntrySource::Added => "added",
        }
    }
}

/// The status that a stored name stands for; an unknown name counts as active.
pub open spec fn status_of(word: Text) -> ProjectStatus {
    if word == "archived"@ {
        ProjectStatus::Archived
    } else {
        ProjectStatus::Active
    }
}

/// The source that a stored name stands for; an unknown name counts as manual.
pub open spec fn project_source_of(word: Text) -> ProjectSource {
    if word == "discovered"@ {
        ProjectSource::Discovered
    } else {
        ProjectSource::Manual
    }
}

/// The source that a stored name stands for; an unknown name counts as manual.
pub open spec fn entry_source_of(word: Text) -> EntrySource {
    if word == "hook"@ {
        EntrySource::Hook
    } else if word == "added"@ {
        EntrySource::Added
    } else {
        EntrySource::Manual
    }
}

/// Reads a stored status.
pub fn read_status(word: &str) -> (r: ProjectStatus)
    ensures
        r == status_of(word@),
{
    if same_text(word, "archived") {
        ProjectStatus::Archived
    } else {
        ProjectStatus::Active
    }
}

/// Reads a stored project source.
pub fn read_project_source(word: &str) -> (r: ProjectSource)
    ensures
        r == project_source_of(word@),
{
    if same_text(word, "discovered") {
        ProjectSource::Discovered
    } else {
        ProjectSource::Manual
    }
}

/// Reads a stored entry source.
pub fn read_entry_source(word: &str) -> (r: EntrySource)
    ensures
        r == entry_source_of(word@),
{
    if same_text(word, "hook") {
        EntrySource::Hook
    } else if same_text(word, "added") {
        EntrySource::Added
    } else {
        EntrySource::Manual
    }
}

/// The stored names stand for what they were made from.
pub proof fn law_words_read_back(status: ProjectStatus, project: ProjectSource, entry: EntrySource)
    ensures
        status_of(status.word()) == status,
        project_source_of(project.word()) == project,
        entry_source_of(entry.word()) == entry,
{
    reveal_strlit("active");
    reveal_strlit("archived");
    reveal_strlit("manual");
    reveal_strlit("discovered");
    reveal_strlit("hook");
    reveal_strlit("added");
    assert("active"@.len() != "archived"@.len());
    assert("manual"@.len() != "discovered"@.len());
    assert("manual"@.len() != "hook"@.len());
    assert("manual"@.len() != "added"@.len());
    assert("hook"@.len() != "added"@.len());
}

/// The length of an entry in seconds: the recorded one, else the time from start to end, nothing
/// while it runs.
pub open spec fn entry_seconds(e: EntryView) -> Option<int> {
    match e.duration_secs {
        Some(d) => Some(d as int),
        None => match e.end {
            Some(t) => Some(whole_seconds(t.instant() - e.start.instant())),
            None => None,
        },
    }
}

impl TimeEntry {
    /// Whether the entry has no end yet.
    pub fn is_running(&self) -> (r: bool)
        ensures
            r == (self@.end is None),
    {
        self.end.is_none()
    }

    /// The length of the entry in seconds: the recorded one, else the time from start to end,
    /// nothing while it runs.
    pub fn computed_duration_secs(&self) -> (r: Option<i64>)
        ensures
            match r {
                Some(d) => entry_seconds(self@) == Some(d as int),
                None => entry_seconds(self@) is None,
            },
    {
        match self.duration_secs {
            Some(d) => Some(d),
            None => match self.end {
                Some(t) => Some(t.seconds_since(self.start)),
                None => None,
            },
        }
    }

    /// A copy.
    pub fn copy(&self) -> (r: TimeEntry)
        ensures
            r@ == self@,
    {
        TimeEntry {
            id: self.id.clone(),
            project_id: self.project_id.clone(),
            session_id: clone_opt(&self.session_id),
            start: self.start,
            end: self.end,
            duration_secs: self.duration_secs,
            source: self.source,
            notes: clone_opt(&self.notes),
            tags: clone_texts(&self.tags),
            created_at: self.created_at,
            updated_at: self.updated_at,
        }
    }
}

impl Project {
    /// A copy.
    pub fn copy(&self) -> (r: Project)
        ensures
            r@ == self@,
    {
        Project {
            id: self.id.clone(),
            name: self.name.clone(),
            paths: clone_texts(&self.paths),
            tags: clone_texts(&self.tags),
            hourly_rate_cents: self.hourly_rate_cents,
            status: self.status,
            source: self.source,
            created_at: self.created_at,
            updated_at: self.updated_at,
        }
    }
}

impl Default for EntryFilter {
    /// The filter that lists every entry.
    fn default() -> (r: EntryFilter)
        ensures
            r@ == (EntryFilter {
                project_id: None::<Text>,
                from: None::<Timestamp>,
                to: None::<Timestamp>,
                source: None,
                tags: Seq::<Text>::empty(),
            }),
    {
        let r = EntryFilter {
            project_id: None,
            from: None,
            to: None,
            source: None,
            tags: Vec::new(),
        };
        assert(texts(r.tags@) =~= Seq::<Text>::empty());
        r
    }
}

} // verus!
