//! The HTTP interface: what each request is answered.
use crate::accounts::{
    belongs, has_entry, is_picked, is_project, law_listed, law_listed_in_order, law_named_project,
    lemma_entry_ids, lemma_found_project, lemma_one_project, picks,
};
use crate::cli::elapsed;
use crate::clock::{stamp_of, Timestamp};
use crate::db::{
    by_name, project_has, project_readable, projects_apart, read_entry, running, Db, Fault,
};
use crate::error::{fault_text, refusal_text, Refusal};
use crate::models::{
    entry_seconds, entry_source_of, law_words_read_back, project_source_of, status_of, EntryData,
    EntryFilter, EntrySource, EntryView, FilterView, Project, ProjectData, ProjectSource,
    ProjectStatus, ProjectView, Text,
};
use crate::prompts::lasts;
use crate::readback::law_lists;
use crate::rows::{any, first, first_at, lemma_all_kept, lemma_filter, lemma_first, views};
use crate::service::{
    get_entries, get_status, law_entries_have_projects, named_project, pairs, resolve_project,
    running_pair, start_timer, stop_timer, timer_started, timer_stopped, Pair, PairView,
};
use crate::storage::Storage;
use crate::text::{
    before, cat3, clone_opt, clone_texts, folded, lemma_before_total, opt_text, texts,
};
use vstd::prelude::*;

verus! {

/// The most entries that one request gets.
pub const MAX_LIMIT: usize = 10_000;

/// The request was answered.
pub const OK: u16 = 200;

/// Something was created.
pub const CREATED: u16 = 201;

/// The request is at fault.
pub const BAD_REQUEST: u16 = 400;

/// The store is at fault.
pub const INTERNAL_SERVER_ERROR: u16 = 500;

// ---------------------------------------------------------------------------
// Requests and answers
// ---------------------------------------------------------------------------
/// That the server is there.
#[derive(Clone, Copy, PartialEq, Eq, Structural, Debug)]
pub struct Health {
    pub ok: bool,
}

/// What is being tracked.
#[derive(PartialEq, Eq, Debug)]
pub struct StatusResponse<S = String> {
    pub tracking: bool,
    pub project: Option<S>,
    pub elapsed_secs: Option<i64>,
    pub entry_id: Option<S>,
    pub started_at: Option<S>,
}

/// A time entry.
#[derive(PartialEq, Eq, Debug)]
pub struct EntryResponse<S = String, L = Vec<String>> {
    pub id: S,
    pub project: S,
    pub start: S,
    pub end: Option<S>,
    pub duration_secs: Option<i64>,
    pub source: S,
    pub notes: Option<S>,
    pub tags: L,
    pub running: bool,
}

/// A project.
#[derive(PartialEq, Eq, Debug)]
pub struct ProjectResponse<S = String, L = Vec<String>> {
    pub id: S,
    pub name: S,
    pub paths: L,
    pub tags: L,
    pub hourly_rate_cents: Option<i64>,
    pub status: S,
    pub source: S,
}

/// Which entries are asked for.
#[derive(PartialEq, Eq, Debug)]
pub struct EntriesQuery<S = String> {
    pub from: Option<S>,
    pub to: Option<S>,
    pub project: Option<S>,
    pub limit: Option<usize>,
}

/// Which project to start a timer for.
#[derive(PartialEq, Eq, Debug)]
pub struct StartRequest {
    pub project: String,
}

/// Why a request was refused.
#[derive(PartialEq, Eq, Debug)]
pub struct ErrorResponse<S = String> {
    pub error: S,
}

/// An answer: its status code, and what it holds.
#[derive(PartialEq, Eq, Debug)]
pub struct Reply<T, S = String> {
    pub status: u16,
    pub body: Result<T, ErrorResponse<S>>,
}

/// What is being tracked, in contracts.
pub type StatusView = StatusResponse<Text>;

/// A time entry in contracts.
pub type EntryReplyView = EntryResponse<Text, Seq<Text>>;

/// A project in contracts.
pub type ProjectReplyView = ProjectResponse<Text, Seq<Text>>;

/// Which entries are asked for, in contracts.
pub type QueryView = EntriesQuery<Text>;

impl View for StatusResponse {
    type V = StatusView;

    open spec fn view(&self) -> StatusView {
        StatusResponse {
            tracking: self.tracking,
            project: opt_text(self.project),
            elapsed_secs: self.elapsed_secs,
            entry_id: opt_text(self.entry_id),
            started_at: opt_text(self.started_at),
        }
    }
}

impl View for EntryResponse {
    type V = EntryReplyView;

    open spec fn view(&self) -> EntryReplyView {
        EntryResponse {
            id: self.id@,
            project: self.project@,
            start: self.start@,
            end: opt_text(self.end),
            duration_secs: self.duration_secs,
            source: self.source@,
            notes: opt_text(self.notes),
            tags: texts(self.tags@),
            running: self.running,
        }
    }
}

impl View for ProjectResponse {
    type V = ProjectReplyView;

    open spec fn view(&self) -> ProjectReplyView {
        ProjectResponse {
            id: self.id@,
            name: self.name@,
            paths: texts(self.paths@),
            tags: texts(self.tags@),
            hourly_rate_cents: self.hourly_rate_cents,
            status: self.status@,
            source: self.source@,
        }
    }
}

impl View for EntriesQuery {
    type V = QueryView;

    open spec fn view(&self) -> QueryView {
        EntriesQuery {
            from: opt_text(self.from),
            to: opt_text(self.to),
            project: opt_text(self.project),
            limit: self.limit,
        }
    }
}

/// An answer with contents.
pub open spec fn given<V>(status: u16, x: V) -> Reply<V, Text> {
    Reply { status, body: Ok(x) }
}

/// An answer that says why the request was refused.
pub open spec fn denied<V>(status: u16, error: Text) -> Reply<V, Text> {
    Reply { status, body: Err(ErrorResponse { error }) }
}

/// Whether an answer is as stated.
pub open spec fn answers<T: View>(r: Reply<T>, expected: Reply<T::V, Text>) -> bool {
    &&& r.status == expected.status
    &&& match r.body {
        Ok(x) => expected.body == Ok::<T::V, ErrorResponse<Text>>(x@),
        Err(e) => expected.body == Err::<T::V, ErrorResponse<Text>>(
            ErrorResponse { error: e.error@ },
        ),
    }
}

/// Whether an answer with a list is as stated.
pub open spec fn answers_list<T: View>(r: Reply<Vec<T>>, expected: Reply<Seq<T::V>, Text>) -> bool {
    &&& r.status == expected.status
    &&& match r.body {
        Ok(v) => expected.body == Ok::<Seq<T::V>, ErrorResponse<Text>>(views(v@)),
        Err(e) => expected.body == Err::<Seq<T::V>, ErrorResponse<Text>>(
            ErrorResponse { error: e.error@ },
        ),
    }
}

/// An answer that says why the request was refused.
fn error_response<T>(status: u16, error: String) -> (r: Reply<T>)
    ensures
        r.status == status,
        r.body matches Err(e) && e.error@ == error@,
{
    Reply { status, body: Err(ErrorResponse { error }) }
}

/// Answers that the server is there.
pub fn health() -> (r: Reply<Health>)
    ensures
        r == (Reply::<Health> { status: OK, body: Ok(Health { ok: true }) }),
{
    Reply { status: OK, body: Ok(Health { ok: true }) }
}

// ---------------------------------------------------------------------------
// Status
// ---------------------------------------------------------------------------
/// What is being tracked at a given time.
pub open spec fn status_body(running: Option<PairView>, now: Timestamp) -> StatusView {
    match running {
        Some((e, p)) => StatusResponse {
            tracking: true,
            project: Some(p.name),
            elapsed_secs: Some(elapsed(e.start, now) as i64),
            entry_id: Some(e.id),
            started_at: Some(e.start.text()),
        },
        None => StatusResponse {
            tracking: false,
            project: None,
            elapsed_secs: None,
            entry_id: None,
            started_at: None,
        },
    }
}

/// The answer to a request for the status.
pub open spec fn status_reply(db: Db, now: Timestamp) -> Reply<StatusView, Text> {
    match running_pair(db) {
        Ok(running) => given(OK, status_body(running, now)),
        Err(e) => denied(INTERNAL_SERVER_ERROR, refusal_text(e)),
    }
}

/// Answers what is being tracked at a given time.
pub fn status_at(storage: &Storage, now: Timestamp) -> (r: Reply<StatusResponse>)
    requires
        storage.wf(),
    ensures
        answers(r, status_reply(storage@, now)),
{
    match get_status(storage) {
        Ok(Some((entry, project))) => {
            let secs: i64 = now.seconds_since(entry.start);
            let started = entry.start.rfc3339();
            Reply {
                status: OK,
                body: Ok(
                    StatusResponse {
                        tracking: true,
                        project: Some(project.name),
                        elapsed_secs: Some(secs),
                        entry_id: Some(entry.id),
                        started_at: Some(started),
                    },
                ),
            }
        },
        Ok(None) => Reply {
            status: OK,
            body: Ok(
                StatusResponse {
                    tracking: false,
                    project: None,
                    elapsed_secs: None,
                    entry_id: None,
                    started_at: None,
                },
            ),
        },
        Err(e) => error_response(INTERNAL_SERVER_ERROR, e.message()),
    }
}

/// Answers what is being tracked, at the time of the clock.
pub fn status(storage: &Storage) -> (r: Reply<StatusResponse>)
    requires
        storage.wf(),
    ensures
        exists|now: Timestamp|
            now.offset() == 0 && answers(r, #[trigger] status_reply(storage@, now)),
{
    let now = Timestamp::now_utc();
    status_at(storage, now)
}

// ---------------------------------------------------------------------------
// Entries
// ---------------------------------------------------------------------------
/// An optional time as it is written.
pub open spec fn opt_written(t: Option<Timestamp>) -> Option<Text> {
    match t {
        Some(t) => Some(t.text()),
        None => None,
    }
}

/// The seconds of an entry as they fit in the answer; none where there are none.
pub open spec fn opt_seconds(e: EntryView) -> Option<i64> {
    match entry_seconds(e) {
        Some(n) => Some(n as i64),
        None => None,
    }
}

/// An entry as it is answered: where it runs, its length is the time up to now.
pub open spec fn entry_body(pair: PairView, now: Timestamp) -> EntryReplyView {
    let (e, p) = pair;
    EntryResponse {
        id: e.id,
        project: p.name,
        start: e.start.text(),
        end: opt_written(e.end),
        duration_secs: if e.end is None {
            Some(elapsed(e.start, now) as i64)
        } else {
            opt_seconds(e)
        },
        source: e.source.word(),
        notes: e.notes,
        tags: e.tags,
        running: e.end is None,
    }
}

/// How many entries are answered.
pub open spec fn limit_of(limit: Option<usize>, len: nat) -> nat {
    let asked = match limit {
        Some(n) => n as nat,
        None => len,
    };
    let n = if asked < MAX_LIMIT {
        asked
    } else {
        MAX_LIMIT as nat
    };
    if n < len {
        n
    } else {
        len
    }
}

/// The entries that are answered.
pub open spec fn entry_bodies(s: Seq<PairView>, limit: Option<usize>, now: Timestamp) -> Seq<
    EntryReplyView,
> {
    Seq::new(limit_of(limit, s.len()), |i: int| entry_body(s[i], now))
}

/// What is said of a limit that is not in RFC 3339.
pub open spec fn bad_date(which: Text, s: Text) -> Text {
    "invalid '"@ + which + "' date: '"@ + s + "' (expected RFC 3339)"@
}

/// The time that a query gives as a limit.
pub open spec fn query_time(which: Text, s: Option<Text>) -> Result<Option<Timestamp>, Text> {
    match s {
        Some(s) => match stamp_of(s) {
            Some(t) => Ok(Some(t)),
            None => Err(bad_date(which, s)),
        },
        None => Ok(None),
    }
}

/// The project that a query gives.
pub open spec fn query_project(db: Db, name: Option<Text>) -> Result<Option<Text>, Text> {
    match name {
        Some(n) => match named_project(db, n) {
            Ok(p) => Ok(Some(p.id)),
            Err(e) => Err(refusal_text(e)),
        },
        None => Ok(None),
    }
}

/// The filter that a query asks for; the first fault in it is told.
pub open spec fn query_filter(db: Db, q: QueryView) -> Result<FilterView, Text> {
    match query_project(db, q.project) {
        Ok(project_id) => match query_time("from"@, q.from) {
            Ok(from) => match query_time("to"@, q.to) {
                Ok(to) => Ok(
                    EntryFilter { project_id, from, to, source: None, tags: Seq::empty() },
                ),
                Err(e) => Err(e),
            },
            Err(e) => Err(e),
        },
        Err(e) => Err(e),
    }
}

/// The answer to a request for entries.
pub open spec fn entries_reply(db: Db, q: QueryView, now: Timestamp) -> Reply<
    Seq<EntryReplyView>,
    Text,
> {
    match query_filter(db, q) {
        Ok(f) => match pairs(db, f) {
            Ok(s) => given(OK, entry_bodies(s, q.limit, now)),
            Err(e) => denied(INTERNAL_SERVER_ERROR, refusal_text(e)),
        },
        Err(e) => denied(BAD_REQUEST, e),
    }
}

fn write_opt(t: &Option<Timestamp>) -> (r: Option<String>)
    ensures
        opt_text(r) == opt_written(*t),
{
    match t {
        Some(t) => Some(t.rfc3339()),
        None => None,
    }
}

fn entry_response(pair: &Pair, now: Timestamp) -> (r: EntryResponse)
    ensures
        r@ == entry_body(pair@, now),
{
    let e = &pair.0;
    let running = e.is_running();
    let duration_secs = if running {
        Some(now.seconds_since(e.start))
    } else {
        e.computed_duration_secs()
    };
    EntryResponse {
        id: e.id.clone(),
        project: pair.1.name.clone(),
        start: e.start.rfc3339(),
        end: write_opt(&e.end),
        duration_secs,
        source: e.source.as_str().to_owned(),
        notes: clone_opt(&e.notes),
        tags: clone_texts(&e.tags),
        running,
    }
}

fn read_time(which: &str, s: &Option<String>) -> (r: Result<Option<Timestamp>, String>)
    ensures
        match r {
            Ok(t) => query_time(which@, opt_text(*s)) == Ok::<Option<Timestamp>, Text>(t),
            Err(e) => query_time(which@, opt_text(*s)) == Err::<Option<Timestamp>, Text>(e@),
        },
{
    match s {
        Some(s) => match Timestamp::parse(s.as_str()) {
            Some(t) => Ok(Some(t)),
            None => {
                let mut m = cat3("invalid '", which, "' date: '");
                m.append(s.as_str());
                m.append("' (expected RFC 3339)");
                Err(m)
            },
        },
        None => Ok(None),
    }
}

fn read_query(storage: &Storage, q: &EntriesQuery) -> (r: Result<EntryFilter, String>)
    requires
        storage.wf(),
    ensures
        match r {
            Ok(f) => query_filter(storage@, q@) == Ok::<FilterView, Text>(f@),
            Err(e) => query_filter(storage@, q@) == Err::<FilterView, Text>(e@),
        },
{
    let mut filter: EntryFilter = Default::default();
    if let Some(name) = &q.project {
        match resolve_project(storage, name.as_str()) {
            Ok(p) => {
                filter.project_id = Some(p.id);
            },
            Err(e) => return Err(e.message()),
        }
    }
    match read_time("from", &q.from) {
        Ok(t) => {
            filter.from = t;
        },
        Err(e) => return Err(e),
    }
    match read_time("to", &q.to) {
        Ok(t) => {
            filter.to = t;
        },
        Err(e) => return Err(e),
    }
    Ok(filter)
}

/// Answers which entries a query asks for, at a given time.
pub fn entries_at(storage: &Storage, query: &EntriesQuery, now: Timestamp) -> (r: Reply<
    Vec<EntryResponse>,
>)
    requires
        storage.wf(),
    ensures
        answers_list(r, entries_reply(storage@, query@, now)),
{
    let filter = match read_query(storage, query) {
        Ok(f) => f,
        Err(e) => return error_response(BAD_REQUEST, e),
    };
    match get_entries(storage, &filter) {
        Ok(list) => {
            let ghost s = views(list@);
            let asked: usize = match query.limit {
                Some(n) => n,
                None => list.len(),
            };
            let capped: usize = if asked < MAX_LIMIT {
                asked
            } else {
                MAX_LIMIT
            };
            let n: usize = if capped < list.len() {
                capped
            } else {
                list.len()
            };
            let mut out: Vec<EntryResponse> = Vec::new();
            for i in 0..n
                invariant
                    s == views(list@),
                    n <= list@.len(),
                    out@.len() == i,
                    forall|k: int| 0 <= k < i ==> (#[trigger] out@[k])@ == entry_body(s[k], now),
            {
                out.push(entry_response(&list[i], now));
            }
            assert(views(out@) =~= entry_bodies(s, query@.limit, now));
            Reply { status: OK, body: Ok(out) }
        },
        Err(e) => error_response(INTERNAL_SERVER_ERROR, e.message()),
    }
}

/// Answers which entries a query asks for, at the time of the clock.
pub fn entries(storage: &Storage, query: &EntriesQuery) -> (r: Reply<Vec<EntryResponse>>)
    requires
        storage.wf(),
    ensures
        exists|now: Timestamp|
            now.offset() == 0 && answers_list(r, #[trigger] entries_reply(storage@, query@, now)),
{
    let now = Timestamp::now_utc();
    entries_at(storage, query, now)
}

/// No more entries are answered than the limit, and never more than the most that one request gets;
/// without a limit, and up to that, all of them are.
pub proof fn law_limit(s: Seq<PairView>, limit: Option<usize>, now: Timestamp)
    ensures
        entry_bodies(s, limit, now).len() <= MAX_LIMIT,
        limit matches Some(n) ==> entry_bodies(s, limit, now).len() <= n,
        limit is None && s.len() <= MAX_LIMIT ==> entry_bodies(s, limit, now).len() == s.len(),
{
}

// ---------------------------------------------------------------------------
// Projects
// ---------------------------------------------------------------------------
/// A project as it is answered.
pub open spec fn project_body(p: ProjectView) -> ProjectReplyView {
    ProjectResponse {
        id: p.id,
        name: p.name,
        paths: p.paths,
        tags: p.tags,
        hourly_rate_cents: p.hourly_rate_cents,
        status: p.status.word(),
        source: p.source.word(),
    }
}

/// The answer to a request for the projects.
pub open spec fn projects_reply(db: Db) -> Reply<Seq<ProjectReplyView>, Text> {
    match db.list_projects(None) {
        Ok(s) => given(OK, Seq::new(s.len(), |i: int| project_body(s[i]))),
        Err(e) => denied(INTERNAL_SERVER_ERROR, fault_text(e)),
    }
}

fn project_response(p: &Project) -> (r: ProjectResponse)
    ensures
        r@ == project_body(p@),
{
    ProjectResponse {
        id: p.id.clone(),
        name: p.name.clone(),
        paths: clone_texts(&p.paths),
        tags: clone_texts(&p.tags),
        hourly_rate_cents: p.hourly_rate_cents,
        status: p.status.as_str().to_owned(),
        source: p.source.as_str().to_owned(),
    }
}

/// Answers which projects there are.
pub fn projects(storage: &Storage) -> (r: Reply<Vec<ProjectResponse>>)
    requires
        storage.wf(),
    ensures
        answers_list(r, projects_reply(storage@)),
{
    match storage.list_projects(None) {
        Ok(list) => {
            let ghost s = views(list@);
            let mut out: Vec<ProjectResponse> = Vec::new();
            for i in 0..list.len()
                invariant
                    s == views(list@),
                    out@.len() == i,
                    forall|k: int| 0 <= k < i ==> (#[trigger] out@[k])@ == project_body(s[k]),
            {
                out.push(project_response(&list[i]));
            }
            assert(views(out@) =~= Seq::new(s.len(), |i: int| project_body(s[i])));
            Reply { status: OK, body: Ok(out) }
        },
        Err(e) => error_response(INTERNAL_SERVER_ERROR, e.message()),
    }
}

// ---------------------------------------------------------------------------
// Timers
// ---------------------------------------------------------------------------
/// An entry that was just started, as it is answered.
pub open spec fn started_body(pair: PairView) -> EntryReplyView {
    let (e, p) = pair;
    EntryResponse {
        id: e.id,
        project: p.name,
        start: e.start.text(),
        end: None,
        duration_secs: Some(0),
        source: e.source.word(),
        notes: e.notes,
        tags: e.tags,
        running: true,
    }
}

/// An entry that was just stopped, as it is answered.
pub open spec fn stopped_body(pair: PairView) -> EntryReplyView {
    let (e, p) = pair;
    EntryResponse {
        id: e.id,
        project: p.name,
        start: e.start.text(),
        end: opt_written(e.end),
        duration_secs: e.duration_secs,
        source: e.source.word(),
        notes: e.notes,
        tags: e.tags,
        running: false,
    }
}

/// The answer to a request to start a timer.
pub open spec fn start_reply(r: Result<PairView, Refusal>) -> Reply<EntryReplyView, Text> {
    match r {
        Ok(pair) => given(CREATED, started_body(pair)),
        Err(e) => denied(BAD_REQUEST, refusal_text(e)),
    }
}

/// The answer to a request to stop the timer.
pub open spec fn stop_reply(r: Result<PairView, Refusal>) -> Reply<EntryReplyView, Text> {
    match r {
        Ok(pair) => given(OK, stopped_body(pair)),
        Err(e) => denied(BAD_REQUEST, refusal_text(e)),
    }
}

/// Starts a timer at a given time.
pub fn start_at(storage: &mut Storage, body: &StartRequest, now: Timestamp, id: &str) -> (r: Reply<
    EntryResponse,
>)
    requires
        old(storage).wf(),
    ensures
        final(storage).wf(),
        ({
            let s = timer_started(old(storage)@, body.project@, now, id@);
            final(storage)@ == s.0 && answers(r, start_reply(s.1))
        }),
{
    match start_timer(storage, body.project.as_str(), now, id) {
        Ok((entry, project)) => {
            let start = entry.start.rfc3339();
            let source = entry.source.as_str().to_owned();
            Reply {
                status: CREATED,
                body: Ok(
                    EntryResponse {
                        id: entry.id,
                        project: project.name,
                        start,
                        end: None,
                        duration_secs: Some(0),
                        source,
                        notes: entry.notes,
                        tags: entry.tags,
                        running: true,
                    },
                ),
            }
        },
        Err(e) => error_response(BAD_REQUEST, e.message()),
    }
}

/// Stops the timer at a given time.
pub fn stop_at(storage: &mut Storage, now: Timestamp) -> (r: Reply<EntryResponse>)
    requires
        old(storage).wf(),
    ensures
        final(storage).wf(),
        ({
            let s = timer_stopped(old(storage)@, now);
            final(storage)@ == s.0 && answers(r, stop_reply(s.1))
        }),
{
    match stop_timer(storage, now) {
        Ok((entry, project)) => {
            let start = entry.start.rfc3339();
            let end = write_opt(&entry.end);
            let source = entry.source.as_str().to_owned();
            Reply {
                status: OK,
                body: Ok(
                    EntryResponse {
                        id: entry.id,
                        project: project.name,
                        start,
                        end,
                        duration_secs: entry.duration_secs,
                        source,
                        notes: entry.notes,
                        tags: entry.tags,
                        running: false,
                    },
                ),
            }
        },
        Err(e) => error_response(BAD_REQUEST, e.message()),
    }
}

/// Starts a timer, at the time of the clock.
pub fn start(storage: &mut Storage, body: &StartRequest, id: &str) -> (r: Reply<EntryResponse>)
    requires
        old(storage).wf(),
    ensures
        final(storage).wf(),
        exists|now: Timestamp|
            {
                let s = #[trigger] timer_started(old(storage)@, body.project@, now, id@);
                now.offset() == 0 && final(storage)@ == s.0 && answers(r, start_reply(s.1))
            },
{
    let now = Timestamp::now_utc();
    start_at(storage, body, now, id)
}

/// Stops the timer, at the time of the clock.
pub fn stop(storage: &mut Storage) -> (r: Reply<EntryResponse>)
    requires
        old(storage).wf(),
    ensures
        final(storage).wf(),
        exists|now: Timestamp|
            {
                let s = #[trigger] timer_stopped(old(storage)@, now);
                now.offset() == 0 && final(storage)@ == s.0 && answers(r, stop_reply(s.1))
            },
{
    let now = Timestamp::now_utc();
    stop_at(storage, now)
}

// ---------------------------------------------------------------------------
// Laws
// ---------------------------------------------------------------------------
/// Whether an answer tells of an entry and its project: what is stored of it, and its length, which
/// is the time up to now while it runs.
pub open spec fn tells(b: EntryReplyView, e: EntryView, p: ProjectView, now: Timestamp) -> bool {
    &&& b.id == e.id
    &&& b.project == p.name
    &&& b.start == e.start.text()
    &&& match (b.end, e.end) {
        (Some(x), Some(t)) => x == t.text(),
        (None, None) => true,
        _ => false,
    }
    &&& entry_source_of(b.source) == e.source
    &&& b.notes == e.notes
    &&& b.tags == e.tags
    &&& b.running == (e.end is None)
    &&& match e.end {
        None => b.duration_secs matches Some(d) && lasts(e.start, now, d),
        Some(t) => match e.duration_secs {
            Some(d) => b.duration_secs == Some(d),
            None => b.duration_secs matches Some(d) && lasts(e.start, t, d),
        },
    }
}

/// Whether an answer tells of a stored entry that a query asks for: one of the project with the name
/// that is given, that does not start before `from` and starts before `to`.
pub open spec fn asked_for(db: Db, q: QueryView, b: EntryReplyView, now: Timestamp) -> bool {
    exists|k: int, p: ProjectView|
        0 <= k < db.entries.len() && is_project(db, p) && #[trigger] wanted(
            q,
            db.entries[k],
            p,
        ) && tells(b, read_entry(db.entries[k])->Ok_0, p, now)
}

/// Whether a query asks for a stored entry of a project.
pub open spec fn wanted(q: QueryView, r: EntryData, p: ProjectView) -> bool {
    &&& r.project_id == p.id
    &&& q.project matches Some(name) ==> folded(p.name) == folded(name)
    &&& q.from matches Some(s) ==> (stamp_of(s) matches Some(t) && !before(r.start, t.text()))
    &&& q.to matches Some(s) ==> (stamp_of(s) matches Some(t) && before(r.start, t.text()))
}

/// Where entries are answered, each of them is a stored entry that the query asks for. No more come
/// than the limit and than the most that one request gets; where fewer come, every stored entry that
/// the query asks for is among them.
pub proof fn law_entries_answered(db: Db, q: QueryView, now: Timestamp, v: Seq<EntryReplyView>)
    requires
        db.valid(),
        db.readable(),
        entries_reply(db, q, now).body == Ok::<Seq<EntryReplyView>, ErrorResponse<Text>>(v),
    ensures
        entries_reply(db, q, now).status == 200,
        forall|i: int| 0 <= i < v.len() ==> asked_for(db, q, #[trigger] v[i], now),
        v.len() <= 10_000,
        q.limit matches Some(n) ==> v.len() <= n,
        v.len() < 10_000 && (q.limit matches Some(n) ==> v.len() < n) ==> forall|
            k: int,
            p: ProjectView,
        |
            0 <= k < db.entries.len() && is_project(db, p) && #[trigger] wanted(
                q,
                db.entries[k],
                p,
            ) ==> answered_with(v, db.entries[k].id),
{
    assert forall|i: int| 0 <= i < v.len() implies asked_for(db, q, #[trigger] v[i], now) by {
        lemma_answer(db, q, now, v, i);
    }
    if v.len() < 10_000 && (q.limit matches Some(n) ==> v.len() < n) {
        assert forall|k: int, p: ProjectView|
            0 <= k < db.entries.len() && is_project(db, p) && #[trigger] wanted(
                q,
                db.entries[k],
                p,
            ) implies answered_with(v, db.entries[k].id) by {
            lemma_complete(db, q, now, v, k, p);
        }
    }
}

/// Whether an entry is among those that are answered.
pub open spec fn answered_with(v: Seq<EntryReplyView>, id: Text) -> bool {
    exists|i: int| 0 <= i < v.len() && (#[trigger] v[i]).id == id
}

proof fn lemma_answer(db: Db, q: QueryView, now: Timestamp, v: Seq<EntryReplyView>, i: int)
    requires
        db.valid(),
        db.readable(),
        entries_reply(db, q, now).body == Ok::<Seq<EntryReplyView>, ErrorResponse<Text>>(v),
        0 <= i < v.len(),
    ensures
        asked_for(db, q, v[i], now),
{
    let f = query_filter(db, q)->Ok_0;
    let s = pairs(db, f)->Ok_0;
    law_listed(db, f);
    let (e, p) = s[i];
    assert(is_picked(db, f, s[i].0));
    assert(belongs(db, s[i].0, s[i].1));
    let k = choose|k: int|
        0 <= k < db.entries.len() && picks(f, #[trigger] db.entries[k]) && read_entry(db.entries[k])
            == Ok::<EntryView, Fault>(e);
    if let Some(name) = q.project {
        law_named_project(db, name);
        lemma_one_project(db, named_project(db, name)->Ok_0, p);
    }
    lemma_wanted(db, q, k, p);
    law_words_read_back(ProjectStatus::Active, ProjectSource::Manual, e.source);
    assert(v[i] == entry_body(s[i], now));
    assert(wanted(q, db.entries[k], p));
    assert(tells(v[i], e, p, now));
}

proof fn lemma_complete(
    db: Db,
    q: QueryView,
    now: Timestamp,
    v: Seq<EntryReplyView>,
    k: int,
    p: ProjectView,
)
    requires
        db.valid(),
        db.readable(),
        entries_reply(db, q, now).body == Ok::<Seq<EntryReplyView>, ErrorResponse<Text>>(v),
        v.len() < 10_000,
        q.limit matches Some(n) ==> v.len() < n,
        0 <= k < db.entries.len(),
        is_project(db, p),
        wanted(q, db.entries[k], p),
    ensures
        answered_with(v, db.entries[k].id),
{
    let f = query_filter(db, q)->Ok_0;
    let s = pairs(db, f)->Ok_0;
    law_listed(db, f);
    if let Some(name) = q.project {
        law_named_project(db, name);
        lemma_one_project(db, named_project(db, name)->Ok_0, p);
    }
    lemma_wanted(db, q, k, p);
    assert(picks(f, db.entries[k]));
    assert(has_entry(s, db.entries[k].id));
    let i = choose|i: int| 0 <= i < s.len() && (#[trigger] s[i]).0.id == db.entries[k].id;
    assert(v.len() == s.len());
    assert(v[i] == entry_body(s[i], now));
    assert(v[i].id == db.entries[k].id);
}

/// No entry is answered twice, and those that come later did not start later.
pub proof fn law_answers_in_order(
    db: Db,
    q: QueryView,
    now: Timestamp,
    v: Seq<EntryReplyView>,
    i: int,
    j: int,
    a: int,
    b: int,
)
    requires
        db.valid(),
        entries_reply(db, q, now).body == Ok::<Seq<EntryReplyView>, ErrorResponse<Text>>(v),
        0 <= i < j < v.len(),
        0 <= a < db.entries.len(),
        0 <= b < db.entries.len(),
        db.entries[a].id == v[i].id,
        db.entries[b].id == v[j].id,
    ensures
        a != b,
        !before(db.entries[a].start, db.entries[b].start),
{
    let f = query_filter(db, q)->Ok_0;
    let s = pairs(db, f)->Ok_0;
    assert(v[i] == entry_body(s[i], now));
    assert(v[j] == entry_body(s[j], now));
    law_listed_in_order(db, f, i, j, a, b);
    lemma_entry_ids(db, a, b);
}

/// Where a limit leaves an entry out that the query asks for, it is not one that starts later than one
/// that is answered.
pub proof fn law_limited_to_latest(
    db: Db,
    q: QueryView,
    now: Timestamp,
    v: Seq<EntryReplyView>,
    i: int,
    a: int,
    k: int,
    p: ProjectView,
)
    requires
        db.valid(),
        db.readable(),
        entries_reply(db, q, now).body == Ok::<Seq<EntryReplyView>, ErrorResponse<Text>>(v),
        0 <= i < v.len(),
        0 <= a < db.entries.len(),
        db.entries[a].id == v[i].id,
        0 <= k < db.entries.len(),
        is_project(db, p),
        wanted(q, db.entries[k], p),
        !answered_with(v, db.entries[k].id),
    ensures
        !before(db.entries[a].start, db.entries[k].start),
{
    let f = query_filter(db, q)->Ok_0;
    let s = pairs(db, f)->Ok_0;
    law_listed(db, f);
    if let Some(name) = q.project {
        law_named_project(db, name);
        lemma_one_project(db, named_project(db, name)->Ok_0, p);
    }
    lemma_wanted(db, q, k, p);
    assert(picks(f, db.entries[k]));
    assert(has_entry(s, db.entries[k].id));
    let j = choose|j: int| 0 <= j < s.len() && (#[trigger] s[j]).0.id == db.entries[k].id;
    assert(v[i] == entry_body(s[i], now));
    if j < v.len() {
        assert(v[j] == entry_body(s[j], now));
        assert(v[j].id == db.entries[k].id);
    }
    law_listed_in_order(db, f, i, j, a, k);
}

/// The status and the projects are always answered, in a store whose times can be read.
pub proof fn law_always_answered(db: Db, now: Timestamp)
    requires
        db.valid(),
        db.readable(),
    ensures
        status_reply(db, now).body is Ok,
        status_reply(db, now).status == 200,
        projects_reply(db).body is Ok,
        projects_reply(db).status == 200,
{
    broadcast use vstd::seq_lib::group_to_multiset_ensures;

    let f = EntryFilter { project_id: None, from: None, to: None, source: None, tags: Seq::empty() };
    law_entries_have_projects(db, f);
    law_lists(db, None, f);
    let rows = db.project_rows(None);
    let s = db.projects.filter(project_has(None));
    lemma_filter(db.projects, project_has(None));
    assert forall|i: int| 0 <= i < rows.len() implies project_readable()(#[trigger] rows[i]) by {
        assert(rows.contains(rows[i]));
        assert(rows.to_multiset().count(rows[i]) > 0);
        assert(s.contains(rows[i]));
        assert(db.projects.contains(rows[i]));
        let k = choose|k: int| 0 <= k < db.projects.len() && db.projects[k] == rows[i];
        assert(project_readable()(db.projects[k]));
    }
}

/// What a query asks for is what its filter lets through.
proof fn lemma_wanted(db: Db, q: QueryView, k: int, p: ProjectView)
    requires
        query_filter(db, q) is Ok,
        0 <= k < db.entries.len(),
        db.entries[k].project_id == p.id,
        q.project matches Some(name) ==> ({
            let named = named_project(db, name)->Ok_0;
            (named.id == p.id <==> folded(p.name) == folded(name))
        }),
    ensures
        picks(query_filter(db, q)->Ok_0, db.entries[k]) <==> wanted(q, db.entries[k], p),
{
    let r = db.entries[k];
    if let Some(s) = q.from {
        lemma_before_total(r.start, stamp_of(s)->Some_0.text());
    }
}

/// A query is refused as a bad request where it names no stored project, or where one of its times
/// is not in RFC 3339; otherwise it is answered, in a store whose times can be read.
pub proof fn law_query_refused(db: Db, q: QueryView, now: Timestamp)
    requires
        db.valid(),
        db.readable(),
    ensures
        ({
            let r = entries_reply(db, q, now);
            let bad = {
                ||| q.project matches Some(name) && !exists|p: ProjectView| #[trigger]
                    is_project(db, p) && folded(p.name) == folded(name)
                ||| q.from matches Some(s) && stamp_of(s) is None
                ||| q.to matches Some(s) && stamp_of(s) is None
            };
            if bad {
                r.status == 400 && r.body is Err
            } else {
                r.status == 200 && r.body is Ok
            }
        }),
{
    if let Some(name) = q.project {
        law_named_project(db, name);
    }
    if let Ok(f) = query_filter(db, q) {
        law_entries_have_projects(db, f);
    }
}

/// What is told of the status: whether some entry is running, and of the one that is told, its
/// project, its start and the time since.
pub proof fn law_status_told(db: Db, now: Timestamp, b: StatusView)
    requires
        db.valid(),
        db.readable(),
        status_reply(db, now).body == Ok::<StatusView, ErrorResponse<Text>>(b),
    ensures
        status_reply(db, now).status == 200,
        b.tracking <==> exists|k: int|
            0 <= k < db.entries.len() && (#[trigger] db.entries[k]).end is None,
        b.tracking ==> exists|k: int, p: ProjectView|
            0 <= k < db.entries.len() && db.entries[k].end is None && #[trigger] belongs(
                db,
                read_entry(db.entries[k])->Ok_0,
                p,
            ) && {
                let e = read_entry(db.entries[k])->Ok_0;
                &&& b.project == Some(p.name)
                &&& b.entry_id == Some(e.id)
                &&& b.started_at == Some(e.start.text())
                &&& b.elapsed_secs matches Some(d) && lasts(e.start, now, d)
            },
        !b.tracking ==> b.project is None && b.elapsed_secs is None && b.entry_id is None
            && b.started_at is None,
{
    lemma_first(db.entries, running());
    if any(db.entries, running()) {
        let k = choose|k: int|
            #[trigger] first_at(db.entries, running(), k) && first(db.entries, running()) == Some(
                db.entries[k],
            );
        assert(running()(db.entries[k]));
        let (e, p) = running_pair(db)->Ok_0->Some_0;
        lemma_found_project(db, e, p);
        assert(belongs(db, read_entry(db.entries[k])->Ok_0, p));
    } else {
        assert forall|k: int| 0 <= k < db.entries.len() implies (#[trigger] db.entries[k]).end
            is Some by {
            assert(!running()(db.entries[k]));
        }
    }
}

/// What is told of a timer that was started or stopped is what is stored of it, and the code says
/// whether it was done.
pub proof fn law_timer_told(r: Result<PairView, Refusal>, now: Timestamp)
    ensures
        match (r, start_reply(r).body) {
            (Ok((e, p)), Ok(b)) => {
                &&& start_reply(r).status == 201
                &&& b.id == e.id && b.project == p.name && b.start == e.start.text() && b.running
                    && b.end is None && b.notes == e.notes && b.tags == e.tags && b.duration_secs
                    == Some(0i64) && entry_source_of(b.source) == e.source
            },
            (Err(_), Err(_)) => start_reply(r).status == 400,
            _ => false,
        },
        match (r, stop_reply(r).body) {
            (Ok((e, p)), Ok(b)) => {
                &&& stop_reply(r).status == 200
                &&& e.end is Some && e.duration_secs is Some ==> tells(
                    EntryResponse { running: e.end is None, ..b },
                    e,
                    p,
                    now,
                ) && !b.running
            },
            (Err(_), Err(_)) => stop_reply(r).status == 400,
            _ => false,
        },
{
    if let Ok((e, p)) = r {
        law_words_read_back(ProjectStatus::Active, ProjectSource::Manual, e.source);
    }
}

/// The projects that are answered are the stored ones, by name, with all that is stored of them.
pub proof fn law_projects_answered(db: Db, v: Seq<ProjectReplyView>)
    requires
        db.valid(),
        projects_reply(db).body == Ok::<Seq<ProjectReplyView>, ErrorResponse<Text>>(v),
    ensures
        projects_reply(db).status == 200,
        v.len() == db.projects.len(),
        forall|i: int| 0 <= i < v.len() ==> told_project(db, #[trigger] v[i]),
        forall|i: int, j: int|
            0 <= i < j < v.len() ==> before(
                folded((#[trigger] v[i]).name),
                folded((#[trigger] v[j]).name),
            ),
{
    broadcast use vstd::seq_lib::group_to_multiset_ensures;

    let rows = db.project_rows(None);
    let s = db.projects.filter(project_has(None));
    lemma_filter(db.projects, project_has(None));
    law_lists(
        db,
        None,
        EntryFilter { project_id: None, from: None, to: None, source: None, tags: Seq::empty() },
    );
    assert forall|i: int| 0 <= i < db.projects.len() implies project_has(None)(
        #[trigger] db.projects[i],
    ) by {}
    lemma_all_kept(db.projects, project_has(None));
    assert(s == db.projects);
    assert(rows.len() == rows.to_multiset().len());
    assert forall|i: int| 0 <= i < v.len() implies told_project(db, #[trigger] v[i]) by {
        assert(rows.contains(rows[i]));
        assert(rows.to_multiset().count(rows[i]) > 0);
        assert(s.contains(rows[i]));
        let k = choose|k: int| 0 <= k < db.projects.len() && db.projects[k] == rows[i];
        assert(project_readable()(rows[i]));
        law_words_read_back(db.projects[k].status, db.projects[k].source, EntrySource::Manual);
        assert(tells_project(v[i], db.projects[k]));
    }
    assert(s.no_duplicates()) by {
        assert forall|i: int, j: int| 0 <= i < s.len() && 0 <= j < s.len() && i != j implies s[i]
            != s[j] by {
            if i < j {
                assert(projects_apart()(s[i], s[j]));
            } else {
                assert(projects_apart()(s[j], s[i]));
            }
        }
    }
    s.lemma_multiset_has_no_duplicates();
    rows.lemma_multiset_has_no_duplicates_conv();
    assert forall|i: int, j: int| 0 <= i < j < v.len() implies before(
        folded((#[trigger] v[i]).name),
        folded((#[trigger] v[j]).name),
    ) by {
        assert(rows.contains(rows[i]) && rows.contains(rows[j]));
        assert(rows.to_multiset().count(rows[i]) > 0);
        assert(rows.to_multiset().count(rows[j]) > 0);
        assert(s.contains(rows[i]) && s.contains(rows[j]));
        let a = choose|k: int| 0 <= k < db.projects.len() && db.projects[k] == rows[i];
        let b = choose|k: int| 0 <= k < db.projects.len() && db.projects[k] == rows[j];
        assert(a != b);
        if a < b {
            assert(projects_apart()(db.projects[a], db.projects[b]));
        } else {
            assert(projects_apart()(db.projects[b], db.projects[a]));
        }
        assert(!by_name()(rows[j], rows[i]));
        lemma_before_total(folded(rows[i].name), folded(rows[j].name));
        assert(project_readable()(rows[i]) && project_readable()(rows[j]));
    }
}

/// Whether an answer tells of a stored project.
pub open spec fn told_project(db: Db, b: ProjectReplyView) -> bool {
    exists|k: int| 0 <= k < db.projects.len() && tells_project(b, #[trigger] db.projects[k])
}

/// Whether an answer tells what is stored of a project.
pub open spec fn tells_project(b: ProjectReplyView, r: ProjectData) -> bool {
    &&& b.id == r.id && b.name == r.name && b.paths == r.paths && b.tags == r.tags
    &&& b.hourly_rate_cents == r.hourly_rate_cents
    &&& status_of(b.status) == r.status
    &&& project_source_of(b.source) == r.source
}

} // verus!
