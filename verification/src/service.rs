//! Timers and entries by project name.
use crate::clock::{Timestamp, FIRST, LAST, SECOND};
use crate::db::{
    entries_apart, entry_is, entry_readable, entry_sound, latest_first, project_is, project_named,
    project_readable, read_entry, running, running_in, selected, Db, Fault, StorageError,
};
use crate::error::{Refusal, StintError};
use crate::hook::stopped;
use crate::models::{
    EntryFilter, EntrySource, EntryView, FilterView, Project, ProjectStatus, ProjectView, Text,
    TimeEntry,
};
use crate::readback::{law_created_entry, reads_back, stored_entry};
use crate::rows::{
    all, any, first, first_at, lemma_filter, lemma_first, lemma_first_found, lemma_sorted, views,
};
use crate::storage::Storage;
use crate::text::{folded, opt_str, texts};
use crate::upkeep::{law_create_entry_keeps_rules, law_update_entry_keeps_rules};
use vstd::prelude::*;

verus! {

/// An entry with its project, in contracts.
pub type PairView = (EntryView, ProjectView);

/// An entry with its project.
pub type Pair = (TimeEntry, Project);

/// Whether a request was answered as stated.
pub open spec fn replied<T: View>(r: Result<T, StintError>, expected: Result<T::V, Refusal>) -> bool {
    match r {
        Ok(x) => expected == Ok::<T::V, Refusal>(x@),
        Err(e) => expected == Err::<T::V, Refusal>(e@),
    }
}

/// Whether a request for something that may be absent was answered as stated.
pub open spec fn replied_opt<T: View>(
    r: Result<Option<T>, StintError>,
    expected: Result<Option<T::V>, Refusal>,
) -> bool {
    match r {
        Ok(Some(x)) => expected == Ok::<Option<T::V>, Refusal>(Some(x@)),
        Ok(None) => expected == Ok::<Option<T::V>, Refusal>(None),
        Err(e) => expected == Err::<Option<T::V>, Refusal>(e@),
    }
}

/// Whether a request for a list was answered as stated.
pub open spec fn replied_list<T: View>(
    r: Result<Vec<T>, StintError>,
    expected: Result<Seq<T::V>, Refusal>,
) -> bool {
    match r {
        Ok(v) => expected == Ok::<Seq<T::V>, Refusal>(views(v@)),
        Err(e) => expected == Err::<Seq<T::V>, Refusal>(e@),
    }
}

// ---------------------------------------------------------------------------
// Entries with their projects
// ---------------------------------------------------------------------------
/// An entry with its project.
pub open spec fn with_project(db: Db, e: EntryView) -> Result<PairView, Refusal> {
    match db.get_project(e.project_id) {
        Ok(Some(p)) => Ok((e, p)),
        Ok(None) => Err(StintError::ProjectNotFound(e.project_id)),
        Err(x) => Err(StintError::Storage(x)),
    }
}

/// An entry that may be absent, with its project.
pub open spec fn opt_with_project(db: Db, e: Result<Option<EntryView>, Fault>) -> Result<
    Option<PairView>,
    Refusal,
> {
    match e {
        Ok(Some(e)) => match with_project(db, e) {
            Ok(pair) => Ok(Some(pair)),
            Err(x) => Err(x),
        },
        Ok(None) => Ok(None),
        Err(x) => Err(StintError::Storage(x)),
    }
}

/// Entries with their projects.
pub open spec fn paired(db: Db, s: Seq<EntryView>) -> Result<Seq<PairView>, Refusal>
    decreases s.len(),
{
    if s.len() == 0 {
        Ok(Seq::empty())
    } else {
        match paired(db, s.drop_last()) {
            Ok(v) => match with_project(db, s.last()) {
                Ok(pair) => Ok(v.push(pair)),
                Err(e) => Err(e),
            },
            Err(e) => Err(e),
        }
    }
}

/// What is being tracked: a running entry with its project.
pub open spec fn running_pair(db: Db) -> Result<Option<PairView>, Refusal> {
    opt_with_project(db, db.get_any_running_entry())
}

/// The entry with the latest start, with its project.
pub open spec fn last_pair(db: Db) -> Result<Option<PairView>, Refusal> {
    opt_with_project(db, db.get_last_entry())
}

/// The entries that a filter lets through, with their projects.
pub open spec fn pairs(db: Db, f: FilterView) -> Result<Seq<PairView>, Refusal> {
    match db.list_entries(f) {
        Ok(s) => paired(db, s),
        Err(e) => Err(StintError::Storage(e)),
    }
}

/// The project with a name.
pub open spec fn named_project(db: Db, name: Text) -> Result<ProjectView, Refusal> {
    match db.get_project_by_name(name) {
        Ok(Some(p)) => Ok(p),
        Ok(None) => Err(StintError::ProjectNotFound(name)),
        Err(e) => Err(StintError::Storage(e)),
    }
}

fn attach(storage: &Storage, e: TimeEntry) -> (r: Result<Pair, StintError>)
    requires
        storage.wf(),
    ensures
        replied(r, with_project(storage@, e@)),
{
    match storage.get_project(e.project_id.as_str()) {
        Ok(Some(p)) => Ok((e, p)),
        Ok(None) => Err(StintError::ProjectNotFound(e.project_id)),
        Err(x) => Err(StintError::Storage(x)),
    }
}

fn attach_opt(storage: &Storage, e: Result<Option<TimeEntry>, StorageError>, Ghost(g): Ghost<
    Result<Option<EntryView>, Fault>,
>) -> (r: Result<Option<Pair>, StintError>)
    requires
        storage.wf(),
        crate::storage::found(e, g),
    ensures
        replied_opt(r, opt_with_project(storage@, g)),
{
    match e {
        Ok(Some(e)) => match attach(storage, e) {
            Ok(pair) => Ok(Some(pair)),
            Err(x) => Err(x),
        },
        Ok(None) => Ok(None),
        Err(x) => Err(StintError::Storage(x)),
    }
}

/// What is being tracked: a running entry with its project.
pub fn get_status(storage: &Storage) -> (r: Result<Option<Pair>, StintError>)
    requires
        storage.wf(),
    ensures
        replied_opt(r, running_pair(storage@)),
{
    attach_opt(storage, storage.get_any_running_entry(), Ghost(storage@.get_any_running_entry()))
}

/// The entry with the latest start, with its project.
pub fn get_last_entry(storage: &Storage) -> (r: Result<Option<Pair>, StintError>)
    requires
        storage.wf(),
    ensures
        replied_opt(r, last_pair(storage@)),
{
    attach_opt(storage, storage.get_last_entry(), Ghost(storage@.get_last_entry()))
}

proof fn lemma_paired_early(db: Db, s: Seq<EntryView>, n: int)
    requires
        0 <= n <= s.len(),
        paired(db, s.take(n)) is Err,
    ensures
        paired(db, s) == paired(db, s.take(n)),
    decreases s.len() - n,
{
    if n < s.len() {
        assert(s.take(n + 1).drop_last() =~= s.take(n));
        lemma_paired_early(db, s, n + 1);
    } else {
        assert(s.take(n) =~= s);
    }
}

/// The entries that a filter lets through, with their projects, the latest start first.
pub fn get_entries(storage: &Storage, filter: &EntryFilter) -> (r: Result<Vec<Pair>, StintError>)
    requires
        storage.wf(),
    ensures
        replied_list(r, pairs(storage@, filter@)),
{
    let list = match storage.list_entries(filter) {
        Ok(v) => v,
        Err(e) => return Err(StintError::Storage(e)),
    };
    let ghost s = views(list@);
    let ghost db = storage@;
    let mut out: Vec<Pair> = Vec::new();
    assert(views(out@) =~= Seq::<PairView>::empty());
    for i in 0..list.len()
        invariant
            storage.wf(),
            db == storage@,
            s == views(list@),
            pairs(storage@, filter@) == paired(db, s),
            paired(db, s.take(i as int)) == Ok::<Seq<PairView>, Refusal>(views(out@)),
    {
        proof {
            assert(s.take(i + 1).drop_last() =~= s.take(i as int));
            assert(s.take(i + 1).last() == list@[i as int]@);
        }
        match attach(storage, list[i].copy()) {
            Ok(pair) => {
                let ghost before = views(out@);
                let ghost x = pair@;
                out.push(pair);
                assert(views(out@) =~= before.push(x));
            },
            Err(e) => {
                proof {
                    lemma_paired_early(db, s, i + 1);
                }
                return Err(e);
            },
        }
    }
    assert(s.take(list@.len() as int) =~= s);
    Ok(out)
}

/// The project with a name, without regard to case.
pub fn resolve_project(storage: &Storage, name: &str) -> (r: Result<Project, StintError>)
    requires
        storage.wf(),
    ensures
        replied(r, named_project(storage@, name@)),
{
    match storage.get_project_by_name(name) {
        Ok(Some(p)) => Ok(p),
        Ok(None) => Err(StintError::ProjectNotFound(name.to_owned())),
        Err(e) => Err(StintError::Storage(e)),
    }
}

// ---------------------------------------------------------------------------
// Timers
// ---------------------------------------------------------------------------
/// An entry that the user starts.
pub open spec fn manual_entry(id: Text, project: Text, now: Timestamp) -> EntryView {
    TimeEntry {
        id,
        project_id: project,
        session_id: None,
        start: now,
        end: None,
        duration_secs: None,
        source: EntrySource::Manual,
        notes: None,
        tags: Seq::empty(),
        created_at: now,
        updated_at: now,
    }
}

/// A change of the store as a step, with what is answered where it is done.
pub open spec fn done<T>(db: Db, r: Result<Db, Fault>, x: T) -> (Db, Result<T, Refusal>) {
    match r {
        Ok(d) => (d, Ok(x)),
        Err(e) => (db, Err(StintError::Storage(e))),
    }
}

/// Starts a timer: the project has to exist, to be active, and to have no running timer.
pub open spec fn timer_started(db: Db, name: Text, now: Timestamp, id: Text) -> (
    Db,
    Result<PairView, Refusal>,
) {
    match named_project(db, name) {
        Ok(p) => if p.status == ProjectStatus::Archived {
            (db, Err(StintError::ProjectArchived(p.name)))
        } else {
            match db.get_running_entry(p.id) {
                Ok(Some(_)) => (db, Err(StintError::TimerAlreadyRunning(p.name))),
                Ok(None) => {
                    let e = manual_entry(id, p.id, now);
                    done(db, db.create_entry(e), (e, p))
                },
                Err(e) => (db, Err(StintError::Storage(e))),
            }
        },
        Err(e) => (db, Err(e)),
    }
}

/// Stops the running timer.
pub open spec fn timer_stopped(db: Db, now: Timestamp) -> (Db, Result<PairView, Refusal>) {
    match running_pair(db) {
        Ok(Some((e, p))) => done(db, db.update_entry(stopped(e, now)), (stopped(e, now), p)),
        Ok(None) => (db, Err(StintError::NoRunningTimer)),
        Err(e) => (db, Err(e)),
    }
}

/// Starts a timer for the project with a name.
pub fn start_timer(storage: &mut Storage, name: &str, now: Timestamp, id: &str) -> (r: Result<
    Pair,
    StintError,
>)
    requires
        old(storage).wf(),
    ensures
        final(storage).wf(),
        final(storage)@ == timer_started(old(storage)@, name@, now, id@).0,
        replied(r, timer_started(old(storage)@, name@, now, id@).1),
{
    let project = match resolve_project(storage, name) {
        Ok(p) => p,
        Err(e) => return Err(e),
    };
    if project.status == ProjectStatus::Archived {
        return Err(StintError::ProjectArchived(project.name));
    }
    match storage.get_running_entry(project.id.as_str()) {
        Ok(Some(_)) => return Err(StintError::TimerAlreadyRunning(project.name)),
        Ok(None) => {},
        Err(e) => return Err(StintError::Storage(e)),
    }
    let entry = TimeEntry {
        id: id.to_owned(),
        project_id: project.id.clone(),
        session_id: None,
        start: now,
        end: None,
        duration_secs: None,
        source: EntrySource::Manual,
        notes: None,
        tags: Vec::new(),
        created_at: now,
        updated_at: now,
    };
    assert(texts(entry.tags@) =~= Seq::<Text>::empty());
    assert(entry@ == manual_entry(id@, project@.id, now));
    match storage.create_entry(&entry) {
        Ok(_) => Ok((entry, project)),
        Err(e) => Err(StintError::Storage(e)),
    }
}

/// Stops the running timer.
pub fn stop_timer(storage: &mut Storage, now: Timestamp) -> (r: Result<Pair, StintError>)
    requires
        old(storage).wf(),
    ensures
        final(storage).wf(),
        final(storage)@ == timer_stopped(old(storage)@, now).0,
        replied(r, timer_stopped(old(storage)@, now).1),
{
    let (entry, project) = match get_status(storage) {
        Ok(Some(pair)) => pair,
        Ok(None) => return Err(StintError::NoRunningTimer),
        Err(e) => return Err(e),
    };
    let mut entry = entry;
    let secs: i64 = now.seconds_since(entry.start);
    entry.end = Some(now);
    entry.duration_secs = Some(secs);
    entry.updated_at = now;
    match storage.update_entry(&entry) {
        Ok(_) => Ok((entry, project)),
        Err(e) => Err(StintError::Storage(e)),
    }
}

// ---------------------------------------------------------------------------
// Time after the fact
// ---------------------------------------------------------------------------
/// The timestamp some seconds after another.
pub open spec fn later(t: Timestamp, secs: int) -> Timestamp {
    Timestamp::at((t.local() + secs * SECOND) as i128, t.offset())
}

/// Whether the timestamp some seconds after another lies in the supported years.
pub open spec fn reaches(t: Timestamp, secs: int) -> bool {
    FIRST <= t.local() + secs * SECOND <= LAST
}

/// An entry that was added, with its start and length.
pub open spec fn added_entry(
    id: Text,
    project: Text,
    start: Timestamp,
    secs: i64,
    notes: Option<Text>,
    now: Timestamp,
) -> EntryView {
    TimeEntry {
        id,
        project_id: project,
        session_id: None,
        start,
        end: Some(later(start, secs as int)),
        duration_secs: Some(secs),
        source: EntrySource::Added,
        notes,
        tags: Seq::empty(),
        created_at: now,
        updated_at: now,
    }
}

/// Adds time to a project: from the given date on, or up to now.
pub open spec fn time_added(
    db: Db,
    name: Text,
    secs: i64,
    date: Option<Timestamp>,
    notes: Option<Text>,
    now: Timestamp,
    id: Text,
) -> (Db, Result<PairView, Refusal>) {
    match named_project(db, name) {
        Ok(p) => {
            let ranged = match date {
                Some(d) => reaches(d, secs as int),
                None => reaches(now, -secs),
            };
            if !ranged {
                (db, Err(StintError::TimeOutOfRange))
            } else {
                let start = match date {
                    Some(d) => d,
                    None => later(now, -secs),
                };
                let e = added_entry(id, p.id, start, secs, notes, now);
                done(db, db.create_entry(e), (e, p))
            }
        },
        Err(e) => (db, Err(e)),
    }
}

/// Adds time to the project with a name: from the given date on, or up to now.
pub fn add_time(
    storage: &mut Storage,
    name: &str,
    secs: i64,
    date: Option<Timestamp>,
    notes: Option<&str>,
    now: Timestamp,
    id: &str,
) -> (r: Result<Pair, StintError>)
    requires
        old(storage).wf(),
    ensures
        final(storage).wf(),
        ({
            let s = time_added(old(storage)@, name@, secs, date, opt_str(notes), now, id@);
            final(storage)@ == s.0 && replied(r, s.1)
        }),
{
    let project = match resolve_project(storage, name) {
        Ok(p) => p,
        Err(e) => return Err(e),
    };
    let (start, end) = match date {
        Some(d) => match d.plus_seconds(secs) {
            Some(t) => {
                proof {
                    t.lemma_parts();
                }
                (d, t)
            },
            None => return Err(StintError::TimeOutOfRange),
        },
        None => match now.minus_seconds(secs) {
            Some(t) => {
                proof {
                    t.lemma_parts();
                    now.lemma_parts();
                }
                (t, now)
            },
            None => return Err(StintError::TimeOutOfRange),
        },
    };
    let entry = TimeEntry {
        id: id.to_owned(),
        project_id: project.id.clone(),
        session_id: None,
        start,
        end: Some(end),
        duration_secs: Some(secs),
        source: EntrySource::Added,
        notes: match notes {
            Some(n) => Some(n.to_owned()),
            None => None,
        },
        tags: Vec::new(),
        created_at: now,
        updated_at: now,
    };
    assert(texts(entry.tags@) =~= Seq::<Text>::empty());
    assert(entry@ == added_entry(id@, project@.id, start, secs, opt_str(notes), now));
    match storage.create_entry(&entry) {
        Ok(_) => Ok((entry, project)),
        Err(e) => Err(StintError::Storage(e)),
    }
}

// ---------------------------------------------------------------------------
// Projects
// ---------------------------------------------------------------------------
/// Archives a project.
pub open spec fn archived(db: Db, name: Text, now: Timestamp) -> (Db, Result<ProjectView, Refusal>) {
    match named_project(db, name) {
        Ok(p) => {
            let q = Project { status: ProjectStatus::Archived, updated_at: now, ..p };
            done(db, db.update_project(q), q)
        },
        Err(e) => (db, Err(e)),
    }
}

/// Deletes a project with its entries. What is answered is its name.
pub open spec fn deleted(db: Db, name: Text) -> (Db, Result<Text, Refusal>) {
    match named_project(db, name) {
        Ok(p) => done(db, db.delete_project(p.id), p.name),
        Err(e) => (db, Err(e)),
    }
}

/// Archives the project with a name.
pub fn archive_project(storage: &mut Storage, name: &str, now: Timestamp) -> (r: Result<
    Project,
    StintError,
>)
    requires
        old(storage).wf(),
    ensures
        final(storage).wf(),
        final(storage)@ == archived(old(storage)@, name@, now).0,
        replied(r, archived(old(storage)@, name@, now).1),
{
    let mut project = match resolve_project(storage, name) {
        Ok(p) => p,
        Err(e) => return Err(e),
    };
    project.status = ProjectStatus::Archived;
    project.updated_at = now;
    match storage.update_project(&project) {
        Ok(_) => Ok(project),
        Err(e) => Err(StintError::Storage(e)),
    }
}

/// Deletes the project with a name and its entries, and gives its name.
pub fn delete_project(storage: &mut Storage, name: &str) -> (r: Result<String, StintError>)
    requires
        old(storage).wf(),
    ensures
        final(storage).wf(),
        final(storage)@ == deleted(old(storage)@, name@).0,
        replied(r, deleted(old(storage)@, name@).1),
{
    let project = match resolve_project(storage, name) {
        Ok(p) => p,
        Err(e) => return Err(e),
    };
    match storage.delete_project(project.id.as_str()) {
        Ok(_) => Ok(project.name),
        Err(e) => Err(StintError::Storage(e)),
    }
}


// ---------------------------------------------------------------------------
// Laws
// ---------------------------------------------------------------------------
/// After a timer was started, it is the running one of its project, and a second start for that
/// project is refused.
pub proof fn law_start(
    db: Db,
    name: Text,
    now: Timestamp,
    id: Text,
    again: Text,
    later: Timestamp,
    other: Text,
)
    requires
        db.valid(),
        timer_started(db, name, now, id).1 is Ok,
        reads_back(now),
        folded(again) == folded(name),
    ensures
        ({
            let (n, r) = timer_started(db, name, now, id);
            let (e, p) = r->Ok_0;
            &&& n.valid()
            &&& n.get_running_entry(p.id) == Ok::<Option<EntryView>, Fault>(Some(e))
            &&& timer_started(n, again, later, other) == (
                n,
                Err::<PairView, Refusal>(StintError::TimerAlreadyRunning(p.name)),
            )
        }),
{
    let (n, r) = timer_started(db, name, now, id);
    let (e, p) = r->Ok_0;
    law_create_entry_keeps_rules(db, e);
    law_created_entry(db, e);
    assert(stored_entry(e) == e);
    assert(project_named(again) =~= project_named(name));
}

/// After the timer was stopped, its entry has ended now, and nothing runs in its project.
pub proof fn law_stop(db: Db, now: Timestamp)
    requires
        db.valid(),
        timer_stopped(db, now).1 is Ok,
    ensures
        ({
            let (n, r) = timer_stopped(db, now);
            let (e, p) = r->Ok_0;
            &&& n.valid()
            &&& e.end == Some(now)
            &&& p.id == e.project_id
            &&& !any(n.entries, running_in(e.project_id))
            &&& first(n.entries, entry_is(e.id)) matches Some(row) && row.end == Some(now.text())
        }),
{
    let (n, r) = timer_stopped(db, now);
    let (e, p) = r->Ok_0;
    let q = running_in(e.project_id);
    lemma_first(db.entries, running());
    let k = choose|k: int|
        #[trigger] first_at(db.entries, running(), k) && first(db.entries, running()) == Some(
            db.entries[k],
        );
    assert(running()(db.entries[k]));
    law_update_entry_keeps_rules(db, e);
    assert(n.entries[k].id == e.id);
    assert forall|i: int| 0 <= i < n.entries.len() implies !q(#[trigger] n.entries[i]) by {
        if i < k {
            assert(entries_apart()(db.entries[i], db.entries[k]));
        } else if k < i {
            assert(entries_apart()(db.entries[k], db.entries[i]));
        }
    }
    assert forall|j: int| 0 <= j < k implies !entry_is(e.id)(#[trigger] n.entries[j]) by {
        assert(entries_apart()(n.entries[j], n.entries[k]));
    }
    lemma_first_found(n.entries, entry_is(e.id), k);
    lemma_project_id(db, e.project_id, p);
}

proof fn lemma_project_id(db: Db, id: Text, p: ProjectView)
    requires
        db.get_project(id) == Ok::<Option<ProjectView>, Fault>(Some(p)),
    ensures
        p.id == id,
{
    lemma_first(db.projects, project_is(id));
    let k = choose|k: int|
        #[trigger] first_at(db.projects, project_is(id), k) && first(db.projects, project_is(id))
            == Some(db.projects[k]);
    assert(project_is(id)(db.projects[k]));
}

/// In a store that keeps the rules no entry is without its project: listing entries fails only where
/// a stored time cannot be read.
pub proof fn law_entries_have_projects(db: Db, f: FilterView)
    requires
        db.valid(),
        db.readable(),
    ensures
        pairs(db, f) is Ok,
        running_pair(db) is Ok,
{
    let rows = db.entry_rows(f);
    let s = db.entries.filter(selected(f));
    lemma_filter(db.entries, selected(f));
    lemma_sorted(s.reverse(), latest_first());
    broadcast use vstd::seq_lib::group_to_multiset_ensures;

    assert forall|i: int| 0 <= i < rows.len() implies db.entries.contains(#[trigger] rows[i]) by {
        assert(rows.contains(rows[i]));
        assert(rows.to_multiset().count(rows[i]) > 0);
        assert(s.reverse().to_multiset().count(rows[i]) > 0);
        assert(s.reverse().contains(rows[i]));
        let k = choose|k: int| 0 <= k < s.reverse().len() && s.reverse()[k] == rows[i];
        assert(s[s.len() - 1 - k] == rows[i]);
        assert(s.contains(rows[i]));
    }
    assert forall|i: int| 0 <= i < rows.len() implies entry_readable()(#[trigger] rows[i]) by {
        let k = choose|k: int| 0 <= k < db.entries.len() && db.entries[k] == rows[i];
        assert(entry_readable()(db.entries[k]));
    }
    let list = db.list_entries(f)->Ok_0;
    assert forall|i: int| 0 <= i < list.len() implies any(
        db.projects,
        project_is((#[trigger] list[i]).project_id),
    ) by {
        let k = choose|k: int| 0 <= k < db.entries.len() && db.entries[k] == rows[i];
        assert(entry_sound(db.projects)(db.entries[k]));
        assert(list[i] == read_entry(rows[i])->Ok_0);
        assert(entry_readable()(rows[i]));
    }
    lemma_paired_ok(db, list);
    lemma_first(db.entries, running());
    if any(db.entries, running()) {
        let k = choose|k: int|
            #[trigger] first_at(db.entries, running(), k) && first(db.entries, running()) == Some(
                db.entries[k],
            );
        assert(entry_readable()(db.entries[k]));
        assert(entry_sound(db.projects)(db.entries[k]));
        lemma_pair_ok(db, read_entry(db.entries[k])->Ok_0);
    }
}

proof fn lemma_pair_ok(db: Db, e: EntryView)
    requires
        all(db.projects, project_readable()),
        any(db.projects, project_is(e.project_id)),
    ensures
        with_project(db, e) is Ok,
{
    lemma_first(db.projects, project_is(e.project_id));
    let k = choose|k: int|
        #[trigger] first_at(db.projects, project_is(e.project_id), k) && first(
            db.projects,
            project_is(e.project_id),
        ) == Some(db.projects[k]);
    assert(project_readable()(db.projects[k]));
}

proof fn lemma_paired_ok(db: Db, s: Seq<EntryView>)
    requires
        all(db.projects, project_readable()),
        forall|i: int|
            0 <= i < s.len() ==> any(db.projects, project_is((#[trigger] s[i]).project_id)),
    ensures
        paired(db, s) is Ok,
    decreases s.len(),
{
    if s.len() > 0 {
        assert forall|i: int| 0 <= i < s.drop_last().len() implies any(
            db.projects,
            project_is((#[trigger] s.drop_last()[i]).project_id),
        ) by {
            assert(s.drop_last()[i] == s[i]);
        }
        lemma_paired_ok(db, s.drop_last());
        assert(any(db.projects, project_is(s[s.len() - 1].project_id)));
        lemma_pair_ok(db, s.last());
    }
}

} // verus!
