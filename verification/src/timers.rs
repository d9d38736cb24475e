//! What starting, stopping, adding and editing do to the stored entries.
use crate::accounts::{
    belongs, is_project, law_named_project, lemma_entry_ids, lemma_found_project, lemma_one_project,
};
use crate::cli::{added, deletion, edited, start_output, stop_output, with_edits};
use crate::clock::{stamp_of, Timestamp, FIRST, LAST, SECOND};
use crate::dates::date_value;
use crate::db::{
    by_text, entries_apart, entry_is, entry_readable, entry_row, entry_sound, entry_updated,
    latest_at, other_running_in, project_is, project_readable, read_entry, running, running_in, Db,
    Fault,
};
use crate::duration::human;
use crate::error::{Refusal, StintError};
use crate::models::{EntryData, EntrySource, EntryView, ProjectStatus, ProjectView, Text};
use crate::hook::stopped;
use crate::prompts::{ended_row, lasts};
use crate::rows::{all, any, first, first_at, lemma_first, lemma_sorted};
use crate::service::{
    later, named_project, running_pair, time_added, timer_started, timer_stopped, with_project,
    PairView,
};
use crate::text::{before, folded, lemma_before_total};
use vstd::prelude::*;

verus! {

/// Whether a row is that of a new entry.
pub open spec fn is_row_of(
    r: EntryData,
    id: Text,
    project: Text,
    source: EntrySource,
    notes: Option<Text>,
    now: Timestamp,
) -> bool {
    &&& r.id == id
    &&& r.project_id == project
    &&& r.session_id is None
    &&& r.source == source
    &&& r.notes == notes
    &&& r.tags.len() == 0
    &&& r.created_at == now.text()
    &&& r.updated_at == now.text()
}

/// Whether the only change is an entry that was added at the end.
pub open spec fn only_added(a: Db, b: Db) -> bool {
    &&& b == (Db { entries: b.entries, ..a })
    &&& b.entries.len() == a.entries.len() + 1
    &&& b.entries.drop_last() == a.entries
}

/// Starting a timer: it is started exactly where the project with the name is stored, is active and
/// has no running entry. Then one entry is added: of that project, by hand, from now on, without an
/// end; and what is answered is that entry and that project.
pub proof fn law_timer_starts(db: Db, name: Text, now: Timestamp, id: Text, p: ProjectView)
    requires
        db.valid(),
        db.readable(),
        is_project(db, p),
        folded(p.name) == folded(name),
        forall|k: int| 0 <= k < db.entries.len() ==> (#[trigger] db.entries[k]).id != id,
    ensures
        ({
            let (n, r) = timer_started(db, name, now, id);
            let busy = exists|k: int|
                0 <= k < db.entries.len() && (#[trigger] db.entries[k]).end is None
                    && db.entries[k].project_id == p.id;
            if p.status == ProjectStatus::Archived {
                n == db && r == Err::<PairView, Refusal>(StintError::ProjectArchived(p.name))
            } else if busy {
                n == db && r == Err::<PairView, Refusal>(StintError::TimerAlreadyRunning(p.name))
            } else {
                &&& r matches Ok((e, q)) && q == p && e.id == id && e.start == now && e.end is None
                    && e.project_id == p.id && e.source == EntrySource::Manual
                &&& only_added(db, n)
                &&& is_row_of(n.entries.last(), id, p.id, EntrySource::Manual, None, now)
                &&& n.entries.last().start == now.text()
                &&& n.entries.last().end is None
                &&& n.entries.last().duration_secs is None
            }
        }),
{
    law_named_project(db, name);
    lemma_one_project(db, p, named_project(db, name)->Ok_0);
    let q = running_in(p.id);
    lemma_first(db.entries, q);
    if any(db.entries, q) {
        let k = choose|k: int|
            #[trigger] first_at(db.entries, q, k) && first(db.entries, q) == Some(db.entries[k]);
        assert(q(db.entries[k]));
        assert(db.entries[k].end is None);
        assert(entry_readable()(db.entries[k]));
    } else {
        assert forall|k: int| 0 <= k < db.entries.len() implies !((#[trigger] db.entries[k]).end
            is None && db.entries[k].project_id == p.id) by {
            assert(!q(db.entries[k]));
        }
        lemma_known_project(db, p);
        assert(!any(db.entries, entry_is(id)));
        let n = timer_started(db, name, now, id).0;
        if p.status != ProjectStatus::Archived {
            assert(n.entries.drop_last() =~= db.entries);
        }
    }
}

/// A timer cannot be started for a name that no stored project has.
pub proof fn law_unknown_timer(db: Db, name: Text, now: Timestamp, id: Text)
    requires
        db.valid(),
        db.readable(),
        forall|p: ProjectView| #[trigger] is_project(db, p) ==> folded(p.name) != folded(name),
    ensures
        timer_started(db, name, now, id).0 == db,
        timer_started(db, name, now, id).1 matches Err(e) && e is ProjectNotFound,
{
    law_named_project(db, name);
}

proof fn lemma_known_project(db: Db, p: ProjectView)
    requires
        is_project(db, p),
    ensures
        any(db.projects, project_is(p.id)),
{
    let k = choose|k: int|
        0 <= k < db.projects.len() && crate::db::read_project(#[trigger] db.projects[k]) == Ok::<
            ProjectView,
            Fault,
        >(p);
    assert(project_is(p.id)(db.projects[k]));
}

/// Stopping the timer: where no entry runs there is none to stop. Otherwise one that ran ends now,
/// with the whole seconds since its start; it is answered so with its project, and every other entry
/// stays as it is.
pub proof fn law_timer_stops(db: Db, now: Timestamp)
    requires
        db.valid(),
        db.readable(),
    ensures
        ({
            let (n, r) = timer_stopped(db, now);
            if exists|k: int| 0 <= k < db.entries.len() && (#[trigger] db.entries[k]).end is None {
                &&& n == (Db { entries: n.entries, ..db })
                &&& n.entries.len() == db.entries.len()
                &&& r matches Ok((e, p)) && e.end == Some(now) && belongs(db, e, p) && (
                e.duration_secs matches Some(d) && lasts(e.start, now, d))
                &&& exists|k: int|
                    0 <= k < db.entries.len() && db.entries[k].end is None && #[trigger] stopped_at(
                        db,
                        n,
                        k,
                        now,
                        r,
                    )
            } else {
                n == db && r == Err::<PairView, Refusal>(StintError::NoRunningTimer)
            }
        }),
{
    let (n, r) = timer_stopped(db, now);
    let q = running();
    lemma_first(db.entries, q);
    if any(db.entries, q) {
        let k = choose|k: int|
            #[trigger] first_at(db.entries, q, k) && first(db.entries, q) == Some(db.entries[k]);
        assert(q(db.entries[k]));
        assert(db.entries[k].end is None);
        assert(entry_readable()(db.entries[k]));
        crate::service::law_entries_have_projects(db, crate::cli::since_filter(now));
        let (e, p) = running_pair(db)->Ok_0->Some_0;
        lemma_found_project(db, e, p);
        let x = stopped(e, now);
        assert(entry_is(x.id)(db.entries[k]));
        assert(entry_sound(db.projects)(db.entries[k]));
        if any(db.entries, other_running_in(x.id, x.project_id)) {
            assert(x.end is Some);
        }
        lemma_sorted(e.tags, by_text());
        assert(n.entries == db.entries.map_values(entry_updated(entry_row(x))));
        assert(belongs(db, x, p)) by {
            assert(is_project(db, p));
        }
        assert forall|j: int| 0 <= j < db.entries.len() && j != k implies #[trigger] n.entries[j]
            == db.entries[j] by {
            lemma_entry_ids(db, j, k);
        }
        assert(ended_row(db.entries[k], n.entries[k], now));
        assert(stopped_at(db, n, k, now, r));
    } else {
        assert forall|k: int| 0 <= k < db.entries.len() implies (#[trigger] db.entries[k]).end
            is Some by {
            assert(!q(db.entries[k]));
        }
    }
}

/// Whether the entry at a position is the one that was stopped, and the only one that changed.
pub open spec fn stopped_at(
    a: Db,
    b: Db,
    k: int,
    now: Timestamp,
    r: Result<PairView, Refusal>,
) -> bool {
    &&& ended_row(a.entries[k], b.entries[k], now)
    &&& r matches Ok((e, p)) && e.id == a.entries[k].id && e.project_id == a.entries[k].project_id
        && stamp_of(a.entries[k].start) == Some(e.start)
    &&& forall|j: int|
        0 <= j < a.entries.len() && j != k ==> #[trigger] b.entries[j] == a.entries[j]
}

/// Adding time: one entry is added to the project with the name, with the given length and notes. It
/// starts at the given date; without one it ends now. Either way its end is its length after its
/// start.
pub proof fn law_time_added(
    db: Db,
    name: Text,
    secs: i64,
    date: Option<Timestamp>,
    notes: Option<Text>,
    now: Timestamp,
    id: Text,
    e: EntryView,
    p: ProjectView,
)
    requires
        db.valid(),
        db.readable(),
        time_added(db, name, secs, date, notes, now, id).1 == Ok::<PairView, Refusal>((e, p)),
    ensures
        ({
            let n = time_added(db, name, secs, date, notes, now, id).0;
            &&& is_project(db, p) && folded(p.name) == folded(name)
            &&& e.id == id && e.project_id == p.id && e.duration_secs == Some(secs)
            &&& e.source == EntrySource::Added && e.notes == notes
            &&& e.end matches Some(end) && end.local() - e.start.local() == secs * SECOND
                && end.offset() == e.start.offset() && match date {
                Some(d) => e.start == d,
                None => end.local() == now.local() && end.offset() == now.offset(),
            }
            &&& only_added(db, n)
            &&& is_row_of(n.entries.last(), id, p.id, EntrySource::Added, notes, now)
            &&& n.entries.last().start == e.start.text()
            &&& n.entries.last().end == Some(e.end->Some_0.text())
            &&& n.entries.last().duration_secs == Some(secs)
        }),
{
    law_named_project(db, name);
    let n = time_added(db, name, secs, date, notes, now, id).0;
    assert(n.entries.drop_last() =~= db.entries);
    Timestamp::lemma_at((e.start.local() + secs * SECOND) as i128, e.start.offset());
    if date is None {
        Timestamp::lemma_at((now.local() - secs * SECOND) as i128, now.offset());
    }
}

/// Where adding time is refused, nothing is stored.
pub proof fn law_time_refused(
    db: Db,
    name: Text,
    secs: i64,
    date: Option<Timestamp>,
    notes: Option<Text>,
    now: Timestamp,
    id: Text,
)
    requires
        time_added(db, name, secs, date, notes, now, id).1 is Err,
    ensures
        time_added(db, name, secs, date, notes, now, id).0 == db,
{
}

/// Editing the latest entry: only it changes. A given length is its recorded length then, and its
/// end lies that long after its start; without one both stay. Given notes replace its notes, and
/// empty ones remove them; without any they stay. Its start, project and source stay.
pub proof fn law_edit(
    db: Db,
    duration: Option<i64>,
    notes: Option<Text>,
    now: Timestamp,
    k: int,
    e: EntryView,
)
    requires
        db.valid(),
        latest_at(db.entries, k),
        read_entry(db.entries[k]) == Ok::<EntryView, Fault>(e),
        duration is Some || notes is Some,
        !edited(db, duration, notes, now).1.failed,
    ensures
        ({
            let n = edited(db, duration, notes, now).0;
            let r = n.entries[k];
            &&& n == (Db { entries: n.entries, ..db })
            &&& n.entries.len() == db.entries.len()
            &&& forall|j: int|
                0 <= j < db.entries.len() && j != k ==> #[trigger] n.entries[j] == db.entries[j]
            &&& r.id == e.id && r.project_id == e.project_id && r.session_id == e.session_id
            &&& r.source == e.source && r.start == e.start.text()
            &&& r.created_at == db.entries[k].created_at && r.updated_at == now.text()
            &&& r.tags.to_multiset() == e.tags.to_multiset()
            &&& match duration {
                Some(secs) => r.duration_secs == Some(secs) && exists|t: Timestamp| #[trigger]
                    r.end == Some(t.text()) && t.local() - e.start.local() == secs * SECOND
                        && t.offset() == e.start.offset(),
                None => r.duration_secs == e.duration_secs && match (r.end, e.end) {
                    (Some(x), Some(t)) => x == t.text(),
                    (None, None) => true,
                    _ => false,
                },
            }
            &&& match notes {
                Some(x) => if x.len() == 0 {
                    r.notes is None
                } else {
                    r.notes == Some(x)
                },
                None => r.notes == e.notes,
            }
        }),
{
    let n = edited(db, duration, notes, now).0;
    let m = choose|i: int| latest_at(db.entries, i);
    assert(latest_at(db.entries, m));
    if m < k {
        assert(before(db.entries[k].start, db.entries[m].start));
        lemma_before_total(db.entries[k].start, db.entries[m].start);
    }
    if k < m {
        assert(before(db.entries[m].start, db.entries[k].start));
        lemma_before_total(db.entries[k].start, db.entries[m].start);
    }
    let x = with_edits(e, duration, notes, now);
    lemma_sorted(e.tags, by_text());
    assert(n.entries == db.entries.map_values(entry_updated(entry_row(x))));
    assert forall|j: int| 0 <= j < db.entries.len() && j != k implies #[trigger] n.entries[j]
        == db.entries[j] by {
        lemma_entry_ids(db, j, k);
    }
    if let Some(secs) = duration {
        Timestamp::lemma_at((e.start.local() + secs * SECOND) as i128, e.start.offset());
        let t = later(e.start, secs as int);
        assert(n.entries[k].end == Some(t.text()));
    }
}

/// Where nothing is to be changed, or editing fails, nothing is.
pub proof fn law_edit_nothing(db: Db, duration: Option<i64>, notes: Option<Text>, now: Timestamp)
    requires
        (duration is None && notes is None) || edited(db, duration, notes, now).1.failed,
    ensures
        edited(db, duration, notes, now).0 == db,
{
}

/// Whether the entry at a position has the latest start: none starts later, and of those that start
/// together it was stored last.
pub open spec fn is_last(entries: Seq<EntryData>, k: int) -> bool {
    &&& 0 <= k < entries.len()
    &&& forall|j: int| 0 <= j < entries.len() ==> !before(entries[k].start, (#[trigger] entries[j]).start)
    &&& forall|j: int|
        k < j < entries.len() ==> (#[trigger] entries[j]).start != entries[k].start
}

/// The entry that editing and deleting are about is the one with the latest start.
pub proof fn law_last_entry(db: Db, k: int, e: EntryView)
    requires
        is_last(db.entries, k),
        read_entry(db.entries[k]) == Ok::<EntryView, Fault>(e),
    ensures
        latest_at(db.entries, k),
        db.get_last_entry() == Ok::<Option<EntryView>, Fault>(Some(e)),
{
    assert forall|j: int| 0 <= j < db.entries.len() implies !before(
        db.entries[k].start,
        (#[trigger] db.entries[j]).start,
    ) && (j > k ==> before(db.entries[j].start, db.entries[k].start)) by {
        lemma_before_total(db.entries[j].start, db.entries[k].start);
    }
    assert(latest_at(db.entries, k));
    let m = choose|i: int| latest_at(db.entries, i);
    assert(latest_at(db.entries, m));
    if m < k {
        assert(before(db.entries[k].start, db.entries[m].start));
        lemma_before_total(db.entries[k].start, db.entries[m].start);
    }
    if k < m {
        assert(before(db.entries[m].start, db.entries[k].start));
        lemma_before_total(db.entries[k].start, db.entries[m].start);
    }
}

proof fn lemma_has_project(db: Db, e: EntryView)
    requires
        all(db.projects, project_readable()),
        any(db.projects, project_is(e.project_id)),
    ensures
        with_project(db, e) is Ok,
{
    let q = project_is(e.project_id);
    lemma_first(db.projects, q);
    let k = choose|k: int|
        #[trigger] first_at(db.projects, q, k) && first(db.projects, q) == Some(db.projects[k]);
    assert(project_readable()(db.projects[k]));
}

/// Editing the latest entry succeeds exactly where the given length ends in the supported years.
pub proof fn law_edit_done(
    db: Db,
    duration: Option<i64>,
    notes: Option<Text>,
    now: Timestamp,
    k: int,
    e: EntryView,
)
    requires
        db.valid(),
        db.readable(),
        is_last(db.entries, k),
        read_entry(db.entries[k]) == Ok::<EntryView, Fault>(e),
    ensures
        edited(db, duration, notes, now).1.failed <==> (duration matches Some(secs) && !(FIRST
            <= e.start.local() + secs * SECOND <= LAST)),
{
    law_last_entry(db, k, e);
    assert(entry_sound(db.projects)(db.entries[k]));
    lemma_has_project(db, e);
    let x = with_edits(e, duration, notes, now);
    assert(entry_is(x.id)(db.entries[k]));
    assert forall|j: int| 0 <= j < db.entries.len() && x.end is None implies !other_running_in(
        x.id,
        x.project_id,
    )(#[trigger] db.entries[j]) by {
        if j < k {
            assert(entries_apart()(db.entries[j], db.entries[k]));
        } else if k < j {
            assert(entries_apart()(db.entries[k], db.entries[j]));
        }
    }
}

/// Without a stored entry there is nothing to edit and nothing to delete: that is said, and nothing
/// changes.
pub proof fn law_nothing_stored(
    db: Db,
    duration: Option<i64>,
    notes: Option<Text>,
    now: Timestamp,
)
    requires
        db.entries.len() == 0,
    ensures
        edited(db, duration, notes, now).0 == db,
        !edited(db, duration, notes, now).1.failed,
        deletion(db) is Over,
{
    assert forall|i: int| !latest_at(db.entries, i) by {}
}

/// Adding time succeeds exactly where a stored project has the name and the other end of the time
/// lies in the supported years; the identifier is fresh.
pub proof fn law_time_done(
    db: Db,
    name: Text,
    secs: i64,
    date: Option<Timestamp>,
    notes: Option<Text>,
    now: Timestamp,
    id: Text,
)
    requires
        db.valid(),
        db.readable(),
        forall|k: int| 0 <= k < db.entries.len() ==> (#[trigger] db.entries[k]).id != id,
    ensures
        time_added(db, name, secs, date, notes, now, id).1 is Ok <==> {
            &&& exists|p: ProjectView| #[trigger] is_project(db, p) && folded(p.name) == folded(name)
            &&& match date {
                Some(d) => FIRST <= d.local() + secs * SECOND <= LAST,
                None => FIRST <= now.local() - secs * SECOND <= LAST,
            }
        },
{
    law_named_project(db, name);
    if let Ok(p) = named_project(db, name) {
        lemma_known_project(db, p);
        assert(is_project(db, p) && folded(p.name) == folded(name));
        assert(!any(db.entries, entry_is(id)));
        assert(-secs * SECOND == -(secs * SECOND));
    }
}

/// The command to add time adds it on the day that is named, where one is. Where the text names no
/// day it fails, and nothing is stored.
pub proof fn law_added_on_day(
    db: Db,
    project: Text,
    secs: i64,
    date: Option<Text>,
    notes: Option<Text>,
    local: Timestamp,
    now: Timestamp,
    id: Text,
)
    ensures
        ({
            let (n, o) = added(db, project, secs, date, notes, local, now, id);
            match date {
                Some(s) => match date_value(s, local) {
                    Ok(day) => {
                        let t = time_added(db, project, secs, Some(day), notes, now, id);
                        n == t.0 && (o.failed <==> t.1 is Err)
                    },
                    Err(_) => n == db && o.failed,
                },
                None => {
                    let t = time_added(db, project, secs, None, notes, now, id);
                    n == t.0 && (o.failed <==> t.1 is Err)
                },
            }
        }),
{
}

/// What is said of a timer that was started or stopped: the name of its project, and of a stopped one
/// its recorded time. It fails where that was refused.
pub proof fn law_timer_said(r: Result<PairView, Refusal>, secs: i64)
    ensures
        start_output(r).failed <==> r is Err,
        stop_output(r).failed <==> r is Err,
        match r {
            Ok((e, p)) => {
                &&& start_output(r).out == seq!["Started timer for '"@ + p.name + "'"@]
                &&& e.duration_secs == Some(secs) ==> stop_output(r).out == seq![
                    "Stopped '"@ + p.name + "' after "@ + human(secs as int),
                ]
            },
            Err(_) => true,
        },
{
}

} // verus!
