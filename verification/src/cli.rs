//! What the commands on timers and entries do and say.
use crate::accounts::{belongs, lemma_found_project};
use crate::clock::{date_text, whole_seconds, Timestamp};
use crate::dates::{
    add_days, date_value, day_start, days_later, days_reach, parse_date, start_of_day,
    start_of_week, week_start,
};
use crate::db::{
    entries_apart, entry_is, entry_readable, latest_at, project_is, projects_apart, read_entry,
    read_project, running, running_in, Db, Fault,
};
use crate::duration::{format_duration_human, format_seconds, human};
use crate::error::{refusal_text, Refusal, StintError};
use crate::models::{
    entry_seconds, EntryData, EntryFilter, EntryView, FilterView, ProjectView, SessionView, Text,
    TimeEntry,
};
use crate::prompts::{exceeds, has_seconds};
use crate::readback::law_deleted_entry;
use crate::rows::{any, first, first_at, lemma_first, lemma_first_found, views};
use crate::service::{
    add_time, get_entries, get_last_entry, get_status, last_pair, later, law_entries_have_projects,
    named_project, pairs, reaches, resolve_project, running_pair, start_timer, stop_timer,
    time_added, timer_started, timer_stopped, Pair, PairView,
};
use crate::storage::Storage;
use crate::text::{
    cat3, clone_texts, decimal, decimal_text, fold, folded, left_aligned, occurs, opt_str, pad_left,
    pad_right, right_aligned, same_text, stands_at, string_of, texts, trim, trimmed,
};
use vstd::prelude::*;

verus! {

/// What a command prints, and whether it failed.
#[derive(PartialEq, Eq, Debug)]
pub struct Output<L = Vec<String>> {
    /// Lines for the standard output.
    pub out: L,
    /// Lines for the standard error output.
    pub err: L,
    /// Whether the command failed.
    pub failed: bool,
}

/// What a command prints, in contracts.
pub type OutputView = Output<Seq<Text>>;

impl View for Output {
    type V = OutputView;

    open spec fn view(&self) -> OutputView {
        Output { out: texts(self.out@), err: texts(self.err@), failed: self.failed }
    }
}

/// One line for the standard output.
pub open spec fn said(line: Text) -> OutputView {
    Output { out: seq![line], err: Seq::empty(), failed: false }
}

/// A failure, with one line that says why.
pub open spec fn failed(message: Text) -> OutputView {
    Output { out: Seq::empty(), err: seq!["error: "@ + message], failed: true }
}

/// A failure because of a refusal.
pub open spec fn refused(e: Refusal) -> OutputView {
    failed(refusal_text(e))
}

/// A refusal is a failure: nothing goes to the standard output, and the one line that does not ends
/// with the reason. What is said is none.
pub proof fn law_refused(e: Refusal, line: Text)
    ensures
        refused(e).failed,
        refused(e).out.len() == 0,
        refused(e).err.len() == 1,
        stands_at(
            refused(e).err[0],
            refusal_text(e),
            refused(e).err[0].len() - refusal_text(e).len(),
        ),
        !said(line).failed,
        said(line).out == seq![line],
        said(line).err.len() == 0,
{
    let t = refused(e).err[0];
    let at = t.len() - refusal_text(e).len();
    assert(t.subrange(at, at + refusal_text(e).len()) =~= refusal_text(e));
}

impl Output {
    /// One line for the standard output.
    pub fn say(line: String) -> (r: Output)
        ensures
            r@ == said(line@),
    {
        let mut out: Vec<String> = Vec::new();
        out.push(line);
        let r = Output { out, err: Vec::new(), failed: false };
        assert(texts(r.out@) =~= seq![line@]);
        assert(texts(r.err@) =~= Seq::<Text>::empty());
        r
    }

    /// Nothing.
    pub fn silent() -> (r: Output)
        ensures
            r@ == (Output { out: Seq::<Text>::empty(), err: Seq::<Text>::empty(), failed: false }),
    {
        let r = Output { out: Vec::new(), err: Vec::new(), failed: false };
        assert(texts(r.out@) =~= Seq::<Text>::empty());
        assert(texts(r.err@) =~= Seq::<Text>::empty());
        r
    }

    /// Adds a line for the standard output.
    pub fn print(&mut self, line: String)
        ensures
            final(self)@ == (Output { out: old(self)@.out.push(line@), ..old(self)@ }),
    {
        let ghost before = self.out@;
        let ghost l = line@;
        self.out.push(line);
        assert(texts(self.out@) =~= texts(before).push(l));
    }

    /// Adds a line for the standard error output.
    pub fn warn(&mut self, line: &str)
        ensures
            final(self)@ == (Output { err: old(self)@.err.push(line@), ..old(self)@ }),
    {
        let ghost before = self.err@;
        self.err.push(line.to_owned());
        assert(texts(self.err@) =~= texts(before).push(line@));
    }

    /// A failure, with one line that says why.
    pub fn fail(message: &str) -> (r: Output)
        ensures
            r@ == failed(message@),
    {
        let mut line = "error: ".to_owned();
        line.append(message);
        let ghost l = line@;
        let mut err: Vec<String> = Vec::new();
        err.push(line);
        let r = Output { out: Vec::new(), err, failed: true };
        assert(texts(r.err@) =~= seq![l]);
        assert(texts(r.out@) =~= Seq::<Text>::empty());
        r
    }

    /// A failure because of a refusal.
    pub fn refuse(e: &StintError) -> (r: Output)
        ensures
            r@ == refused(e@),
    {
        Output::fail(e.message().as_str())
    }
}

// ---------------------------------------------------------------------------
// Timers
// ---------------------------------------------------------------------------
/// The `start` command.
pub open spec fn start_output(r: Result<PairView, Refusal>) -> OutputView {
    match r {
        Ok((_, p)) => said("Started timer for '"@ + p.name + "'"@),
        Err(e) => refused(e),
    }
}

/// The recorded length of an entry, in words.
pub open spec fn recorded(e: EntryView) -> Text {
    human(
        match e.duration_secs {
            Some(d) => d as int,
            None => 0,
        },
    )
}

/// The `stop` command.
pub open spec fn stop_output(r: Result<PairView, Refusal>) -> OutputView {
    match r {
        Ok((e, p)) => said("Stopped '"@ + p.name + "' after "@ + recorded(e)),
        Err(e) => refused(e),
    }
}

/// Starts a timer for a project.
pub fn cmd_start(storage: &mut Storage, project: &str, now: Timestamp, id: &str) -> (r: Output)
    requires
        old(storage).wf(),
    ensures
        final(storage).wf(),
        ({
            let s = timer_started(old(storage)@, project@, now, id@);
            final(storage)@ == s.0 && r@ == start_output(s.1)
        }),
{
    match start_timer(storage, project, now, id) {
        Ok((_, p)) => Output::say(cat3("Started timer for '", p.name.as_str(), "'")),
        Err(e) => Output::refuse(&e),
    }
}

/// Stops the running timer.
pub fn cmd_stop(storage: &mut Storage, now: Timestamp) -> (r: Output)
    requires
        old(storage).wf(),
    ensures
        final(storage).wf(),
        ({
            let s = timer_stopped(old(storage)@, now);
            final(storage)@ == s.0 && r@ == stop_output(s.1)
        }),
{
    match stop_timer(storage, now) {
        Ok((e, p)) => {
            let secs: i64 = match e.duration_secs {
                Some(d) => d,
                None => 0,
            };
            let mut line = cat3("Stopped '", p.name.as_str(), "' after ");
            line.append(format_duration_human(secs).as_str());
            Output::say(line)
        },
        Err(e) => Output::refuse(&e),
    }
}

// ---------------------------------------------------------------------------
// Status
// ---------------------------------------------------------------------------
/// That a project is tracked, and for how long.
pub open spec fn tracking(name: Text, secs: int) -> Text {
    "Tracking '"@ + name + "' for "@ + human(secs)
}

/// The time from one point to another, in whole seconds.
pub open spec fn elapsed(from: Timestamp, to: Timestamp) -> int {
    whole_seconds(to.instant() - from.instant())
}

/// The status of a session: what is tracked in its project, and how long it is idle where that is
/// longer than the threshold; idle time is not counted then.
pub open spec fn session_status(db: Db, s: SessionView, threshold: i64, now: Timestamp) -> Option<
    OutputView,
> {
    match s.current_project_id {
        Some(id) => match (db.get_running_entry(id), db.get_project(id)) {
            (Ok(Some(e)), Ok(Some(p))) => {
                let since = elapsed(s.last_heartbeat, now);
                if since > threshold {
                    let active = elapsed(e.start, s.last_heartbeat);
                    Some(
                        Output {
                            out: seq![
                                tracking(
                                    p.name,
                                    if active > 0 {
                                        active
                                    } else {
                                        0
                                    },
                                ) + " (idle "@ + human(since) + ")"@,
                            ],
                            err: seq![
                                "  Idle time will be trimmed on next activity."@,
                                "  To adjust: STINT_IDLE_THRESHOLD=600 or idle_threshold in ~/.config/stint/config.toml"@,
                            ],
                            failed: false,
                        },
                    )
                } else {
                    Some(said(tracking(p.name, elapsed(e.start, now))))
                }
            },
            _ => None,
        },
        None => None,
    }
}

/// The `status` command: the session of this terminal decides; without one, any running timer.
pub open spec fn status_output(db: Db, pid: u32, threshold: i64, now: Timestamp) -> OutputView {
    match db.get_session_by_pid(pid) {
        Ok(Some(s)) => match session_status(db, s, threshold, now) {
            Some(o) => o,
            None => said("No timer running."@),
        },
        _ => match running_pair(db) {
            Ok(Some((e, p))) => said(tracking(p.name, elapsed(e.start, now))),
            Ok(None) => said("No timer running."@),
            Err(e) => refused(e),
        },
    }
}

fn tracking_line(name: &str, secs: i64) -> (r: String)
    ensures
        r@ == tracking(name@, secs as int),
{
    let mut line = cat3("Tracking '", name, "' for ");
    line.append(format_duration_human(secs).as_str());
    line
}

fn status_of_session(
    storage: &Storage,
    session: &crate::models::ShellSession,
    threshold: i64,
    now: Timestamp,
) -> (r: Option<Output>)
    requires
        storage.wf(),
    ensures
        match r {
            Some(o) => session_status(storage@, session@, threshold, now) == Some(o@),
            None => session_status(storage@, session@, threshold, now) is None,
        },
{
    let id = match &session.current_project_id {
        Some(id) => id,
        None => return None,
    };
    let entry = match storage.get_running_entry(id.as_str()) {
        Ok(Some(e)) => e,
        _ => return None,
    };
    let project = match storage.get_project(id.as_str()) {
        Ok(Some(p)) => p,
        _ => return None,
    };
    let since: i64 = now.seconds_since(session.last_heartbeat);
    if since > threshold {
        let active: i64 = session.last_heartbeat.seconds_since(entry.start);
        let shown: i64 = if active > 0 {
            active
        } else {
            0
        };
        let mut line = tracking_line(project.name.as_str(), shown);
        line.append(" (idle ");
        line.append(format_duration_human(since).as_str());
        line.append(")");
        let mut o = Output::say(line);
        o.warn("  Idle time will be trimmed on next activity.");
        o.warn(
            "  To adjust: STINT_IDLE_THRESHOLD=600 or idle_threshold in ~/.config/stint/config.toml",
        );
        assert(o@.err =~= seq![
            "  Idle time will be trimmed on next activity."@,
            "  To adjust: STINT_IDLE_THRESHOLD=600 or idle_threshold in ~/.config/stint/config.toml"@,
        ]);
        Some(o)
    } else {
        Some(Output::say(tracking_line(project.name.as_str(), now.seconds_since(entry.start))))
    }
}

/// Shows what is tracked in the terminal whose shell has the given process identifier.
pub fn cmd_status(storage: &Storage, pid: u32, threshold: i64, now: Timestamp) -> (r: Output)
    requires
        storage.wf(),
    ensures
        r@ == status_output(storage@, pid, threshold, now),
{
    if let Ok(Some(session)) = storage.get_session_by_pid(pid) {
        return match status_of_session(storage, &session, threshold, now) {
            Some(o) => o,
            None => Output::say("No timer running.".to_owned()),
        };
    }
    match get_status(storage) {
        Ok(Some((e, p))) => Output::say(
            tracking_line(p.name.as_str(), now.seconds_since(e.start)),
        ),
        Ok(None) => Output::say("No timer running.".to_owned()),
        Err(e) => Output::refuse(&e),
    }
}

/// The entry that runs in a project, and the project, are found.
proof fn lemma_running_found(db: Db, k: int, e: EntryView, p: ProjectView)
    requires
        db.valid(),
        0 <= k < db.entries.len(),
        db.entries[k].end is None,
        read_entry(db.entries[k]) == Ok::<EntryView, Fault>(e),
        belongs(db, e, p),
    ensures
        db.get_running_entry(p.id) == Ok::<Option<EntryView>, Fault>(Some(e)),
        db.get_project(p.id) == Ok::<Option<ProjectView>, Fault>(Some(p)),
{
    let q = running_in(p.id);
    assert(q(db.entries[k]));
    assert forall|j: int| 0 <= j < k implies !q(#[trigger] db.entries[j]) by {
        assert(entries_apart()(db.entries[j], db.entries[k]));
    }
    lemma_first_found(db.entries, q, k);
    let m = choose|m: int|
        0 <= m < db.projects.len() && read_project(#[trigger] db.projects[m]) == Ok::<
            ProjectView,
            Fault,
        >(p);
    let r = project_is(p.id);
    assert(r(db.projects[m]));
    assert forall|j: int| 0 <= j < m implies !r(#[trigger] db.projects[j]) by {
        assert(projects_apart()(db.projects[j], db.projects[m]));
    }
    lemma_first_found(db.projects, r, m);
}

/// What is shown of the entry that runs in the project of a terminal: the whole seconds since its
/// start. Where the terminal is idle for longer than the threshold, they are counted up to the last
/// heartbeat, not below zero, and the idle seconds are shown with them.
pub proof fn law_status_time(
    db: Db,
    pid: u32,
    threshold: i64,
    now: Timestamp,
    s: SessionView,
    k: int,
    e: EntryView,
    p: ProjectView,
    run: int,
    active: int,
    idle: int,
)
    requires
        db.valid(),
        db.get_session_by_pid(pid) == Ok::<Option<SessionView>, Fault>(Some(s)),
        s.current_project_id == Some(p.id),
        0 <= k < db.entries.len(),
        db.entries[k].end is None,
        read_entry(db.entries[k]) == Ok::<EntryView, Fault>(e),
        belongs(db, e, p),
        has_seconds(now.instant() - e.start.instant(), run),
        has_seconds(s.last_heartbeat.instant() - e.start.instant(), active),
        has_seconds(now.instant() - s.last_heartbeat.instant(), idle),
    ensures
        ({
            let o = status_output(db, pid, threshold, now);
            &&& !o.failed
            &&& o.out.len() == 1
            &&& if exceeds(now.instant() - s.last_heartbeat.instant(), threshold as int) {
                &&& o.out[0] == "Tracking '"@ + p.name + "' for "@ + human(
                    if active > 0 {
                        active
                    } else {
                        0
                    },
                ) + " (idle "@ + human(idle) + ")"@
                &&& o.err.len() == 2
            } else {
                &&& o.out[0] == "Tracking '"@ + p.name + "' for "@ + human(run)
                &&& o.err.len() == 0
            }
        }),
{
    lemma_running_found(db, k, e, p);
}

/// The heartbeat of a terminal that is not idle makes no difference to what is shown: two stores
/// with the same projects and entries, in which the terminal is in the same project, show the same.
pub proof fn law_status_heartbeat(
    a: Db,
    b: Db,
    pid: u32,
    threshold: i64,
    now: Timestamp,
    s: SessionView,
    t: SessionView,
)
    requires
        a.projects == b.projects,
        a.entries == b.entries,
        a.get_session_by_pid(pid) == Ok::<Option<SessionView>, Fault>(Some(s)),
        b.get_session_by_pid(pid) == Ok::<Option<SessionView>, Fault>(Some(t)),
        s.current_project_id == t.current_project_id,
        !exceeds(now.instant() - s.last_heartbeat.instant(), threshold as int),
        !exceeds(now.instant() - t.last_heartbeat.instant(), threshold as int),
    ensures
        status_output(a, pid, threshold, now) == status_output(b, pid, threshold, now),
{
}

/// A terminal in no project, or in one without a running entry, shows that no timer runs; one
/// without a session shows a running timer, whatever its project is, with the time since its start.
pub proof fn law_status_elsewhere(db: Db, pid: u32, threshold: i64, now: Timestamp)
    requires
        db.valid(),
        db.readable(),
    ensures
        match db.get_session_by_pid(pid) {
            Ok(Some(s)) => (forall|k: int|
                0 <= k < db.entries.len() && (#[trigger] db.entries[k]).end is None
                    ==> s.current_project_id != Some(db.entries[k].project_id)) ==> status_output(
                db,
                pid,
                threshold,
                now,
            ) == said("No timer running."@),
            _ => if exists|k: int|
                0 <= k < db.entries.len() && (#[trigger] db.entries[k]).end is None {
                exists|k: int, p: ProjectView, run: int|
                    0 <= k < db.entries.len() && db.entries[k].end is None && #[trigger] belongs(
                        db,
                        read_entry(db.entries[k])->Ok_0,
                        p,
                    ) && #[trigger] has_seconds(
                        now.instant() - read_entry(db.entries[k])->Ok_0.start.instant(),
                        run,
                    ) && status_output(db, pid, threshold, now) == said(
                        "Tracking '"@ + p.name + "' for "@ + human(run),
                    )
            } else {
                status_output(db, pid, threshold, now) == said("No timer running."@)
            },
        },
{
    lemma_first(db.entries, running());
    match db.get_session_by_pid(pid) {
        Ok(Some(s)) => {
            if let Some(id) = s.current_project_id {
                lemma_first(db.entries, running_in(id));
                if any(db.entries, running_in(id)) {
                    let k = choose|k: int|
                        0 <= k < db.entries.len() && running_in(id)(#[trigger] db.entries[k]);
                    assert(db.entries[k].end is None);
                }
            }
        },
        _ => {
            if any(db.entries, running()) {
                let k = choose|k: int|
                    #[trigger] first_at(db.entries, running(), k) && first(db.entries, running())
                        == Some(db.entries[k]);
                assert(running()(db.entries[k]));
                assert(db.entries[k].end is None);
                assert(entry_readable()(db.entries[k]));
                law_entries_have_projects(db, since_filter(now));
                let (e, p) = running_pair(db)->Ok_0->Some_0;
                lemma_found_project(db, e, p);
                let run = elapsed(e.start, now);
                assert(belongs(db, read_entry(db.entries[k])->Ok_0, p));
                assert(has_seconds(now.instant() - e.start.instant(), run));
            } else {
                assert forall|k: int| 0 <= k < db.entries.len() implies (
                #[trigger] db.entries[k]).end is Some by {
                    assert(!running()(db.entries[k]));
                }
            }
        },
    }
}

// ---------------------------------------------------------------------------
// Summary
// ---------------------------------------------------------------------------
/// The seconds of an entry; none where it runs.
pub open spec fn seconds_or_zero(e: EntryView) -> int {
    match entry_seconds(e) {
        Some(n) => n,
        None => 0,
    }
}

/// The seconds of some entries together.
pub open spec fn total_seconds(s: Seq<PairView>) -> int
    decreases s.len(),
{
    if s.len() == 0 {
        0
    } else {
        total_seconds(s.drop_last()) + seconds_or_zero(s.last().0)
    }
}

/// The filter that lets entries through from a point in time on.
pub open spec fn since_filter(from: Timestamp) -> FilterView {
    EntryFilter {
        project_id: None,
        from: Some(from),
        to: None,
        source: None,
        tags: Seq::empty(),
    }
}

/// A line of the summary.
pub open spec fn summary_line(label: Text, s: Seq<PairView>) -> Text {
    label + human(total_seconds(s)) + "  ("@ + decimal(s.len()) + " entries)"@
}

/// The `summary` command: what is tracked now, and the time of today and of this week. `local` is
/// the local time and `now` the time in UTC.
pub open spec fn summary_output(db: Db, local: Timestamp, now: Timestamp) -> OutputView {
    match pairs(db, since_filter(day_start(local))) {
        Ok(today) => match pairs(db, since_filter(week_start(local))) {
            Ok(week) => match running_pair(db) {
                Ok(running) => Output {
                    out: seq![
                        "  "@ + match running {
                            Some((e, p)) => tracking(p.name, elapsed(e.start, now)),
                            None => "Idle"@,
                        },
                        summary_line("  Today: "@, today),
                        summary_line("  Week:  "@, week),
                    ],
                    err: Seq::empty(),
                    failed: false,
                },
                Err(e) => refused(e),
            },
            Err(e) => refused(e),
        },
        Err(e) => refused(e),
    }
}

/// The filter that lets entries through from a point in time on.
pub fn entries_since(from: Timestamp) -> (r: EntryFilter)
    ensures
        r@ == since_filter(from),
{
    let mut f: EntryFilter = Default::default();
    f.from = Some(from);
    f
}

/// The seconds of an entry; none where it runs.
pub fn seconds_of(e: &TimeEntry) -> (r: i64)
    ensures
        r == seconds_or_zero(e@),
{
    match e.computed_duration_secs() {
        Some(n) => n,
        None => 0,
    }
}

/// The seconds of some entries together.
pub fn sum_seconds(v: &Vec<Pair>) -> (r: i128)
    ensures
        r == total_seconds(views(v@)),
        -0x8000_0000_0000_0000 * v@.len() <= r <= 0x8000_0000_0000_0000 * v@.len(),
{
    let ghost s = views(v@);
    let mut sum: i128 = 0;
    for i in 0..v.len()
        invariant
            s == views(v@),
            sum == total_seconds(s.take(i as int)),
            -0x8000_0000_0000_0000 * i <= sum <= 0x8000_0000_0000_0000 * i,
            i <= v@.len() <= 0xffff_ffff_ffff_ffff,
    {
        proof {
            assert(s.take(i + 1).drop_last() =~= s.take(i as int));
            assert(s.take(i + 1).last() == v@[i as int]@);
        }
        sum = sum + seconds_of(&v[i].0) as i128;
    }
    assert(s.take(v@.len() as int) =~= s);
    sum
}

fn line_of_summary(label: &str, v: &Vec<Pair>) -> (r: String)
    ensures
        r@ == summary_line(label@, views(v@)),
{
    let n: usize = v.len();
    let mut line = label.to_owned();
    line.append(format_seconds(sum_seconds(v)).as_str());
    line.append("  (");
    line.append(decimal_text(n as u128).as_str());
    line.append(" entries)");
    line
}

/// A quick overview of what is tracked now, today and this week.
pub fn cmd_summary(storage: &Storage, local: Timestamp, now: Timestamp) -> (r: Output)
    requires
        storage.wf(),
    ensures
        r@ == summary_output(storage@, local, now),
{
    let today = match get_entries(storage, &entries_since(start_of_day(local))) {
        Ok(v) => v,
        Err(e) => return Output::refuse(&e),
    };
    let week = match get_entries(storage, &entries_since(start_of_week(local))) {
        Ok(v) => v,
        Err(e) => return Output::refuse(&e),
    };
    let running = match get_status(storage) {
        Ok(Some((e, p))) => tracking_line(p.name.as_str(), now.seconds_since(e.start)),
        Ok(None) => "Idle".to_owned(),
        Err(e) => return Output::refuse(&e),
    };
    let mut line = "  ".to_owned();
    line.append(running.as_str());
    let mut o = Output::say(line);
    o.print(line_of_summary("  Today: ", &today));
    o.print(line_of_summary("  Week:  ", &week));
    assert(o@.out =~= summary_output(storage@, local, now).out);
    o
}


// ---------------------------------------------------------------------------
// The latest entry
// ---------------------------------------------------------------------------
/// Notes as they are kept: empty ones are none.
pub open spec fn kept_notes(notes: Text) -> Option<Text> {
    if notes.len() == 0 {
        None
    } else {
        Some(notes)
    }
}

/// An entry with another length, counted from its start.
pub open spec fn with_duration(e: EntryView, secs: i64) -> EntryView {
    TimeEntry { duration_secs: Some(secs), end: Some(later(e.start, secs as int)), ..e }
}

/// An entry with another length and other notes, where they are given.
pub open spec fn with_edits(
    e: EntryView,
    duration: Option<i64>,
    notes: Option<Text>,
    now: Timestamp,
) -> EntryView {
    let d = match duration {
        Some(secs) => with_duration(e, secs),
        None => e,
    };
    TimeEntry {
        notes: match notes {
            Some(n) => kept_notes(n),
            None => d.notes,
        },
        updated_at: now,
        ..d
    }
}

/// The length of an entry in words, from its recorded length.
pub open spec fn recorded_or_running(e: EntryView) -> Text {
    match e.duration_secs {
        Some(d) => human(d as int),
        None => "running"@,
    }
}

/// The `edit` command: changes the length or the notes of the latest entry.
pub open spec fn edited(
    db: Db,
    duration: Option<i64>,
    notes: Option<Text>,
    now: Timestamp,
) -> (Db, OutputView) {
    match last_pair(db) {
        Ok(Some((e, p))) => if duration is None && notes is None {
            (db, said("Nothing to change. Use --duration or --notes."@))
        } else if duration is Some && !reaches(e.start, duration->Some_0 as int) {
            (db, refused(StintError::TimeOutOfRange))
        } else {
            let x = with_edits(e, duration, notes, now);
            match db.update_entry(x) {
                Ok(d) => (d, said("Updated entry: '"@ + p.name + "' "@ + recorded_or_running(x))),
                Err(f) => (db, refused(StintError::Storage(f))),
            }
        },
        Ok(None) => (db, said("No entries to edit."@)),
        Err(e) => (db, refused(e)),
    }
}

/// Changes the length or the notes of the latest entry.
pub fn cmd_edit(
    storage: &mut Storage,
    duration: Option<i64>,
    notes: Option<&str>,
    now: Timestamp,
) -> (r: Output)
    requires
        old(storage).wf(),
    ensures
        final(storage).wf(),
        ({
            let s = edited(old(storage)@, duration, opt_str(notes), now);
            final(storage)@ == s.0 && r@ == s.1
        }),
{
    let (entry, project) = match get_last_entry(storage) {
        Ok(Some(pair)) => pair,
        Ok(None) => return Output::say("No entries to edit.".to_owned()),
        Err(e) => return Output::refuse(&e),
    };
    let mut entry = entry;
    let ghost was = entry@;
    if duration.is_none() && notes.is_none() {
        return Output::say("Nothing to change. Use --duration or --notes.".to_owned());
    }
    if let Some(secs) = duration {
        match entry.start.plus_seconds(secs) {
            Some(t) => {
                proof {
                    t.lemma_parts();
                }
                entry.duration_secs = Some(secs);
                entry.end = Some(t);
            },
            None => return Output::refuse(&StintError::TimeOutOfRange),
        }
    }
    if let Some(n) = notes {
        entry.notes = if n.is_empty() {
            None
        } else {
            Some(n.to_owned())
        };
    }
    entry.updated_at = now;
    assert(entry@ == with_edits(was, duration, opt_str(notes), now));
    match storage.update_entry(&entry) {
        Ok(_) => {
            let length = match entry.duration_secs {
                Some(d) => format_duration_human(d),
                None => "running".to_owned(),
            };
            let mut line = cat3("Updated entry: '", project.name.as_str(), "' ");
            line.append(length.as_str());
            Output::say(line)
        },
        Err(e) => Output::refuse(&StintError::Storage(e)),
    }
}

/// What a request to delete the latest entry leads to.
#[derive(PartialEq, Eq, Debug)]
pub enum Deletion<S = String, O = Output> {
    /// It is over, with nothing to delete.
    Over(O),
    /// The entry to delete, how it is called, and the question to ask first.
    Ask { id: S, label: S, question: S },
}

/// What a request leads to, in contracts.
pub type DeletionView = Deletion<Text, OutputView>;

impl View for Deletion {
    type V = DeletionView;

    open spec fn view(&self) -> DeletionView {
        match *self {
            Deletion::Over(o) => Deletion::Over(o@),
            Deletion::Ask { id, label, question } => Deletion::Ask {
                id: id@,
                label: label@,
                question: question@,
            },
        }
    }
}

/// The length of an entry in words; `running` where it has none yet.
pub open spec fn length_or_running(e: EntryView) -> Text {
    match entry_seconds(e) {
        Some(n) => human(n),
        None => "running"@,
    }
}

/// How an entry is called: by its project and its length.
pub open spec fn entry_label(e: EntryView, p: ProjectView) -> Text {
    "'"@ + p.name + "' "@ + length_or_running(e)
}

/// The first half of the `delete-entry` command.
pub open spec fn deletion(db: Db) -> DeletionView {
    match last_pair(db) {
        Ok(Some((e, p))) => Deletion::Ask {
            id: e.id,
            label: entry_label(e, p),
            question: "Delete entry: "@ + entry_label(e, p) + " ("@ + date_text(e.start.local())
                + ")? [y/N] "@,
        },
        Ok(None) => Deletion::Over(said("No entries to delete."@)),
        Err(e) => Deletion::Over(refused(e)),
    }
}

/// Finds the latest entry, and the question to ask before it is deleted.
pub fn ask_delete_entry(storage: &Storage) -> (r: Deletion)
    requires
        storage.wf(),
    ensures
        r@ == deletion(storage@),
{
    match get_last_entry(storage) {
        Ok(Some((e, p))) => {
            let length = match e.computed_duration_secs() {
                Some(n) => format_duration_human(n),
                None => "running".to_owned(),
            };
            let mut label = cat3("'", p.name.as_str(), "' ");
            label.append(length.as_str());
            let mut question = cat3("Delete entry: ", label.as_str(), " (");
            question.append(e.start.date().as_str());
            question.append(")? [y/N] ");
            Deletion::Ask { id: e.id, label, question }
        },
        Ok(None) => Deletion::Over(Output::say("No entries to delete.".to_owned())),
        Err(e) => Deletion::Over(Output::refuse(&e)),
    }
}

/// Whether an answer is a yes: the letter `y` in either case, with white space around it. No answer
/// is a no.
pub open spec fn is_yes(answer: Option<Text>) -> bool {
    answer matches Some(a) && folded(trimmed(a)) == "y"@
}

/// Whether an answer is a yes.
pub fn confirmed(answer: Option<&str>) -> (r: bool)
    ensures
        r == is_yes(opt_str(answer)),
{
    match answer {
        Some(a) => {
            let t = string_of(&fold(trim(a).as_str()));
            same_text(t.as_str(), "y")
        },
        None => false,
    }
}

/// The second half of the `delete-entry` command.
pub open spec fn entry_deleted(db: Db, id: Text, label: Text) -> (Db, OutputView) {
    match db.delete_entry(id) {
        Ok(d) => (d, said("Deleted entry: "@ + label)),
        Err(e) => (db, refused(StintError::Storage(e))),
    }
}

/// Deletes an entry that was asked about.
pub fn cmd_delete_entry(storage: &mut Storage, id: &str, label: &str) -> (r: Output)
    requires
        old(storage).wf(),
    ensures
        final(storage).wf(),
        ({
            let s = entry_deleted(old(storage)@, id@, label@);
            final(storage)@ == s.0 && r@ == s.1
        }),
{
    match storage.delete_entry(id) {
        Ok(_) => {
            let mut line = "Deleted entry: ".to_owned();
            line.append(label);
            Output::say(line)
        },
        Err(e) => Output::refuse(&StintError::Storage(e)),
    }
}

/// The end of the `delete-entry` command: the entry that was asked about is deleted where that is
/// forced or the answer is a yes.
pub fn finish_delete_entry(
    storage: &mut Storage,
    id: &str,
    label: &str,
    force: bool,
    answer: Option<&str>,
) -> (r: Output)
    requires
        old(storage).wf(),
    ensures
        final(storage).wf(),
        if force || is_yes(opt_str(answer)) {
            final(storage)@ == entry_deleted(old(storage)@, id@, label@).0 && r@ == entry_deleted(
                old(storage)@,
                id@,
                label@,
            ).1
        } else {
            final(storage)@ == old(storage)@ && r@ == said("Cancelled."@)
        },
{
    if force || confirmed(answer) {
        cmd_delete_entry(storage, id, label)
    } else {
        Output::say("Cancelled.".to_owned())
    }
}

/// Deleting the latest entry: it is the one asked about, and once that is confirmed it is gone and
/// every other entry is as it was.
pub proof fn law_delete_latest(db: Db, id: Text, label: Text, question: Text)
    requires
        deletion(db) == (DeletionView::Ask { id, label, question }),
    ensures
        db.get_last_entry() matches Ok(Some(e)) && e.id == id,
        ({
            let n = entry_deleted(db, id, label).0;
            &&& n.get_entry(id) == Ok::<Option<EntryView>, Fault>(None)
            &&& forall|r: EntryData| #[trigger]
                n.entries.contains(r) <==> db.entries.contains(r) && r.id != id
            &&& n == (Db { entries: n.entries, ..db })
            &&& entry_deleted(db, id, label).1 == said("Deleted entry: "@ + label)
        }),
{
    let i = choose|i: int| latest_at(db.entries, i);
    assert(entry_is(id)(db.entries[i]));
    law_deleted_entry(db, id);
}

/// The question before the latest entry is deleted names its project and its length, or that it runs.
pub proof fn law_deletion_asked(db: Db, e: EntryView, p: ProjectView)
    requires
        last_pair(db) == Ok::<Option<PairView>, Refusal>(Some((e, p))),
    ensures
        ({
            let length = if e.duration_secs is None && e.end is None {
                "running"@
            } else {
                human(seconds_or_zero(e))
            };
            &&& deletion(db) matches Deletion::Ask { id, label, question } && id == e.id && label
                == "'"@ + p.name + "' "@ + length && occurs(question, label)
        }),
{
    let label = entry_label(e, p);
    let head = "Delete entry: "@;
    let tail = " ("@ + date_text(e.start.local()) + ")? [y/N] "@;
    let question = deletion(db)->question;
    assert(question =~= head + label + tail);
    assert(stands_at(question, label, head.len() as int)) by {
        assert(question.subrange(head.len() as int, (head.len() + label.len()) as int) =~= label);
    }
}

/// An answer is a yes exactly where it is the letter `y` in either case, but for white space around it.
pub proof fn law_yes(answer: Text)
    ensures
        is_yes(Some(answer)) <==> trimmed(answer).len() == 1 && (trimmed(answer)[0] == 'y' || trimmed(
            answer,
        )[0] == 'Y'),
        !is_yes(None),
{
    reveal_strlit("y");
    let t = trimmed(answer);
    if is_yes(Some(answer)) {
        assert(folded(t).len() == 1);
        assert(folded(t)[0] == "y"@[0]);
    }
    if t.len() == 1 && (t[0] == 'y' || t[0] == 'Y') {
        assert(folded(t) =~= "y"@);
    }
}

// ---------------------------------------------------------------------------
// Adding time
// ---------------------------------------------------------------------------
/// The day that an argument names, where there is one.
pub open spec fn opt_date(s: Option<Text>, local: Timestamp) -> Result<Option<Timestamp>, Text> {
    match s {
        Some(s) => match date_value(s, local) {
            Ok(t) => Ok(Some(t)),
            Err(e) => Err(e),
        },
        None => Ok(None),
    }
}

/// The `add` command.
pub open spec fn added(
    db: Db,
    project: Text,
    secs: i64,
    date: Option<Text>,
    notes: Option<Text>,
    local: Timestamp,
    now: Timestamp,
    id: Text,
) -> (Db, OutputView) {
    match opt_date(date, local) {
        Ok(day) => {
            let s = time_added(db, project, secs, day, notes, now, id);
            (
                s.0,
                match s.1 {
                    Ok((_, p)) => said(
                        "Added "@ + human(secs as int) + " to '"@ + p.name + "' ("@ + match date {
                            Some(d) => d,
                            None => "today"@,
                        } + ")"@,
                    ),
                    Err(e) => refused(e),
                },
            )
        },
        Err(e) => (db, failed("--date: "@ + e)),
    }
}

fn read_date(s: Option<&str>, local: Timestamp) -> (r: Result<Option<Timestamp>, String>)
    ensures
        match r {
            Ok(t) => opt_date(opt_str(s), local) == Ok::<Option<Timestamp>, Text>(t),
            Err(e) => opt_date(opt_str(s), local) == Err::<Option<Timestamp>, Text>(e@),
        },
{
    match s {
        Some(s) => match parse_date(s, local) {
            Ok(t) => Ok(Some(t)),
            Err(e) => Err(e),
        },
        None => Ok(None),
    }
}

/// Adds time to a project after the fact.
pub fn cmd_add(
    storage: &mut Storage,
    project: &str,
    secs: i64,
    date: Option<&str>,
    notes: Option<&str>,
    local: Timestamp,
    now: Timestamp,
    id: &str,
) -> (r: Output)
    requires
        old(storage).wf(),
    ensures
        final(storage).wf(),
        ({
            let s = added(
                old(storage)@,
                project@,
                secs,
                opt_str(date),
                opt_str(notes),
                local,
                now,
                id@,
            );
            final(storage)@ == s.0 && r@ == s.1
        }),
{
    let day = match read_date(date, local) {
        Ok(d) => d,
        Err(e) => {
            let mut m = "--date: ".to_owned();
            m.append(e.as_str());
            return Output::fail(m.as_str());
        },
    };
    match add_time(storage, project, secs, day, notes, now, id) {
        Ok((_, p)) => {
            let mut line = cat3("Added ", format_duration_human(secs).as_str(), " to '");
            line.append(p.name.as_str());
            line.append("' (");
            match date {
                Some(d) => line.append(d),
                None => line.append("today"),
            }
            line.append(")");
            Output::say(line)
        },
        Err(e) => Output::refuse(&e),
    }
}

// ---------------------------------------------------------------------------
// Listing
// ---------------------------------------------------------------------------
/// The filter that arguments ask for; the last day counts whole.
pub open spec fn asked_filter(
    db: Db,
    from: Option<Text>,
    to: Option<Text>,
    project: Option<Text>,
    tags: Seq<Text>,
    local: Timestamp,
) -> Result<FilterView, Text> {
    match (opt_date(from, local), opt_date(to, local)) {
        (Err(e), _) => Err("--from: "@ + e),
        (_, Err(e)) => Err("--to: "@ + e),
        (Ok(from), Ok(to)) => if to is Some && !days_reach(to->Some_0, 1) {
            Err("--to: "@ + refusal_text(StintError::TimeOutOfRange))
        } else {
            let until = match to {
                Some(t) => Some(days_later(t, 1)),
                None => None,
            };
            match project {
                Some(name) => match named_project(db, name) {
                    Ok(p) => Ok(
                        EntryFilter { project_id: Some(p.id), from, to: until, source: None, tags },
                    ),
                    Err(e) => Err(refusal_text(e)),
                },
                None => Ok(EntryFilter { project_id: None, from, to: until, source: None, tags }),
            }
        },
    }
}

/// The filter that arguments ask for.
pub fn build_filter(
    storage: &Storage,
    from: Option<&str>,
    to: Option<&str>,
    project: Option<&str>,
    tags: &Vec<String>,
    local: Timestamp,
) -> (r: Result<EntryFilter, String>)
    requires
        storage.wf(),
    ensures
        ({
            let expected = asked_filter(
                storage@,
                opt_str(from),
                opt_str(to),
                opt_str(project),
                texts(tags@),
                local,
            );
            match r {
                Ok(f) => expected == Ok::<FilterView, Text>(f@),
                Err(e) => expected == Err::<FilterView, Text>(e@),
            }
        }),
{
    let from = match read_date(from, local) {
        Ok(d) => d,
        Err(e) => {
            let mut m = "--from: ".to_owned();
            m.append(e.as_str());
            return Err(m);
        },
    };
    let to = match read_date(to, local) {
        Ok(Some(d)) => match add_days(d, 1) {
            Some(t) => Some(t),
            None => {
                let mut m = "--to: ".to_owned();
                m.append(StintError::TimeOutOfRange.message().as_str());
                return Err(m);
            },
        },
        Ok(None) => None,
        Err(e) => {
            let mut m = "--to: ".to_owned();
            m.append(e.as_str());
            return Err(m);
        },
    };
    let project_id = match project {
        Some(name) => match resolve_project(storage, name) {
            Ok(p) => Some(p.id),
            Err(e) => return Err(e.message()),
        },
        None => None,
    };
    Ok(EntryFilter { project_id, from, to, source: None, tags: clone_texts(tags) })
}

/// A line of the log: date, project, length, source and notes.
pub open spec fn log_line(pair: PairView) -> Text {
    let (e, p) = pair;
    "  "@ + date_text(e.start.local()) + "  "@ + left_aligned(p.name, 16) + "  "@ + right_aligned(
        human(seconds_or_zero(e)),
        8,
    ) + "  "@ + left_aligned(e.source.word(), 7) + "  "@ + match e.notes {
        Some(n) => n,
        None => ""@,
    } + if e.end is None {
        " (running)"@
    } else {
        ""@
    }
}

/// The lines of the log.
pub open spec fn log_lines(s: Seq<PairView>) -> Seq<Text> {
    Seq::new(s.len(), |i: int| log_line(s[i]))
}

/// The `log` command.
pub open spec fn log_output(db: Db, filter: Result<FilterView, Text>) -> OutputView {
    match filter {
        Ok(f) => match pairs(db, f) {
            Ok(s) => if s.len() == 0 {
                said("No entries found."@)
            } else {
                Output { out: log_lines(s), err: Seq::empty(), failed: false }
            },
            Err(e) => refused(e),
        },
        Err(e) => failed(e),
    }
}

fn line_of_log(pair: &Pair) -> (r: String)
    ensures
        r@ == log_line(pair@),
{
    let e = &pair.0;
    let p = &pair.1;
    let mut line = cat3("  ", e.start.date().as_str(), "  ");
    line.append(pad_right(p.name.as_str(), 16).as_str());
    line.append("  ");
    line.append(pad_left(format_duration_human(seconds_of(e)).as_str(), 8).as_str());
    line.append("  ");
    line.append(pad_right(e.source.as_str(), 7).as_str());
    line.append("  ");
    match &e.notes {
        Some(n) => line.append(n.as_str()),
        None => line.append(""),
    }
    if e.is_running() {
        line.append(" (running)");
    } else {
        line.append("");
    }
    line
}

/// Lists entries.
pub fn cmd_log(
    storage: &Storage,
    from: Option<&str>,
    to: Option<&str>,
    project: Option<&str>,
    tags: &Vec<String>,
    local: Timestamp,
) -> (r: Output)
    requires
        storage.wf(),
    ensures
        r@ == log_output(
            storage@,
            asked_filter(
                storage@,
                opt_str(from),
                opt_str(to),
                opt_str(project),
                texts(tags@),
                local,
            ),
        ),
{
    let filter = match build_filter(storage, from, to, project, tags, local) {
        Ok(f) => f,
        Err(e) => return Output::fail(e.as_str()),
    };
    let entries = match get_entries(storage, &filter) {
        Ok(v) => v,
        Err(e) => return Output::refuse(&e),
    };
    let ghost s = views(entries@);
    if entries.len() == 0 {
        return Output::say("No entries found.".to_owned());
    }
    let mut o = Output::silent();
    for i in 0..entries.len()
        invariant
            s == views(entries@),
            o@.out =~= log_lines(s).take(i as int),
            o@.err == Seq::<Text>::empty(),
            !o@.failed,
    {
        o.print(line_of_log(&entries[i]));
        assert(log_lines(s)[i as int] == log_line(entries@[i as int]@));
    }
    assert(log_lines(s).take(s.len() as int) =~= log_lines(s));
    o
}

} // verus!
