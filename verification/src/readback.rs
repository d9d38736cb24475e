//! What a read gives back of a write.
use crate::clock::{stamp_of, writable, Timestamp};
use crate::db::{
    active_with_pid, by_name, by_text, deepest_at, depth, entries_apart, entry_is, entry_is_not,
    entry_outside, latest_first, path_covers, path_is_not, project_at, project_has, project_is,
    project_is_not, project_named, projects_apart, selected, session_is, session_row,
    sessions_apart, Db, Fault,
};
use crate::models::{
    EntryData, EntryView, FilterView, Project, ProjectData, ProjectStatus, ProjectView, SessionView,
    ShellSession, Text, TimeEntry,
};
use crate::paths::covers;
use crate::rows::{
    any, first, first_at, in_order, lemma_filter, lemma_first, lemma_first_found, lemma_sorted,
    orders, pairwise, sorted_by,
};
use crate::text::{before, folded, lemma_before_total, lemma_before_trans};
use vstd::prelude::*;

verus! {

/// Whether a point in time can be stored: it can be written in RFC 3339.
pub open spec fn storable(t: Timestamp) -> bool {
    writable(t.local() as int, t.offset() as int)
}

/// Whether an optional point in time can be stored.
pub open spec fn opt_storable(t: Option<Timestamp>) -> bool {
    t matches Some(x) ==> storable(x)
}

/// Whether the text of a point in time stands for it.
pub open spec fn reads_back(t: Timestamp) -> bool {
    stamp_of(t.text()) == Some(t)
}

/// Whether the text of an optional point in time stands for it.
pub open spec fn opt_reads_back(t: Option<Timestamp>) -> bool {
    t matches Some(x) ==> reads_back(x)
}

/// A project as it is read after it was stored: with its tags in order.
pub open spec fn stored_project(p: ProjectView) -> ProjectView {
    Project { tags: sorted_by(p.tags, by_text()), ..p }
}

/// An entry as it is read after it was stored: with its tags in order.
pub open spec fn stored_entry(e: EntryView) -> EntryView {
    TimeEntry { tags: sorted_by(e.tags, by_text()), ..e }
}

/// Whether the times of an entry can be stored.
pub open spec fn entry_storable(e: EntryView) -> bool {
    storable(e.start) && opt_storable(e.end) && storable(e.created_at) && storable(e.updated_at)
}

/// Whether the times of a session can be stored.
pub open spec fn session_storable(s: SessionView) -> bool {
    storable(s.started_at) && storable(s.last_heartbeat) && opt_storable(s.ended_at)
}

/// Whether a project that was read before is read as replaced, but for its source and its creation
/// time.
pub open spec fn project_replaced(from: Db, to: Db, p: ProjectView) -> bool {
    match from.get_project(p.id) {
        Ok(Some(was)) => to.get_project(p.id) == Ok::<Option<ProjectView>, Fault>(
            Some(Project { source: was.source, created_at: was.created_at, ..stored_project(p) }),
        ),
        _ => true,
    }
}

/// Whether an entry that was read before is read as replaced, but for its creation time.
pub open spec fn entry_replaced(from: Db, to: Db, e: EntryView) -> bool {
    match from.get_entry(e.id) {
        Ok(Some(was)) => to.get_entry(e.id) == Ok::<Option<EntryView>, Fault>(
            Some(TimeEntry { created_at: was.created_at, ..stored_entry(e) }),
        ),
        _ => true,
    }
}

/// Whether a session is read as it reported; one that was there keeps its process, shell and start.
pub open spec fn session_reported(from: Db, to: Db, s: SessionView) -> bool {
    match from.get_session(s.id) {
        Ok(Some(was)) => to.get_session(s.id) == Ok::<Option<SessionView>, Fault>(
            Some(ShellSession { pid: was.pid, shell: was.shell, started_at: was.started_at, ..s }),
        ),
        Ok(None) => to.get_session(s.id) == Ok::<Option<SessionView>, Fault>(Some(s)),
        Err(_) => true,
    }
}

/// Whether a session that was read before is read with its end.
pub open spec fn session_closed(from: Db, to: Db, id: Text, at: Timestamp) -> bool {
    match from.get_session(id) {
        Ok(Some(was)) => to.get_session(id) == Ok::<Option<SessionView>, Fault>(
            Some(ShellSession { ended_at: Some(at), ..was }),
        ),
        _ => true,
    }
}

// ---------------------------------------------------------------------------
// Rows by identifier
// ---------------------------------------------------------------------------
proof fn lemma_project_at(db: Db, k: int)
    requires
        pairwise(db.projects, projects_apart()),
        0 <= k < db.projects.len(),
    ensures
        first(db.projects, project_is(db.projects[k].id)) == Some(db.projects[k]),
{
    let p = project_is(db.projects[k].id);
    assert forall|j: int| 0 <= j < k implies !p(#[trigger] db.projects[j]) by {
        assert(projects_apart()(db.projects[j], db.projects[k]));
    }
    lemma_first_found(db.projects, p, k);
}

proof fn lemma_entry_at(db: Db, k: int)
    requires
        pairwise(db.entries, entries_apart()),
        0 <= k < db.entries.len(),
    ensures
        first(db.entries, entry_is(db.entries[k].id)) == Some(db.entries[k]),
{
    let p = entry_is(db.entries[k].id);
    assert forall|j: int| 0 <= j < k implies !p(#[trigger] db.entries[j]) by {
        assert(entries_apart()(db.entries[j], db.entries[k]));
    }
    lemma_first_found(db.entries, p, k);
}

// ---------------------------------------------------------------------------
// Projects
// ---------------------------------------------------------------------------
/// A registered project is found by its identifier, and by its name in whatever case.
pub proof fn law_created_project(db: Db, p: ProjectView, name: Text)
    requires
        db.valid(),
        db.create_project(p) is Ok,
        reads_back(p.created_at),
        reads_back(p.updated_at),
        folded(name) == folded(p.name),
    ensures
        db.create_project(p)->Ok_0.get_project(p.id) == Ok::<Option<ProjectView>, Fault>(
            Some(stored_project(p)),
        ),
        db.create_project(p)->Ok_0.get_project_by_name(name) == Ok::<Option<ProjectView>, Fault>(
            Some(stored_project(p)),
        ),
{
    let n = db.create_project(p)->Ok_0;
    let k = db.projects.len() as int;
    assert forall|j: int| 0 <= j < k implies !project_is(p.id)(#[trigger] n.projects[j]) by {
        assert(!project_is(p.id)(db.projects[j]));
    }
    assert forall|j: int| 0 <= j < k implies !project_named(name)(#[trigger] n.projects[j]) by {
        assert(!project_named(p.name)(db.projects[j]));
    }
    lemma_first_found(n.projects, project_is(p.id), k);
    lemma_first_found(n.projects, project_named(name), k);
}

/// A second project of the same name, in whatever case, is refused.
pub proof fn law_name_taken(db: Db, p: ProjectView, q: ProjectView)
    requires
        db.create_project(p) is Ok,
        folded(q.name) == folded(p.name),
    ensures
        db.create_project(p)->Ok_0.create_project(q) == Err::<Db, Fault>(
            crate::db::StorageError::DuplicateProjectName(q.name),
        ),
{
    let n = db.create_project(p)->Ok_0;
    assert(project_named(q.name)(n.projects[db.projects.len() as int]));
}

/// A replaced project is found as it was given, but for its source and its creation time.
pub proof fn law_updated_project(db: Db, p: ProjectView, was: ProjectView)
    requires
        db.valid(),
        db.update_project(p) is Ok,
        db.get_project(p.id) == Ok::<Option<ProjectView>, Fault>(Some(was)),
        reads_back(p.updated_at),
    ensures
        db.update_project(p)->Ok_0.get_project(p.id) == Ok::<Option<ProjectView>, Fault>(
            Some(
                Project { source: was.source, created_at: was.created_at, ..stored_project(p) },
            ),
        ),
{
    let n = db.update_project(p)->Ok_0;
    crate::upkeep::law_update_project_keeps_rules(db, p);
    lemma_first(db.projects, project_is(p.id));
    let k = choose|k: int|
        #[trigger] first_at(db.projects, project_is(p.id), k) && first(
            db.projects,
            project_is(p.id),
        ) == Some(db.projects[k]);
    assert(project_is(p.id)(db.projects[k]));
    assert(n.projects[k].id == p.id);
    lemma_project_at(n, k);
}

/// A deleted project is gone with its entries, and no session is in it; other projects and entries
/// stay.
pub proof fn law_deleted_project(db: Db, id: Text)
    requires
        db.valid(),
        db.delete_project(id) is Ok,
    ensures
        ({
            let n = db.delete_project(id)->Ok_0;
            &&& n.get_project(id) == Ok::<Option<ProjectView>, Fault>(None)
            &&& forall|r: ProjectData|
                #[trigger] n.projects.contains(r) <==> db.projects.contains(r) && r.id != id
            &&& forall|e: EntryData|
                #[trigger] n.entries.contains(e) <==> db.entries.contains(e) && e.project_id != id
            &&& forall|i: int|
                0 <= i < n.sessions.len() ==> (#[trigger] n.sessions[i]).current_project_id != Some(
                    id,
                )
        }),
{
    let n = db.delete_project(id)->Ok_0;
    lemma_filter(db.projects, project_is_not(id));
    lemma_filter(db.entries, entry_outside(id));
    lemma_first(n.projects, project_is(id));
    if any(n.projects, project_is(id)) {
        let i = choose|i: int| 0 <= i < n.projects.len() && project_is(id)(#[trigger] n.projects[i]);
        assert(project_is_not(id)(n.projects[i]));
    }
}

/// The project of a path has a registered path that covers it, and no covering path is longer.
pub proof fn law_longest_prefix(db: Db, path: Text, r: ProjectData, j: int, k: int)
    requires
        project_at(db.projects, path) == Some(r),
        0 <= j < db.projects.len(),
        0 <= k < db.projects[j].paths.len(),
        covers(db.projects[j].paths[k], path),
    ensures
        exists|m: int|
            0 <= m < r.paths.len() && covers(#[trigger] r.paths[m], path)
                && db.projects[j].paths[k].len() <= r.paths[m].len(),
{
    let i = choose|i: int| deepest_at(db.projects, path, i);
    lemma_depth_bound(db.projects[j].paths, path, k);
    lemma_depth_reached(r.paths, path);
}

pub proof fn lemma_depth_bound(paths: Seq<Text>, path: Text, k: int)
    requires
        0 <= k < paths.len(),
        covers(paths[k], path),
    ensures
        paths[k].len() <= depth(paths, path),
    decreases paths.len(),
{
    if k < paths.len() - 1 {
        lemma_depth_bound(paths.drop_last(), path, k);
    }
}

pub proof fn lemma_depth_reached(paths: Seq<Text>, path: Text)
    requires
        depth(paths, path) >= 0,
    ensures
        exists|m: int|
            0 <= m < paths.len() && covers(#[trigger] paths[m], path) && paths[m].len() == depth(
                paths,
                path,
            ),
    decreases paths.len(),
{
    if paths.len() > 0 {
        let d = depth(paths.drop_last(), path);
        if covers(paths.last(), path) && paths.last().len() > d {
            assert(paths[paths.len() - 1] == paths.last());
        } else {
            lemma_depth_reached(paths.drop_last(), path);
            let m = choose|m: int|
                0 <= m < paths.drop_last().len() && covers(#[trigger] paths.drop_last()[m], path)
                    && paths.drop_last()[m].len() == d;
            assert(paths[m] == paths.drop_last()[m]);
        }
    }
}

proof fn lemma_depth_none(projects: Seq<ProjectData>, path: Text, n: int)
    requires
        0 <= n <= projects.len(),
        exists|i: int| 0 <= i < n && depth((#[trigger] projects[i]).paths, path) >= 0,
    ensures
        exists|i: int| deepest_at(projects.take(n), path, i),
    decreases n,
{
    let t = projects.take(n);
    let last = projects[n - 1];
    if exists|i: int| 0 <= i < n - 1 && depth((#[trigger] projects[i]).paths, path) >= 0 {
        lemma_depth_none(projects, path, n - 1);
        let u = projects.take(n - 1);
        let i = choose|i: int| deepest_at(u, path, i);
        assert(u[i] == t[i]);
        assert forall|j: int| 0 <= j < n - 1 implies #[trigger] t[j] == u[j] by {}
        if depth(last.paths, path) > depth(u[i].paths, path) {
            assert(deepest_at(t, path, n - 1)) by {
                assert forall|j: int| 0 <= j < n - 1 implies depth((#[trigger] t[j]).paths, path)
                    < depth(t[n - 1].paths, path) by {
                    assert(t[j] == u[j]);
                }
            }
        } else {
            assert(deepest_at(t, path, i)) by {
                assert forall|j: int| 0 <= j < t.len() implies depth((#[trigger] t[j]).paths, path)
                    <= depth(t[i].paths, path) by {
                    if j < n - 1 {
                        assert(t[j] == u[j]);
                    }
                }
                assert forall|j: int| 0 <= j < i implies depth((#[trigger] t[j]).paths, path)
                    < depth(t[i].paths, path) by {
                    assert(t[j] == u[j]);
                }
            }
        }
    } else {
        assert(deepest_at(t, path, n - 1)) by {
            assert(t[n - 1] == last);
            assert forall|j: int| 0 <= j < n - 1 implies depth((#[trigger] t[j]).paths, path)
                < depth(t[n - 1].paths, path) by {
                assert(t[j] == projects[j]);
            }
        }
    }
}

/// A path belongs to a project exactly where a registered path covers it.
pub proof fn law_covered_is_found(db: Db, path: Text)
    ensures
        project_at(db.projects, path) is Some <==> exists|j: int, k: int|
            0 <= j < db.projects.len() && 0 <= k < db.projects[j].paths.len() && covers(
                #[trigger] db.projects[j].paths[k],
                path,
            ),
{
    if exists|j: int, k: int|
        0 <= j < db.projects.len() && 0 <= k < db.projects[j].paths.len() && covers(
            #[trigger] db.projects[j].paths[k],
            path,
        ) {
        let (j, k) = choose|j: int, k: int|
            0 <= j < db.projects.len() && 0 <= k < db.projects[j].paths.len() && covers(
                #[trigger] db.projects[j].paths[k],
                path,
            );
        lemma_depth_bound(db.projects[j].paths, path, k);
        lemma_depth_none(db.projects, path, db.projects.len() as int);
        assert(db.projects.take(db.projects.len() as int) =~= db.projects);
    }
    if project_at(db.projects, path) is Some {
        let i = choose|i: int| deepest_at(db.projects, path, i);
        lemma_depth_reached(db.projects[i].paths, path);
        let m = choose|m: int|
            0 <= m < db.projects[i].paths.len() && covers(
                #[trigger] db.projects[i].paths[m],
                path,
            );
        assert(covers(db.projects[i].paths[m], path));
    }
}

// ---------------------------------------------------------------------------
// Entries
// ---------------------------------------------------------------------------
/// A stored entry is found by its identifier, and where it runs, as the running one of its project.
pub proof fn law_created_entry(db: Db, e: EntryView)
    requires
        db.valid(),
        db.create_entry(e) is Ok,
        reads_back(e.start),
        opt_reads_back(e.end),
        reads_back(e.created_at),
        reads_back(e.updated_at),
    ensures
        db.create_entry(e)->Ok_0.get_entry(e.id) == Ok::<Option<EntryView>, Fault>(
            Some(stored_entry(e)),
        ),
        e.end is None ==> db.create_entry(e)->Ok_0.get_running_entry(e.project_id) == Ok::<
            Option<EntryView>,
            Fault,
        >(Some(stored_entry(e))),
{
    let n = db.create_entry(e)->Ok_0;
    let k = db.entries.len() as int;
    let p = crate::db::running_in(e.project_id);
    assert forall|j: int| 0 <= j < k implies !entry_is(e.id)(#[trigger] n.entries[j]) by {
        assert(!entry_is(e.id)(db.entries[j]));
    }
    lemma_first_found(n.entries, entry_is(e.id), k);
    if e.end is None {
        assert forall|j: int| 0 <= j < k implies !p(#[trigger] n.entries[j]) by {
            assert(!p(db.entries[j]));
        }
        lemma_first_found(n.entries, p, k);
    }
}

/// A replaced entry is found as it was given, but for its creation time.
pub proof fn law_updated_entry(db: Db, e: EntryView, was: EntryView)
    requires
        db.valid(),
        db.update_entry(e) is Ok,
        db.get_entry(e.id) == Ok::<Option<EntryView>, Fault>(Some(was)),
        reads_back(e.start),
        opt_reads_back(e.end),
        reads_back(e.updated_at),
    ensures
        db.update_entry(e)->Ok_0.get_entry(e.id) == Ok::<Option<EntryView>, Fault>(
            Some(TimeEntry { created_at: was.created_at, ..stored_entry(e) }),
        ),
{
    let n = db.update_entry(e)->Ok_0;
    crate::upkeep::law_update_entry_keeps_rules(db, e);
    lemma_first(db.entries, entry_is(e.id));
    let k = choose|k: int|
        #[trigger] first_at(db.entries, entry_is(e.id), k) && first(db.entries, entry_is(e.id))
            == Some(db.entries[k]);
    assert(entry_is(e.id)(db.entries[k]));
    assert(n.entries[k].id == e.id);
    lemma_entry_at(n, k);
}

/// A deleted entry is gone, and the others stay.
pub proof fn law_deleted_entry(db: Db, id: Text)
    requires
        db.delete_entry(id) is Ok,
    ensures
        ({
            let n = db.delete_entry(id)->Ok_0;
            &&& n.get_entry(id) == Ok::<Option<EntryView>, Fault>(None)
            &&& forall|e: EntryData|
                #[trigger] n.entries.contains(e) <==> db.entries.contains(e) && e.id != id
        }),
{
    let n = db.delete_entry(id)->Ok_0;
    lemma_filter(db.entries, entry_is_not(id));
    if any(n.entries, entry_is(id)) {
        let i = choose|i: int| 0 <= i < n.entries.len() && entry_is(id)(#[trigger] n.entries[i]);
        assert(entry_is_not(id)(n.entries[i]));
    }
}

// ---------------------------------------------------------------------------
// Sessions
// ---------------------------------------------------------------------------
/// A new session is found by its identifier, and where it is active, by its process.
pub proof fn law_new_session(db: Db, s: SessionView)
    requires
        db.valid(),
        db.upsert_session(s) is Ok,
        !any(db.sessions, session_is(s.id)),
        reads_back(s.started_at),
        reads_back(s.last_heartbeat),
        opt_reads_back(s.ended_at),
    ensures
        db.upsert_session(s)->Ok_0.get_session(s.id) == Ok::<Option<SessionView>, Fault>(Some(s)),
        s.ended_at is None ==> db.upsert_session(s)->Ok_0.get_session_by_pid(s.pid) == Ok::<
            Option<SessionView>,
            Fault,
        >(Some(s)),
{
    let n = db.upsert_session(s)->Ok_0;
    let k = db.sessions.len() as int;
    crate::upkeep::law_upsert_session_keeps_rules(db, s);
    assert forall|j: int| 0 <= j < k implies !session_is(s.id)(#[trigger] n.sessions[j]) by {
        assert(!session_is(s.id)(db.sessions[j]));
    }
    assert(n.sessions[k] == session_row(s));
    lemma_first_found(n.sessions, session_is(s.id), k);
    if s.ended_at is None {
        let p = active_with_pid(s.pid);
        assert forall|j: int| 0 <= j < k implies !p(#[trigger] n.sessions[j]) by {
            assert(sessions_apart()(n.sessions[j], n.sessions[k]));
        }
        lemma_first_found(n.sessions, p, k);
    }
}

/// A session that reports again has the directory, project, heartbeat and end that it reported, and
/// its process, shell and start stay.
pub proof fn law_session_reports(db: Db, s: SessionView, was: SessionView)
    requires
        db.valid(),
        db.upsert_session(s) is Ok,
        db.get_session(s.id) == Ok::<Option<SessionView>, Fault>(Some(was)),
        reads_back(s.last_heartbeat),
        opt_reads_back(s.ended_at),
    ensures
        db.upsert_session(s)->Ok_0.get_session(s.id) == Ok::<Option<SessionView>, Fault>(
            Some(ShellSession { pid: was.pid, shell: was.shell, started_at: was.started_at, ..s }),
        ),
{
    let n = db.upsert_session(s)->Ok_0;
    let p = session_is(s.id);
    crate::upkeep::law_upsert_session_keeps_rules(db, s);
    lemma_first(db.sessions, p);
    let k = choose|k: int|
        #[trigger] first_at(db.sessions, p, k) && first(db.sessions, p) == Some(db.sessions[k]);
    assert(p(db.sessions[k]));
    assert forall|j: int| 0 <= j < k implies !p(#[trigger] n.sessions[j]) by {
        assert(!p(db.sessions[j]));
    }
    assert(p(n.sessions[k]));
    lemma_first_found(n.sessions, p, k);
}

/// An ended session is found with its end, and where it was active, its process has no active
/// session any more.
pub proof fn law_ended_session(db: Db, id: Text, at: Timestamp, was: SessionView)
    requires
        db.valid(),
        db.get_session(id) == Ok::<Option<SessionView>, Fault>(Some(was)),
        reads_back(at),
    ensures
        ({
            let n = db.end_session(id, at);
            &&& n is Ok
            &&& n->Ok_0.get_session(id) == Ok::<Option<SessionView>, Fault>(
                Some(ShellSession { ended_at: Some(at), ..was }),
            )
            &&& was.ended_at is None ==> n->Ok_0.get_session_by_pid(was.pid) == Ok::<
                Option<SessionView>,
                Fault,
            >(None)
        }),
{
    let p = session_is(id);
    lemma_first(db.sessions, p);
    let k = choose|k: int|
        #[trigger] first_at(db.sessions, p, k) && first(db.sessions, p) == Some(db.sessions[k]);
    assert(p(db.sessions[k]));
    assert(db.end_session(id, at) is Ok);
    let n = db.end_session(id, at)->Ok_0;
    assert forall|j: int| 0 <= j < k implies !p(#[trigger] n.sessions[j]) by {
        assert(!p(db.sessions[j]));
    }
    assert(p(n.sessions[k]));
    lemma_first_found(n.sessions, p, k);
    if was.ended_at is None {
        let q = active_with_pid(was.pid);
        assert forall|j: int| 0 <= j < n.sessions.len() implies !q(#[trigger] n.sessions[j]) by {
            if j < k {
                assert(sessions_apart()(db.sessions[j], db.sessions[k]));
            } else if k < j {
                assert(sessions_apart()(db.sessions[k], db.sessions[j]));
            }
        }
    }
}

// ---------------------------------------------------------------------------
// Ignored paths and lists
// ---------------------------------------------------------------------------
/// What is ignored covers what lies below it; what is ignored no longer is not in the list, and the
/// others are.
pub proof fn law_ignoring(db: Db, path: Text, below: Text)
    ensures
        covers(path, below) ==> db.add_ignored_path(path).is_path_ignored(below),
        db.add_ignored_path(path).add_ignored_path(path) == db.add_ignored_path(path),
        forall|p: Text|
            #[trigger] db.remove_ignored_path(path).ignored.contains(p) <==> db.ignored.contains(p)
                && p != path,
{
    let n = db.add_ignored_path(path);
    lemma_filter(db.ignored, path_is_not(path));
    if db.ignored.contains(path) {
        let i = choose|i: int| 0 <= i < db.ignored.len() && db.ignored[i] == path;
        assert(n.ignored[i] == path);
    } else {
        assert(n.ignored[db.ignored.len() as int] == path);
    }
    assert(n.ignored.contains(path));
    let i = choose|i: int| 0 <= i < n.ignored.len() && n.ignored[i] == path;
    if covers(path, below) {
        assert(path_covers(below)(n.ignored[i]));
    }
}

proof fn lemma_texts_order(a: Text, b: Text, c: Text)
    ensures
        before(a, b) ==> !before(b, a),
        !before(a, b) && !before(b, c) ==> !before(a, c),
{
    lemma_before_total(a, b);
    lemma_before_total(b, c);
    lemma_before_total(a, c);
    if !before(a, b) && !before(b, c) && before(a, c) {
        if a != b {
            if b != c {
                lemma_before_trans(c, b, a);
            }
        }
    }
}

/// The orders of lists are orders.
pub proof fn lemma_orders()
    ensures
        orders(by_name()),
        orders(latest_first()),
        orders(by_text()),
{
    let n = by_name();
    let l = latest_first();
    let t = by_text();
    assert forall|a: ProjectData, b: ProjectData| #[trigger] n(a, b) implies !n(b, a) by {
        lemma_texts_order(folded(a.name), folded(b.name), folded(a.name));
    }
    assert forall|a: ProjectData, b: ProjectData, c: ProjectData|
        !(#[trigger] n(a, b)) && !(#[trigger] n(b, c)) implies !n(a, c) by {
        lemma_texts_order(folded(a.name), folded(b.name), folded(c.name));
    }
    assert forall|a: EntryData, b: EntryData| #[trigger] l(a, b) implies !l(b, a) by {
        lemma_texts_order(b.start, a.start, b.start);
    }
    assert forall|a: EntryData, b: EntryData, c: EntryData|
        !(#[trigger] l(a, b)) && !(#[trigger] l(b, c)) implies !l(a, c) by {
        lemma_texts_order(c.start, b.start, a.start);
    }
    assert forall|a: Text, b: Text| #[trigger] t(a, b) implies !t(b, a) by {
        lemma_texts_order(a, b, a);
    }
    assert forall|a: Text, b: Text, c: Text|
        !(#[trigger] t(a, b)) && !(#[trigger] t(b, c)) implies !t(a, c) by {
        lemma_texts_order(a, b, c);
    }
}

/// Lists are in order and hold what was asked for, no more and no less: projects by name, entries
/// from the latest start on, ignored paths as texts.
pub proof fn law_lists(db: Db, status: Option<ProjectStatus>, f: FilterView)
    ensures
        in_order(db.project_rows(status), by_name()),
        db.project_rows(status).to_multiset() == db.projects.filter(
            project_has(status),
        ).to_multiset(),
        in_order(db.entry_rows(f), latest_first()),
        db.entry_rows(f).to_multiset() == db.entries.filter(selected(f)).to_multiset(),
        in_order(sorted_by(db.ignored, by_text()), by_text()),
        sorted_by(db.ignored, by_text()).to_multiset() == db.ignored.to_multiset(),
{
    lemma_orders();
    lemma_sorted(db.projects.filter(project_has(status)), by_name());
    let s = db.entries.filter(selected(f));
    lemma_sorted(s.reverse(), latest_first());
    lemma_reverse(s);
    lemma_sorted(db.ignored, by_text());
}

pub proof fn lemma_reverse<R>(s: Seq<R>)
    ensures
        s.reverse().to_multiset() == s.to_multiset(),
    decreases s.len(),
{
    broadcast use vstd::seq_lib::group_to_multiset_ensures;

    if s.len() > 0 {
        let t = s.drop_last();
        lemma_reverse(t);
        assert(s =~= t.push(s.last()));
        assert(s.reverse() =~= seq![s.last()] + t.reverse());
        vstd::seq_lib::lemma_multiset_commutative(seq![s.last()], t.reverse());
        assert(seq![s.last()] =~= Seq::<R>::empty().push(s.last()));
        assert(s.reverse().to_multiset() =~= s.to_multiset());
    } else {
        assert(s.reverse() =~= s);
    }
}

} // verus!
