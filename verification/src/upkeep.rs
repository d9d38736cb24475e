//! Every operation keeps the rules of the tables.
use crate::clock::Timestamp;
use crate::db::{
    by_text, entries_apart, entry_is, entry_is_not, entry_outside, entry_row, entry_sound,
    entry_updated, other_active_with_pid, other_project_named, other_running_in, path_is_not,
    project_is, project_is_not, project_named, project_row, project_sound, project_updated,
    projects_apart, running_in, session_ended, session_is, session_row, session_sound,
    session_superseded, sessions_apart, tags_kept, Db,
};
use crate::models::{EntryView, ProjectData, ProjectView, SessionView, Text};
use crate::readback::lemma_orders;
use crate::rows::{all, any, first_at, lemma_filter, lemma_first, lemma_sorted, pairwise, sorted_by};
use vstd::prelude::*;

verus! {

/// Texts brought in order are in order, and hold no text twice if they did not before.
pub proof fn lemma_sorted_distinct(s: Seq<Text>)
    requires
        s.no_duplicates(),
    ensures
        tags_kept(sorted_by(s, by_text())),
        forall|x: Text| sorted_by(s, by_text()).contains(x) <==> s.contains(x),
{
    broadcast use vstd::seq_lib::group_to_multiset_ensures;

    let t = sorted_by(s, by_text());
    lemma_orders();
    lemma_sorted(s, by_text());
    s.lemma_multiset_has_no_duplicates();
    assert forall|x: Text| t.to_multiset().contains(x) implies t.to_multiset().count(x) == 1 by {
        assert(s.to_multiset().contains(x));
    }
    t.lemma_multiset_has_no_duplicates_conv();
    assert forall|x: Text| t.contains(x) <==> s.contains(x) by {
        assert(t.contains(x) <==> t.to_multiset().count(x) > 0);
        assert(s.contains(x) <==> s.to_multiset().count(x) > 0);
    }
}

/// Rows that refer to projects stay sound where no project is lost.
proof fn lemma_projects_kept(db: Db, projects: Seq<ProjectData>)
    requires
        all(db.entries, entry_sound(db.projects)),
        all(db.sessions, session_sound(db.projects)),
        forall|id: Text|
            #[trigger] any(db.projects, project_is(id)) ==> any(projects, project_is(id)),
    ensures
        all(db.entries, entry_sound(projects)),
        all(db.sessions, session_sound(projects)),
{
    assert forall|i: int| 0 <= i < db.entries.len() implies entry_sound(projects)(
        #[trigger] db.entries[i],
    ) by {
        assert(entry_sound(db.projects)(db.entries[i]));
    }
    assert forall|i: int| 0 <= i < db.sessions.len() implies session_sound(projects)(
        #[trigger] db.sessions[i],
    ) by {
        assert(session_sound(db.projects)(db.sessions[i]));
    }
}

/// Registering a project keeps the rules.
pub proof fn law_create_project_keeps_rules(db: Db, p: ProjectView)
    requires
        db.valid(),
        db.create_project(p) is Ok,
    ensures
        db.create_project(p)->Ok_0.valid(),
{
    let row = project_row(p);
    let next = db.projects.push(row);
    lemma_sorted_distinct(p.tags);
    assert forall|i: int, j: int| 0 <= i < j < next.len() implies projects_apart()(
        #[trigger] next[i],
        #[trigger] next[j],
    ) by {
        if j < db.projects.len() {
            assert(projects_apart()(db.projects[i], db.projects[j]));
        } else {
            assert(!project_is(p.id)(db.projects[i]));
            assert(!project_named(p.name)(db.projects[i]));
        }
    }
    assert forall|i: int| 0 <= i < next.len() implies project_sound()(#[trigger] next[i]) by {
        if i < db.projects.len() {
            assert(project_sound()(db.projects[i]));
        }
    }
    assert forall|id: Text| #[trigger] any(db.projects, project_is(id)) implies any(
        next,
        project_is(id),
    ) by {
        let i = choose|i: int|
            0 <= i < db.projects.len() && project_is(id)(#[trigger] db.projects[i]);
        assert(project_is(id)(next[i]));
    }
    lemma_projects_kept(db, next);
}

/// Replacing a project keeps the rules.
pub proof fn law_update_project_keeps_rules(db: Db, p: ProjectView)
    requires
        db.valid(),
        db.update_project(p) is Ok,
    ensures
        db.update_project(p)->Ok_0.valid(),
{
    let f = project_updated(project_row(p));
    let next = db.projects.map_values(f);
    lemma_sorted_distinct(p.tags);
    assert forall|i: int, j: int| 0 <= i < j < next.len() implies projects_apart()(
        #[trigger] next[i],
        #[trigger] next[j],
    ) by {
        assert(projects_apart()(db.projects[i], db.projects[j]));
        assert(!other_project_named(p.id, p.name)(db.projects[i]));
        assert(!other_project_named(p.id, p.name)(db.projects[j]));
    }
    assert forall|i: int| 0 <= i < next.len() implies project_sound()(#[trigger] next[i]) by {
        assert(project_sound()(db.projects[i]));
    }
    assert forall|id: Text| #[trigger] any(db.projects, project_is(id)) implies any(
        next,
        project_is(id),
    ) by {
        let i = choose|i: int|
            0 <= i < db.projects.len() && project_is(id)(#[trigger] db.projects[i]);
        assert(project_is(id)(next[i]));
    }
    lemma_projects_kept(db, next);
}

/// Deleting a project keeps the rules.
pub proof fn law_delete_project_keeps_rules(db: Db, id: Text)
    requires
        db.valid(),
        db.delete_project(id) is Ok,
    ensures
        db.delete_project(id)->Ok_0.valid(),
{
    let keep = project_is_not(id);
    let stay = entry_outside(id);
    let next = db.delete_project(id)->Ok_0;
    lemma_filter(db.projects, keep);
    lemma_filter(db.entries, stay);
    assert(pairwise(next.projects, projects_apart()));
    assert(all(next.projects, project_sound()));
    assert(pairwise(next.entries, entries_apart()));
    assert forall|other: Text|
        other != id && #[trigger] any(db.projects, project_is(other)) implies any(
        next.projects,
        project_is(other),
    ) by {
        let i = choose|i: int|
            0 <= i < db.projects.len() && project_is(other)(#[trigger] db.projects[i]);
        assert(db.projects.contains(db.projects[i]));
        assert(next.projects.contains(db.projects[i]));
        let k = choose|k: int| 0 <= k < next.projects.len() && next.projects[k] == db.projects[i];
        assert(project_is(other)(next.projects[k]));
    }
    assert(all(next.entries, entry_sound(db.projects)));
    assert forall|i: int| 0 <= i < next.entries.len() implies entry_sound(next.projects)(
        #[trigger] next.entries[i],
    ) by {
        assert(stay(next.entries[i]));
        assert(entry_sound(db.projects)(next.entries[i]));
    }
    assert forall|i: int| 0 <= i < next.sessions.len() implies session_sound(next.projects)(
        #[trigger] next.sessions[i],
    ) by {
        assert(session_sound(db.projects)(db.sessions[i]));
    }
    assert forall|i: int, j: int| 0 <= i < j < next.sessions.len() implies sessions_apart()(
        #[trigger] next.sessions[i],
        #[trigger] next.sessions[j],
    ) by {
        assert(sessions_apart()(db.sessions[i], db.sessions[j]));
    }
}

/// Storing an entry keeps the rules.
pub proof fn law_create_entry_keeps_rules(db: Db, e: EntryView)
    requires
        db.valid(),
        db.create_entry(e) is Ok,
    ensures
        db.create_entry(e)->Ok_0.valid(),
{
    let next = db.entries.push(entry_row(e));
    lemma_sorted_distinct(e.tags);
    assert forall|i: int, j: int| 0 <= i < j < next.len() implies entries_apart()(
        #[trigger] next[i],
        #[trigger] next[j],
    ) by {
        if j < db.entries.len() {
            assert(entries_apart()(db.entries[i], db.entries[j]));
        } else {
            assert(!entry_is(e.id)(db.entries[i]));
            assert(e.end is None ==> !running_in(e.project_id)(db.entries[i]));
        }
    }
    assert forall|i: int| 0 <= i < next.len() implies entry_sound(db.projects)(
        #[trigger] next[i],
    ) by {
        if i < db.entries.len() {
            assert(entry_sound(db.projects)(db.entries[i]));
        }
    }
}

/// Replacing an entry keeps the rules.
pub proof fn law_update_entry_keeps_rules(db: Db, e: EntryView)
    requires
        db.valid(),
        db.update_entry(e) is Ok,
    ensures
        db.update_entry(e)->Ok_0.valid(),
{
    let next = db.entries.map_values(entry_updated(entry_row(e)));
    lemma_sorted_distinct(e.tags);
    assert forall|i: int, j: int| 0 <= i < j < next.len() implies entries_apart()(
        #[trigger] next[i],
        #[trigger] next[j],
    ) by {
        assert(entries_apart()(db.entries[i], db.entries[j]));
        assert(e.end is None ==> !other_running_in(e.id, e.project_id)(db.entries[i]));
        assert(e.end is None ==> !other_running_in(e.id, e.project_id)(db.entries[j]));
    }
    assert forall|i: int| 0 <= i < next.len() implies entry_sound(db.projects)(
        #[trigger] next[i],
    ) by {
        assert(entry_sound(db.projects)(db.entries[i]));
    }
}

/// Deleting an entry keeps the rules.
pub proof fn law_delete_entry_keeps_rules(db: Db, id: Text)
    requires
        db.valid(),
        db.delete_entry(id) is Ok,
    ensures
        db.delete_entry(id)->Ok_0.valid(),
{
    lemma_filter(db.entries, entry_is_not(id));
    let next = db.delete_entry(id)->Ok_0;
    assert(pairwise(next.entries, entries_apart()));
    assert(all(next.entries, entry_sound(db.projects)));
}

/// Storing a session keeps the rules.
pub proof fn law_upsert_session_keeps_rules(db: Db, s: SessionView)
    requires
        db.valid(),
        db.upsert_session(s) is Ok,
    ensures
        db.upsert_session(s)->Ok_0.valid(),
{
    let row = session_row(s);
    let rest = db.sessions.map_values(session_superseded(row));
    let next = db.upsert_session(s)->Ok_0.sessions;
    let known = any(db.sessions, session_is(s.id));
    lemma_first(db.sessions, session_is(s.id));
    assert forall|i: int, j: int| 0 <= i < j < next.len() implies sessions_apart()(
        #[trigger] next[i],
        #[trigger] next[j],
    ) by {
        if known {
            assert(sessions_apart()(db.sessions[i], db.sessions[j]));
            if db.sessions[i].id == s.id || db.sessions[j].id == s.id {
                let k = choose|k: int| first_at(db.sessions, session_is(s.id), k);
                assert(session_is(s.id)(db.sessions[k]));
                if k != i && db.sessions[i].id == s.id {
                    if k < i {
                        assert(sessions_apart()(db.sessions[k], db.sessions[i]));
                    } else {
                        assert(sessions_apart()(db.sessions[i], db.sessions[k]));
                    }
                }
                if k != j && db.sessions[j].id == s.id {
                    if k < j {
                        assert(sessions_apart()(db.sessions[k], db.sessions[j]));
                    } else {
                        assert(sessions_apart()(db.sessions[j], db.sessions[k]));
                    }
                }
                let pid = db.sessions[k].pid;
                if s.ended_at is None && pid != s.pid {
                    assert(!other_active_with_pid(s.id, pid)(db.sessions[i]));
                    assert(!other_active_with_pid(s.id, pid)(db.sessions[j]));
                }
            }
        } else {
            assert(!session_is(s.id)(db.sessions[i]));
            if j < db.sessions.len() {
                assert(sessions_apart()(db.sessions[i], db.sessions[j]));
            }
        }
    }
    assert forall|i: int| 0 <= i < next.len() implies session_sound(db.projects)(
        #[trigger] next[i],
    ) by {
        if i < db.sessions.len() {
            assert(session_sound(db.projects)(db.sessions[i]));
        }
    }
}

/// Ending a session keeps the rules.
pub proof fn law_end_session_keeps_rules(db: Db, id: Text, at: Timestamp)
    requires
        db.valid(),
        db.end_session(id, at) is Ok,
    ensures
        db.end_session(id, at)->Ok_0.valid(),
{
    let next = db.sessions.map_values(session_ended(id, at.text()));
    assert forall|i: int, j: int| 0 <= i < j < next.len() implies sessions_apart()(
        #[trigger] next[i],
        #[trigger] next[j],
    ) by {
        assert(sessions_apart()(db.sessions[i], db.sessions[j]));
    }
    assert forall|i: int| 0 <= i < next.len() implies session_sound(db.projects)(
        #[trigger] next[i],
    ) by {
        assert(session_sound(db.projects)(db.sessions[i]));
    }
}

/// Ignoring a path and ignoring it no longer keep the rules.
pub proof fn law_ignored_paths_keep_rules(db: Db, path: Text)
    requires
        db.valid(),
    ensures
        db.add_ignored_path(path).valid(),
        db.remove_ignored_path(path).valid(),
{
    let p = path_is_not(path);
    lemma_filter(db.ignored, p);
    let differ = |a: Text, b: Text| a != b;
    assert(pairwise(db.ignored, differ));
    assert(pairwise(db.ignored.filter(p), differ));
    let f = db.ignored.filter(p);
    assert forall|i: int, j: int| 0 <= i < f.len() && 0 <= j < f.len() && i != j implies f[i]
        != f[j] by {
        if i < j {
            assert(differ(f[i], f[j]));
        } else {
            assert(differ(f[j], f[i]));
        }
    }
}

} // verus!
