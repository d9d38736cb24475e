//! What the commands on projects do to the stored projects, row by row.
use crate::accounts::is_project;
use crate::clock::Timestamp;
use crate::db::{
    by_name, by_text, other_project_named, path_covers, project_has, project_is, project_named,
    project_readable, project_sound, projects_apart, read_project, Db, Fault,
};
use crate::models::{ProjectData, ProjectSource, ProjectStatus, ProjectView, Text};
use crate::paths::covers;
use crate::project_commands::{
    archive_output, delete_output, list_output, project_added, project_edited, project_line,
    project_parts, registered, with_settings, EditView,
};
use crate::overviews::ends_in;
use crate::readback::{law_deleted_project, lemma_orders};
use crate::rows::{
    all, any, first, first_at, lemma_filter, lemma_first, lemma_first_found, lemma_sorted, pairwise,
};
use crate::tags::{law_tags, tags_value};
use crate::text::{before, folded, joined, lemma_before_total, trimmed};
use vstd::prelude::*;

verus! {

/// Whether a stored project has a name, in whatever case.
pub open spec fn is_taken(db: Db, name: Text) -> bool {
    exists|k: int|
        0 <= k < db.projects.len() && folded((#[trigger] db.projects[k]).name) == folded(name)
}

/// Whether only the project at a position differs, and that one is still the same project.
pub open spec fn only_project(a: Db, b: Db, k: int) -> bool {
    &&& b == (Db { projects: b.projects, ..a })
    &&& b.projects.len() == a.projects.len()
    &&& b.projects[k].id == a.projects[k].id
    &&& b.projects[k].source == a.projects[k].source
    &&& b.projects[k].created_at == a.projects[k].created_at
    &&& b.projects[k].paths == a.projects[k].paths
    &&& forall|j: int|
        0 <= j < a.projects.len() && j != k ==> #[trigger] b.projects[j] == a.projects[j]
}

// ---------------------------------------------------------------------------
// Registering
// ---------------------------------------------------------------------------
/// Registering a project: it fails exactly where a stored project has the name, in whatever case; the
/// identifier is fresh and no directory is given twice. Otherwise one project is added: active, made
/// by hand, now, with the given name, directories, rate and tags.
pub proof fn law_project_registered(
    db: Db,
    name: Text,
    paths: Seq<Text>,
    tags: Option<Text>,
    rate: Option<i64>,
    now: Timestamp,
    id: Text,
)
    requires
        forall|k: int| 0 <= k < db.projects.len() ==> (#[trigger] db.projects[k]).id != id,
        paths.no_duplicates(),
    ensures
        ({
            let (n, o) = project_added(db, registered(name, paths, tags, rate, now, id));
            if is_taken(db, name) {
                o.failed && n == db
            } else {
                let r = n.projects.last();
                &&& !o.failed
                &&& n == (Db { projects: n.projects, ..db })
                &&& n.projects.len() == db.projects.len() + 1
                &&& n.projects.drop_last() == db.projects
                &&& r.id == id
                &&& r.name == name
                &&& r.paths == paths
                &&& r.hourly_rate_cents == rate
                &&& r.status == ProjectStatus::Active
                &&& r.source == ProjectSource::Manual
                &&& r.created_at == now.text()
                &&& r.updated_at == now.text()
                &&& r.tags.to_multiset() == match tags {
                    Some(t) => tags_value(t),
                    None => Seq::empty(),
                }.to_multiset()
            }
        }),
{
    let p = registered(name, paths, tags, rate, now, id);
    if let Some(t) = tags {
        law_tags(t);
    }
    lemma_sorted(p.tags, by_text());
    if is_taken(db, name) {
        let k = choose|k: int|
            0 <= k < db.projects.len() && folded((#[trigger] db.projects[k]).name) == folded(name);
        assert(project_named(name)(db.projects[k]));
    } else {
        let n = project_added(db, p).0;
        assert(n.projects.drop_last() =~= db.projects);
    }
}

// ---------------------------------------------------------------------------
// Editing
// ---------------------------------------------------------------------------
/// The project with a name is the one at the position where it is stored.
proof fn lemma_by_name(db: Db, name: Text, k: int)
    requires
        db.valid(),
        0 <= k < db.projects.len(),
        folded(db.projects[k].name) == folded(name),
    ensures
        first(db.projects, project_named(name)) == Some(db.projects[k]),
{
    assert forall|j: int| 0 <= j < k implies !project_named(name)(#[trigger] db.projects[j]) by {
        assert(projects_apart()(db.projects[j], db.projects[k]));
    }
    lemma_first_found(db.projects, project_named(name), k);
}

/// What replacing the project at a position does to the rows.
proof fn lemma_replaced(db: Db, p: ProjectView, k: int)
    requires
        db.valid(),
        0 <= k < db.projects.len(),
        db.projects[k].id == p.id,
        p.paths == db.projects[k].paths,
        p.tags.no_duplicates(),
        forall|j: int|
            0 <= j < db.projects.len() && j != k ==> folded((#[trigger] db.projects[j]).name)
                != folded(p.name),
    ensures
        db.update_project(p) is Ok,
        ({
            let n = db.update_project(p)->Ok_0;
            let r = n.projects[k];
            &&& only_project(db, n, k)
            &&& r.name == p.name
            &&& r.status == p.status
            &&& r.hourly_rate_cents == p.hourly_rate_cents
            &&& r.updated_at == p.updated_at.text()
            &&& r.tags.to_multiset() == p.tags.to_multiset()
        }),
{
    assert(project_is(p.id)(db.projects[k]));
    assert(project_sound()(db.projects[k]));
    assert forall|j: int| 0 <= j < db.projects.len() implies !other_project_named(p.id, p.name)(
        #[trigger] db.projects[j],
    ) by {
        if j != k {
            assert(folded(db.projects[j].name) != folded(p.name));
        }
    }
    lemma_sorted(p.tags, by_text());
    let n = db.update_project(p)->Ok_0;
    assert forall|j: int| 0 <= j < db.projects.len() && j != k implies #[trigger] n.projects[j]
        == db.projects[j] by {
        if j < k {
            assert(projects_apart()(db.projects[j], db.projects[k]));
        } else {
            assert(projects_apart()(db.projects[k], db.projects[j]));
        }
    }
}

/// Editing a project: a given rate, given tags and a given name without the white space at its ends
/// replace what it has; a rate that is to be cleared is gone; everything else about it stays but the
/// time of the change, and every other project stays. It fails exactly where the new name is empty or
/// another project has it, in whatever case; then, and where nothing is given, nothing changes.
pub proof fn law_project_edited(db: Db, name: Text, e: EditView, now: Timestamp, k: int)
    requires
        db.valid(),
        all(db.projects, project_readable()),
        0 <= k < db.projects.len(),
        folded(db.projects[k].name) == folded(name),
    ensures
        ({
            let (n, o) = project_edited(db, name, e, now);
            let was = db.projects[k];
            let r = n.projects[k];
            let blocked = e.rename matches Some(x) && (trimmed(x).len() == 0 || exists|j: int|
                0 <= j < db.projects.len() && j != k && folded((#[trigger] db.projects[j]).name)
                    == folded(trimmed(x)));
            &&& o.failed <==> blocked
            &&& blocked ==> n == db
            &&& !e.clear_rate && e.rate is None && e.tags is None && e.rename is None ==> n == db
            &&& !blocked && (e.clear_rate || e.rate is Some || e.tags is Some || e.rename is Some)
                ==> {
                &&& only_project(db, n, k)
                &&& r.status == was.status
                &&& r.updated_at == now.text()
                &&& r.name == match e.rename {
                    Some(x) => trimmed(x),
                    None => was.name,
                }
                &&& e.clear_rate ==> r.hourly_rate_cents is None
                &&& !e.clear_rate && e.rate is Some ==> r.hourly_rate_cents == e.rate
                &&& !e.clear_rate && e.rate is None ==> r.hourly_rate_cents
                    == was.hourly_rate_cents
                &&& r.tags.to_multiset() == match e.tags {
                    Some(t) => tags_value(t),
                    None => was.tags,
                }.to_multiset()
            }
        }),
{
    lemma_by_name(db, name, k);
    assert(project_readable()(db.projects[k]));
    assert(project_sound()(db.projects[k]));
    let p = read_project(db.projects[k])->Ok_0;
    if let Some(t) = e.tags {
        law_tags(t);
    }
    if let Some(x) = e.rename {
        let t = trimmed(x);
        lemma_first(db.projects, project_named(t));
        if any(db.projects, project_named(t)) {
            let j = choose|j: int|
                #[trigger] first_at(db.projects, project_named(t), j) && first(
                    db.projects,
                    project_named(t),
                ) == Some(db.projects[j]);
            assert(project_named(t)(db.projects[j]));
            assert(project_readable()(db.projects[j]));
            assert forall|i: int|
                0 <= i < db.projects.len() && folded((#[trigger] db.projects[i]).name) == folded(
                    t,
                ) implies i == j by {
                if i < j {
                    assert(projects_apart()(db.projects[i], db.projects[j]));
                } else if j < i {
                    assert(projects_apart()(db.projects[j], db.projects[i]));
                }
            }
            if j < k {
                assert(projects_apart()(db.projects[j], db.projects[k]));
            } else if k < j {
                assert(projects_apart()(db.projects[k], db.projects[j]));
            }
        } else {
            assert forall|i: int| 0 <= i < db.projects.len() implies folded(
                (#[trigger] db.projects[i]).name,
            ) != folded(t) by {
                assert(!project_named(t)(db.projects[i]));
            }
        }
    }
    let q = with_settings(p, e, now);
    let blocked = e.rename matches Some(x) && (trimmed(x).len() == 0 || exists|j: int|
        0 <= j < db.projects.len() && j != k && folded((#[trigger] db.projects[j]).name) == folded(
            trimmed(x),
        ));
    if !blocked {
        assert forall|j: int| 0 <= j < db.projects.len() && j != k implies folded(
            (#[trigger] db.projects[j]).name,
        ) != folded(q.name) by {
            if e.rename is None {
                if j < k {
                    assert(projects_apart()(db.projects[j], db.projects[k]));
                } else {
                    assert(projects_apart()(db.projects[k], db.projects[j]));
                }
            }
        }
        lemma_replaced(db, q, k);
    }
}

/// A name that no stored project has can be neither edited nor archived nor deleted: that fails, and
/// nothing changes.
pub proof fn law_unknown_project(db: Db, name: Text, e: EditView, now: Timestamp)
    requires
        db.valid(),
        all(db.projects, project_readable()),
        !is_taken(db, name),
    ensures
        project_edited(db, name, e, now).0 == db,
        project_edited(db, name, e, now).1.failed,
        archive_output(db, name, now).0 == db,
        archive_output(db, name, now).1.failed,
        delete_output(db, name).0 == db,
        delete_output(db, name).1.failed,
{
    lemma_first(db.projects, project_named(name));
    assert forall|k: int| 0 <= k < db.projects.len() implies !project_named(name)(
        #[trigger] db.projects[k],
    ) by {
        assert(folded(db.projects[k].name) != folded(name));
    }
}

// ---------------------------------------------------------------------------
// Archiving and deleting
// ---------------------------------------------------------------------------
/// Archiving a project makes it archived and notes the time; everything else about it stays, and
/// every other project, entry and session stays.
pub proof fn law_project_archived(db: Db, name: Text, now: Timestamp, k: int)
    requires
        db.valid(),
        all(db.projects, project_readable()),
        0 <= k < db.projects.len(),
        folded(db.projects[k].name) == folded(name),
    ensures
        ({
            let (n, o) = archive_output(db, name, now);
            &&& !o.failed
            &&& only_project(db, n, k)
            &&& n.projects[k].status == ProjectStatus::Archived
            &&& n.projects[k].updated_at == now.text()
            &&& n.projects[k].name == db.projects[k].name
            &&& n.projects[k].hourly_rate_cents == db.projects[k].hourly_rate_cents
            &&& n.projects[k].tags.to_multiset() == db.projects[k].tags.to_multiset()
        }),
{
    lemma_by_name(db, name, k);
    assert(project_readable()(db.projects[k]));
    assert(project_sound()(db.projects[k]));
    let p = read_project(db.projects[k])->Ok_0;
    let q = crate::models::Project { status: ProjectStatus::Archived, updated_at: now, ..p };
    assert forall|j: int| 0 <= j < db.projects.len() && j != k implies folded(
        (#[trigger] db.projects[j]).name,
    ) != folded(q.name) by {
        if j < k {
            assert(projects_apart()(db.projects[j], db.projects[k]));
        } else {
            assert(projects_apart()(db.projects[k], db.projects[j]));
        }
    }
    lemma_replaced(db, q, k);
}

/// Deleting a project takes it and its entries away, and leaves every other project and every other
/// entry; no session is in it then.
pub proof fn law_project_deleted(db: Db, name: Text, k: int)
    requires
        db.valid(),
        all(db.projects, project_readable()),
        0 <= k < db.projects.len(),
        folded(db.projects[k].name) == folded(name),
    ensures
        ({
            let (n, o) = delete_output(db, name);
            let id = db.projects[k].id;
            &&& !o.failed
            &&& !is_taken(n, name)
            &&& n.ignored == db.ignored
            &&& forall|r: ProjectData| #[trigger]
                n.projects.contains(r) <==> db.projects.contains(r) && r.id != id
            &&& forall|r: crate::models::EntryData| #[trigger]
                n.entries.contains(r) <==> db.entries.contains(r) && r.project_id != id
            &&& n.sessions.len() == db.sessions.len()
            &&& forall|i: int|
                0 <= i < n.sessions.len() ==> (#[trigger] n.sessions[i]).current_project_id != Some(
                    id,
                )
            &&& forall|i: int|
                0 <= i < n.sessions.len() && db.sessions[i].current_project_id != Some(id)
                    ==> #[trigger] n.sessions[i] == db.sessions[i]
            &&& forall|i: int|
                0 <= i < n.sessions.len() ==> (#[trigger] n.sessions[i]).id == db.sessions[i].id
                    && n.sessions[i].ended_at == db.sessions[i].ended_at
        }),
{
    lemma_by_name(db, name, k);
    assert(project_readable()(db.projects[k]));
    let id = db.projects[k].id;
    assert(project_is(id)(db.projects[k]));
    law_deleted_project(db, id);
    let n = db.delete_project(id)->Ok_0;
    if is_taken(n, name) {
        let j = choose|j: int|
            0 <= j < n.projects.len() && folded((#[trigger] n.projects[j]).name) == folded(name);
        assert(n.projects.contains(n.projects[j]));
        let i = choose|i: int| 0 <= i < db.projects.len() && db.projects[i] == n.projects[j];
        if i < k {
            assert(projects_apart()(db.projects[i], db.projects[k]));
        } else if k < i {
            assert(projects_apart()(db.projects[k], db.projects[i]));
        }
    }
}

// ---------------------------------------------------------------------------
// Ignored directories
// ---------------------------------------------------------------------------
/// Ignoring a directory adds it and nothing else; ignoring it no longer takes it away and nothing
/// else. A path is ignored exactly where an ignored directory covers it.
pub proof fn law_ignored(db: Db, path: Text, other: Text)
    ensures
        db.add_ignored_path(path) == (Db { ignored: db.add_ignored_path(path).ignored, ..db }),
        db.add_ignored_path(path).ignored.contains(other) <==> db.ignored.contains(other) || other
            == path,
        db.remove_ignored_path(path) == (Db {
            ignored: db.remove_ignored_path(path).ignored,
            ..db
        }),
        db.remove_ignored_path(path).ignored.contains(other) <==> db.ignored.contains(other) && other
            != path,
        db.is_path_ignored(other) <==> exists|i: int|
            0 <= i < db.ignored.len() && covers(#[trigger] db.ignored[i], other),
{
    lemma_filter(db.ignored, crate::db::path_is_not(path));
    let n = db.add_ignored_path(path);
    if !db.ignored.contains(path) {
        assert(n.ignored[db.ignored.len() as int] == path);
        if db.ignored.contains(other) {
            let i = choose|i: int| 0 <= i < db.ignored.len() && db.ignored[i] == other;
            assert(n.ignored[i] == other);
        }
        if n.ignored.contains(other) && other != path {
            let i = choose|i: int| 0 <= i < n.ignored.len() && n.ignored[i] == other;
            assert(db.ignored[i] == other);
        }
    }
    if db.is_path_ignored(other) {
        let i = choose|i: int|
            0 <= i < db.ignored.len() && path_covers(other)(#[trigger] db.ignored[i]);
        assert(covers(db.ignored[i], other));
    }
    if exists|i: int| 0 <= i < db.ignored.len() && covers(#[trigger] db.ignored[i], other) {
        let i = choose|i: int| 0 <= i < db.ignored.len() && covers(#[trigger] db.ignored[i], other);
        assert(path_covers(other)(db.ignored[i]));
    }
}

// ---------------------------------------------------------------------------
// Listing
// ---------------------------------------------------------------------------
/// Whether a stored project is to be listed: every one on request, else those that are active.
pub open spec fn is_listed(all: bool, status: ProjectStatus) -> bool {
    all || status == ProjectStatus::Active
}

/// Whether some projects have one with an identifier.
pub open spec fn has_project(v: Seq<ProjectView>, id: Text) -> bool {
    exists|i: int| 0 <= i < v.len() && (#[trigger] v[i]).id == id
}

/// Whether a line begins with two spaces and a name.
pub open spec fn is_line_of(line: Text, name: Text) -> bool {
    line.len() >= name.len() + 2 && line.subrange(2, 2 + name.len() as int) == name
}

/// Projects are listed by name, each on a line that begins with its name, and archived ones are marked
/// so: all of them on request, else those that are active. Where there is none, something else is
/// said.
pub proof fn law_projects_listed(db: Db, every: bool)
    requires
        db.valid(),
        all(db.projects, project_readable()),
    ensures
        ({
            let o = list_output(db, every);
            let v = db.list_projects(
                if every {
                    None
                } else {
                    Some(ProjectStatus::Active)
                },
            )->Ok_0;
            &&& !o.failed
            &&& o.err.len() == 0
            &&& forall|i: int|
                0 <= i < v.len() ==> is_project(db, #[trigger] v[i]) && is_listed(every, v[i].status)
            &&& forall|k: int|
                0 <= k < db.projects.len() && is_listed(every, (#[trigger] db.projects[k]).status)
                    ==> has_project(v, db.projects[k].id)
            &&& forall|i: int, j: int|
                0 <= i < j < v.len() ==> before(
                    folded((#[trigger] v[i]).name),
                    folded((#[trigger] v[j]).name),
                )
            &&& v.len() == 0 ==> o.out.len() == 1
            &&& v.len() > 0 ==> o.out.len() == v.len()
            &&& forall|i: int| 0 <= i < v.len() ==> is_line_of(#[trigger] o.out[i], v[i].name)
            &&& forall|i: int|
                0 <= i < v.len() && v[i].status == ProjectStatus::Archived ==> ends_in(
                    #[trigger] o.out[i],
                    " (archived)"@,
                )
        }),
{
    let status = if every {
        None
    } else {
        Some(ProjectStatus::Active)
    };
    lemma_project_rows(db, status);
    lemma_project_rows(db, Some(ProjectStatus::Archived));
    let rows = db.project_rows(status);
    let v = db.list_projects(status)->Ok_0;
    let o = list_output(db, every);
    assert forall|i: int| 0 <= i < v.len() implies is_project(db, #[trigger] v[i]) && is_listed(
        every,
        v[i].status,
    ) by {
        let k = choose|k: int| 0 <= k < db.projects.len() && #[trigger] db.projects[k] == rows[i];
        assert(read_project(db.projects[k]) == Ok::<ProjectView, Fault>(v[i]));
        assert(project_has(status)(rows[i]));
    }
    assert forall|k: int|
        0 <= k < db.projects.len() && is_listed(
            every,
            (#[trigger] db.projects[k]).status,
        ) implies has_project(v, db.projects[k].id) by {
        assert(project_has(status)(db.projects[k]));
        assert(db.projects.contains(db.projects[k]));
        assert(rows.contains(db.projects[k]));
        let i = choose|i: int| 0 <= i < rows.len() && rows[i] == db.projects[k];
        assert(v[i].id == db.projects[k].id);
    }
    assert forall|i: int| 0 <= i < v.len() implies is_line_of(#[trigger] o.out[i], v[i].name) by {
        lemma_project_line(v[i]);
        assert(o.out[i] == project_line(v[i]));
    }
    assert forall|i: int|
        0 <= i < v.len() && v[i].status == ProjectStatus::Archived implies ends_in(
        #[trigger] o.out[i],
        " (archived)"@,
    ) by {
        lemma_project_line(v[i]);
        assert(o.out[i] == project_line(v[i]));
    }
}

/// The rows of a project list: those with the status, each once, by name.
proof fn lemma_project_rows(db: Db, status: Option<ProjectStatus>)
    requires
        db.valid(),
        all(db.projects, project_readable()),
    ensures
        ({
            let rows = db.project_rows(status);
            &&& db.list_projects(status) is Ok
            &&& db.list_projects(status)->Ok_0.len() == rows.len()
            &&& forall|i: int|
                0 <= i < rows.len() ==> read_project(#[trigger] rows[i]) == Ok::<ProjectView, Fault>(
                    db.list_projects(status)->Ok_0[i],
                )
            &&& forall|i: int| 0 <= i < rows.len() ==> project_has(status)(#[trigger] rows[i])
            &&& forall|i: int|
                0 <= i < rows.len() ==> exists|k: int|
                    0 <= k < db.projects.len() && #[trigger] db.projects[k] == #[trigger] rows[i]
            &&& forall|r: ProjectData| #[trigger]
                rows.contains(r) <==> db.projects.contains(r) && project_has(status)(r)
            &&& forall|i: int, j: int|
                0 <= i < j < rows.len() ==> before(
                    folded((#[trigger] rows[i]).name),
                    folded((#[trigger] rows[j]).name),
                )
        }),
{
    broadcast use vstd::seq_lib::group_to_multiset_ensures;

    let rows = db.project_rows(status);
    let s = db.projects.filter(project_has(status));
    lemma_filter(db.projects, project_has(status));
    lemma_sorted(s, by_name());
    lemma_orders();
    assert forall|r: ProjectData| #[trigger] rows.contains(r) <==> s.contains(r) by {
        assert(rows.contains(r) <==> rows.to_multiset().count(r) > 0);
        assert(s.contains(r) <==> s.to_multiset().count(r) > 0);
    }
    assert forall|i: int| 0 <= i < rows.len() implies project_has(status)(#[trigger] rows[i]) by {
        assert(rows.contains(rows[i]));
    }
    assert forall|i: int| 0 <= i < rows.len() implies exists|k: int|
        0 <= k < db.projects.len() && #[trigger] db.projects[k] == #[trigger] rows[i] by {
        assert(rows.contains(rows[i]));
        assert(s.contains(rows[i]));
        assert(db.projects.contains(rows[i]));
    }
    assert forall|i: int| 0 <= i < rows.len() implies project_readable()(#[trigger] rows[i]) by {
        let k = choose|k: int| 0 <= k < db.projects.len() && #[trigger] db.projects[k] == rows[i];
        assert(project_readable()(db.projects[k]));
    }
    assert(pairwise(s, projects_apart()));
    assert(s.no_duplicates()) by {
        assert forall|i: int, j: int| 0 <= i < s.len() && 0 <= j < s.len() && i != j implies s[i]
            != s[j] by {
            if i < j {
                assert(projects_apart()(s[i], s[j]));
            } else {
                assert(projects_apart()(s[j], s[i]));
            }
        }
    }
    s.lemma_multiset_has_no_duplicates();
    rows.lemma_multiset_has_no_duplicates_conv();
    assert forall|i: int, j: int| 0 <= i < j < rows.len() implies before(
        folded((#[trigger] rows[i]).name),
        folded((#[trigger] rows[j]).name),
    ) by {
        let a = choose|k: int| 0 <= k < db.projects.len() && #[trigger] db.projects[k] == rows[i];
        let b = choose|k: int| 0 <= k < db.projects.len() && #[trigger] db.projects[k] == rows[j];
        assert(a != b);
        if a < b {
            assert(projects_apart()(db.projects[a], db.projects[b]));
        } else {
            assert(projects_apart()(db.projects[b], db.projects[a]));
        }
        assert(!by_name()(rows[j], rows[i]));
        lemma_before_total(folded(rows[i].name), folded(rows[j].name));
    }
}

proof fn lemma_project_line(p: ProjectView)
    ensures
        is_line_of(project_line(p), p.name),
        p.status == ProjectStatus::Archived ==> ends_in(project_line(p), " (archived)"@),
{
    let parts = project_parts(p);
    let body = joined(parts, "  "@);
    reveal_strlit("  ");
    lemma_joined_begins(parts, "  "@);
    let line = project_line(p);
    assert(body.take(p.name.len() as int) == p.name);
    assert(line.subrange(2, 2 + p.name.len() as int) =~= body.take(p.name.len() as int));
    let mark = " (archived)"@;
    if p.status == ProjectStatus::Archived {
        assert(line.skip(line.len() - mark.len()) =~= mark);
    }
}

proof fn lemma_joined_begins(s: Seq<Text>, sep: Text)
    requires
        s.len() > 0,
    ensures
        joined(s, sep).len() >= s[0].len(),
        joined(s, sep).take(s[0].len() as int) == s[0],
    decreases s.len(),
{
    if s.len() == 1 {
        assert(s[0].take(s[0].len() as int) =~= s[0]);
    } else {
        lemma_joined_begins(s.drop_last(), sep);
        assert(joined(s, sep).take(s[0].len() as int) =~= joined(s.drop_last(), sep).take(
            s[0].len() as int,
        ));
    }
}

} // verus!
