//! What lists, sums and reports hold: which stored entries they are made of, and nothing else.
use crate::clock::SECOND;
use crate::db::{
    entries_apart, entry_readable, latest_first, project_is, project_named, project_readable,
    projects_apart, read_entry, read_project, selected, Db, Fault,
};
use crate::cli::seconds_or_zero;
use crate::error::Refusal;
use crate::chronology::{lemma_entry_rows, lemma_row_of, time_of};
use crate::models::{EntryData, EntryView, FilterView, ProjectView, Text};
use crate::rows::{all, any, first, first_at, lemma_first, pairwise, placed, sorted_by};
use crate::service::{named_project, paired, pairs, with_project, PairView};
use crate::text::{before, folded, lemma_before_total};
use vstd::prelude::*;

verus! {

// ---------------------------------------------------------------------------
// Sums
// ---------------------------------------------------------------------------
/// The sum of a number over a sequence.
pub open spec fn sum_of<R>(s: Seq<R>, g: spec_fn(R) -> int) -> int
    decreases s.len(),
{
    if s.len() == 0 {
        0
    } else {
        sum_of(s.drop_last(), g) + g(s.last())
    }
}

pub proof fn lemma_sum_push<R>(s: Seq<R>, x: R, g: spec_fn(R) -> int)
    ensures
        sum_of(s.push(x), g) == sum_of(s, g) + g(x),
{
    assert(s.push(x).drop_last() =~= s);
}

pub proof fn lemma_sum_first<R>(s: Seq<R>, x: R, g: spec_fn(R) -> int)
    ensures
        sum_of(seq![x] + s, g) == sum_of(s, g) + g(x),
    decreases s.len(),
{
    let t = seq![x] + s;
    if s.len() == 0 {
        assert(t.drop_last() =~= Seq::<R>::empty());
        assert(sum_of(t.drop_last(), g) == 0);
    } else {
        lemma_sum_first(s.drop_last(), x, g);
        assert(t.drop_last() =~= seq![x] + s.drop_last());
    }
}

proof fn lemma_sum_reverse<R>(s: Seq<R>, g: spec_fn(R) -> int)
    ensures
        sum_of(s.reverse(), g) == sum_of(s, g),
    decreases s.len(),
{
    if s.len() > 0 {
        lemma_sum_reverse(s.drop_last(), g);
        assert(s.reverse() =~= seq![s.last()] + s.drop_last().reverse());
        lemma_sum_first(s.drop_last().reverse(), s.last(), g);
    } else {
        assert(s.reverse() =~= s);
    }
}

proof fn lemma_sum_placed<R>(s: Seq<R>, x: R, lt: spec_fn(R, R) -> bool, g: spec_fn(R) -> int)
    ensures
        sum_of(placed(s, x, lt), g) == sum_of(s, g) + g(x),
    decreases s.len(),
{
    if s.len() > 0 && lt(x, s.last()) {
        lemma_sum_placed(s.drop_last(), x, lt, g);
        lemma_sum_push(placed(s.drop_last(), x, lt), s.last(), g);
    } else {
        lemma_sum_push(s, x, g);
    }
}

pub proof fn lemma_sum_sorted<R>(s: Seq<R>, lt: spec_fn(R, R) -> bool, g: spec_fn(R) -> int)
    ensures
        sum_of(sorted_by(s, lt), g) == sum_of(s, g),
    decreases s.len(),
{
    if s.len() > 0 {
        lemma_sum_sorted(s.drop_last(), lt, g);
        lemma_sum_placed(sorted_by(s.drop_last(), lt), s.last(), lt, g);
    }
}

pub proof fn lemma_sum_filter<R>(s: Seq<R>, p: spec_fn(R) -> bool, g: spec_fn(R) -> int)
    ensures
        sum_of(s.filter(p), g) == sum_of(
            s,
            |r: R|
                if p(r) {
                    g(r)
                } else {
                    0
                },
        ),
    decreases s.len(),
{
    reveal(Seq::filter);
    if s.len() > 0 {
        lemma_sum_filter(s.drop_last(), p, g);
        if p(s.last()) {
            lemma_sum_push(s.drop_last().filter(p), s.last(), g);
        }
    }
}

/// Numbers that agree on a sequence have the same sum.
pub proof fn lemma_sum_same<R, T>(
    s: Seq<R>,
    t: Seq<T>,
    g: spec_fn(R) -> int,
    h: spec_fn(T) -> int,
)
    requires
        s.len() == t.len(),
        forall|i: int| 0 <= i < s.len() ==> g(#[trigger] s[i]) == h(t[i]),
    ensures
        sum_of(s, g) == sum_of(t, h),
    decreases s.len(),
{
    if s.len() > 0 {
        assert forall|i: int| 0 <= i < s.drop_last().len() implies g(#[trigger] s.drop_last()[i])
            == h(t.drop_last()[i]) by {
            assert(s.drop_last()[i] == s[i]);
        }
        lemma_sum_same(s.drop_last(), t.drop_last(), g, h);
        assert(g(s[s.len() - 1]) == h(t[t.len() - 1]));
    }
}

// ---------------------------------------------------------------------------
// Lists
// ---------------------------------------------------------------------------
/// Whether a stored entry meets every condition of a filter, with its start as it is written.
pub open spec fn picks(f: FilterView, r: EntryData) -> bool {
    &&& f.project_id matches Some(p) ==> r.project_id == p
    &&& f.from matches Some(t) ==> r.start == t.text() || before(t.text(), r.start)
    &&& f.to matches Some(t) ==> before(r.start, t.text())
    &&& f.source matches Some(x) ==> r.source == x
    &&& forall|i: int| 0 <= i < f.tags.len() ==> r.tags.contains(#[trigger] f.tags[i])
}

/// Whether an entry is stored and meets a filter.
pub open spec fn is_picked(db: Db, f: FilterView, e: EntryView) -> bool {
    exists|k: int|
        0 <= k < db.entries.len() && picks(f, #[trigger] db.entries[k]) && read_entry(db.entries[k])
            == Ok::<EntryView, Fault>(e)
}

/// Whether a list has an entry.
pub open spec fn has_entry(v: Seq<PairView>, id: Text) -> bool {
    exists|i: int| 0 <= i < v.len() && (#[trigger] v[i]).0.id == id
}

/// Whether a project is that of an entry.
pub open spec fn belongs(db: Db, e: EntryView, p: ProjectView) -> bool {
    p.id == e.project_id && is_project(db, p)
}

/// Whether a project is stored.
pub open spec fn is_project(db: Db, p: ProjectView) -> bool {
    exists|k: int|
        0 <= k < db.projects.len() && read_project(#[trigger] db.projects[k]) == Ok::<
            ProjectView,
            Fault,
        >(p)
}

/// Whether a list holds, each once, the stored entries that meet a filter, each with its project.
pub open spec fn lists(db: Db, f: FilterView, v: Seq<PairView>) -> bool {
    &&& forall|i: int| 0 <= i < v.len() ==> is_picked(db, f, (#[trigger] v[i]).0)
    &&& forall|i: int| 0 <= i < v.len() ==> belongs(db, (#[trigger] v[i]).0, v[i].1)
    &&& forall|k: int|
        0 <= k < db.entries.len() && picks(f, #[trigger] db.entries[k]) ==> has_entry(
            v,
            db.entries[k].id,
        )
    &&& forall|i: int, j: int|
        0 <= i < j < v.len() ==> (#[trigger] v[i]).0.id != (#[trigger] v[j]).0.id
}

/// Entries with their projects are in the order of the entries.
pub proof fn lemma_paired(db: Db, s: Seq<EntryView>)
    requires
        paired(db, s) is Ok,
    ensures
        paired(db, s)->Ok_0.len() == s.len(),
        forall|i: int|
            0 <= i < s.len() ==> (#[trigger] paired(db, s)->Ok_0[i]).0 == s[i] && with_project(
                db,
                s[i],
            ) == Ok::<PairView, Refusal>(paired(db, s)->Ok_0[i]),
    decreases s.len(),
{
    if s.len() > 0 {
        lemma_paired(db, s.drop_last());
        let v = paired(db, s)->Ok_0;
        let w = paired(db, s.drop_last())->Ok_0;
        assert forall|i: int| 0 <= i < s.len() implies (#[trigger] v[i]).0 == s[i] && with_project(
            db,
            s[i],
        ) == Ok::<PairView, Refusal>(v[i]) by {
            if i < s.len() - 1 {
                assert(v[i] == w[i]);
                assert(s.drop_last()[i] == s[i]);
            }
        }
    }
}

/// What is found as the project of an entry is its project.
pub proof fn lemma_found_project(db: Db, e: EntryView, p: ProjectView)
    requires
        with_project(db, e) == Ok::<PairView, Refusal>((e, p)),
    ensures
        belongs(db, e, p),
{
    let q = project_is(e.project_id);
    lemma_first(db.projects, q);
    let k = choose|k: int|
        #[trigger] first_at(db.projects, q, k) && first(db.projects, q) == Some(db.projects[k]);
    assert(q(db.projects[k]));
    assert(read_project(db.projects[k]) == Ok::<ProjectView, Fault>(p));
}

/// How the rows of a listing lie in its entries.
pub proof fn lemma_listing(db: Db, f: FilterView)
    requires
        db.valid(),
        pairs(db, f) is Ok,
    ensures
        ({
            let v = pairs(db, f)->Ok_0;
            let rows = db.entry_rows(f);
            &&& v.len() == rows.len()
            &&& forall|i: int|
                0 <= i < v.len() ==> read_entry(#[trigger] rows[i]) == Ok::<EntryView, Fault>(v[i].0)
            &&& forall|i: int| 0 <= i < v.len() ==> belongs(db, (#[trigger] v[i]).0, v[i].1)
        }),
{
    let rows = db.entry_rows(f);
    let list = db.list_entries(f)->Ok_0;
    lemma_paired(db, list);
    let v = pairs(db, f)->Ok_0;
    assert forall|i: int| 0 <= i < v.len() implies read_entry(#[trigger] rows[i]) == Ok::<
        EntryView,
        Fault,
    >(v[i].0) by {
        assert(entry_readable()(rows[i]));
        assert(list[i] == read_entry(rows[i])->Ok_0);
    }
    assert forall|i: int| 0 <= i < v.len() implies belongs(db, (#[trigger] v[i]).0, v[i].1) by {
        lemma_found_project(db, v[i].0, v[i].1);
    }
}

proof fn lemma_picks(f: FilterView, r: EntryData)
    ensures
        selected(f)(r) == picks(f, r),
{
    if let Some(t) = f.from {
        lemma_before_total(r.start, t.text());
    }
}

/// Listing entries gives the stored entries that meet the filter, each once, and each with its
/// project.
pub proof fn law_listed(db: Db, f: FilterView)
    requires
        db.valid(),
        pairs(db, f) is Ok,
    ensures
        lists(db, f, pairs(db, f)->Ok_0),
{
    let v = pairs(db, f)->Ok_0;
    let rows = db.entry_rows(f);
    lemma_listing(db, f);
    lemma_entry_rows(db, f);
    assert forall|i: int| 0 <= i < v.len() implies is_picked(db, f, (#[trigger] v[i]).0) by {
        let k = lemma_row_of(db, f, i);
        lemma_picks(f, db.entries[k]);
        assert(picks(f, db.entries[k]) && read_entry(db.entries[k]) == Ok::<EntryView, Fault>(
            v[i].0,
        ));
    }
    assert forall|k: int|
        0 <= k < db.entries.len() && picks(f, #[trigger] db.entries[k]) implies has_entry(
        v,
        db.entries[k].id,
    ) by {
        lemma_picks(f, db.entries[k]);
        assert(db.entries.contains(db.entries[k]));
        assert(rows.contains(db.entries[k]));
        let i = choose|i: int| 0 <= i < rows.len() && rows[i] == db.entries[k];
        assert(v[i].0.id == db.entries[k].id);
    }
    assert forall|i: int, j: int| 0 <= i < j < v.len() implies (#[trigger] v[i]).0.id != (
    #[trigger] v[j]).0.id by {
        let a = lemma_row_of(db, f, i);
        let b = lemma_row_of(db, f, j);
        assert(rows[i] != rows[j]);
        lemma_entry_ids(db, a, b);
    }
}

/// Entries are listed from the latest start on.
pub proof fn law_listed_in_order(db: Db, f: FilterView, i: int, j: int, a: int, b: int)
    requires
        db.valid(),
        pairs(db, f) is Ok,
        0 <= i < j < pairs(db, f)->Ok_0.len(),
        0 <= a < db.entries.len(),
        0 <= b < db.entries.len(),
        pairs(db, f)->Ok_0[i].0.id == db.entries[a].id,
        pairs(db, f)->Ok_0[j].0.id == db.entries[b].id,
    ensures
        a != b,
        !before(db.entries[a].start, db.entries[b].start),
{
    let rows = db.entry_rows(f);
    lemma_listing(db, f);
    lemma_entry_rows(db, f);
    let c = lemma_row_of(db, f, i);
    let d = lemma_row_of(db, f, j);
    lemma_entry_ids(db, a, c);
    lemma_entry_ids(db, b, d);
    assert(rows[i] != rows[j]);
    assert(!latest_first()(rows[j], rows[i]));
}

/// Entries with one identifier are one entry.
pub proof fn lemma_entry_ids(db: Db, a: int, b: int)
    requires
        pairwise(db.entries, entries_apart()),
        0 <= a < db.entries.len(),
        0 <= b < db.entries.len(),
    ensures
        db.entries[a].id == db.entries[b].id ==> a == b,
{
    if a < b {
        assert(entries_apart()(db.entries[a], db.entries[b]));
    } else if b < a {
        assert(entries_apart()(db.entries[b], db.entries[a]));
    }
}

/// A number that is summed over a listing is summed over the stored entries that meet the filter.
pub proof fn lemma_listing_sum(
    db: Db,
    f: FilterView,
    g: spec_fn(PairView) -> int,
    h: spec_fn(EntryData) -> int,
)
    requires
        db.valid(),
        pairs(db, f) is Ok,
        forall|i: int|
            0 <= i < pairs(db, f)->Ok_0.len() ==> g(#[trigger] pairs(db, f)->Ok_0[i]) == h(
                db.entry_rows(f)[i],
            ),
    ensures
        sum_of(pairs(db, f)->Ok_0, g) == sum_of(
            db.entries,
            |r: EntryData|
                if picks(f, r) {
                    h(r)
                } else {
                    0
                },
        ),
{
    let v = pairs(db, f)->Ok_0;
    let rows = db.entry_rows(f);
    let s = db.entries.filter(selected(f));
    lemma_listing(db, f);
    lemma_sum_same(v, rows, g, h);
    lemma_sum_sorted(s.reverse(), latest_first(), h);
    lemma_sum_reverse(s, h);
    lemma_sum_filter(db.entries, selected(f), h);
    let p = |r: EntryData|
        if selected(f)(r) {
            h(r)
        } else {
            0
        };
    let q = |r: EntryData|
        if picks(f, r) {
            h(r)
        } else {
            0
        };
    assert forall|i: int| 0 <= i < db.entries.len() implies p(#[trigger] db.entries[i]) == q(
        db.entries[i],
    ) by {
        lemma_picks(f, db.entries[i]);
    }
    lemma_sum_same(db.entries, db.entries, p, q);
}

/// The whole seconds of a stored entry: the recorded ones, else those from its start to its end,
/// counted toward zero; none while it runs.
pub open spec fn row_seconds(r: EntryData) -> int {
    match (r.duration_secs, r.end) {
        (Some(d), _) => d as int,
        (None, Some(t)) => {
            let nanos = time_of(t).instant() - time_of(r.start).instant();
            if nanos >= 0 {
                nanos / (SECOND as int)
            } else {
                -((-nanos) / (SECOND as int))
            }
        },
        (None, None) => 0,
    }
}

/// The seconds of an entry are those of its row.
pub proof fn lemma_row_seconds(r: EntryData, e: EntryView)
    requires
        read_entry(r) == Ok::<EntryView, Fault>(e),
    ensures
        seconds_or_zero(e) == row_seconds(r),
{
}

// ---------------------------------------------------------------------------
// Projects by name
// ---------------------------------------------------------------------------
/// The project with a name is stored and has that name, in whatever case; where a stored one has it,
/// it is found.
pub proof fn law_named_project(db: Db, name: Text)
    requires
        db.valid(),
        all(db.projects, project_readable()),
    ensures
        match named_project(db, name) {
            Ok(p) => is_project(db, p) && folded(p.name) == folded(name),
            Err(e) => e is ProjectNotFound && forall|p: ProjectView| #[trigger]
                is_project(db, p) ==> folded(p.name) != folded(name),
        },
{
    let q = project_named(name);
    lemma_first(db.projects, q);
    if any(db.projects, q) {
        let k = choose|k: int|
            #[trigger] first_at(db.projects, q, k) && first(db.projects, q) == Some(db.projects[k]);
        assert(q(db.projects[k]));
        assert(project_readable()(db.projects[k]));
    } else {
        assert forall|p: ProjectView| #[trigger] is_project(db, p) implies folded(p.name) != folded(
            name,
        ) by {
            let k = choose|k: int|
                0 <= k < db.projects.len() && read_project(#[trigger] db.projects[k]) == Ok::<
                    ProjectView,
                    Fault,
                >(p);
            assert(!q(db.projects[k]));
        }
    }
}

/// Projects with one identifier are one project.
pub proof fn lemma_one_project(db: Db, p: ProjectView, q: ProjectView)
    requires
        db.valid(),
        is_project(db, p),
        is_project(db, q),
    ensures
        p.id == q.id ==> p == q,
        folded(p.name) == folded(q.name) ==> p == q,
{
    let a = choose|k: int|
        0 <= k < db.projects.len() && read_project(#[trigger] db.projects[k]) == Ok::<
            ProjectView,
            Fault,
        >(p);
    let b = choose|k: int|
        0 <= k < db.projects.len() && read_project(#[trigger] db.projects[k]) == Ok::<
            ProjectView,
            Fault,
        >(q);
    if a < b {
        assert(projects_apart()(db.projects[a], db.projects[b]));
    } else if b < a {
        assert(projects_apart()(db.projects[b], db.projects[a]));
    }
}

} // verus!
