//! Whether rows that were read from elsewhere keep the rules of the tables.
use crate::db::{
    by_text, entries_apart, entry_sound, project_is, project_sound, projects_apart, session_sound,
    sessions_apart, tags_kept, Db,
};
use crate::models::{EntryRow, ProjectRow, SessionRow, Text};
use crate::rows::{all, any, find_row, pairwise, views};
use crate::text::{
    before, chars_of, decimal, decimal_text, fold, folded, is_before, lemma_before_total,
    lemma_before_trans, lemma_decimal_value, same_text, texts,
};
use vstd::prelude::*;

verus! {

// ---------------------------------------------------------------------------
// Texts without repetition
// ---------------------------------------------------------------------------
/// Texts, as characters.
pub type Chars = Vec<char>;

/// The first of some texts in order is not after the others.
spec fn ordered(s: Seq<Chars>) -> bool {
    forall|i: int, j: int| 0 <= i < j < s.len() ==> !before((#[trigger] s[j])@, (#[trigger] s[i])@)
}

/// Texts from two lists in order, in order.
fn merge(a: Vec<Chars>, b: Vec<Chars>) -> (r: Vec<Chars>)
    requires
        ordered(a@),
        ordered(b@),
        a@.len() + b@.len() <= usize::MAX,
    ensures
        ordered(r@),
        views(r@).to_multiset() == views(a@).to_multiset().add(views(b@).to_multiset()),
        r@.len() == a@.len() + b@.len(),
{
    broadcast use vstd::seq_lib::group_to_multiset_ensures;

    let mut a = a;
    let mut b = b;
    // The largest comes off the ends first.
    let mut r: Vec<Chars> = Vec::new();
    let ghost all = views(a@).to_multiset().add(views(b@).to_multiset());
    let ghost n = a@.len() + b@.len();
    assert(views(r@) =~= Seq::empty());
    while a.len() > 0 || b.len() > 0
        invariant
            ordered(a@),
            ordered(b@),
            all == views(a@).to_multiset().add(views(b@).to_multiset()).add(
                views(r@).to_multiset(),
            ),
            n == a@.len() + b@.len() + r@.len(),
            forall|i: int, j: int|
                0 <= i < a@.len() && 0 <= j < r@.len() ==> !before(
                    (#[trigger] r@[j])@,
                    (#[trigger] a@[i])@,
                ),
            forall|i: int, j: int|
                0 <= i < b@.len() && 0 <= j < r@.len() ==> !before(
                    (#[trigger] r@[j])@,
                    (#[trigger] b@[i])@,
                ),
            forall|i: int, j: int|
                0 <= i < j < r@.len() ==> !before((#[trigger] r@[i])@, (#[trigger] r@[j])@),
        decreases a@.len() + b@.len(),
    {
        let from_a = if b.len() == 0 {
            true
        } else if a.len() == 0 {
            false
        } else {
            !is_before(&a[a.len() - 1], &b[b.len() - 1])
        };
        let ghost a0 = a@;
        let ghost b0 = b@;
        let ghost r0 = r@;
        if from_a {
            proof {
                if b0.len() > 0 {
                    lemma_last(a0, b0);
                }
                lemma_own_last(a0);
                assert(a0 =~= a0.drop_last().push(a0.last()));
                lemma_views_push(a0.drop_last(), a0.last());
                lemma_views_push(r0, a0.last());
            }
            match a.pop() {
                Some(x) => r.push(x),
                None => {},
            }
            assert(a@ =~= a0.drop_last());
            assert(r@ =~= r0.push(a0.last()));
        } else {
            proof {
                if a0.len() > 0 {
                    lemma_before_total(a0.last()@, b0.last()@);
                    lemma_last(b0, a0);
                }
                lemma_own_last(b0);
                assert(b0 =~= b0.drop_last().push(b0.last()));
                lemma_views_push(b0.drop_last(), b0.last());
                lemma_views_push(r0, b0.last());
            }
            match b.pop() {
                Some(x) => r.push(x),
                None => {},
            }
            assert(b@ =~= b0.drop_last());
            assert(r@ =~= r0.push(b0.last()));
        }
        assert(all =~= views(a@).to_multiset().add(views(b@).to_multiset()).add(
            views(r@).to_multiset(),
        ));
    }
    assert(views(a@) =~= Seq::empty());
    assert(views(b@) =~= Seq::empty());
    assert(all =~= views(r@).to_multiset());
    turn(r)
}

proof fn lemma_views_push(s: Seq<Chars>, x: Chars)
    ensures
        views(s.push(x)).to_multiset() == views(s).to_multiset().insert(x@),
{
    broadcast use vstd::seq_lib::group_to_multiset_ensures;

    assert(views(s.push(x)) =~= views(s).push(x@));
}

/// What is not after the last of a list in order, compared with the last of another.
proof fn lemma_last(a: Seq<Chars>, b: Seq<Chars>)
    requires
        ordered(b),
        a.len() > 0,
        b.len() > 0,
        !before(a.last()@, b.last()@),
    ensures
        forall|i: int| 0 <= i < b.len() ==> !before(a.last()@, (#[trigger] b[i])@),
{
    assert forall|i: int| 0 <= i < b.len() implies !before(a.last()@, (#[trigger] b[i])@) by {
        if i < b.len() - 1 {
            assert(!before(b[b.len() - 1]@, b[i]@));
            lemma_before_total(a.last()@, b.last()@);
            lemma_before_total(b.last()@, b[i]@);
            if before(a.last()@, b[i]@) {
                if a.last()@ != b.last()@ {
                    lemma_before_trans(b.last()@, a.last()@, b[i]@);
                }
            }
        }
    }
}

proof fn lemma_own_last(a: Seq<Chars>)
    requires
        ordered(a),
        a.len() > 0,
    ensures
        forall|i: int| 0 <= i < a.len() ==> !before(a.last()@, (#[trigger] a[i])@),
{
    lemma_before_total(a.last()@, a.last()@);
    assert forall|i: int| 0 <= i < a.len() implies !before(a.last()@, (#[trigger] a[i])@) by {
        if i < a.len() - 1 {
            assert(!before(a[a.len() - 1]@, a[i]@));
        }
    }
}

/// A list from its other end.
fn turn(v: Vec<Chars>) -> (r: Vec<Chars>)
    requires
        forall|i: int, j: int|
            0 <= i < j < v@.len() ==> !before((#[trigger] v@[i])@, (#[trigger] v@[j])@),
    ensures
        ordered(r@),
        views(r@).to_multiset() == views(v@).to_multiset(),
        r@.len() == v@.len(),
{
    let mut v = v;
    let ghost s = v@;
    let mut r: Vec<Chars> = Vec::new();
    while v.len() > 0
        invariant
            v@.len() + r@.len() == s.len(),
            forall|k: int| 0 <= k < v@.len() ==> v@[k] == s[k],
            forall|k: int| 0 <= k < r@.len() ==> #[trigger] r@[k] == s[s.len() - 1 - k],
        decreases v@.len(),
    {
        match v.pop() {
            Some(x) => r.push(x),
            None => {},
        }
    }
    proof {
        assert(views(r@) =~= views(s).reverse());
        crate::readback::lemma_reverse(views(s));
        assert forall|i: int, j: int| 0 <= i < j < r@.len() implies !before(
            (#[trigger] r@[j])@,
            (#[trigger] r@[i])@,
        ) by {
            assert(!before(s[s.len() - 1 - j]@, s[s.len() - 1 - i]@));
        }
    }
    r
}

/// Brings the texts at some positions in order.
fn sort_part(v: &Vec<Chars>, from: usize, to: usize) -> (r: Vec<Chars>)
    requires
        from <= to <= v@.len(),
    ensures
        ordered(r@),
        views(r@).to_multiset() == views(v@).subrange(from as int, to as int).to_multiset(),
        r@.len() == to - from,
    decreases to - from,
{
    if to - from == 0 {
        let r: Vec<Chars> = Vec::new();
        assert(views(r@) =~= views(v@).subrange(from as int, to as int));
        r
    } else if to - from == 1 {
        let mut r: Vec<Chars> = Vec::new();
        let x = copy_chars(&v[from]);
        r.push(x);
        assert(views(r@) =~= views(v@).subrange(from as int, to as int));
        r
    } else {
        let mid: usize = from + (to - from) / 2;
        let a = sort_part(v, from, mid);
        let b = sort_part(v, mid, to);
        proof {
            let s = views(v@);
            assert(s.subrange(from as int, to as int) =~= s.subrange(from as int, mid as int)
                + s.subrange(mid as int, to as int));
            vstd::seq_lib::lemma_multiset_commutative(
                s.subrange(from as int, mid as int),
                s.subrange(mid as int, to as int),
            );
        }
        merge(a, b)
    }
}

/// A copy.
fn copy_chars(v: &Chars) -> (r: Chars)
    ensures
        r@ == v@,
{
    let mut r: Chars = Vec::new();
    for i in 0..v.len()
        invariant
            r@ == v@.take(i as int),
    {
        r.push(v[i]);
    }
    assert(v@.take(v@.len() as int) =~= v@);
    r
}

/// Whether a list of texts holds no text twice.
pub fn no_repeats(v: &Vec<Chars>) -> (r: bool)
    ensures
        r == views(v@).no_duplicates(),
{
    broadcast use vstd::seq_lib::group_to_multiset_ensures;

    let s = sort_part(v, 0, v.len());
    let ghost t = views(v@);
    let ghost u = views(s@);
    assert(t.subrange(0, t.len() as int) =~= t);
    let mut i: usize = 1;
    while i < s.len()
        invariant
            u == views(s@),
            u.to_multiset() == t.to_multiset(),
            t == views(v@),
            ordered(s@),
            1 <= i,
            s@.len() > 0 ==> i <= s@.len(),
            forall|k: int| 0 < k < i && k < s@.len() ==> before(
                s@[k - 1]@,
                (#[trigger] s@[k])@,
            ),
        decreases s@.len() - i,
    {
        if !is_before(&s[i - 1], &s[i]) {
            proof {
                lemma_before_total(s@[i - 1]@, s@[i as int]@);
                assert(!before(s@[i as int]@, s@[i - 1]@));
                assert(u[i - 1] == u[i as int]);
                if t.no_duplicates() {
                    t.lemma_multiset_has_no_duplicates();
                    assert forall|x: Text| u.to_multiset().contains(x) implies
                        u.to_multiset().count(x) == 1 by {
                        assert(t.to_multiset().contains(x));
                    }
                    u.lemma_multiset_has_no_duplicates_conv();
                    assert(false);
                }
            }
            return false;
        }
        i = i + 1;
    }
    proof {
        assert(pairwise(u, by_text())) by {
            assert forall|a: int, b: int| 0 <= a < b < u.len() implies by_text()(
                #[trigger] u[a],
                #[trigger] u[b],
            ) by {
                lemma_climb(s@, a, b);
            }
        }
        assert forall|a: int, b: int| 0 <= a < u.len() && 0 <= b < u.len() && a != b implies u[a]
            != u[b] by {
            if a < b {
                assert(by_text()(u[a], u[b]));
            } else {
                assert(by_text()(u[b], u[a]));
            }
            lemma_before_total(u[a], u[b]);
        }
        u.lemma_multiset_has_no_duplicates();
        assert forall|x: Text| t.to_multiset().contains(x) implies t.to_multiset().count(x) == 1 by {
            assert(u.to_multiset().contains(x));
        }
        t.lemma_multiset_has_no_duplicates_conv();
    }
    true
}

proof fn lemma_climb(s: Seq<Chars>, a: int, b: int)
    requires
        0 <= a < b < s.len(),
        forall|k: int| 0 < k < s.len() ==> before(s[k - 1]@, (#[trigger] s[k])@),
    ensures
        before(s[a]@, s[b]@),
    decreases b - a,
{
    if a + 1 < b {
        lemma_climb(s, a, b - 1);
        lemma_before_trans(s[a]@, s[b - 1]@, s[b]@);
    }
}


// ---------------------------------------------------------------------------
// Tables
// ---------------------------------------------------------------------------
/// Whether some project has this identifier.
fn has_project(projects: &Vec<ProjectRow>, id: &str) -> (r: bool)
    ensures
        r == any(views(projects@), project_is(id@)),
{
    let test = |r: &ProjectRow| -> (b: bool)
        ensures
            b == project_is(id@)(r@),
    {
        same_text(r.id.as_str(), id)
    };
    find_row(projects, test, Ghost(project_is(id@))).is_some()
}

/// Whether a list of texts holds no text twice.
fn distinct_strings(v: &Vec<String>) -> (r: bool)
    ensures
        r == texts(v@).no_duplicates(),
{
    let mut c: Vec<Chars> = Vec::new();
    for i in 0..v.len()
        invariant
            c@.len() == i,
            forall|k: int| 0 <= k < i ==> (#[trigger] c@[k])@ == v@[k]@,
    {
        c.push(chars_of(v[i].as_str()));
    }
    assert(views(c@) =~= texts(v@));
    no_repeats(&c)
}

/// Whether tags are each there once, and in order.
fn ascending(v: &Vec<String>) -> (r: bool)
    ensures
        r == tags_kept(texts(v@)),
{
    let ghost s = texts(v@);
    if v.len() == 0 {
        return true;
    }
    let mut last = chars_of(v[0].as_str());
    for i in 1..v.len()
        invariant
            s == texts(v@),
            1 <= i <= v@.len(),
            last@ == s[i - 1],
            forall|a: int, b: int| 0 <= a < b < i ==> before(#[trigger] s[a], #[trigger] s[b]),
    {
        let c = chars_of(v[i].as_str());
        assert(c@ == s[i as int]);
        if !is_before(&last, &c) {
            proof {
                lemma_before_total(s[i - 1], s[i as int]);
                if tags_kept(s) {
                    assert(s[i - 1] != s[i as int]);
                    assert(!by_text()(s[i as int], s[i - 1]));
                }
            }
            return false;
        }
        proof {
            assert forall|a: int, b: int| 0 <= a < b < i + 1 implies before(
                #[trigger] s[a],
                #[trigger] s[b],
            ) by {
                if b == i && a < i - 1 {
                    lemma_before_trans(s[a], s[i - 1], s[b]);
                }
            }
        }
        last = c;
    }
    proof {
        assert forall|a: int, b: int| 0 <= a < b < s.len() implies s[a] != s[b] && !before(
            #[trigger] s[b],
            #[trigger] s[a],
        ) by {
            lemma_before_total(s[a], s[b]);
        }
    }
    true
}

/// Whether the projects keep the rules.
fn projects_hold(projects: &Vec<ProjectRow>) -> (r: bool)
    ensures
        r == (pairwise(views(projects@), projects_apart()) && all(
            views(projects@),
            project_sound(),
        )),
{
    let ghost s = views(projects@);
    let mut ids: Vec<Chars> = Vec::new();
    let mut names: Vec<Chars> = Vec::new();
    for i in 0..projects.len()
        invariant
            s == views(projects@),
            ids@.len() == i,
            names@.len() == i,
            forall|k: int| 0 <= k < i ==> (#[trigger] ids@[k])@ == s[k].id,
            forall|k: int| 0 <= k < i ==> (#[trigger] names@[k])@ == folded(s[k].name),
            forall|k: int| 0 <= k < i ==> project_sound()(#[trigger] s[k]),
    {
        if !distinct_strings(&projects[i].paths) || !ascending(&projects[i].tags) {
            assert(!project_sound()(s[i as int]));
            return false;
        }
        ids.push(chars_of(projects[i].id.as_str()));
        names.push(fold(projects[i].name.as_str()));
    }
    let a = no_repeats(&ids);
    let b = no_repeats(&names);
    proof {
        let x = views(ids@);
        let y = views(names@);
        if a && b {
            assert forall|i: int, j: int| 0 <= i < j < s.len() implies projects_apart()(
                #[trigger] s[i],
                #[trigger] s[j],
            ) by {
                assert(x[i] != x[j]);
                assert(y[i] != y[j]);
            }
        }
        if pairwise(s, projects_apart()) {
            assert forall|i: int, j: int|
                0 <= i < s.len() && 0 <= j < s.len() && i != j implies x[i] != x[j] && y[i]
                != y[j] by {
                if i < j {
                    assert(projects_apart()(s[i], s[j]));
                } else {
                    assert(projects_apart()(s[j], s[i]));
                }
            }
            assert(x.no_duplicates());
            assert(y.no_duplicates());
        }
    }
    a && b
}

/// Whether the entries keep the rules.
fn entries_hold(entries: &Vec<EntryRow>, projects: &Vec<ProjectRow>) -> (r: bool)
    ensures
        r == (pairwise(views(entries@), entries_apart()) && all(
            views(entries@),
            entry_sound(views(projects@)),
        )),
{
    let ghost s = views(entries@);
    let ghost ps = views(projects@);
    let mut ids: Vec<Chars> = Vec::new();
    let mut busy: Vec<Chars> = Vec::new();
    let ghost mut at: Seq<int> = Seq::empty();
    for i in 0..entries.len()
        invariant
            s == views(entries@),
            ps == views(projects@),
            ids@.len() == i,
            forall|k: int| 0 <= k < i ==> (#[trigger] ids@[k])@ == s[k].id,
            forall|k: int| 0 <= k < i ==> entry_sound(ps)(#[trigger] s[k]),
            listed_at(views(busy@), at, i as int),
            forall|m: int|
                0 <= m < at.len() ==> s[#[trigger] at[m]].end is None && views(busy@)[m]
                    == s[at[m]].project_id,
            forall|k: int| 0 <= k < i && (#[trigger] s[k]).end is None ==> at.contains(k),
    {
        if !has_project(projects, entries[i].project_id.as_str()) || !ascending(&entries[i].tags) {
            assert(!entry_sound(ps)(s[i as int]));
            return false;
        }
        ids.push(chars_of(entries[i].id.as_str()));
        if entries[i].end.is_none() {
            let ghost b0 = views(busy@);
            let ghost at0 = at;
            busy.push(chars_of(entries[i].project_id.as_str()));
            proof {
                at = at0.push(i as int);
                assert(views(busy@) =~= b0.push(s[i as int].project_id));
                assert forall|k: int|
                    0 <= k < i + 1 && (#[trigger] s[k]).end is None implies at.contains(k) by {
                    if k < i {
                        assert(at0.contains(k));
                        let m = choose|m: int| 0 <= m < at0.len() && at0[m] == k;
                        assert(at[m] == k);
                    } else {
                        assert(at[at0.len() as int] == k);
                    }
                }
            }
        }
    }
    let a = no_repeats(&ids);
    let b = no_repeats(&busy);
    proof {
        let x = views(ids@);
        let y = views(busy@);
        if a && b {
            assert forall|i: int, j: int| 0 <= i < j < s.len() implies entries_apart()(
                #[trigger] s[i],
                #[trigger] s[j],
            ) by {
                assert(x[i] != x[j]);
                if s[i].end is None && s[j].end is None {
                    let m = choose|m: int| 0 <= m < at.len() && at[m] == i;
                    let n = choose|n: int| 0 <= n < at.len() && at[n] == j;
                    assert(y[m] != y[n]);
                }
            }
        }
        if pairwise(s, entries_apart()) {
            assert forall|i: int, j: int|
                0 <= i < s.len() && 0 <= j < s.len() && i != j implies x[i] != x[j] by {
                if i < j {
                    assert(entries_apart()(s[i], s[j]));
                } else {
                    assert(entries_apart()(s[j], s[i]));
                }
            }
            assert(x.no_duplicates());
            assert forall|m: int, n: int|
                0 <= m < y.len() && 0 <= n < y.len() && m != n implies y[m] != y[n] by {
                if at[m] < at[n] {
                    assert(entries_apart()(s[at[m]], s[at[n]]));
                } else {
                    assert(at[n] < at[m]);
                    assert(entries_apart()(s[at[n]], s[at[m]]));
                }
            }
            assert(y.no_duplicates());
        }
    }
    a && b
}

/// Whether a list belongs to increasing positions below a bound.
spec fn listed_at(list: Seq<Text>, at: Seq<int>, bound: int) -> bool {
    &&& list.len() == at.len()
    &&& forall|m: int| 0 <= m < at.len() ==> 0 <= (#[trigger] at[m]) < bound
    &&& forall|m: int, n: int| 0 <= m < n < at.len() ==> (#[trigger] at[m]) < (#[trigger] at[n])
}

/// Whether the sessions keep the rules.
fn sessions_hold(sessions: &Vec<SessionRow>, projects: &Vec<ProjectRow>) -> (r: bool)
    ensures
        r == (pairwise(views(sessions@), sessions_apart()) && all(
            views(sessions@),
            session_sound(views(projects@)),
        )),
{
    let ghost s = views(sessions@);
    let ghost ps = views(projects@);
    let mut ids: Vec<Chars> = Vec::new();
    let mut busy: Vec<Chars> = Vec::new();
    let ghost mut at: Seq<int> = Seq::empty();
    for i in 0..sessions.len()
        invariant
            s == views(sessions@),
            ps == views(projects@),
            ids@.len() == i,
            forall|k: int| 0 <= k < i ==> (#[trigger] ids@[k])@ == s[k].id,
            forall|k: int| 0 <= k < i ==> session_sound(ps)(#[trigger] s[k]),
            listed_at(views(busy@), at, i as int),
            forall|m: int|
                0 <= m < at.len() ==> s[#[trigger] at[m]].ended_at is None && views(busy@)[m]
                    == decimal(s[at[m]].pid as nat),
            forall|k: int| 0 <= k < i && (#[trigger] s[k]).ended_at is None ==> at.contains(k),
    {
        if let Some(p) = &sessions[i].current_project_id {
            if !has_project(projects, p.as_str()) {
                assert(!session_sound(ps)(s[i as int]));
                return false;
            }
        }
        assert(session_sound(ps)(s[i as int]));
        ids.push(chars_of(sessions[i].id.as_str()));
        if sessions[i].ended_at.is_none() {
            let ghost b0 = views(busy@);
            let ghost at0 = at;
            busy.push(chars_of(decimal_text(sessions[i].pid as u128).as_str()));
            proof {
                at = at0.push(i as int);
                assert(views(busy@) =~= b0.push(decimal(s[i as int].pid as nat)));
                assert forall|k: int|
                    0 <= k < i + 1 && (#[trigger] s[k]).ended_at is None implies at.contains(k) by {
                    if k < i {
                        assert(at0.contains(k));
                        let m = choose|m: int| 0 <= m < at0.len() && at0[m] == k;
                        assert(at[m] == k);
                    } else {
                        assert(at[at0.len() as int] == k);
                    }
                }
            }
        }
    }
    let a = no_repeats(&ids);
    let b = no_repeats(&busy);
    proof {
        let x = views(ids@);
        let y = views(busy@);
        if a && b {
            assert forall|i: int, j: int| 0 <= i < j < s.len() implies sessions_apart()(
                #[trigger] s[i],
                #[trigger] s[j],
            ) by {
                assert(x[i] != x[j]);
                if s[i].ended_at is None && s[j].ended_at is None {
                    let m = choose|m: int| 0 <= m < at.len() && at[m] == i;
                    let n = choose|n: int| 0 <= n < at.len() && at[n] == j;
                    assert(y[m] != y[n]);
                }
            }
        }
        if pairwise(s, sessions_apart()) {
            assert forall|i: int, j: int|
                0 <= i < s.len() && 0 <= j < s.len() && i != j implies x[i] != x[j] by {
                if i < j {
                    assert(sessions_apart()(s[i], s[j]));
                } else {
                    assert(sessions_apart()(s[j], s[i]));
                }
            }
            assert(x.no_duplicates());
            assert forall|m: int, n: int|
                0 <= m < y.len() && 0 <= n < y.len() && m != n implies y[m] != y[n] by {
                lemma_decimal_value(s[at[m]].pid as nat);
                lemma_decimal_value(s[at[n]].pid as nat);
                if at[m] < at[n] {
                    assert(sessions_apart()(s[at[m]], s[at[n]]));
                } else {
                    assert(at[n] < at[m]);
                    assert(sessions_apart()(s[at[n]], s[at[m]]));
                }
            }
            assert(y.no_duplicates());
        }
    }
    a && b
}

/// Whether rows keep the rules of the tables.
pub fn rules_hold(
    projects: &Vec<ProjectRow>,
    entries: &Vec<EntryRow>,
    sessions: &Vec<SessionRow>,
    ignored: &Vec<String>,
) -> (r: bool)
    ensures
        r == (Db {
            projects: views(projects@),
            entries: views(entries@),
            sessions: views(sessions@),
            ignored: views(ignored@),
        }).valid(),
{
    assert(texts(ignored@) =~= views(ignored@));
    projects_hold(projects) && entries_hold(entries, projects) && sessions_hold(sessions, projects)
        && distinct_strings(ignored)
}

} // verus!
