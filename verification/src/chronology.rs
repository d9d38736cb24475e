//! The order of stored times. They are compared as they are written, and for comparable times that is
//! the order of time.
use crate::clock::{
    fraction_digits, fraction_of, fraction_text, is_unit, lemma_digit, lemma_year_of, stamp_of,
    time_text, two_digits, written_date, zone_text, Timestamp, DAY, SECOND, YEAR_ZERO,
};
use crate::config::ConfigView;
use crate::dates::{date_of, law_date_order, lemma_date_of};
use crate::db::{
    by_text, entries_apart, entry_readable, entry_sound, latest_at, latest_first, read_entry,
    selected, session_readable, stale_at, Db, Fault,
};
use crate::hook::{
    entries_stopped, limit_in_range, projects_of, reap, reaped, stale_age, stale_limit,
};
use crate::models::{EntryData, EntryView, FilterView, SessionView, ShellSession, Text};
use crate::readback::{law_lists, storable};
use crate::rows::{all, in_order, lemma_filter, pairwise};
use crate::text::{before, lemma_before_concat, lemma_before_total, lemma_before_trans};
use crate::tracking::law_reaping;
use vstd::prelude::*;

verus! {

// ---------------------------------------------------------------------------
// Texts of times
// ---------------------------------------------------------------------------
/// Two digits in front: the smaller number comes first, and behind the same number the rest decides.
proof fn lemma_digits_first(x: int, y: int, s: Seq<char>, t: Seq<char>)
    requires
        0 <= x <= 99,
        0 <= y <= 99,
    ensures
        x < y ==> before(two_digits(x) + s, two_digits(y) + t),
        x == y ==> before(two_digits(x) + s, two_digits(y) + t) == before(s, t),
{
    let a = two_digits(x);
    let b = two_digits(y);
    lemma_before_concat(a, b, s, t);
    if x < y {
        reveal_with_fuel(before, 3);
        assert(a.drop_first()[0] == a[1]);
        assert(b.drop_first()[0] == b[1]);
        assert(before(a, b));
    }
}

/// The same character in front decides nothing.
proof fn lemma_char_first(c: char, s: Seq<char>, t: Seq<char>)
    ensures
        before(seq![c] + s, seq![c] + t) == before(s, t),
{
    lemma_before_concat(seq![c], seq![c], s, t);
}

/// Dates are written in their order.
proof fn lemma_date_texts(p: (int, int, int), q: (int, int, int), s: Seq<char>, t: Seq<char>)
    requires
        0 <= p.0 <= 9999,
        0 <= q.0 <= 9999,
        1 <= p.1 <= 12,
        1 <= q.1 <= 12,
        1 <= p.2 <= 31,
        1 <= q.2 <= 31,
    ensures
        (p.0 < q.0 || (p.0 == q.0 && (p.1 < q.1 || (p.1 == q.1 && p.2 < q.2)))) ==> before(
            written_date(p.0, p.1, p.2) + s,
            written_date(q.0, q.1, q.2) + t,
        ),
        p == q ==> before(written_date(p.0, p.1, p.2) + s, written_date(q.0, q.1, q.2) + t)
            == before(s, t),
{
    let d1 = two_digits(p.2) + s;
    let d2 = two_digits(q.2) + t;
    let m1 = two_digits(p.1) + (seq!['-'] + d1);
    let m2 = two_digits(q.1) + (seq!['-'] + d2);
    let y1 = two_digits(p.0 % 100) + (seq!['-'] + m1);
    let y2 = two_digits(q.0 % 100) + (seq!['-'] + m2);
    assert(written_date(p.0, p.1, p.2) + s =~= two_digits(p.0 / 100) + y1);
    assert(written_date(q.0, q.1, q.2) + t =~= two_digits(q.0 / 100) + y2);
    lemma_digits_first(p.0 / 100, q.0 / 100, y1, y2);
    lemma_digits_first(p.0 % 100, q.0 % 100, seq!['-'] + m1, seq!['-'] + m2);
    lemma_char_first('-', m1, m2);
    lemma_digits_first(p.1, q.1, seq!['-'] + d1, seq!['-'] + d2);
    lemma_char_first('-', d1, d2);
    lemma_digits_first(p.2, q.2, s, t);
}

/// Times of day are written in their order.
proof fn lemma_time_texts(a: int, b: int, s: Seq<char>, t: Seq<char>)
    ensures
        ({
            let x = a % (DAY as int) / (SECOND as int);
            let y = b % (DAY as int) / (SECOND as int);
            &&& x < y ==> before(time_text(a) + s, time_text(b) + t)
            &&& x == y ==> before(time_text(a) + s, time_text(b) + t) == before(s, t)
        }),
{
    let x = a % (DAY as int) / (SECOND as int);
    let y = b % (DAY as int) / (SECOND as int);
    let ma = a % (DAY as int) / (60 * SECOND);
    let mb = b % (DAY as int) / (60 * SECOND);
    vstd::arithmetic::div_mod::lemma_div_denominator(a % (DAY as int), SECOND as int, 60);
    vstd::arithmetic::div_mod::lemma_div_denominator(b % (DAY as int), SECOND as int, 60);
    assert(ma == x / 60);
    assert(mb == y / 60);
    assert(0 <= x < 86_400);
    assert(0 <= y < 86_400);
    let s1 = two_digits(x % 60) + s;
    let s2 = two_digits(y % 60) + t;
    let m1 = two_digits(ma % 60) + (seq![':'] + s1);
    let m2 = two_digits(mb % 60) + (seq![':'] + s2);
    assert(time_text(a) + s =~= two_digits(ma / 60) + (seq![':'] + m1));
    assert(time_text(b) + t =~= two_digits(mb / 60) + (seq![':'] + m2));
    lemma_digits_first(ma / 60, mb / 60, seq![':'] + m1, seq![':'] + m2);
    lemma_char_first(':', m1, m2);
    lemma_digits_first(ma % 60, mb % 60, seq![':'] + s1, seq![':'] + s2);
    lemma_char_first(':', s1, s2);
    lemma_digits_first(x % 60, y % 60, s, t);
}

/// What stands behind the seconds of a written time.
spec fn tail(t: Timestamp) -> Seq<char> {
    fraction_text(t.local() as int) + zone_text(t.offset() as int)
}

/// Of two written times the seconds decide, and in the same second what stands behind them.
proof fn lemma_texts(a: Timestamp, b: Timestamp)
    requires
        storable(a),
        storable(b),
    ensures
        a.local() as int / (SECOND as int) < b.local() as int / (SECOND as int) ==> before(
            a.text(),
            b.text(),
        ),
        a.local() as int / (SECOND as int) == b.local() as int / (SECOND as int) ==> before(
            a.text(),
            b.text(),
        ) == before(tail(a), tail(b)),
{
    let x = a.local() as int;
    let y = b.local() as int;
    let n = x / (DAY as int);
    let k = y / (DAY as int);
    assert(YEAR_ZERO == -719_528 * DAY);
    let p = date_of(n);
    let q = date_of(k);
    lemma_date_of(n);
    lemma_date_of(k);
    lemma_year_of(x, p.0, p.1, p.2);
    lemma_year_of(y, q.0, q.1, q.2);
    law_date_order(p.0, p.1, p.2, q.0, q.1, q.2);
    let s = time_text(x) + tail(a);
    let t = time_text(y) + tail(b);
    assert(a.text() =~= written_date(p.0, p.1, p.2) + (seq!['T'] + s));
    assert(b.text() =~= written_date(q.0, q.1, q.2) + (seq!['T'] + t));
    lemma_date_texts(p, q, seq!['T'] + s, seq!['T'] + t);
    lemma_char_first('T', s, t);
    lemma_time_texts(x, y, tail(a), tail(b));
    assert(x / (SECOND as int) == 86_400 * n + x % (DAY as int) / (SECOND as int));
    assert(y / (SECOND as int) == 86_400 * k + y % (DAY as int) / (SECOND as int));
}

/// Of times in different seconds the earlier reading of the clock is written first, whatever the
/// offsets are.
pub proof fn law_text_order(a: Timestamp, b: Timestamp)
    requires
        storable(a),
        storable(b),
        a.local() as int / (SECOND as int) < b.local() as int / (SECOND as int),
    ensures
        before(a.text(), b.text()),
{
    lemma_texts(a, b);
}

/// Fractions of the same second: the smaller one is written first, unless its digits begin the other
/// one's and what follows them comes behind the digits.
proof fn lemma_fractions(m: int, n: int, unit: int, z: Seq<char>)
    requires
        is_unit(unit),
        0 <= m < n < 10 * unit,
        z.len() > 0,
        z[0] < '0' || !fraction_digits(m, unit).is_prefix_of(fraction_digits(n, unit)),
    ensures
        before(fraction_digits(m, unit) + z, fraction_digits(n, unit) + z),
    decreases unit,
{
    let a = fraction_digits(m, unit);
    let b = fraction_digits(n, unit);
    lemma_digit(n, unit);
    let ns = fraction_digits(n % unit, unit / 10);
    let c = seq![(48 + n / unit) as char];
    assert(b + z =~= c + (ns + z));
    if m == 0 {
        assert(a =~= Seq::<char>::empty());
        assert(a.is_prefix_of(b));
        assert(a + z =~= z);
        assert((b + z)[0] == c[0]);
    } else {
        lemma_digit(m, unit);
        let ms = fraction_digits(m % unit, unit / 10);
        let d = seq![(48 + m / unit) as char];
        assert(a + z =~= d + (ms + z));
        if m / unit == n / unit {
            if ms.is_prefix_of(ns) {
                assert(a =~= b.subrange(0, a.len() as int)) by {
                    assert forall|i: int| 0 <= i < a.len() implies a[i] == b[i] by {
                        if i > 0 {
                            assert(a[i] == ms[i - 1]);
                            assert(ms[i - 1] == ns.subrange(0, ms.len() as int)[i - 1]);
                            assert(b[i] == ns[i - 1]);
                        }
                    }
                }
                assert(a.is_prefix_of(b));
            }
            lemma_fractions(m % unit, n % unit, unit / 10, z);
            lemma_char_first(c[0], ms + z, ns + z);
        } else {
            assert(m / unit < n / unit) by (nonlinear_arith)
                requires
                    m == unit * (m / unit) + m % unit,
                    n == unit * (n / unit) + n % unit,
                    0 <= m % unit < unit,
                    0 <= n % unit < unit,
                    m < n,
                    m / unit != n / unit,
                    unit > 0,
            ;
            assert((a + z)[0] < (b + z)[0]);
        }
    }
}

/// Whether two times are written in their order: they can be stored, have the same offset, and are
/// not two different times of one second in UTC of which one's fraction begins the other one's. A
/// whole second has no fraction, and begins any.
pub open spec fn comparable(a: Timestamp, b: Timestamp) -> bool {
    let x = a.local() as int;
    let y = b.local() as int;
    &&& storable(a)
    &&& storable(b)
    &&& a.offset() == b.offset()
    &&& {
        ||| x == y
        ||| x / (SECOND as int) != y / (SECOND as int)
        ||| a.offset() != 0
        ||| !fraction_of(x).is_prefix_of(fraction_of(y)) && !fraction_of(y).is_prefix_of(
            fraction_of(x),
        )
    }
}

proof fn lemma_earlier(a: Timestamp, b: Timestamp)
    requires
        comparable(a, b),
        a.local() < b.local(),
    ensures
        before(a.text(), b.text()),
{
    let x = a.local() as int;
    let y = b.local() as int;
    lemma_texts(a, b);
    if x / (SECOND as int) == y / (SECOND as int) {
        let m = x % (SECOND as int);
        let n = y % (SECOND as int);
        let z = zone_text(a.offset() as int);
        assert(m < n);
        let d = fraction_of(y) + z;
        assert(tail(b) =~= seq!['.'] + d);
        if m == 0 {
            assert(fraction_of(x) =~= Seq::<char>::empty());
            assert(fraction_of(x).is_prefix_of(fraction_of(y)));
            assert(tail(a) =~= z);
            assert(z[0] < '.');
            assert(tail(b)[0] == '.');
        } else {
            let c = fraction_of(x) + z;
            assert(tail(a) =~= seq!['.'] + c);
            lemma_fractions(m, n, 100_000_000, z);
            lemma_char_first('.', c, d);
        }
    }
}

/// Times are written in their order: of two that are comparable, the text of the earlier one comes
/// first, and the same text is the same time.
pub proof fn law_comparable(a: Timestamp, b: Timestamp)
    requires
        comparable(a, b),
    ensures
        before(a.text(), b.text()) <==> a.instant() < b.instant(),
        a.text() == b.text() <==> a.instant() == b.instant(),
{
    lemma_before_total(a.text(), b.text());
    if a.local() < b.local() {
        lemma_earlier(a, b);
    } else if b.local() < a.local() {
        lemma_earlier(b, a);
    }
}

/// Any two whole seconds that can be stored are comparable where their offset is the same.
pub proof fn law_whole_seconds(a: Timestamp, b: Timestamp)
    requires
        storable(a),
        storable(b),
        a.offset() == b.offset(),
        a.local() % SECOND == 0,
        b.local() % SECOND == 0,
    ensures
        comparable(a, b),
{
}

// ---------------------------------------------------------------------------
// Entries by time
// ---------------------------------------------------------------------------
/// The time that a stored text stands for.
pub open spec fn time_of(s: Text) -> Timestamp {
    stamp_of(s).unwrap()
}

/// Whether a stored text is what is written for the time that it stands for.
pub open spec fn as_written(s: Text) -> bool {
    stamp_of(s) is Some && time_of(s).text() == s
}

/// Whether an entry meets every condition of a filter: its project, its source and its tags, and
/// that it starts at or after the one time and before the other.
pub open spec fn meets(f: FilterView, e: EntryView) -> bool {
    &&& f.project_id matches Some(p) ==> e.project_id == p
    &&& f.from matches Some(t) ==> t.instant() <= e.start.instant()
    &&& f.to matches Some(t) ==> e.start.instant() < t.instant()
    &&& f.source matches Some(x) ==> e.source == x
    &&& forall|i: int| 0 <= i < f.tags.len() ==> e.tags.contains(#[trigger] f.tags[i])
}

/// Whether the starts of the stored entries are comparable with each other.
pub open spec fn starts_comparable(db: Db) -> bool {
    &&& forall|i: int| 0 <= i < db.entries.len() ==> as_written((#[trigger] db.entries[i]).start)
    &&& forall|i: int, j: int|
        0 <= i < db.entries.len() && 0 <= j < db.entries.len() ==> comparable(
            time_of((#[trigger] db.entries[i]).start),
            time_of((#[trigger] db.entries[j]).start),
        )
}

/// Whether a time is comparable with the starts of the stored entries.
pub open spec fn bound_comparable(db: Db, t: Option<Timestamp>) -> bool {
    t matches Some(x) ==> forall|i: int|
        0 <= i < db.entries.len() ==> comparable(time_of((#[trigger] db.entries[i]).start), x)
}

/// Whether an entry is stored.
pub open spec fn is_stored(db: Db, e: EntryView) -> bool {
    exists|k: int|
        0 <= k < db.entries.len() && read_entry(#[trigger] db.entries[k]) == Ok::<
            EntryView,
            Fault,
        >(e)
}

/// Listing entries gives, each once, the stored entries that meet every condition of the filter,
/// from the latest start on, and their tags in order.
pub proof fn law_entries_by_time(db: Db, f: FilterView)
    requires
        db.valid(),
        db.readable(),
        starts_comparable(db),
        bound_comparable(db, f.from),
        bound_comparable(db, f.to),
    ensures
        db.list_entries(f) is Ok,
        ({
            let v = db.list_entries(f)->Ok_0;
            &&& forall|e: EntryView| #[trigger] v.contains(e) <==> is_stored(db, e) && meets(f, e)
            &&& forall|i: int, j: int|
                0 <= i < j < v.len() ==> (#[trigger] v[i]).start.instant() >= (
                #[trigger] v[j]).start.instant() && v[i].id != v[j].id
            &&& forall|i: int| 0 <= i < v.len() ==> in_order((#[trigger] v[i]).tags, by_text())
        }),
{
    let rows = db.entry_rows(f);
    lemma_entry_rows(db, f);
    assert forall|i: int| 0 <= i < rows.len() implies entry_readable()(#[trigger] rows[i]) by {
        let k = lemma_row_of(db, f, i);
        assert(entry_readable()(db.entries[k]));
    }
    let v = db.list_entries(f)->Ok_0;
    assert(v.len() == rows.len());
    assert forall|i: int| 0 <= i < v.len() implies read_entry(rows[i]) == Ok::<EntryView, Fault>(
        #[trigger] v[i],
    ) by {
        assert(entry_readable()(rows[i]));
    }
    assert forall|i: int| 0 <= i < v.len() implies in_order((#[trigger] v[i]).tags, by_text()) by {
        let k = lemma_row_of(db, f, i);
        assert(entry_sound(db.projects)(db.entries[k]));
    }
    assert forall|e: EntryView| #[trigger] v.contains(e) <==> is_stored(db, e) && meets(f, e) by {
        if v.contains(e) {
            let i = choose|i: int| 0 <= i < v.len() && v[i] == e;
            let k = lemma_row_of(db, f, i);
            lemma_selected(db, f, k);
        }
        if is_stored(db, e) && meets(f, e) {
            let k = choose|k: int|
                0 <= k < db.entries.len() && read_entry(#[trigger] db.entries[k]) == Ok::<
                    EntryView,
                    Fault,
                >(e);
            lemma_selected(db, f, k);
            assert(db.entries.contains(db.entries[k]));
            assert(rows.contains(db.entries[k]));
            let i = choose|i: int| 0 <= i < rows.len() && rows[i] == db.entries[k];
            assert(v[i] == e);
        }
    }
    assert forall|i: int, j: int| 0 <= i < j < v.len() implies (#[trigger] v[i]).start.instant()
        >= (#[trigger] v[j]).start.instant() && v[i].id != v[j].id by {
        let a = lemma_row_of(db, f, i);
        let b = lemma_row_of(db, f, j);
        assert(!latest_first()(rows[j], rows[i]));
        law_comparable(time_of(db.entries[a].start), time_of(db.entries[b].start));
        assert(rows[i] != rows[j]);
        if a < b {
            assert(entries_apart()(db.entries[a], db.entries[b]));
        } else {
            assert(entries_apart()(db.entries[b], db.entries[a]));
        }
    }
}

/// The rows that a listing reads are the selected ones, each once and in order.
pub proof fn lemma_entry_rows(db: Db, f: FilterView)
    requires
        pairwise(db.entries, entries_apart()),
    ensures
        forall|r: EntryData| #[trigger]
            db.entry_rows(f).contains(r) <==> db.entries.contains(r) && selected(f)(r),
        db.entry_rows(f).no_duplicates(),
        in_order(db.entry_rows(f), latest_first()),
{
    broadcast use vstd::seq_lib::group_to_multiset_ensures;

    let rows = db.entry_rows(f);
    let s = db.entries.filter(selected(f));
    lemma_filter(db.entries, selected(f));
    law_lists(db, None, f);
    assert forall|r: EntryData| #[trigger] rows.contains(r) <==> s.contains(r) by {
        assert(rows.contains(r) <==> rows.to_multiset().count(r) > 0);
        assert(s.contains(r) <==> s.to_multiset().count(r) > 0);
    }
    assert(pairwise(s, entries_apart()));
    assert forall|i: int, j: int| 0 <= i < s.len() && 0 <= j < s.len() && i != j implies s[i]
        != s[j] by {
        if i < j {
            assert(entries_apart()(s[i], s[j]));
        } else {
            assert(entries_apart()(s[j], s[i]));
        }
    }
    s.lemma_multiset_has_no_duplicates();
    rows.lemma_multiset_has_no_duplicates_conv();
}

/// The position at which a row of a listing is stored.
pub proof fn lemma_row_of(db: Db, f: FilterView, i: int) -> (k: int)
    requires
        pairwise(db.entries, entries_apart()),
        0 <= i < db.entry_rows(f).len(),
    ensures
        0 <= k < db.entries.len(),
        db.entries[k] == db.entry_rows(f)[i],
        selected(f)(db.entries[k]),
{
    let r = db.entry_rows(f)[i];
    lemma_entry_rows(db, f);
    assert(db.entry_rows(f).contains(r));
    choose|k: int| 0 <= k < db.entries.len() && db.entries[k] == r
}

/// A row is selected where its entry meets the filter.
proof fn lemma_selected(db: Db, f: FilterView, k: int)
    requires
        db.readable(),
        starts_comparable(db),
        bound_comparable(db, f.from),
        bound_comparable(db, f.to),
        0 <= k < db.entries.len(),
    ensures
        selected(f)(db.entries[k]) == meets(f, read_entry(db.entries[k])->Ok_0),
{
    let r = db.entries[k];
    assert(entry_readable()(r));
    let t = time_of(r.start);
    if let Some(x) = f.from {
        law_comparable(t, x);
    }
    if let Some(x) = f.to {
        law_comparable(t, x);
    }
}

/// The latest entry is stored, and no stored entry starts later.
pub proof fn law_last_by_time(db: Db)
    requires
        db.readable(),
        starts_comparable(db),
    ensures
        match db.get_last_entry() {
            Ok(Some(e)) => is_stored(db, e) && forall|x: EntryView| #[trigger]
                is_stored(db, x) ==> x.start.instant() <= e.start.instant(),
            Ok(None) => db.entries.len() == 0,
            Err(_) => false,
        },
{
    if db.entries.len() > 0 {
        lemma_latest_exists(db.entries);
        let i = choose|i: int| latest_at(db.entries, i);
        assert(entry_readable()(db.entries[i]));
        let e = read_entry(db.entries[i])->Ok_0;
        assert(is_stored(db, e));
        assert forall|x: EntryView| #[trigger] is_stored(db, x) implies x.start.instant()
            <= e.start.instant() by {
            let k = choose|k: int|
                0 <= k < db.entries.len() && read_entry(#[trigger] db.entries[k]) == Ok::<
                    EntryView,
                    Fault,
                >(x);
            assert(entry_readable()(db.entries[k]));
            law_comparable(time_of(db.entries[i].start), time_of(db.entries[k].start));
        }
    }
}

/// Of some entries one has the latest start and is the last of those.
proof fn lemma_latest_exists(s: Seq<EntryData>)
    requires
        s.len() > 0,
    ensures
        exists|i: int| latest_at(s, i),
    decreases s.len(),
{
    let n = s.len() - 1;
    if n == 0 {
        lemma_before_total(s[0].start, s[0].start);
        assert(latest_at(s, 0));
    } else {
        let t = s.drop_last();
        lemma_latest_exists(t);
        let i = choose|i: int| latest_at(t, i);
        assert(t[i] == s[i]);
        lemma_before_total(s[n].start, s[n].start);
        lemma_before_total(s[n].start, s[i].start);
        if before(s[n].start, s[i].start) {
            assert forall|j: int| 0 <= j < s.len() implies !before(
                s[i].start,
                (#[trigger] s[j]).start,
            ) by {
                if j < n {
                    assert(t[j] == s[j]);
                }
            }
            assert forall|j: int| i < j < s.len() implies before(
                (#[trigger] s[j]).start,
                s[i].start,
            ) by {
                if j < n {
                    assert(t[j] == s[j]);
                }
            }
            assert(latest_at(s, i));
        } else {
            assert forall|j: int| 0 <= j < s.len() implies !before(
                s[n].start,
                (#[trigger] s[j]).start,
            ) by {
                if j < n {
                    assert(t[j] == s[j]);
                    assert(!before(t[i].start, t[j].start));
                    lemma_before_total(s[i].start, s[n].start);
                    if before(s[n].start, s[j].start) && s[i].start != s[n].start {
                        lemma_before_trans(s[i].start, s[n].start, s[j].start);
                    }
                }
            }
            assert(latest_at(s, n));
        }
    }
}

// ---------------------------------------------------------------------------
// Sessions by age
// ---------------------------------------------------------------------------
/// Whether the last heartbeats of the active sessions are comparable with a time.
pub open spec fn heartbeats_comparable(db: Db, t: Timestamp) -> bool {
    forall|i: int|
        0 <= i < db.sessions.len() && (#[trigger] db.sessions[i]).ended_at is None ==> as_written(
            db.sessions[i].last_heartbeat,
        ) && comparable(time_of(db.sessions[i].last_heartbeat), t)
}

/// Clearing stale sessions ends those active sessions that are older than the stale age, each at its
/// last heartbeat, and no others.
pub proof fn law_reaping_by_age(db: Db, now: Timestamp, config: ConfigView)
    requires
        db.valid(),
        db.readable(),
        limit_in_range(now, config),
        heartbeats_comparable(db, stale_limit(now, config)),
    ensures
        ({
            let n = reap(db, stale_limit(now, config)).0;
            &&& n.sessions.len() == db.sessions.len()
            &&& forall|i: int|
                0 <= i < db.sessions.len() ==> (#[trigger] n.sessions[i]) == if db.sessions[i].ended_at
                    is None && now.instant() - time_of(db.sessions[i].last_heartbeat).instant()
                    > stale_age(config) * SECOND {
                    ShellSession {
                        ended_at: Some(db.sessions[i].last_heartbeat),
                        ..db.sessions[i]
                    }
                } else {
                    db.sessions[i]
                }
        }),
{
    let limit = stale_limit(now, config);
    Timestamp::lemma_at((now.local() - stale_age(config) * SECOND) as i128, now.offset());
    assert(limit.instant() == now.instant() - stale_age(config) * SECOND);
    let rows = db.stale_rows(limit);
    lemma_filter(db.sessions, stale_at(limit.text()));
    assert(all(rows, session_readable()));
    let (n, _) = reap(db, limit);
    law_reaping(db, limit);
    let stale = db.stale_sessions(limit)->Ok_0;
    let ended = Db { sessions: db.sessions.map_values(reaped(limit.text())), ..db };
    lemma_sessions_stay(ended, projects_of(stale), stale);
    assert(n.sessions == ended.sessions);
    assert forall|i: int| 0 <= i < db.sessions.len() implies (#[trigger] n.sessions[i])
        == if db.sessions[i].ended_at is None && now.instant() - time_of(
        db.sessions[i].last_heartbeat,
    ).instant() > stale_age(config) * SECOND {
        ShellSession { ended_at: Some(db.sessions[i].last_heartbeat), ..db.sessions[i] }
    } else {
        db.sessions[i]
    } by {
        if db.sessions[i].ended_at is None {
            law_comparable(time_of(db.sessions[i].last_heartbeat), limit);
        }
    }
}

/// Stopping entries leaves the sessions as they are.
proof fn lemma_sessions_stay(db: Db, projects: Seq<Text>, s: Seq<SessionView>)
    ensures
        entries_stopped(db, projects, s).0.sessions == db.sessions,
    decreases projects.len(),
{
    if projects.len() > 0 {
        lemma_sessions_stay(db, projects.drop_last(), s);
    }
}

} // verus!
