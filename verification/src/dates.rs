//! Days: where they begin, and how they are named.
use crate::clock::{
    date_text, lemma_year_of, two_digits, weekday_of, written_date, Timestamp, DAY, FIRST, LAST,
    YEAR_ZERO,
};
use crate::models::Text;
use crate::text::{
    cat3, digits_value, fold, folded, is_digit, same_text, slice_text, string_of, trim, trimmed,
};
use vstd::prelude::*;

verus! {

/// Seconds in a day.
pub const DAY_SECS: i64 = 86_400;

/// The start of the day of a point in time, at the same offset.
pub open spec fn day_start(t: Timestamp) -> Timestamp {
    Timestamp::at((t.local() - t.local() % DAY) as i128, t.offset())
}

/// The same time of day some days later.
pub open spec fn days_later(t: Timestamp, n: int) -> Timestamp {
    Timestamp::at((t.local() + n * DAY) as i128, t.offset())
}

/// Whether the same time of day some days later lies in the supported years.
pub open spec fn days_reach(t: Timestamp, n: int) -> bool {
    FIRST <= t.local() + n * DAY <= LAST
}

/// The start of the week of a point in time, which is a Monday.
pub open spec fn week_start(t: Timestamp) -> Timestamp {
    days_later(day_start(t), -weekday_of(t.local() as int))
}

/// The start of the day.
pub fn start_of_day(t: Timestamp) -> (r: Timestamp)
    ensures
        r == day_start(t),
        r.local() == t.local() - t.local() % DAY,
        r.offset() == t.offset(),
        FIRST <= r.local() <= LAST,
{
    let r = t.midnight();
    let (_, _) = r.parts();
    proof {
        r.lemma_parts();
    }
    r
}

/// The same time of day some days later, where it is in the supported years.
pub fn add_days(t: Timestamp, n: i32) -> (r: Option<Timestamp>)
    ensures
        match r {
            Some(d) => days_reach(t, n as int) && d == days_later(t, n as int),
            None => !days_reach(t, n as int),
        },
{
    let secs: i64 = (n as i64) * DAY_SECS;
    match t.plus_seconds(secs) {
        Some(d) => {
            proof {
                d.lemma_parts();
            }
            Some(d)
        },
        None => None,
    }
}

/// The start of the week: the latest Monday that is not after the day. The supported years begin on
/// a Monday.
pub fn start_of_week(t: Timestamp) -> (r: Timestamp)
    ensures
        r == week_start(t),
{
    let today = start_of_day(t);
    let back: u8 = t.weekday();
    let (local, _) = t.parts();
    proof {
        lemma_week_in_range(local as int);
    }
    match add_days(today, -(back as i32)) {
        Some(d) => d,
        None => today,
    }
}

/// The Monday of a supported day is supported.
proof fn lemma_week_in_range(local: int)
    requires
        FIRST <= local <= LAST,
    ensures
        FIRST <= local - local % (DAY as int) - weekday_of(local) * DAY,
{
    let q = local / (DAY as int);
    assert(local - local % (DAY as int) == q * DAY);
    assert(FIRST == -4371587 * DAY);
    assert(q >= -4371587);
    let w = (q + 3) % 7;
    assert((-4371587 + 3) % 7 == 0);
    assert(q - w >= -4371587) by {
        let d = q + 4371587;
        assert(d % 7 == w);
        assert(d >= d % 7);
    }
    assert((q - w) * DAY == q * DAY - w * DAY);
}

// ---------------------------------------------------------------------------
// The calendar
// ---------------------------------------------------------------------------
/// Whether a year has a leap day.
pub open spec fn leap(y: int) -> bool {
    y % 4 == 0 && (y % 100 != 0 || y % 400 == 0)
}

/// The days of a month.
pub open spec fn month_length(y: int, m: int) -> int {
    if m == 2 {
        if leap(y) {
            29
        } else {
            28
        }
    } else if m == 4 || m == 6 || m == 9 || m == 11 {
        30
    } else {
        31
    }
}

/// The days of a year before a month.
pub open spec fn days_before_month(y: int, m: int) -> int
    decreases m,
{
    if m <= 1 {
        0
    } else {
        days_before_month(y, m - 1) + month_length(y, m - 1)
    }
}

/// The days from the year 0 to a later year.
pub open spec fn days_before_year(y: int) -> int {
    365 * y + (y + 3) / 4 - (y + 99) / 100 + (y + 399) / 400
}

/// Whether a year, month and day make a date of the years 0 to 9999.
pub open spec fn is_date(y: int, m: int, d: int) -> bool {
    0 <= y <= 9999 && 1 <= m <= 12 && 1 <= d <= month_length(y, m)
}

/// The days from the start of 1970 to a date.
pub open spec fn day_number(y: int, m: int, d: int) -> int {
    days_before_year(y) - days_before_year(1970) + days_before_month(y, m) + d - 1
}

/// A year is as long as the days up to the next one say.
pub proof fn law_year_length(y: int)
    ensures
        days_before_year(y + 1) - days_before_year(y) == if leap(y) {
            366int
        } else {
            365int
        },
{
    lemma_next_multiple(y, 4);
    lemma_next_multiple(y, 100);
    lemma_next_multiple(y, 400);
    assert(y % 400 == 0 ==> y % 100 == 0);
    assert(y % 100 == 0 ==> y % 4 == 0);
}

/// How many multiples of a number there are below `y` grows by one behind a multiple.
proof fn lemma_next_multiple(y: int, n: int)
    requires
        n == 4 || n == 100 || n == 400,
    ensures
        (y + 1 + n - 1) / n == (y + n - 1) / n + if y % n == 0 {
            1int
        } else {
            0int
        },
{
}

/// Whether a year, month and day make a date of the supported years.
pub open spec fn on_calendar(y: int, m: int, d: int) -> bool {
    -9999 <= y <= 9999 && 1 <= m <= 12 && 1 <= d <= month_length(y, m)
}

/// The date that lies so many days from the start of 1970.
pub open spec fn date_of(n: int) -> (int, int, int) {
    choose|p: (int, int, int)|
        on_calendar(p.0, p.1, p.2) && #[trigger] day_number(p.0, p.1, p.2) == n
}

/// Years follow each other.
pub proof fn lemma_years_grow(a: int, b: int)
    requires
        a <= b,
    ensures
        days_before_year(a) <= days_before_year(b),
        a < b ==> days_before_year(a) < days_before_year(b),
    decreases b - a,
{
    if a < b {
        lemma_years_grow(a, b - 1);
        law_year_length(b - 1);
    }
}

/// A date lies in its year.
pub proof fn lemma_year_bounds(y: int, m: int, d: int)
    requires
        1 <= m <= 12,
        1 <= d <= month_length(y, m),
    ensures
        days_before_year(y) <= day_number(y, m, d) + days_before_year(1970) < days_before_year(y + 1),
{
    lemma_year_days(y, m);
    law_year_length(y);
}

/// Every day lies in a year.
proof fn lemma_year_exists(n: int) -> (y: int)
    ensures
        days_before_year(y) <= n < days_before_year(y + 1),
    decreases if n < 0 {
        -n
    } else {
        n
    },
{
    if n == 0 {
        0
    } else if n > 0 {
        let y = lemma_year_exists(n - 1);
        law_year_length(y + 1);
        if n < days_before_year(y + 1) {
            y
        } else {
            y + 1
        }
    } else {
        let y = lemma_year_exists(n + 1);
        law_year_length(y - 1);
        if n >= days_before_year(y) {
            y
        } else {
            y - 1
        }
    }
}

/// Every day of a year lies in a month.
proof fn lemma_month_exists(y: int, n: int) -> (m: int)
    requires
        0 <= n < if leap(y) {
            366int
        } else {
            365int
        },
    ensures
        1 <= m <= 12,
        days_before_month(y, m) <= n < days_before_month(y, m) + month_length(y, m),
{
    reveal_with_fuel(days_before_month, 13);
    if n < 31 {
        1
    } else if n < days_before_month(y, 3) {
        2
    } else if n < days_before_month(y, 4) {
        3
    } else if n < days_before_month(y, 5) {
        4
    } else if n < days_before_month(y, 6) {
        5
    } else if n < days_before_month(y, 7) {
        6
    } else if n < days_before_month(y, 8) {
        7
    } else if n < days_before_month(y, 9) {
        8
    } else if n < days_before_month(y, 10) {
        9
    } else if n < days_before_month(y, 11) {
        10
    } else if n < days_before_month(y, 12) {
        11
    } else {
        12
    }
}

/// Every supported day has its date.
pub proof fn lemma_date_of(n: int)
    requires
        -4_371_587 <= n <= 2_932_896,
    ensures
        on_calendar(date_of(n).0, date_of(n).1, date_of(n).2),
        day_number(date_of(n).0, date_of(n).1, date_of(n).2) == n,
{
    let k = n + days_before_year(1970);
    let y = lemma_year_exists(k);
    law_year_length(y);
    let m = lemma_month_exists(y, k - days_before_year(y));
    let d = k - days_before_year(y) - days_before_month(y, m) + 1;
    if y < -9999 {
        lemma_years_grow(y + 1, -9999);
    }
    if y > 9999 {
        lemma_years_grow(10_000, y);
    }
    let p = (y, m, d);
    assert(on_calendar(p.0, p.1, p.2) && day_number(p.0, p.1, p.2) == n);
}

/// Months follow each other.
proof fn lemma_months_grow(y: int, a: int, b: int)
    requires
        1 <= a < b <= 12,
    ensures
        days_before_month(y, a) + month_length(y, a) <= days_before_month(y, b),
    decreases b - a,
{
    if a < b - 1 {
        lemma_months_grow(y, a, b - 1);
    }
}

/// Dates are in the order of the days: first by year, then by month, then by day.
pub proof fn law_date_order(y: int, m: int, d: int, y2: int, m2: int, d2: int)
    requires
        on_calendar(y, m, d),
        on_calendar(y2, m2, d2),
    ensures
        day_number(y, m, d) < day_number(y2, m2, d2) <==> (y < y2 || (y == y2 && (m < m2 || (m == m2
            && d < d2)))),
        day_number(y, m, d) == day_number(y2, m2, d2) ==> y == y2 && m == m2 && d == d2,
{
    lemma_year_bounds(y, m, d);
    lemma_year_bounds(y2, m2, d2);
    if y < y2 {
        lemma_years_grow(y + 1, y2);
    } else if y2 < y {
        lemma_years_grow(y2 + 1, y);
    } else if m < m2 {
        lemma_months_grow(y, m, m2);
    } else if m2 < m {
        lemma_months_grow(y, m2, m);
    }
}

/// The date of the day that a date lies on is that date.
pub proof fn law_date_of_day(y: int, m: int, d: int)
    requires
        on_calendar(y, m, d),
    ensures
        date_of(day_number(y, m, d)) == (y, m, d),
{
    let n = day_number(y, m, d);
    let p = (y, m, d);
    assert(on_calendar(p.0, p.1, p.2) && day_number(p.0, p.1, p.2) == n);
    let q = date_of(n);
    assert(on_calendar(q.0, q.1, q.2) && day_number(q.0, q.1, q.2) == n);
    law_date_order(y, m, d, q.0, q.1, q.2);
}

fn length_of_month(y: i64, m: i64) -> (r: i64)
    requires
        0 <= y <= 9999,
    ensures
        r == month_length(y as int, m as int),
{
    if m == 2 {
        if y % 4 == 0 && (y % 100 != 0 || y % 400 == 0) {
            29
        } else {
            28
        }
    } else if m == 4 || m == 6 || m == 9 || m == 11 {
        30
    } else {
        31
    }
}

/// The days from the start of 1970 to a date, if there is such a date.
pub fn calendar_day(y: i64, m: i64, d: i64) -> (r: Option<i64>)
    ensures
        r == if is_date(y as int, m as int, d as int) {
            Some(day_number(y as int, m as int, d as int) as i64)
        } else {
            None::<i64>
        },
        r matches Some(n) ==> -719_528 <= n <= 2_932_896 && n == day_number(
            y as int,
            m as int,
            d as int,
        ),
{
    if y < 0 || y > 9999 || m < 1 || m > 12 || d < 1 || d > length_of_month(y, m) {
        return None;
    }
    let mut days: i64 = 0;
    for i in 1..m
        invariant
            1 <= m <= 12,
            0 <= y <= 9999,
            days == days_before_month(y as int, i as int),
            0 <= days <= 31 * (i - 1),
    {
        days = days + length_of_month(y, i);
    }
    proof {
        lemma_year_days(y as int, m as int);
    }
    Some(365 * y + (y + 3) / 4 - (y + 99) / 100 + (y + 399) / 400 - 719_528 + days + d - 1)
}

/// The days of a year up to the end of a month are at most those of the year.
proof fn lemma_year_days(y: int, m: int)
    requires
        1 <= m <= 12,
    ensures
        days_before_month(y, m) + month_length(y, m) <= if leap(y) {
            366int
        } else {
            365int
        },
        days_before_month(y, m) >= 0,
{
    reveal_with_fuel(days_before_month, 13);
}

// ---------------------------------------------------------------------------
// Named days
// ---------------------------------------------------------------------------
/// What is said of a text that names no day.
pub open spec fn no_date(s: Text) -> Text {
    "invalid date: '"@ + s + "'"@
}

/// The weekday with a name, counted from Monday.
pub open spec fn weekday_named(w: Text) -> Option<int> {
    if w == "monday"@ {
        Some(0)
    } else if w == "tuesday"@ {
        Some(1)
    } else if w == "wednesday"@ {
        Some(2)
    } else if w == "thursday"@ {
        Some(3)
    } else if w == "friday"@ {
        Some(4)
    } else if w == "saturday"@ {
        Some(5)
    } else if w == "sunday"@ {
        Some(6)
    } else {
        None
    }
}

/// How many days ago the last such weekday before a day was.
pub open spec fn days_since(today: int, weekday: int) -> int {
    let n = (today - weekday) % 7;
    if n == 0 {
        7
    } else {
        n
    }
}

/// The number that four or two digits stand for.
pub open spec fn number_at(s: Text, from: int, to: int) -> int {
    digits_value(s.subrange(from, to)) as int
}

/// Whether a text has the form of a date, with digits and hyphens where they belong.
pub open spec fn date_shaped(s: Text) -> bool {
    &&& s.len() == 10
    &&& s[4] == '-'
    &&& s[7] == '-'
    &&& forall|i: int| 0 <= i < 10 && i != 4 && i != 7 ==> is_digit(#[trigger] s[i])
}

/// How many days before or after today a text says that a day is, or which day it names.
pub open spec fn named_day(s: Text, now: Timestamp) -> Option<int> {
    let t = folded(trimmed(s));
    let today = (now.local() - now.local() % DAY) / (DAY as int);
    if t == "today"@ {
        Some(today)
    } else if t == "yesterday"@ {
        Some(today - 1)
    } else if t.len() > 5 && t.take(5) == "last "@ {
        match weekday_named(t.skip(5)) {
            Some(w) => Some(today - days_since(weekday_of(now.local() as int), w)),
            None => None,
        }
    } else if date_shaped(t) && is_date(number_at(t, 0, 4), number_at(t, 5, 7), number_at(t, 8, 10)) {
        Some(day_number(number_at(t, 0, 4), number_at(t, 5, 7), number_at(t, 8, 10)))
    } else {
        None
    }
}

/// The start of the day that a text names, at the offset of the present.
pub open spec fn date_value(s: Text, now: Timestamp) -> Result<Timestamp, Text> {
    match named_day(s, now) {
        Some(n) => if FIRST <= n * DAY <= LAST {
            Ok(Timestamp::at((n * DAY) as i128, now.offset()))
        } else {
            Err(no_date(s))
        },
        None => Err(no_date(s)),
    }
}

fn weekday_by_name(w: &str) -> (r: Option<i64>)
    ensures
        match r {
            Some(n) => weekday_named(w@) == Some(n as int) && 0 <= n <= 6,
            None => weekday_named(w@) is None,
        },
{
    if same_text(w, "monday") {
        Some(0)
    } else if same_text(w, "tuesday") {
        Some(1)
    } else if same_text(w, "wednesday") {
        Some(2)
    } else if same_text(w, "thursday") {
        Some(3)
    } else if same_text(w, "friday") {
        Some(4)
    } else if same_text(w, "saturday") {
        Some(5)
    } else if same_text(w, "sunday") {
        Some(6)
    } else {
        None
    }
}

/// The number that some digits stand for.
fn read_digits(v: &Vec<char>, from: usize, to: usize) -> (r: i64)
    requires
        from < to <= v@.len(),
        to - from <= 4,
        forall|i: int| from <= i < to ==> is_digit(#[trigger] v@[i]),
    ensures
        r == number_at(v@, from as int, to as int),
        0 <= r <= 9999,
{
    let mut n: i64 = 0;
    assert(v@.subrange(from as int, from as int) =~= Seq::<char>::empty());
    let ghost mut top: int = 1;
    for i in from..to
        invariant
            from < to <= v@.len(),
            to - from <= 4,
            forall|i: int| from <= i < to ==> is_digit(#[trigger] v@[i]),
            n == digits_value(v@.subrange(from as int, i as int)),
            0 <= n < top,
            i - from == 0 ==> top == 1,
            i - from == 1 ==> top == 10,
            i - from == 2 ==> top == 100,
            i - from == 3 ==> top == 1000,
            i - from == 4 ==> top == 10000,
    {
        proof {
            assert(v@.subrange(from as int, i + 1).drop_last() =~= v@.subrange(
                from as int,
                i as int,
            ));
            assert(is_digit(v@[i as int]));
            top = top * 10;
        }
        n = n * 10 + ((v[i] as u32) - 48) as i64;
    }
    n
}

/// The day that a text names, counted from the start of 1970.
fn read_day(s: &str, now: Timestamp) -> (r: Option<i64>)
    ensures
        match r {
            Some(n) => named_day(s@, now) == Some(n as int) && -5_000_000 <= n <= 3_000_000,
            None => named_day(s@, now) is None,
        },
{
    let v = fold(trim(s).as_str());
    let t = string_of(&v);
    let (local, _) = start_of_day(now).parts();
    let ghost l = now.local() as int;
    assert(local == l - l % (DAY as int));
    let first: i128 = FIRST;
    let today: i64 = {
        let n: i128 = (local - first) / DAY;
        proof {
            let q = l / (DAY as int);
            assert(local == q * DAY);
            assert(FIRST == -4371587 * DAY);
            assert((q * DAY + 4371587 * DAY) / (DAY as int) == q + 4371587);
            assert((q * DAY) / (DAY as int) == q);
            assert(-4371587 <= q <= 2932896);
        }
        (n - 4_371_587) as i64
    };
    if same_text(t.as_str(), "today") {
        return Some(today);
    }
    if same_text(t.as_str(), "yesterday") {
        return Some(today - 1);
    }
    let n: usize = v.len();
    if n > 5 {
        assert(v@.subrange(0, 5) =~= t@.take(5));
        if same_text(slice_text(&v, 0, 5).as_str(), "last ") {
            assert(v@.subrange(5, n as int) =~= t@.skip(5));
            return match weekday_by_name(slice_text(&v, 5, n).as_str()) {
                Some(w) => {
                    let d: i64 = now.weekday() as i64 - w;
                    let back: i64 = if d > 0 {
                        d
                    } else {
                        d + 7
                    };
                    Some(today - back)
                },
                None => None,
            };
        }
    }
    if n != 10 || v[4] != '-' || v[7] != '-' {
        return None;
    }
    for i in 0..10usize
        invariant
            v@.len() == 10,
            forall|k: int| 0 <= k < i && k != 4 && k != 7 ==> is_digit(#[trigger] v@[k]),
            t@ == v@,
            v@ == folded(trimmed(s@)),
            t@ != "today"@,
            t@ != "yesterday"@,
            t@.take(5) != "last "@,
    {
        if i != 4 && i != 7 && !('0' <= v[i] && v[i] <= '9') {
            assert(!is_digit(t@[i as int]));
            return None;
        }
    }
    calendar_day(read_digits(&v, 0, 4), read_digits(&v, 5, 7), read_digits(&v, 8, 10))
}

/// Reads the name of a day: `today`, `yesterday`, `last` with a weekday, or a date such as
/// `2026-01-15`. The day begins at the offset of the present.
pub fn parse_date(s: &str, now: Timestamp) -> (r: Result<Timestamp, String>)
    ensures
        match r {
            Ok(t) => date_value(s@, now) == Ok::<Timestamp, Text>(t),
            Err(e) => date_value(s@, now) == Err::<Timestamp, Text>(e@),
        },
{
    let (_, offset) = now.parts();
    match read_day(s, now) {
        Some(n) => match Timestamp::new((n as i128) * DAY, offset) {
            Some(t) => {
                proof {
                    t.lemma_parts();
                }
                Ok(t)
            },
            None => Err(cat3("invalid date: '", s, "'")),
        },
        None => Err(cat3("invalid date: '", s, "'")),
    }
}

/// The present day begins where `today` says, and `yesterday` is the day before.
pub proof fn law_today(now: Timestamp)
    requires
        FIRST <= now.local() - now.local() % DAY - DAY,
        now.local() <= LAST,
    ensures
        date_value("today"@, now) == Ok::<Timestamp, Text>(day_start(now)),
        date_value("yesterday"@, now) == Ok::<Timestamp, Text>(days_later(day_start(now), -1)),
{
    Timestamp::lemma_at((now.local() - now.local() % DAY) as i128, now.offset());
    reveal_strlit("today");
    reveal_strlit("yesterday");
    let a = "today"@;
    let b = "yesterday"@;
    assert(trimmed(a) == a);
    assert(trimmed(b) == b);
    assert(folded(a) =~= a);
    assert(folded(b) =~= b);
    assert(a.len() != b.len());
    let l = now.local() as int;
    let q = l / (DAY as int);
    assert(l - l % (DAY as int) == q * DAY);
    assert((q * DAY) / (DAY as int) == q);
    assert((q - 1) * DAY == q * DAY - DAY);
}

/// A date as it is shown names its own day, in the years 0 to 9999.
pub proof fn law_shown_date(t: Timestamp, now: Timestamp)
    requires
        YEAR_ZERO <= t.local() <= LAST,
    ensures
        date_value(date_text(t.local()), now) == Ok::<Timestamp, Text>(
            Timestamp::at((t.local() - t.local() % DAY) as i128, now.offset()),
        ),
{
    let n = t.local() as int / (DAY as int);
    let (y, m, d) = date_of(n);
    assert(YEAR_ZERO == -719_528 * DAY);
    lemma_date_of(n);
    lemma_year_of(t.local() as int, y, m, d);
    lemma_written_date(y, m, d, now);
    assert(n * DAY == t.local() - t.local() % DAY);
}

/// A day begins at midnight, not after any time in it and less than a day before it.
pub proof fn law_day_start(t: Timestamp)
    requires
        FIRST <= t.local() <= LAST,
    ensures
        day_start(t).offset() == t.offset(),
        day_start(t).local() as int % (DAY as int) == 0,
        day_start(t).local() <= t.local() < day_start(t).local() + DAY,
{
    let l = t.local() as int;
    Timestamp::lemma_at((t.local() - t.local() % DAY) as i128, t.offset());
    let q = l / (DAY as int);
    assert(l - l % (DAY as int) == q * DAY);
    assert((q * DAY) % (DAY as int) == 0) by {
        vstd::arithmetic::div_mod::lemma_mod_multiples_basic(q, DAY as int);
    }
}

/// A week begins at midnight on a Monday, not after any time in it and less than seven days before
/// it. The fifth day of 1970 was a Monday.
pub proof fn law_week_start(t: Timestamp)
    requires
        FIRST <= t.local() <= LAST,
    ensures
        week_start(t).offset() == t.offset(),
        week_start(t).local() as int % (DAY as int) == 0,
        (week_start(t).local() as int / (DAY as int) - 4) % 7 == 0,
        week_start(t).local() <= t.local() < week_start(t).local() + 7 * DAY,
{
    let l = t.local() as int;
    let q = l / (DAY as int);
    let w = weekday_of(l);
    law_day_start(t);
    lemma_week_in_range(l);
    assert(l - l % (DAY as int) == q * DAY);
    Timestamp::lemma_at((t.local() - t.local() % DAY) as i128, t.offset());
    Timestamp::lemma_at((q * DAY + -w * DAY) as i128, t.offset());
    assert(q * DAY + -w * DAY == (q - w) * DAY);
    lemma_whole_days(q - w);
    assert((q - w - 4) % 7 == 0);
}

/// A number of days has no part of a day.
proof fn lemma_whole_days(n: int)
    ensures
        (n * DAY) % (DAY as int) == 0,
        (n * DAY) / (DAY as int) == n,
{
    vstd::arithmetic::div_mod::lemma_mod_multiples_basic(n, DAY as int);
}

/// `last` with the name of a weekday is the latest such day before today: one to seven days back. The
/// days are counted from Monday.
pub proof fn law_last_weekday(s: Text, w: Text, k: int, now: Timestamp)
    requires
        FIRST + 7 * DAY <= now.local() - now.local() % DAY,
        now.local() <= LAST,
        folded(trimmed(s)) == "last "@ + w,
        ({
            ||| w == "monday"@ && k == 0
            ||| w == "tuesday"@ && k == 1
            ||| w == "wednesday"@ && k == 2
            ||| w == "thursday"@ && k == 3
            ||| w == "friday"@ && k == 4
            ||| w == "saturday"@ && k == 5
            ||| w == "sunday"@ && k == 6
        }),
    ensures
        match date_value(s, now) {
            Ok(d) => {
                &&& d.offset() == now.offset()
                &&& d.local() as int % (DAY as int) == 0
                &&& (d.local() as int / (DAY as int) - 4) % 7 == k
                &&& d.local() < now.local() - now.local() % DAY
                &&& now.local() - now.local() % DAY <= d.local() + 7 * DAY
            },
            Err(_) => false,
        },
{
    lemma_weekday(w, k);
    lemma_last_word(folded(trimmed(s)), w);
    let l = now.local() as int;
    let q = l / (DAY as int);
    assert(l - l % (DAY as int) == q * DAY);
    lemma_whole_days(q);
    let n = days_since(weekday_of(l), k);
    assert(named_day(s, now) == Some(q - n));
    lemma_whole_days(q - n);
    assert((q - n) * DAY == q * DAY - n * DAY);
    assert(1 <= n <= 7);
    assert(DAY <= n * DAY <= 7 * DAY);
    Timestamp::lemma_at(((q - n) * DAY) as i128, now.offset());
    assert((q - n - 4) % 7 == k);
}

proof fn lemma_last_word(t: Text, w: Text)
    requires
        t == "last "@ + w,
        w.len() > 0,
    ensures
        t.len() > 5,
        t.take(5) == "last "@,
        t.skip(5) == w,
        t != "today"@,
        t != "yesterday"@,
{
    reveal_strlit("last ");
    reveal_strlit("today");
    reveal_strlit("yesterday");
    assert(t[0] == 'l');
    assert(t.take(5) =~= "last "@);
    assert(t.skip(5) =~= w);
    assert("today"@[0] == 't');
    assert("yesterday"@[0] == 'y');
}

proof fn lemma_weekday(w: Text, k: int)
    requires
        ({
            ||| w == "monday"@ && k == 0
            ||| w == "tuesday"@ && k == 1
            ||| w == "wednesday"@ && k == 2
            ||| w == "thursday"@ && k == 3
            ||| w == "friday"@ && k == 4
            ||| w == "saturday"@ && k == 5
            ||| w == "sunday"@ && k == 6
        }),
    ensures
        weekday_named(w) == Some(k),
        w.len() > 0,
{
    reveal_strlit("monday");
    reveal_strlit("tuesday");
    reveal_strlit("wednesday");
    reveal_strlit("thursday");
    reveal_strlit("friday");
    reveal_strlit("saturday");
    reveal_strlit("sunday");
    assert("monday"@[0] == 'm' && "friday"@[0] == 'f' && "sunday"@[0] == 's');
    assert("thursday"@[0] == 't' && "saturday"@[0] == 's');
    assert("monday"@.len() == 6 && "friday"@.len() == 6 && "sunday"@.len() == 6);
    assert("tuesday"@.len() == 7 && "wednesday"@.len() == 9);
    assert("thursday"@.len() == 8 && "saturday"@.len() == 8);
}

/// Days are counted along the calendar: 1970 begins with day 0, each day of a month follows the one
/// before, a month follows the last day of the month before, and a year the 31st of December.
pub proof fn law_calendar(y: int, m: int, d: int)
    requires
        1 <= m <= 12,
    ensures
        day_number(1970, 1, 1) == 0,
        day_number(y, m, d + 1) == day_number(y, m, d) + 1,
        m < 12 ==> day_number(y, m + 1, 1) == day_number(y, m, 1) + if m == 2 {
            if y % 4 == 0 && (y % 100 != 0 || y % 400 == 0) {
                29int
            } else {
                28int
            }
        } else if m == 4 || m == 6 || m == 9 || m == 11 {
            30int
        } else {
            31int
        },
        day_number(y + 1, 1, 1) == day_number(y, 12, 31) + 1,
{
    law_year_length(y);
    reveal_with_fuel(days_before_month, 13);
}

/// A date as `YYYY-MM-DD` is the start of its day, at the offset of the present time.
pub proof fn law_written_date(y: int, m: int, d: int, now: Timestamp)
    requires
        0 <= y <= 9999,
        1 <= m <= 12,
        1 <= d <= month_length(y, m),
    ensures
        match date_value(written_date(y, m, d), now) {
            Ok(t) => t.local() == day_number(y, m, d) * DAY && t.offset() == now.offset(),
            Err(_) => false,
        },
{
    lemma_written_date(y, m, d, now);
    lemma_day_range(y, m, d);
    Timestamp::lemma_at((day_number(y, m, d) * DAY) as i128, now.offset());
}

/// A date as it is written names its own day.
proof fn lemma_written_date(y: int, m: int, d: int, now: Timestamp)
    requires
        is_date(y, m, d),
    ensures
        date_value(written_date(y, m, d), now) == Ok::<Timestamp, Text>(
            Timestamp::at((day_number(y, m, d) * DAY) as i128, now.offset()),
        ),
{
    let s = written_date(y, m, d);
    lemma_two_digits(y / 100);
    lemma_two_digits(y % 100);
    lemma_two_digits(m);
    lemma_two_digits(d);
    assert(s.len() == 10);
    assert(s[0] == two_digits(y / 100)[0]);
    assert(s[9] == two_digits(d)[1]);
    assert(trimmed(s) == s);
    assert forall|i: int| 0 <= i < 10 && i != 4 && i != 7 implies is_digit(#[trigger] s[i]) by {
        if i < 2 {
            assert(s[i] == two_digits(y / 100)[i]);
        } else if i < 4 {
            assert(s[i] == two_digits(y % 100)[i - 2]);
        } else if i < 7 {
            assert(s[i] == two_digits(m)[i - 5]);
        } else {
            assert(s[i] == two_digits(d)[i - 8]);
        }
    }
    assert(folded(s) =~= s);
    reveal_strlit("today");
    reveal_strlit("yesterday");
    reveal_strlit("last ");
    assert(s.take(5)[0] == s[0]);
    assert("last "@[0] == 'l');
    assert(s.subrange(0, 4) =~= two_digits(y / 100) + two_digits(y % 100));
    assert(s.subrange(5, 7) =~= two_digits(m));
    assert(s.subrange(8, 10) =~= two_digits(d));
    let year = s.subrange(0, 4);
    reveal_with_fuel(digits_value, 5);
    assert(year.drop_last().drop_last() =~= two_digits(y / 100));
    lemma_day_range(y, m, d);
}

/// Two digits stand for their number.
pub proof fn lemma_two_digits(n: int)
    requires
        0 <= n <= 99,
    ensures
        is_digit(two_digits(n)[0]),
        is_digit(two_digits(n)[1]),
        digits_value(two_digits(n)) == n,
{
    let s = two_digits(n);
    reveal_with_fuel(digits_value, 3);
    assert(s.drop_last().drop_last() =~= Seq::<char>::empty());
    assert(s.drop_last().last() == s[0]);
}

/// A date lies in the years 0 to 9999.
proof fn lemma_day_range(y: int, m: int, d: int)
    requires
        is_date(y, m, d),
    ensures
        -719_528 <= day_number(y, m, d) <= 2_932_896,
{
    lemma_year_days(y, m);
}

} // verus!
