//! Points in time: a wall-clock reading with its offset from UTC.
use crate::dates::{
    date_of, day_number, lemma_date_of, lemma_two_digits, lemma_year_bounds, lemma_years_grow,
    on_calendar,
};
use crate::text::{digits_value, opt_text};
use time::format_description::well_known::Rfc3339;
use time::{OffsetDateTime, UtcOffset};
use vstd::prelude::*;
use vstd::utf8::is_ascii_chars;

verus! {

/// Nanoseconds in a second.
pub const SECOND: i128 = 1_000_000_000;

/// Nanoseconds in a day.
pub const DAY: i128 = 86_400_000_000_000;

/// The first wall-clock reading: the start of the year -9999, in nanoseconds from 1970.
pub const FIRST: i128 = -377_705_116_800_000_000_000;

/// The last wall-clock reading: the end of the year 9999, in nanoseconds from 1970.
pub const LAST: i128 = 253_402_300_799_999_999_999;

/// The start of the year 0, in nanoseconds from 1970.
pub const YEAR_ZERO: i128 = -62_167_219_200_000_000_000;

/// The largest offset from UTC, in seconds: 25 hours, 59 minutes and 59 seconds.
pub const MAX_OFFSET: i32 = 93_599;

/// Whether a wall-clock reading and an offset make a point in time.
pub open spec fn in_range(local: int, offset: int) -> bool {
    FIRST <= local <= LAST && -MAX_OFFSET <= offset <= MAX_OFFSET
}

/// Whether a point in time can be written in RFC 3339: a year of four digits, and an offset of
/// whole minutes below a day.
pub open spec fn writable(local: int, offset: int) -> bool {
    YEAR_ZERO <= local <= LAST && -86_400 < offset < 86_400 && offset % 60 == 0
}

/// A duration in nanoseconds as whole seconds, rounded toward zero.
pub open spec fn whole_seconds(nanos: int) -> int {
    if nanos >= 0 {
        nanos / (SECOND as int)
    } else {
        -((-nanos) / (SECOND as int))
    }
}

/// Two decimal digits.
pub open spec fn two_digits(n: int) -> Seq<char> {
    seq![(48 + n / 10) as char, (48 + n % 10) as char]
}

/// The hour and minute of a wall-clock reading, as `HH:MM`.
pub open spec fn clock_face(local: int) -> Seq<char> {
    let minute = (local % (DAY as int)) / (60 * SECOND);
    two_digits(minute / 60) + seq![':'] + two_digits(minute % 60)
}

/// What the clock shows as `HH:MM`: the whole hours since midnight, and the whole minutes since the
/// hour.
pub proof fn law_clock_face(local: int)
    ensures
        ({
            let s = clock_face(local);
            let since = local - (local / (DAY as int)) * DAY;
            &&& s.len() == 5
            &&& s[2] == ':'
            &&& digits_value(s.take(2)) == since / 3_600_000_000_000
            &&& digits_value(s.skip(3)) == (since % 3_600_000_000_000) / 60_000_000_000
        }),
{
    let s = clock_face(local);
    let since = local % (DAY as int);
    let minute = since / 60_000_000_000;
    assert(60 * SECOND == 60_000_000_000);
    assert(since == local - (local / (DAY as int)) * DAY);
    assert(0 <= minute < 1440);
    assert(s.take(2) =~= two_digits(minute / 60));
    assert(s.skip(3) =~= two_digits(minute % 60));
    lemma_two_digits(minute / 60);
    lemma_two_digits(minute % 60);
}

/// A year in four digits, with a sign where it is negative.
pub open spec fn written_year(y: int) -> Seq<char> {
    if y < 0 {
        seq!['-'] + two_digits((-y) / 100) + two_digits((-y) % 100)
    } else {
        two_digits(y / 100) + two_digits(y % 100)
    }
}

/// A date, as `YYYY-MM-DD`.
pub open spec fn written_date(y: int, m: int, d: int) -> Seq<char> {
    written_year(y) + seq!['-'] + two_digits(m) + seq!['-'] + two_digits(d)
}

/// The calendar date of a wall-clock reading, as text.
pub open spec fn date_text(local: i128) -> Seq<char> {
    let p = date_of(local as int / (DAY as int));
    written_date(p.0, p.1, p.2)
}

/// The hour, minute and second of a wall-clock reading, as `HH:MM:SS`.
pub open spec fn time_text(local: int) -> Seq<char> {
    clock_face(local) + seq![':'] + two_digits((local % (DAY as int)) / (SECOND as int) % 60)
}

/// The digits of `n` from that of `unit` on, without the zeros at the end.
pub open spec fn fraction_digits(n: int, unit: int) -> Seq<char>
    decreases unit,
{
    if n <= 0 || unit <= 0 {
        Seq::empty()
    } else {
        seq![(48 + n / unit) as char] + fraction_digits(n % unit, unit / 10)
    }
}

/// The digits of the fraction of a second in a wall-clock reading; none at a whole second.
pub open spec fn fraction_of(local: int) -> Seq<char> {
    fraction_digits(local % (SECOND as int), 100_000_000)
}

/// The fraction of a second as it is written: with a point before it, and left out at a whole second.
pub open spec fn fraction_text(local: int) -> Seq<char> {
    if local % (SECOND as int) == 0 {
        Seq::empty()
    } else {
        seq!['.'] + fraction_of(local)
    }
}

/// An offset from UTC as it is written: `Z` for none, else a sign, the hours and the minutes.
pub open spec fn zone_text(offset: int) -> Seq<char> {
    if offset == 0 {
        seq!['Z']
    } else {
        let size = if offset < 0 {
            -offset
        } else {
            offset
        };
        seq![
            if offset < 0 {
                '-'
            } else {
                '+'
            },
        ] + two_digits(size / 3600) + seq![':'] + two_digits(size / 60 % 60)
    }
}

/// The RFC 3339 text of the point in time with this wall-clock reading and offset.
pub open spec fn rfc3339_text(local: i128, offset: i32) -> Option<Seq<char>> {
    if writable(local as int, offset as int) {
        Some(
            date_text(local) + seq!['T'] + time_text(local as int) + fraction_text(local as int)
                + zone_text(offset as int),
        )
    } else {
        None
    }
}

// ---------------------------------------------------------------------------
// The `time` crate
// ---------------------------------------------------------------------------
/// The wall-clock reading and offset that an RFC 3339 text stands for.
pub uninterp spec fn rfc3339_value(text: Seq<char>) -> Option<(i128, i32)>;

/// `OffsetDateTime::format` with `Rfc3339`, on the point in time with the given wall-clock reading
/// and offset. It fails exactly where the year has not four digits or the offset has seconds or is
/// a day or more. It writes the date, `T`, the time of day with the fraction of a second where there
/// is one, and the offset; what it writes reads back as the same wall-clock reading and offset.
#[verifier::external_body]
fn format_rfc3339(local: i128, offset: i32) -> (r: Option<String>)
    requires
        in_range(local as int, offset as int),
    ensures
        opt_text(r) == rfc3339_text(local, offset),
        r matches Some(s) ==> rfc3339_value(s@) == Some((local, offset)),
{
    let at = OffsetDateTime::from_unix_timestamp_nanos(local).unwrap();
    let at = at.replace_offset(UtcOffset::from_whole_seconds(offset).unwrap());
    at.format(&Rfc3339).ok()
}

/// `OffsetDateTime::parse` with `Rfc3339`: the wall-clock reading and offset that the text stands
/// for, `None` where it is refused. What it accepts can be written again.
#[verifier::external_body]
fn parse_rfc3339(s: &str) -> (r: Option<(i128, i32)>)
    ensures
        r == rfc3339_value(s@),
        r matches Some(p) ==> writable(p.0 as int, p.1 as int),
{
    match OffsetDateTime::parse(s, &Rfc3339) {
        Ok(at) => Some(
            (at.replace_offset(UtcOffset::UTC).unix_timestamp_nanos(), at.offset().whole_seconds()),
        ),
        Err(_) => None,
    }
}

/// `OffsetDateTime::date` and the text of that date: the year, the month and the day of the
/// Gregorian calendar, with hyphens between them.
#[verifier::external_body]
fn format_date(local: i128) -> (r: String)
    requires
        FIRST <= local <= LAST,
    ensures
        r@ == date_text(local),
{
    OffsetDateTime::from_unix_timestamp_nanos(local).unwrap().date().to_string()
}

/// `OffsetDateTime::now_utc`, in nanoseconds from 1970. Only the range is known.
#[verifier::external_body]
fn read_clock() -> (r: i128)
    ensures
        FIRST <= r <= LAST,
{
    OffsetDateTime::now_utc().unix_timestamp_nanos()
}

/// `OffsetDateTime::now_local`, as a wall-clock reading and an offset; `None` where the offset of
/// this machine is not known. Only the ranges are known.
#[verifier::external_body]
fn read_local_clock() -> (r: Option<(i128, i32)>)
    ensures
        r matches Some(p) ==> in_range(p.0 as int, p.1 as int),
{
    match OffsetDateTime::now_local() {
        Ok(at) => Some(
            (at.replace_offset(UtcOffset::UTC).unix_timestamp_nanos(), at.offset().whole_seconds()),
        ),
        Err(_) => None,
    }
}

// ---------------------------------------------------------------------------
// Timestamps
// ---------------------------------------------------------------------------
/// A point in time, written as what a clock at `offset` seconds east of UTC shows.
#[derive(Clone, Copy, PartialEq, Eq, Debug)]
pub struct Timestamp {
    local: i128,
    offset: i32,
}

impl Timestamp {
    #[verifier::type_invariant]
    spec fn inv(self) -> bool {
        in_range(self.local as int, self.offset as int)
    }

    /// What the clock shows, in nanoseconds from the start of 1970.
    pub closed spec fn local(self) -> i128 {
        self.local
    }

    /// Seconds east of UTC.
    pub closed spec fn offset(self) -> i32 {
        self.offset
    }

    /// The point in time itself, in nanoseconds from the start of 1970 in UTC.
    pub open spec fn instant(self) -> int {
        self.local() - self.offset() * SECOND
    }

    /// The RFC 3339 text, empty where there is none.
    pub open spec fn text(self) -> Seq<char> {
        match rfc3339_text(self.local(), self.offset()) {
            Some(s) => s,
            None => Seq::empty(),
        }
    }

    /// The timestamp with this wall-clock reading and offset.
    pub closed spec fn at(local: i128, offset: i32) -> Timestamp {
        Timestamp { local, offset }
    }

    /// A timestamp is its wall-clock reading and its offset.
    pub proof fn lemma_parts(self)
        ensures
            self == Timestamp::at(self.local(), self.offset()),
    {
    }

    /// A timestamp has the wall-clock reading and the offset that it was made of.
    pub proof fn lemma_at(local: i128, offset: i32)
        ensures
            Timestamp::at(local, offset).local() == local,
            Timestamp::at(local, offset).offset() == offset,
    {
    }

    /// A wall-clock reading in nanoseconds with its offset in seconds, where both are in range.
    pub fn new(local: i128, offset: i32) -> (r: Option<Timestamp>)
        ensures
            r is Some <==> in_range(local as int, offset as int),
            r matches Some(t) ==> t.local() == local && t.offset() == offset,
    {
        if FIRST <= local && local <= LAST && -MAX_OFFSET <= offset && offset <= MAX_OFFSET {
            Some(Timestamp { local, offset })
        } else {
            None
        }
    }

    /// A timestamp lies in the supported range.
    pub fn parts(self) -> (r: (i128, i32))
        ensures
            r.0 == self.local(),
            r.1 == self.offset(),
            in_range(self.local() as int, self.offset() as int),
    {
        proof {
            use_type_invariant(self);
        }
        (self.local, self.offset)
    }

    /// Nanoseconds from the start of 1970 in UTC.
    pub fn unix_nanos(self) -> (r: i128)
        ensures
            r == self.instant(),
            in_range(self.local() as int, self.offset() as int),
    {
        let (local, offset) = self.parts();
        local - (offset as i128) * SECOND
    }

    /// The current time in UTC.
    pub fn now_utc() -> (r: Timestamp)
        ensures
            r.offset() == 0,
    {
        Timestamp { local: read_clock(), offset: 0 }
    }

    /// The local time for what the local clock gave: that reading, or the time in UTC where the
    /// local offset is not known.
    pub open spec fn local_or_utc(reading: Option<(i128, i32)>, utc: Timestamp) -> Timestamp {
        match reading {
            Some((local, offset)) => Timestamp::at(local, offset),
            None => utc,
        }
    }

    /// The local time for a wall-clock reading and an offset, if the local clock gave one; else the
    /// given time in UTC.
    pub fn from_local_clock(reading: Option<(i128, i32)>, utc: Timestamp) -> (r: Timestamp)
        requires
            reading matches Some(p) ==> in_range(p.0 as int, p.1 as int),
        ensures
            r == Timestamp::local_or_utc(reading, utc),
    {
        match reading {
            Some((local, offset)) => Timestamp { local, offset },
            None => utc,
        }
    }

    /// The current local time; in UTC where the local offset is not known. What the clocks give is
    /// left open, but for the ranges and that the time to fall back on is in UTC.
    pub fn now_local() -> (r: Timestamp)
        ensures
            exists|reading: Option<(i128, i32)>, utc: Timestamp|
                {
                    &&& r == #[trigger] Timestamp::local_or_utc(reading, utc)
                    &&& reading matches Some(p) ==> in_range(p.0 as int, p.1 as int)
                    &&& reading is None ==> utc.offset() == 0
                },
            in_range(r.local() as int, r.offset() as int),
    {
        let reading = read_local_clock();
        let utc = Timestamp::now_utc();
        let r = Timestamp::from_local_clock(reading, utc);
        proof {
            use_type_invariant(r);
        }
        r
    }

    /// Whole seconds from `earlier` to `self`, negative where `earlier` is the later one.
    pub fn seconds_since(self, earlier: Timestamp) -> (r: i64)
        ensures
            r == whole_seconds(self.instant() - earlier.instant()),
    {
        let a = self.unix_nanos();
        let b = earlier.unix_nanos();
        if a >= b {
            ((a - b) / SECOND) as i64
        } else {
            let n: i128 = (b - a) / SECOND;
            (-n) as i64
        }
    }

    /// Whether `self` is later than `other`.
    pub fn is_after(self, other: Timestamp) -> (r: bool)
        ensures
            r == (self.instant() > other.instant()),
    {
        self.unix_nanos() > other.unix_nanos()
    }

    /// The timestamp `secs` seconds later, at the same offset, where it is in range.
    pub fn plus_seconds(self, secs: i64) -> (r: Option<Timestamp>)
        ensures
            r is Some <==> FIRST <= self.local() + secs * SECOND <= LAST,
            r matches Some(t) ==> t.local() == self.local() + secs * SECOND && t.offset()
                == self.offset(),
    {
        let (local, offset) = self.parts();
        Timestamp::new(local + (secs as i128) * SECOND, offset)
    }

    /// The timestamp `secs` seconds earlier, at the same offset, where it is in range.
    pub fn minus_seconds(self, secs: i64) -> (r: Option<Timestamp>)
        ensures
            r is Some <==> FIRST <= self.local() - secs * SECOND <= LAST,
            r matches Some(t) ==> t.local() == self.local() - secs * SECOND && t.offset()
                == self.offset(),
    {
        let (local, offset) = self.parts();
        Timestamp::new(local - (secs as i128) * SECOND, offset)
    }

    /// The start of the calendar day, at the same offset.
    pub fn midnight(self) -> (r: Timestamp)
        ensures
            r.local() == self.local() - self.local() % DAY,
            r.offset() == self.offset(),
    {
        let (local, offset) = self.parts();
        let since: i128 = day_part(local);
        Timestamp { local: local - since, offset }
    }

    /// The day of the week, counted from Monday.
    pub fn weekday(self) -> (r: u8)
        ensures
            r == weekday_of(self.local() as int),
            r < 7,
    {
        let (local, _) = self.parts();
        let midnight: i128 = local - day_part(local);
        let first: i128 = FIRST;
        let days: i128 = (midnight - first) / DAY;
        // The first supported day is a Monday.
        proof {
            lemma_weekday(local as int);
        }
        (days % 7) as u8
    }

    /// The RFC 3339 text, empty where the timestamp cannot be written so.
    pub fn rfc3339(self) -> (r: String)
        ensures
            r@ == self.text(),
            writable(self.local() as int, self.offset() as int) ==> stamp_of(r@) == Some(self),
            !writable(self.local() as int, self.offset() as int) ==> r@.len() == 0,
    {
        let (local, offset) = self.parts();
        match format_rfc3339(local, offset) {
            Some(s) => s,
            None => String::new(),
        }
    }

    /// Reads an RFC 3339 text.
    pub fn parse(s: &str) -> (r: Option<Timestamp>)
        ensures
            r == stamp_of(s@),
            r matches Some(t) ==> rfc3339_value(s@) == Some((t.local(), t.offset())),
            r matches Some(t) ==> writable(t.local() as int, t.offset() as int),
    {
        match parse_rfc3339(s) {
            Some((local, offset)) => Some(Timestamp { local, offset }),
            None => None,
        }
    }

    /// The hour and minute as `HH:MM`; question marks where the timestamp cannot be written in
    /// RFC 3339.
    pub fn hour_minute(self) -> (r: String)
        ensures
            r@ == if writable(self.local() as int, self.offset() as int) {
                clock_face(self.local() as int)
            } else {
                "??:??"@
            },
    {
        let (local, offset) = self.parts();
        match format_rfc3339(local, offset) {
            Some(s) => {
                proof {
                    lemma_rfc3339_text(local, offset);
                }
                s.as_str().substring_ascii(11, 16).to_owned()
            },
            None => "??:??".to_owned(),
        }
    }

    /// The calendar date, as text.
    pub fn date(self) -> (r: String)
        ensures
            r@ == date_text(self.local()),
    {
        let (local, _) = self.parts();
        format_date(local)
    }
}

/// The timestamp that an RFC 3339 text stands for.
pub open spec fn stamp_of(text: Seq<char>) -> Option<Timestamp> {
    match rfc3339_value(text) {
        Some((local, offset)) => Some(Timestamp::at(local, offset)),
        None => None,
    }
}

/// Two digits are ASCII.
proof fn lemma_ascii_digits(n: int)
    requires
        0 <= n <= 99,
    ensures
        is_ascii_chars(two_digits(n)),
{
}

/// The value of a decimal place of a fraction of a second, in nanoseconds; zero behind the last one.
pub open spec fn is_unit(n: int) -> bool {
    ||| n == 0
    ||| n == 1
    ||| n == 10
    ||| n == 100
    ||| n == 1_000
    ||| n == 10_000
    ||| n == 100_000
    ||| n == 1_000_000
    ||| n == 10_000_000
    ||| n == 100_000_000
}

/// One digit of a fraction: what it is, and what is left behind it.
pub proof fn lemma_digit(n: int, unit: int)
    requires
        is_unit(unit),
        unit > 0,
        0 <= n < 10 * unit,
    ensures
        0 <= n / unit <= 9,
        0 <= n % unit < unit,
        n == unit * (n / unit) + n % unit,
        is_unit(unit / 10),
        n % unit < 10 * (unit / 10) || n % unit == 0,
{
    vstd::arithmetic::div_mod::lemma_fundamental_div_mod(n, unit);
    assert(0 <= n / unit <= 9 && 0 <= n % unit < unit) by (nonlinear_arith)
        requires
            0 <= n < 10 * unit,
            unit > 0,
    ;
}

/// The digits of a fraction are ASCII.
proof fn lemma_ascii_fraction(n: int, unit: int)
    requires
        is_unit(unit),
        0 <= n,
        n < 10 * unit || n == 0,
    ensures
        is_ascii_chars(fraction_digits(n, unit)),
    decreases unit,
{
    if n > 0 && unit > 0 {
        lemma_digit(n, unit);
        lemma_ascii_fraction(n % unit, unit / 10);
    }
}

/// What is written in RFC 3339 is ASCII, and the hour and minute stand behind the date and the `T`.
proof fn lemma_rfc3339_text(local: i128, offset: i32)
    requires
        writable(local as int, offset as int),
    ensures
        ({
            let s = rfc3339_text(local, offset).unwrap();
            is_ascii_chars(s) && s.len() >= 20 && s.subrange(11, 16) == clock_face(local as int)
        }),
{
    let l = local as int;
    let o = offset as int;
    let p = date_of(l / (DAY as int));
    lemma_date_of(l / (DAY as int));
    let (y, m, d) = p;
    lemma_year_of(l, y, m, d);
    lemma_ascii_digits(y / 100);
    lemma_ascii_digits(y % 100);
    lemma_ascii_digits(m);
    lemma_ascii_digits(d);
    let minute = (l % (DAY as int)) / (60 * SECOND);
    lemma_ascii_digits(minute / 60);
    lemma_ascii_digits(minute % 60);
    lemma_ascii_digits((l % (DAY as int)) / (SECOND as int) % 60);
    lemma_ascii_fraction(l % (SECOND as int), 100_000_000);
    let size = if o < 0 {
        -o
    } else {
        o
    };
    lemma_ascii_digits(size / 3600);
    lemma_ascii_digits(size / 60 % 60);
    assert(date_text(local).len() == 10);
    assert(is_ascii_chars(date_text(local)));
    assert(is_ascii_chars(time_text(l)));
    assert(is_ascii_chars(fraction_text(l)));
    assert(is_ascii_chars(zone_text(o)));
    let s = rfc3339_text(local, offset).unwrap();
    assert(s.subrange(11, 16) =~= clock_face(l));
}

/// A wall-clock reading that can be written lies in a year of four digits.
pub proof fn lemma_year_of(local: int, y: int, m: int, d: int)
    requires
        YEAR_ZERO <= local <= LAST,
        on_calendar(y, m, d),
        day_number(y, m, d) == local / (DAY as int),
    ensures
        0 <= y <= 9999,
{
    assert(YEAR_ZERO == -719_528 * DAY);
    assert(local / (DAY as int) >= -719_528);
    if y < 0 {
        lemma_year_bounds(y, m, d);
        lemma_years_grow(y + 1, 0);
    }
}

/// The day of the week of a wall-clock reading, counted from Monday; 1970 began on a Thursday.
pub open spec fn weekday_of(local: int) -> int {
    (local / (DAY as int) + 3) % 7
}

/// Nanoseconds since the start of the calendar day.
fn day_part(local: i128) -> (r: i128)
    requires
        FIRST <= local <= LAST,
    ensures
        r == local % DAY,
        0 <= r < DAY,
        FIRST <= local - r,
{
    let first: i128 = FIRST;
    let r: i128 = (local - first) % DAY;
    assert(r == local % DAY) by {
        assert(FIRST == -4371587 * DAY);
        assert((local + 4371587 * 86_400_000_000_000) % 86_400_000_000_000 == (local as int)
            % 86_400_000_000_000);
    }
    r
}

proof fn lemma_weekday(local: int)
    requires
        FIRST <= local <= LAST,
    ensures
        ((local - local % (DAY as int) - FIRST) / (DAY as int)) % 7 == weekday_of(local),
{
    let q = local / (DAY as int);
    assert(local - local % (DAY as int) == q * DAY);
    assert(FIRST == -4371587 * DAY);
    assert((q * DAY + 4371587 * DAY) / (DAY as int) == q + 4371587);
    assert(4371587int % 7 == 3);
    assert((q + 4371587) % 7 == (q + 3) % 7);
}

} // verus!
