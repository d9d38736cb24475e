//! What the panels of the dashboard show.
use crate::cli::{elapsed, seconds_of, seconds_or_zero};
use crate::clock::{clock_face, writable, Timestamp};
use crate::dashboard::{shown, timeline_length, App, AppView, TimelineView, TotalView};
use crate::duration::{format_duration_human, human};
use crate::models::{EntrySource, EntryView, Text, TimeEntry};
use crate::rows::views;
use crate::service::{Pair, PairView};
use crate::text::{
    cat3, decimal, decimal_text, left_aligned, opt_text, pad_left, pad_right, repeat_char, repeated,
    right_aligned, texts,
};
use crate::overviews::{made_of, shows, spent};
use crate::prompts::has_seconds;
use vstd::prelude::*;

verus! {

// ---------------------------------------------------------------------------
// Header, error bar and layout
// ---------------------------------------------------------------------------
/// The header: what is tracked and for how long.
pub open spec fn header(a: AppView, now: Timestamp) -> Text {
    match a.running_timer {
        Some((e, p)) => "  Tracking: "@ + p.name + "  ["@ + human(elapsed(e.start, now)) + "]"@,
        None => "  Idle — no timer running"@,
    }
}

/// The text of the header.
pub fn header_text(app: &App, now: Timestamp) -> (r: String)
    ensures
        r@ == header(app@, now),
{
    match &app.running_timer {
        Some((entry, project)) => {
            let secs: i64 = now.seconds_since(entry.start);
            let mut s = cat3("  Tracking: ", project.name.as_str(), "  [");
            s.append(format_duration_human(secs).as_str());
            s.append("]");
            s
        },
        None => "  Idle — no timer running".to_owned(),
    }
}

/// The error bar, where something could not be loaded.
pub open spec fn error_bar(a: AppView) -> Option<Text> {
    match a.error_message {
        Some(m) => Some("  ⚠ DB error: "@ + m),
        None => None,
    }
}

/// The text of the error bar, where there is one.
pub fn error_bar_text(app: &App) -> (r: Option<String>)
    ensures
        opt_text(r) == error_bar(app@),
{
    match &app.error_message {
        Some(m) => {
            let mut s = "  ⚠ DB error: ".to_owned();
            s.append(m.as_str());
            Some(s)
        },
        None => None,
    }
}

/// How many rows the error bar takes.
pub fn error_rows(app: &App) -> (r: u16)
    ensures
        r == if error_bar(app@) is Some {
            1u16
        } else {
            0u16
        },
{
    if app.error_message.is_some() {
        1
    } else {
        0
    }
}

// ---------------------------------------------------------------------------
// Today
// ---------------------------------------------------------------------------
/// How a line is shown.
#[derive(Clone, Copy, PartialEq, Eq, Structural, Debug)]
pub enum LineStyle {
    /// A running timer.
    Running,
    /// Every other line, from the first on.
    Plain,
    /// The lines between them.
    Muted,
}

/// A line of the panel of today.
#[derive(PartialEq, Eq, Debug)]
pub struct TodayLine<S = String> {
    pub text: S,
    pub style: LineStyle,
}

/// A line in contracts.
pub type TodayLineView = TodayLine<Text>;

impl View for TodayLine {
    type V = TodayLineView;

    open spec fn view(&self) -> TodayLineView {
        TodayLine { text: self.text@, style: self.style }
    }
}

/// The length of an entry: up to now and with a mark where it runs.
pub open spec fn shown_length(e: EntryView, now: Timestamp) -> Text {
    if e.end is None {
        human(elapsed(e.start, now)) + " *"@
    } else {
        human(seconds_or_zero(e))
    }
}

/// The hour and minute of a point in time; question marks where it cannot be written.
pub open spec fn hour_minute(t: Timestamp) -> Text {
    if writable(t.local() as int, t.offset() as int) {
        clock_face(t.local() as int)
    } else {
        "??:??"@
    }
}

/// What an entry came from, as it is shown.
pub open spec fn shown_source(s: EntrySource) -> Text {
    match s {
        EntrySource::Hook => "auto"@,
        other => other.word(),
    }
}

/// The text of a line of today: start, project, length, source and notes.
pub open spec fn today_text(pair: PairView, now: Timestamp) -> Text {
    let (e, p) = pair;
    " "@ + hour_minute(e.start) + "  "@ + left_aligned(p.name, 14) + " "@ + right_aligned(
        shown_length(e, now),
        8,
    ) + "  "@ + left_aligned(shown_source(e.source), 6) + " "@ + match e.notes {
        Some(n) => n,
        None => ""@,
    }
}

/// A line of today at a position of the panel.
pub open spec fn today_line(pair: PairView, i: int, now: Timestamp) -> TodayLineView {
    TodayLine {
        text: today_text(pair, now),
        style: if pair.0.end is None {
            LineStyle::Running
        } else if i % 2 == 0 {
            LineStyle::Plain
        } else {
            LineStyle::Muted
        },
    }
}

/// How many items are left behind a scroll offset.
pub open spec fn behind(len: nat, scroll: usize) -> nat {
    if scroll < len {
        (len - scroll) as nat
    } else {
        0
    }
}

/// The lines of today, from the scroll offset on.
pub open spec fn today_panel(a: AppView, now: Timestamp) -> Seq<TodayLineView> {
    Seq::new(
        behind(a.today_entries.len(), a.today_scroll),
        |i: int| today_line(a.today_entries[a.today_scroll + i], i, now),
    )
}

fn length_text(e: &TimeEntry, now: Timestamp) -> (r: String)
    ensures
        r@ == shown_length(e@, now),
{
    if e.is_running() {
        let mut s = format_duration_human(now.seconds_since(e.start));
        s.append(" *");
        s
    } else {
        format_duration_human(seconds_of(e))
    }
}

fn line_of_today(pair: &Pair, i: usize, now: Timestamp) -> (r: TodayLine)
    ensures
        r@ == today_line(pair@, i as int, now),
{
    let e = &pair.0;
    let source = match e.source {
        EntrySource::Hook => "auto",
        other => other.as_str(),
    };
    let mut text = cat3(" ", e.start.hour_minute().as_str(), "  ");
    text.append(pad_right(pair.1.name.as_str(), 14).as_str());
    text.append(" ");
    text.append(pad_left(length_text(e, now).as_str(), 8).as_str());
    text.append("  ");
    text.append(pad_right(source, 6).as_str());
    text.append(" ");
    match &e.notes {
        Some(n) => text.append(n.as_str()),
        None => text.append(""),
    }
    let style = if e.is_running() {
        LineStyle::Running
    } else if i % 2 == 0 {
        LineStyle::Plain
    } else {
        LineStyle::Muted
    };
    TodayLine { text, style }
}

/// The lines of today, from the scroll offset on.
pub fn today_lines(app: &App, now: Timestamp) -> (r: Vec<TodayLine>)
    ensures
        views(r@) == today_panel(app@, now),
{
    let ghost s = app@.today_entries;
    let from: usize = app.today_scroll;
    let len: usize = app.today_entries.len();
    let n: usize = if from < len {
        len - from
    } else {
        0
    };
    let mut r: Vec<TodayLine> = Vec::new();
    for i in 0..n
        invariant
            s == views(app.today_entries@),
            len == app.today_entries@.len(),
            n == behind(len as nat, from),
            r@.len() == i,
            forall|k: int| 0 <= k < i ==> (#[trigger] r@[k])@ == today_line(s[from + k], k, now),
    {
        r.push(line_of_today(&app.today_entries[from + i], i, now));
    }
    assert(views(r@) =~= today_panel(app@, now));
    r
}

/// The title of the panel of today.
pub open spec fn today_heading(a: AppView) -> Text {
    " Today ("@ + decimal(a.today_entries.len()) + ") "@
}

/// The title of the panel of today.
pub fn today_title(app: &App) -> (r: String)
    ensures
        r@ == today_heading(app@),
{
    let n: usize = app.today_entries.len();
    cat3(" Today (", decimal_text(n as u128).as_str(), ") ")
}

// ---------------------------------------------------------------------------
// Timeline
// ---------------------------------------------------------------------------
/// A line of the timeline: when the entry began and ended, and its project.
pub open spec fn timeline_line(pair: PairView) -> Text {
    let (e, p) = pair;
    " "@ + hour_minute(e.start) + " - "@ + match e.end {
        Some(t) => hour_minute(t),
        None => "now"@,
    } + "  "@ + p.name
}

/// The lines of the timeline, from the first entry of the day on.
pub open spec fn timeline_panel(a: AppView) -> Seq<Text> {
    let s = shown(a);
    if s.len() == 0 {
        seq![" No entries"@]
    } else {
        Seq::new(s.len(), |i: int| timeline_line(s[s.len() - 1 - i]))
    }
}

fn line_of_timeline(pair: &Pair) -> (r: String)
    ensures
        r@ == timeline_line(pair@),
{
    let e = &pair.0;
    let mut s = cat3(" ", e.start.hour_minute().as_str(), " - ");
    match e.end {
        Some(t) => s.append(t.hour_minute().as_str()),
        None => s.append("now"),
    }
    s.append("  ");
    s.append(pair.1.name.as_str());
    s
}

/// The lines of the timeline; there are as many as the scroll offset is bounded by.
pub fn timeline_lines(app: &App) -> (r: Vec<String>)
    ensures
        texts(r@) == timeline_panel(app@),
        r@.len() == timeline_length(shown(app@)),
{
    let entries = app.timeline_entries();
    let ghost s = shown(app@);
    let n: usize = entries.len();
    let mut r: Vec<String> = Vec::new();
    if n == 0 {
        r.push(" No entries".to_owned());
        assert(texts(r@) =~= seq![" No entries"@]);
        return r;
    }
    for i in 0..n
        invariant
            s == views(entries@),
            n == entries@.len(),
            r@.len() == i,
            forall|k: int| 0 <= k < i ==> (#[trigger] r@[k])@ == timeline_line(s[n - 1 - k]),
    {
        r.push(line_of_timeline(&entries[n - 1 - i]));
    }
    assert(texts(r@) =~= timeline_panel(app@));
    r
}

/// The title of the timeline.
pub fn timeline_title(app: &App) -> (r: &'static str)
    ensures
        r@ == match app@.timeline_view {
            TimelineView::Today => " Timeline (today) "@,
            TimelineView::Yesterday => " Timeline (yesterday) "@,
        },
{
    match app.timeline_view {
        TimelineView::Today => " Timeline (today) ",
        TimelineView::Yesterday => " Timeline (yesterday) ",
    }
}

// ---------------------------------------------------------------------------
// Week
// ---------------------------------------------------------------------------
/// A row of the panel of the week: project, bar and time.
#[derive(PartialEq, Eq, Debug)]
pub struct WeekRow<S = String> {
    pub name: S,
    pub bar: S,
    pub time: S,
}

/// A row in contracts.
pub type WeekRowView = WeekRow<Text>;

impl View for WeekRow {
    type V = WeekRowView;

    open spec fn view(&self) -> WeekRowView {
        WeekRow { name: self.name@, bar: self.bar@, time: self.time@ }
    }
}

/// The most seconds of some totals; one where there are none.
pub open spec fn most_seconds(s: Seq<TotalView>) -> int
    decreases s.len(),
{
    if s.len() == 0 {
        1
    } else if s.len() == 1 {
        s[0].1 as int
    } else {
        let m = most_seconds(s.drop_last());
        if s.last().1 > m {
            s.last().1 as int
        } else {
            m
        }
    }
}

/// The room for bars in a panel of a given width.
pub open spec fn bar_room(width: u16) -> nat {
    if width > 30 {
        (width - 30) as nat
    } else {
        0
    }
}

/// The length of a bar: its share of the room, and at least one. Time below zero has no share.
pub open spec fn bar_length(secs: i64, most: int, room: nat) -> nat {
    let n = if most > 0 && secs > 0 {
        (secs * room) / most
    } else {
        0
    };
    if n > 1 {
        n as nat
    } else {
        1
    }
}

/// A row of the week.
pub open spec fn week_row(t: TotalView, most: int, room: nat) -> WeekRowView {
    WeekRow {
        name: " "@ + t.0,
        bar: repeated('\u{2588}', bar_length(t.1, most, room)),
        time: human(t.1 as int),
    }
}

/// The rows of the week, from the scroll offset on.
pub open spec fn week_panel(a: AppView, width: u16) -> Seq<WeekRowView> {
    Seq::new(
        behind(a.week_totals.len(), a.week_scroll),
        |i: int|
            week_row(
                a.week_totals[a.week_scroll + i],
                most_seconds(a.week_totals),
                bar_room(width),
            ),
    )
}

fn most_of(v: &Vec<(String, i64)>) -> (r: i64)
    ensures
        r == most_seconds(views(v@)),
{
    let ghost s = views(v@);
    if v.len() == 0 {
        return 1;
    }
    let mut most: i64 = v[0].1;
    assert(s.take(1)[0] == v@[0]@);
    for i in 1..v.len()
        invariant
            s == views(v@),
            v@.len() > 0,
            most == most_seconds(s.take(i as int)),
    {
        proof {
            assert(s.take(i + 1).drop_last() =~= s.take(i as int));
            assert(s.take(i + 1).last() == v@[i as int]@);
        }
        if v[i].1 > most {
            most = v[i].1;
        }
    }
    assert(s.take(v@.len() as int) =~= s);
    most
}

proof fn lemma_share(secs: int, most: int, room: int)
    requires
        0 < secs <= most,
        0 <= room,
    ensures
        0 <= secs * room <= most * room,
        0 <= (secs * room) / most <= room,
{
    assert(0 <= secs * room <= most * room) by (nonlinear_arith)
        requires
            0 < secs <= most,
            0 <= room,
    ;
    assert(0 <= (secs * room) / most <= room) by (nonlinear_arith)
        requires
            0 <= secs * room <= most * room,
            0 < most,
            0 <= room,
    ;
}

/// The length of a bar.
fn length_of_bar(secs: i64, most: i64, room: usize) -> (r: usize)
    requires
        secs <= most,
        room <= 0xffff,
    ensures
        r == bar_length(secs, most as int, room as nat),
{
    if most > 0 && secs > 0 {
        proof {
            lemma_share(secs as int, most as int, room as int);
            assert(most * room <= 0x7fff_ffff_ffff_ffff * 0xffff) by (nonlinear_arith)
                requires
                    0 < most <= 0x7fff_ffff_ffff_ffff,
                    0 <= room <= 0xffff,
            ;
        }
        let n: u128 = ((secs as u128) * (room as u128)) / (most as u128);
        if n > 1 {
            n as usize
        } else {
            1
        }
    } else {
        1
    }
}

/// No total is more than the most.
proof fn lemma_most(s: Seq<TotalView>, i: int)
    requires
        0 <= i < s.len(),
    ensures
        s[i].1 <= most_seconds(s),
    decreases s.len(),
{
    if s.len() > 1 && i < s.len() - 1 {
        lemma_most(s.drop_last(), i);
        assert(s.drop_last()[i] == s[i]);
    }
}

/// The rows of the week for a panel of a given width, from the scroll offset on.
pub fn week_rows(app: &App, width: u16) -> (r: Vec<WeekRow>)
    ensures
        views(r@) == week_panel(app@, width),
{
    let ghost s = app@.week_totals;
    let most: i64 = most_of(&app.week_totals);
    let room: usize = if width > 30 {
        (width - 30) as usize
    } else {
        0
    };
    let from: usize = app.week_scroll;
    let len: usize = app.week_totals.len();
    let n: usize = if from < len {
        len - from
    } else {
        0
    };
    let mut r: Vec<WeekRow> = Vec::new();
    for i in 0..n
        invariant
            s == views(app.week_totals@),
            len == app.week_totals@.len(),
            n == behind(len as nat, from),
            most == most_seconds(s),
            room == bar_room(width),
            room <= 0xffff,
            r@.len() == i,
            forall|k: int|
                0 <= k < i ==> (#[trigger] r@[k])@ == week_row(
                    s[from + k],
                    most as int,
                    room as nat,
                ),
    {
        let t = &app.week_totals[from + i];
        proof {
            lemma_most(s, from + i);
            assert(s[from + i] == t@);
        }
        let mut name = " ".to_owned();
        name.append(t.0.as_str());
        let bar = repeat_char('\u{2588}', length_of_bar(t.1, most, room));
        let time = format_duration_human(t.1);
        r.push(WeekRow { name, bar, time });
    }
    assert(views(r@) =~= week_panel(app@, width));
    r
}

/// Every bar has at least one block and fits in the room where there is any; a project with the most
/// time fills it, and more time makes no shorter bar. A bar of more than one block has as many as the
/// whole part of its share.
pub proof fn law_bars(a: i64, b: i64, most: int, room: nat)
    requires
        a <= b <= most,
        most > 0,
    ensures
        bar_length(a, most, room) >= 1,
        room > 0 ==> bar_length(a, most, room) <= room,
        room > 0 ==> bar_length(most as i64, most, room) == room || most > i64::MAX,
        bar_length(a, most, room) <= bar_length(b, most, room),
        a > 0 && a * room >= most ==> bar_length(a, most, room) * most <= a * room < (bar_length(
            a,
            most,
            room,
        ) + 1) * most,
{
    if a > 0 && a * room >= most {
        lemma_part(a * room, most);
    }
    if a > 0 {
        lemma_share(a as int, most, room as int);
        assert(a * room <= b * room) by (nonlinear_arith)
            requires
                0 < a <= b,
                0 <= room,
        ;
        vstd::arithmetic::div_mod::lemma_div_is_ordered(a * room, b * room, most);
    }
    vstd::arithmetic::div_mod::lemma_div_multiples_vanish(room as int, most);
    assert(most * room == room * most) by (nonlinear_arith);
}

/// A whole part lies next below what it is a part of.
proof fn lemma_part(n: int, d: int)
    requires
        0 < d <= n,
    ensures
        n / d >= 1,
        (n / d) * d <= n < (n / d + 1) * d,
{
    vstd::arithmetic::div_mod::lemma_fundamental_div_mod(n, d);
    let q = n / d;
    assert(q >= 1) by {
        vstd::arithmetic::div_mod::lemma_div_is_ordered(d, n, d);
        vstd::arithmetic::div_mod::lemma_div_by_self(d);
    }
    assert(d * q == q * d) by (nonlinear_arith);
    assert((q + 1) * d == q * d + d) by (nonlinear_arith);
}

/// The panel of today has a line for every entry from the scroll offset on: with its start, its project
/// and its time, which is that up to now while it runs; only lines of running entries are marked so.
pub proof fn law_today_panel(a: AppView, now: Timestamp, i: int, run: int)
    requires
        a.today_scroll <= a.today_entries.len(),
        0 <= i < a.today_entries.len() - a.today_scroll,
        has_seconds(now.instant() - a.today_entries[a.today_scroll + i].0.start.instant(), run),
    ensures
        ({
            let (e, p) = a.today_entries[a.today_scroll + i];
            let v = today_panel(a, now);
            &&& v.len() == a.today_entries.len() - a.today_scroll
            &&& v[i].style == LineStyle::Running <==> e.end is None
            &&& shows(
                v[i].text,
                hour_minute(e.start),
                p.name,
                if e.end is None {
                    human(run)
                } else {
                    human(spent(e))
                },
            )
        }),
{
    let (e, p) = a.today_entries[a.today_scroll + i];
    let v = today_panel(a, now);
    assert(v[i] == today_line((e, p), i, now));
    assert(elapsed(e.start, now) == run);
    assert(seconds_or_zero(e) == spent(e));
    let face = hour_minute(e.start);
    let length = shown_length(e, now);
    let time = if e.end is None {
        human(run)
    } else {
        human(spent(e))
    };
    let mark = if e.end is None {
        " *"@
    } else {
        Seq::empty()
    };
    let name_gap = left_aligned(p.name, 14).skip(p.name.len() as int);
    let time_gap = right_aligned(length, 8).take(right_aligned(length, 8).len() - length.len());
    let rest = "  "@ + left_aligned(shown_source(e.source), 6) + " "@ + match e.notes {
        Some(n) => n,
        None => ""@,
    };
    assert(left_aligned(p.name, 14) =~= p.name + name_gap);
    assert(length =~= time + mark);
    assert(right_aligned(length, 8) =~= time_gap + time + mark);
    let front = " "@ + face + "  "@ + left_aligned(p.name, 14) + " "@;
    assert(front =~= " "@ + face + "  "@ + p.name + (name_gap + " "@));
    lemma_today_text(
        " "@ + face + "  "@ + p.name,
        name_gap + " "@,
        time_gap,
        time,
        mark,
        "  "@,
        left_aligned(shown_source(e.source), 6),
        " "@,
        match e.notes {
            Some(n) => n,
            None => ""@,
        },
    );
    assert(made_of(
        v[i].text,
        face,
        p.name,
        time,
        (" "@, "  "@, name_gap + " "@ + time_gap, mark + rest),
    ));
}

proof fn lemma_today_text(
    x: Text,
    gap: Text,
    pad: Text,
    time: Text,
    mark: Text,
    a: Text,
    b: Text,
    c: Text,
    d: Text,
)
    ensures
        x + gap + (pad + time + mark) + a + b + c + d == x + (gap + pad) + time + (mark + (a + b + c
            + d)),
{
    let m = pad + time + mark;
    assert(x + gap + m =~= x + (gap + pad) + time + mark);
    let y = x + (gap + pad) + time;
    assert(y + mark + a + b + c + d =~= y + (mark + (a + b + c + d)));
}

/// The timeline shows the entries of its day from the first on: each with its start, its end or that
/// it goes on, and its project.
pub proof fn law_timeline(a: AppView, i: int)
    requires
        0 <= i < shown(a).len(),
    ensures
        ({
            let (e, p) = shown(a)[shown(a).len() - 1 - i];
            &&& timeline_panel(a).len() == shown(a).len()
            &&& shows(
                timeline_panel(a)[i],
                hour_minute(e.start),
                match e.end {
                    Some(t) => hour_minute(t),
                    None => "now"@,
                },
                p.name,
            )
        }),
        shown(a) == match a.timeline_view {
            TimelineView::Today => a.today_entries,
            TimelineView::Yesterday => a.yesterday_entries,
        },
{
    let (e, p) = shown(a)[shown(a).len() - 1 - i];
    let none = Seq::<char>::empty();
    let line = timeline_panel(a)[i];
    let end = match e.end {
        Some(t) => hour_minute(t),
        None => "now"@,
    };
    assert(line =~= " "@ + hour_minute(e.start) + " - "@ + end + "  "@ + p.name + none);
    assert(made_of(line, hour_minute(e.start), end, p.name, (" "@, " - "@, "  "@, none)));
}

/// The panel of the week has a row for every total from the scroll offset on, with its project and its
/// time, and a bar whose length is that of its share of the longest one.
pub proof fn law_week_panel(a: AppView, width: u16, i: int)
    requires
        a.week_scroll <= a.week_totals.len(),
        0 <= i < a.week_totals.len() - a.week_scroll,
    ensures
        ({
            let v = week_panel(a, width);
            let t = a.week_totals[a.week_scroll + i];
            &&& v.len() == a.week_totals.len() - a.week_scroll
            &&& v[i].name == " "@ + t.0
            &&& v[i].time == human(t.1 as int)
            &&& exists|m: int|
                0 <= m < a.week_totals.len() && (forall|j: int|
                    0 <= j < a.week_totals.len() ==> (#[trigger] a.week_totals[j]).1 <= (
                    #[trigger] a.week_totals[m]).1) && v[i].bar.len() == bar_length(
                    t.1,
                    a.week_totals[m].1 as int,
                    bar_room(width),
                )
        }),
{
    let m = lemma_greatest(a.week_totals);
    assert(a.week_totals[m].1 == most_seconds(a.week_totals));
}

proof fn lemma_greatest(s: Seq<TotalView>) -> (m: int)
    requires
        s.len() > 0,
    ensures
        0 <= m < s.len(),
        s[m].1 == most_seconds(s),
        forall|j: int| 0 <= j < s.len() ==> (#[trigger] s[j]).1 <= s[m].1,
    decreases s.len(),
{
    if s.len() == 1 {
        0
    } else {
        let t = s.drop_last();
        let k = lemma_greatest(t);
        assert(t[k] == s[k]);
        assert forall|j: int| 0 <= j < t.len() implies (#[trigger] s[j]).1 <= t[k].1 by {
            assert(t[j] == s[j]);
        }
        if s.last().1 > most_seconds(t) {
            s.len() - 1
        } else {
            k
        }
    }
}

} // verus!
