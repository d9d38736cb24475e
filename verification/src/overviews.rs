//! What the log, the summary, the report and the dashboard show, in terms of the stored entries.
use crate::accounts::{
    belongs, is_project, law_listed, law_named_project, lemma_found_project, lemma_listing,
    lemma_listing_sum, lemma_one_project, lemma_row_seconds, lemma_sum_same, lists, picks,
    row_seconds, sum_of,
};
use crate::cli::{
    asked_filter, elapsed, log_line, log_output, seconds_or_zero, since_filter, summary_line,
    summary_output, total_seconds,
};
use crate::clock::{date_text, Timestamp, DAY, FIRST, LAST};
use crate::dashboard::{
    between_filter, fitted, most_first, named_seconds, names_of, reloaded, totals, totals_by_name,
    App, AppView, TotalView,
};
use crate::dates::{date_value, day_start, days_later, law_day_start, law_week_start, week_start};
use crate::db::{by_text, entry_readable, project_readable, read_entry, running, Db, Fault};
use crate::duration::human;
use crate::models::{
    entry_seconds, EntryData, EntryFilter, EntryView, FilterView, ProjectView, Text,
};
use crate::prompts::has_seconds;
use crate::report::{
    format_value, grouping_value, head_lines, report, report_lines, row_line, GroupBy, Report,
    ReportFormat, ReportView, RowView,
};
use crate::rows::{
    all, any, first, first_at, lemma_first, lemma_sorted, lemma_stable, orders, sorted_by,
};
use crate::service::{law_entries_have_projects, named_project, pairs, running_pair, PairView};
use crate::text::{
    before, decimal, folded, left_aligned, lemma_before_total, right_aligned, signed_decimal,
};
use crate::upkeep::lemma_sorted_distinct;
use vstd::prelude::*;

verus! {

// ---------------------------------------------------------------------------
// What is asked for
// ---------------------------------------------------------------------------
/// Whether a stored entry is one that arguments ask for: it belongs to the project with the name, it
/// begins on or after the first day and not after the last, and it has all the tags.
pub open spec fn is_asked(
    db: Db,
    from: Option<Text>,
    to: Option<Text>,
    project: Option<Text>,
    tags: Seq<Text>,
    local: Timestamp,
    r: EntryData,
) -> bool {
    &&& project matches Some(name) ==> is_of(db, name, r)
    &&& from matches Some(s) ==> begins_from(s, local, r)
    &&& to matches Some(s) ==> begins_until(s, local, r)
    &&& forall|i: int| 0 <= i < tags.len() ==> r.tags.contains(#[trigger] tags[i])
}

/// Whether a stored entry belongs to the project with a name, in whatever case.
pub open spec fn is_of(db: Db, name: Text, r: EntryData) -> bool {
    exists|p: ProjectView| #[trigger]
        is_project(db, p) && folded(p.name) == folded(name) && p.id == r.project_id
}

/// Whether a stored entry begins with a day or later.
pub open spec fn begins_from(s: Text, local: Timestamp, r: EntryData) -> bool {
    match date_value(s, local) {
        Ok(t) => r.start == t.text() || before(t.text(), r.start),
        Err(_) => false,
    }
}

/// Whether a stored entry begins before the day after a day.
pub open spec fn begins_until(s: Text, local: Timestamp, r: EntryData) -> bool {
    match date_value(s, local) {
        Ok(t) => before(r.start, Timestamp::at((t.local() + DAY) as i128, t.offset()).text()),
        Err(_) => false,
    }
}

/// Whether a text names no day.
pub open spec fn no_day(s: Option<Text>, local: Timestamp) -> bool {
    s matches Some(x) && date_value(x, local) is Err
}

/// Arguments are turned into a filter that lets through exactly what they ask for. They are refused
/// exactly where a day is none, where the day after the last one is out of range, or where no project
/// has the name.
pub proof fn law_asked(
    db: Db,
    from: Option<Text>,
    to: Option<Text>,
    project: Option<Text>,
    tags: Seq<Text>,
    local: Timestamp,
)
    requires
        db.valid(),
        all(db.projects, project_readable()),
    ensures
        match asked_filter(db, from, to, project, tags, local) {
            Ok(f) => forall|r: EntryData| #[trigger]
                picks(f, r) <==> is_asked(db, from, to, project, tags, local, r),
            Err(_) => {
                ||| no_day(from, local)
                ||| no_day(to, local)
                ||| to matches Some(x) && date_value(x, local)->Ok_0.local() + DAY > LAST
                ||| project matches Some(name) && forall|p: ProjectView| #[trigger]
                    is_project(db, p) ==> folded(p.name) != folded(name)
            },
        },
        no_day(from, local) || no_day(to, local) ==> asked_filter(
            db,
            from,
            to,
            project,
            tags,
            local,
        ) is Err,
        project matches Some(name) && (forall|p: ProjectView| #[trigger]
            is_project(db, p) ==> folded(p.name) != folded(name)) ==> asked_filter(
            db,
            from,
            to,
            project,
            tags,
            local,
        ) is Err,
{
    if let Some(name) = project {
        law_named_project(db, name);
    }
    if let Some(x) = to {
        if let Ok(t) = date_value(x, local) {
            lemma_day_in_range(x, local, t);
        }
    }
    if let Ok(f) = asked_filter(db, from, to, project, tags, local) {
        assert(f.tags == tags);
        assert forall|r: EntryData| #[trigger] picks(f, r) <==> is_asked(
            db,
            from,
            to,
            project,
            tags,
            local,
            r,
        ) by {
            if let Some(name) = project {
                let p = named_project(db, name)->Ok_0;
                assert(f.project_id == Some(p.id));
                if is_of(db, name, r) {
                    let q = choose|q: ProjectView| #[trigger]
                        is_project(db, q) && folded(q.name) == folded(name) && q.id == r.project_id;
                    lemma_one_project(db, p, q);
                }
                if r.project_id == p.id {
                    assert(is_project(db, p));
                    assert(is_of(db, name, r));
                }
            }
        }
    }
}

proof fn lemma_day_in_range(s: Text, local: Timestamp, t: Timestamp)
    requires
        date_value(s, local) == Ok::<Timestamp, Text>(t),
    ensures
        FIRST <= t.local() <= LAST,
{
    let n = crate::dates::named_day(s, local)->Some_0;
    Timestamp::lemma_at((n * DAY) as i128, local.offset());
}

// ---------------------------------------------------------------------------
// Lines
// ---------------------------------------------------------------------------
/// Whether a line is made of three parts, with given texts before, between and behind them.
pub open spec fn made_of(
    line: Text,
    a: Text,
    b: Text,
    c: Text,
    gaps: (Text, Text, Text, Text),
) -> bool {
    line == gaps.0 + a + gaps.1 + b + gaps.2 + c + gaps.3
}

/// Whether a line shows three parts, one behind the other.
pub open spec fn shows(line: Text, a: Text, b: Text, c: Text) -> bool {
    exists|gaps: (Text, Text, Text, Text)| made_of(line, a, b, c, gaps)
}

/// Whether a line ends in a text.
pub open spec fn ends_in(line: Text, end: Text) -> bool {
    line.len() >= end.len() && line.skip(line.len() - end.len()) == end
}

// ---------------------------------------------------------------------------
// The log
// ---------------------------------------------------------------------------
/// The log has one line for each stored entry that meets the filter, the latest first: with its date,
/// the name of its project and its time; with its notes; and marked where it runs. Without such an
/// entry that is said.
pub proof fn law_log(db: Db, f: FilterView)
    requires
        db.valid(),
        db.readable(),
    ensures
        ({
            let o = log_output(db, Ok(f));
            let v = pairs(db, f)->Ok_0;
            &&& !o.failed
            &&& o.err.len() == 0
            &&& lists(db, f, v)
            &&& v.len() == 0 ==> o.out == seq!["No entries found."@]
            &&& v.len() > 0 ==> o.out.len() == v.len()
            &&& forall|i: int|
                0 <= i < v.len() ==> shows(
                    #[trigger] o.out[i],
                    date_text(v[i].0.start.local()),
                    v[i].1.name,
                    human(spent(v[i].0)),
                )
            &&& forall|i: int|
                0 <= i < v.len() && v[i].0.end is None ==> ends_in(
                    #[trigger] o.out[i],
                    " (running)"@,
                )
            &&& forall|i: int|
                0 <= i < v.len() && v[i].0.end is Some ==> ends_in(
                    #[trigger] o.out[i],
                    match v[i].0.notes {
                        Some(n) => "  "@ + n,
                        None => "  "@,
                    },
                )
        }),
{
    law_entries_have_projects(db, f);
    law_listed(db, f);
    let v = pairs(db, f)->Ok_0;
    let o = log_output(db, Ok(f));
    assert forall|i: int| 0 <= i < v.len() implies shows(
        #[trigger] o.out[i],
        date_text(v[i].0.start.local()),
        v[i].1.name,
        human(spent(v[i].0)),
    ) by {
        lemma_log_line(v[i]);
        assert(o.out[i] == log_line(v[i]));
    }
    assert forall|i: int| 0 <= i < v.len() && v[i].0.end is None implies ends_in(
        #[trigger] o.out[i],
        " (running)"@,
    ) by {
        lemma_log_line(v[i]);
        assert(o.out[i] == log_line(v[i]));
    }
    assert forall|i: int| 0 <= i < v.len() && v[i].0.end is Some implies ends_in(
        #[trigger] o.out[i],
        match v[i].0.notes {
            Some(n) => "  "@ + n,
            None => "  "@,
        },
    ) by {
        lemma_log_line(v[i]);
        assert(o.out[i] == log_line(v[i]));
    }
}

/// The whole seconds of an entry: the recorded ones, else those from its start to its end, counted
/// toward zero; none while it runs.
pub open spec fn spent(e: EntryView) -> int {
    match (e.duration_secs, e.end) {
        (Some(d), _) => d as int,
        (None, Some(t)) => {
            let nanos = t.instant() - e.start.instant();
            if nanos >= 0 {
                nanos / 1_000_000_000
            } else {
                -((-nanos) / 1_000_000_000)
            }
        },
        (None, None) => 0,
    }
}

/// An entry has a length where one is recorded or it has an end, and that is the time spent on it.
pub proof fn law_spent(e: EntryView)
    ensures
        entry_seconds(e) == if e.duration_secs is None && e.end is None {
            None
        } else {
            Some(spent(e))
        },
{
}

proof fn lemma_log_line(pair: PairView)
    ensures
        shows(
            log_line(pair),
            date_text(pair.0.start.local()),
            pair.1.name,
            human(spent(pair.0)),
        ),
        pair.0.end is None ==> ends_in(log_line(pair), " (running)"@),
        pair.0.end is Some ==> ends_in(
            log_line(pair),
            match pair.0.notes {
                Some(n) => "  "@ + n,
                None => "  "@,
            },
        ),
{
    let (e, p) = pair;
    let line = log_line(pair);
    let notes = match e.notes {
        Some(n) => n,
        None => ""@,
    };
    let mark = if e.end is None {
        " (running)"@
    } else {
        ""@
    };
    assert(seconds_or_zero(e) == spent(e));
    let time = human(spent(e));
    let date = date_text(e.start.local());
    let name_gap = left_aligned(p.name, 16).skip(p.name.len() as int);
    let time_gap = right_aligned(time, 8).take(right_aligned(time, 8).len() - time.len());
    assert(left_aligned(p.name, 16) =~= p.name + name_gap);
    assert(right_aligned(time, 8) =~= time_gap + time);
    let sp = "  "@;
    let source = left_aligned(e.source.word(), 7);
    let rest = sp + source + sp + notes + mark;
    let front = sp + date + sp + left_aligned(p.name, 16) + sp + right_aligned(time, 8);
    lemma_regrouped(front, sp, source, sp, notes, mark);
    assert(line == front + rest);
    lemma_spaced(sp + date + sp, p.name, name_gap, sp, time_gap, time);
    assert(front == sp + date + sp + p.name + (name_gap + sp + time_gap) + time);
    assert(made_of(line, date, p.name, time, (sp, sp, name_gap + sp + time_gap, rest)));
    reveal_strlit("");
    if e.end is None {
        lemma_ends(front + sp + source + sp + notes, mark);
    } else {
        let head = front + sp + source;
        assert(line =~= head + sp + notes);
        assert(head + sp + notes =~= head + (sp + notes));
        lemma_ends(head, sp + notes);
        if e.notes is None {
            assert(sp + notes =~= sp);
        }
    }
}

proof fn lemma_regrouped(x: Text, a: Text, b: Text, c: Text, d: Text, e: Text)
    ensures
        x + a + b + c + d + e == x + (a + b + c + d + e),
{
    assert(x + a + b + c + d + e =~= x + (a + b + c + d + e));
}

proof fn lemma_spaced(x: Text, a: Text, b: Text, c: Text, d: Text, e: Text)
    ensures
        x + (a + b) + c + (d + e) == x + a + (b + c + d) + e,
{
    assert(x + (a + b) + c + (d + e) =~= x + a + (b + c + d) + e);
}

proof fn lemma_ends(a: Text, b: Text)
    ensures
        ends_in(a + b, b),
{
    assert((a + b).skip((a + b).len() - b.len()) =~= b);
}

// ---------------------------------------------------------------------------
// The report
// ---------------------------------------------------------------------------
/// A report that is printed has the rows that the report in JSON has, each on a line of its own below
/// the heading, in the same order: with the group, the time and the number of entries. Separated by
/// commas the time is in seconds, and a group that nothing in it can be taken for a separator stands
/// there as it is.
pub proof fn law_report_printed(
    db: Db,
    by: GroupBy,
    format: ReportFormat,
    f: FilterView,
    rows: Seq<RowView>,
    i: int,
)
    requires
        report(db, Ok(by), Ok(ReportFormat::Json), Ok(f)) == ReportView::Rows(rows),
        format != ReportFormat::Json,
        0 <= i < rows.len(),
    ensures
        match report(db, Ok(by), Ok(format), Ok(f)) {
            Report::Printed(o) => {
                let head: int = if format == ReportFormat::Markdown {
                    2
                } else {
                    1
                };
                let time = human(rows[i].seconds as int);
                let number = decimal(rows[i].entries as nat);
                let secs = signed_decimal(rows[i].seconds as int);
                &&& !o.failed
                &&& o.err.len() == 0
                &&& o.out.len() == head + rows.len()
                &&& format != ReportFormat::Csv ==> shows(
                    o.out[head + i],
                    rows[i].group,
                    time,
                    number,
                )
                &&& format == ReportFormat::Csv ==> ends_in(
                    o.out[head + i],
                    ","@ + secs + ","@ + number,
                )
                &&& format == ReportFormat::Csv && is_plain(rows[i].group) ==> o.out[head + i]
                    == rows[i].group + ","@ + secs + ","@ + number
            },
            Report::Rows(_) => false,
        },
{
    let heads = head_lines(by, format);
    let out = report_lines(rows, by, format);
    let line = row_line(rows[i], format);
    let group = rows[i].group;
    let time = human(rows[i].seconds as int);
    let number = decimal(rows[i].entries as nat);
    let secs = signed_decimal(rows[i].seconds as int);
    assert(out[heads.len() + i] == line);
    match format {
        ReportFormat::Table => {
            let sp = "  "@;
            let a = left_aligned(group, 20).skip(group.len() as int);
            let b = right_aligned(time, 10).take(right_aligned(time, 10).len() - time.len());
            let c = right_aligned(number, 7).take(right_aligned(number, 7).len() - number.len());
            let e = Seq::<char>::empty();
            assert(left_aligned(group, 20) =~= group + a);
            assert(right_aligned(time, 10) =~= b + time);
            assert(right_aligned(number, 7) =~= c + number);
            assert(line =~= e + group + (a + sp + b) + time + (sp + c) + number + e);
            assert(made_of(line, group, time, number, (e, a + sp + b, sp + c, e)));
        },
        ReportFormat::Markdown => {
            assert(made_of(line, group, time, number, ("| "@, " | "@, " | "@, " |"@)));
        },
        _ => {
            let field = crate::report::csv_field(group);
            assert(line =~= field + (","@ + secs + ","@ + number));
            lemma_ends(field, ","@ + secs + ","@ + number);
        },
    }
}

/// Whether a text has no comma, no quote and no end of a line.
pub open spec fn is_plain(s: Text) -> bool {
    forall|i: int|
        0 <= i < s.len() ==> (#[trigger] s[i]) != ',' && s[i] != '"' && s[i] != '\n' && s[i] != '\r'
}

/// A report fails exactly where its grouping or its format is none of the known words, or where what
/// is asked for was refused; in JSON it is its rows.
pub proof fn law_report_refused(db: Db, by: Text, format: Text, filter: Result<FilterView, Text>)
    requires
        db.valid(),
        db.readable(),
    ensures
        match report(db, grouping_value(by), format_value(format), filter) {
            Report::Printed(o) => {
                &&& format == "json"@ ==> o.failed
                &&& o.failed <==> {
                    ||| !(by == "project"@ || by == "tag"@)
                    ||| !(format == "table"@ || format == "markdown"@ || format == "csv"@ || format
                        == "json"@)
                    ||| filter is Err
                }
            },
            Report::Rows(_) => format == "json"@,
        },
{
    if let Ok(f) = filter {
        law_entries_have_projects(db, f);
    }
    reveal_strlit("table");
    reveal_strlit("markdown");
    reveal_strlit("csv");
    reveal_strlit("json");
    assert("table"@.len() == 5 && "markdown"@.len() == 8 && "csv"@.len() == 3 && "json"@.len() == 4);
}

// ---------------------------------------------------------------------------
// The summary
// ---------------------------------------------------------------------------
/// Whether a stored entry begins at a point in time or later.
pub open spec fn begins_at(t: Timestamp, r: EntryData) -> bool {
    r.start == t.text() || before(t.text(), r.start)
}

/// The seconds of the stored entries from a point in time on.
pub open spec fn seconds_since(db: Db, t: Timestamp) -> int {
    sum_of(
        db.entries,
        |r: EntryData|
            if begins_at(t, r) {
                row_seconds(r)
            } else {
                0
            },
    )
}

/// How many stored entries there are from a point in time on.
pub open spec fn number_since(db: Db, t: Timestamp) -> int {
    sum_of(
        db.entries,
        |r: EntryData|
            if begins_at(t, r) {
                1
            } else {
                0
            },
    )
}

/// Whether a point in time is the start of the day of a local time.
pub open spec fn is_midnight(t: Timestamp, local: Timestamp) -> bool {
    &&& t.offset() == local.offset()
    &&& t.local() as int % (DAY as int) == 0
    &&& t.local() <= local.local() < t.local() + DAY
}

/// Whether a point in time is the start of the week of a local time: a midnight less than seven days
/// before it that is a whole number of weeks from the fifth day of 1970, which was a Monday.
pub open spec fn is_monday(t: Timestamp, local: Timestamp) -> bool {
    &&& t.offset() == local.offset()
    &&& t.local() as int % (DAY as int) == 0
    &&& (t.local() as int / (DAY as int) - 4) % 7 == 0
    &&& t.local() <= local.local() < t.local() + 7 * DAY
}

proof fn lemma_one_midnight(t: Timestamp, local: Timestamp)
    requires
        FIRST <= local.local() <= LAST,
        is_midnight(t, local),
    ensures
        t == day_start(local),
{
    let u = day_start(local);
    law_day_start(local);
    let a = t.local() as int / (DAY as int);
    let b = u.local() as int / (DAY as int);
    assert(t.local() == a * DAY);
    assert(u.local() == b * DAY);
    assert(a == b);
    t.lemma_parts();
    u.lemma_parts();
}

proof fn lemma_one_monday(t: Timestamp, local: Timestamp)
    requires
        FIRST <= local.local() <= LAST,
        is_monday(t, local),
    ensures
        t == week_start(local),
{
    let u = week_start(local);
    law_week_start(local);
    let a = t.local() as int / (DAY as int);
    let b = u.local() as int / (DAY as int);
    assert(t.local() == a * DAY);
    assert(u.local() == b * DAY);
    assert(-7 < a - b < 7);
    assert(a == b);
    t.lemma_parts();
    u.lemma_parts();
}

/// The filter for everything from a point in time on.
pub open spec fn onward(t: Timestamp) -> FilterView {
    EntryFilter {
        project_id: None,
        from: Some(t),
        to: None,
        source: None,
        tags: Seq::empty(),
    }
}

proof fn lemma_since(db: Db, t: Timestamp)
    requires
        db.valid(),
        db.readable(),
    ensures
        pairs(db, onward(t)) is Ok,
        total_seconds(pairs(db, onward(t))->Ok_0) == seconds_since(db, t),
        pairs(db, onward(t))->Ok_0.len() == number_since(db, t),
{
    let f = onward(t);
    law_entries_have_projects(db, f);
    let v = pairs(db, f)->Ok_0;
    let rows = db.entry_rows(f);
    lemma_listing(db, f);
    let g = |p: PairView| seconds_or_zero(p.0);
    let one = |p: PairView| 1int;
    let h = |r: EntryData| row_seconds(r);
    let k = |r: EntryData| 1int;
    assert forall|i: int| 0 <= i < v.len() implies g(#[trigger] v[i]) == h(rows[i]) by {
        assert(read_entry(rows[i]) == Ok::<EntryView, Fault>(v[i].0));
        lemma_row_seconds(rows[i], v[i].0);
    }
    lemma_listing_sum(db, f, g, h);
    lemma_listing_sum(db, f, one, k);
    lemma_total(v);
    let a = |r: EntryData|
        if picks(f, r) {
            h(r)
        } else {
            0
        };
    let b = |r: EntryData|
        if picks(f, r) {
            k(r)
        } else {
            0
        };
    let c = |r: EntryData|
        if begins_at(t, r) {
            row_seconds(r)
        } else {
            0
        };
    let d = |r: EntryData|
        if begins_at(t, r) {
            1int
        } else {
            0
        };
    lemma_sum_same(db.entries, db.entries, a, c);
    lemma_sum_same(db.entries, db.entries, b, d);
}

proof fn lemma_total(s: Seq<PairView>)
    ensures
        total_seconds(s) == sum_of(s, |p: PairView| seconds_or_zero(p.0)),
        s.len() == sum_of(s, |p: PairView| 1int),
    decreases s.len(),
{
    if s.len() > 0 {
        lemma_total(s.drop_last());
    }
}

/// The summary has three lines: what is tracked, the time and the number of the entries of today,
/// and those of this week, which begins on a Monday.
pub proof fn law_summary(
    db: Db,
    local: Timestamp,
    now: Timestamp,
    midnight: Timestamp,
    monday: Timestamp,
)
    requires
        db.valid(),
        db.readable(),
        FIRST <= local.local() <= LAST,
        is_midnight(midnight, local),
        is_monday(monday, local),
    ensures
        ({
            let o = summary_output(db, local, now);
            &&& !o.failed
            &&& o.err.len() == 0
            &&& o.out.len() == 3
            &&& is_tracked(db, now, o.out[0])
            &&& shows(
                o.out[1],
                "Today"@,
                human(seconds_since(db, midnight)),
                decimal(number_since(db, midnight) as nat),
            )
            &&& shows(
                o.out[2],
                "Week"@,
                human(seconds_since(db, monday)),
                decimal(number_since(db, monday) as nat),
            )
        }),
{
    lemma_one_midnight(midnight, local);
    lemma_one_monday(monday, local);
    lemma_since(db, midnight);
    lemma_since(db, monday);
    law_entries_have_projects(db, onward(midnight));
    let o = summary_output(db, local, now);
    let today = pairs(db, onward(midnight))->Ok_0;
    let week = pairs(db, onward(monday))->Ok_0;
    assert(onward(midnight) == since_filter(day_start(local)));
    assert(onward(monday) == since_filter(week_start(local)));
    assert(o.out.len() == 3);
    assert(o.out[1] == summary_line("  Today: "@, today));
    assert(o.out[2] == summary_line("  Week:  "@, week));
    lemma_tracked(db, now, o.out[0]);
    lemma_summary_lines(today);
    lemma_summary_lines(week);
}

proof fn lemma_summary_lines(s: Seq<PairView>)
    ensures
        shows(
            summary_line("  Today: "@, s),
            "Today"@,
            human(total_seconds(s)),
            decimal(s.len()),
        ),
        shows(
            summary_line("  Week:  "@, s),
            "Week"@,
            human(total_seconds(s)),
            decimal(s.len()),
        ),
{
    reveal_strlit("Today");
    reveal_strlit("Week");
    reveal_strlit("  Today: ");
    reveal_strlit("  Week:  ");
    let sp = seq![' ', ' '];
    let time = human(total_seconds(s));
    let number = decimal(s.len());
    assert("  Today: "@ =~= sp + "Today"@ + seq![':', ' ']);
    assert("  Week:  "@ =~= sp + "Week"@ + seq![':', ' ', ' ']);
    assert(made_of(
        summary_line("  Today: "@, s),
        "Today"@,
        time,
        number,
        (sp, seq![':', ' '], "  ("@, " entries)"@),
    ));
    assert(made_of(
        summary_line("  Week:  "@, s),
        "Week"@,
        time,
        number,
        (sp, seq![':', ' ', ' '], "  ("@, " entries)"@),
    ));
}

/// Whether a line says what is tracked: where a stored entry runs, one that does, with the name of its
/// project and the whole seconds since its start, else that nothing is.
pub open spec fn is_tracked(db: Db, now: Timestamp, line: Text) -> bool {
    if exists|k: int| 0 <= k < db.entries.len() && (#[trigger] db.entries[k]).end is None {
        exists|k: int, p: ProjectView, run: int|
            0 <= k < db.entries.len() && db.entries[k].end is None && #[trigger] belongs(
                db,
                read_entry(db.entries[k])->Ok_0,
                p,
            ) && #[trigger] has_seconds(
                now.instant() - read_entry(db.entries[k])->Ok_0.start.instant(),
                run,
            ) && line == "  "@ + ("Tracking '"@ + p.name + "' for "@ + human(run))
    } else {
        line == "  Idle"@
    }
}

proof fn lemma_tracked(db: Db, now: Timestamp, line: Text)
    requires
        db.valid(),
        db.readable(),
        line == "  "@ + match running_pair(db)->Ok_0 {
            Some((e, p)) => crate::cli::tracking(p.name, elapsed(e.start, now)),
            None => "Idle"@,
        },
    ensures
        is_tracked(db, now, line),
{
    lemma_first(db.entries, running());
    law_entries_have_projects(db, onward(now));
    if any(db.entries, running()) {
        let k = choose|k: int|
            #[trigger] first_at(db.entries, running(), k) && first(db.entries, running()) == Some(
                db.entries[k],
            );
        assert(running()(db.entries[k]));
        assert(db.entries[k].end is None);
        assert(entry_readable()(db.entries[k]));
        let (e, p) = running_pair(db)->Ok_0->Some_0;
        lemma_found_project(db, e, p);
        let run = elapsed(e.start, now);
        assert(belongs(db, read_entry(db.entries[k])->Ok_0, p));
        assert(has_seconds(now.instant() - e.start.instant(), run));
    } else {
        assert forall|k: int| 0 <= k < db.entries.len() implies (#[trigger] db.entries[k]).end
            is Some by {
            assert(!running()(db.entries[k]));
        }
        reveal_strlit("  ");
        reveal_strlit("Idle");
        reveal_strlit("  Idle");
        assert("  "@ + "Idle"@ =~= "  Idle"@);
    }
}

// ---------------------------------------------------------------------------
// The dashboard
// ---------------------------------------------------------------------------
/// The filter for everything from one point in time up to another.
pub open spec fn span(from: Timestamp, to: Timestamp) -> FilterView {
    EntryFilter {
        project_id: None,
        from: Some(from),
        to: Some(to),
        source: None,
        tags: Seq::empty(),
    }
}

/// Whether some entries have one of a project with a name.
pub open spec fn has_name(v: Seq<PairView>, name: Text) -> bool {
    exists|i: int| 0 <= i < v.len() && (#[trigger] v[i]).1.name == name
}

/// Whether some totals have one for a name.
pub open spec fn has_total(w: Seq<TotalView>, name: Text) -> bool {
    exists|i: int| 0 <= i < w.len() && (#[trigger] w[i]).0 == name
}

/// The seconds that an entry adds to the total of a name.
pub open spec fn adds_to(name: Text) -> spec_fn(PairView) -> int {
    |p: PairView|
        if p.1.name == name {
            spent(p.0)
        } else {
            0
        }
}

/// Whether totals are those of some entries: one for every name of a project among them and for no
/// other, each the sum over the entries of that name as far as it fits, the most first, and in the
/// order of the names where they are the same.
pub open spec fn totals_up(w: Seq<TotalView>, v: Seq<PairView>) -> bool {
    &&& forall|name: Text| #[trigger] has_total(w, name) <==> has_name(v, name)
    &&& forall|i: int|
        0 <= i < w.len() ==> {
            let sum = sum_of(v, adds_to((#[trigger] w[i]).0));
            &&& i64::MIN <= sum <= i64::MAX ==> w[i].1 == sum
            &&& sum > i64::MAX ==> w[i].1 == i64::MAX
            &&& sum < i64::MIN ==> w[i].1 == i64::MIN
        }
    &&& forall|i: int, j: int|
        0 <= i < j < w.len() ==> (#[trigger] w[i]).1 >= (#[trigger] w[j]).1 && w[i].0 != w[j].0 && (
        w[i].1 == w[j].1 ==> before(w[i].0, w[j].0))
}

/// The totals of some entries are theirs.
pub proof fn law_totals(v: Seq<PairView>)
    ensures
        totals_up(totals(v), v),
{
    broadcast use vstd::seq_lib::group_to_multiset_ensures;

    let names = sorted_by(names_of(v), by_text());
    let t = totals_by_name(v);
    let w = totals(v);
    lemma_names(v);
    lemma_sorted_distinct(names_of(v));
    lemma_sorted(t, most_first());
    let rel = |a: TotalView, b: TotalView| before(a.0, b.0);
    assert forall|i: int, j: int| 0 <= i < j < t.len() implies rel(
        #[trigger] t[i],
        #[trigger] t[j],
    ) by {
        assert(names[i] != names[j]);
        assert(!by_text()(names[j], names[i]));
        lemma_before_total(names[i], names[j]);
    }
    lemma_stable(t, most_first(), rel);
    assert forall|i: int| 0 <= i < w.len() implies exists|k: int|
        0 <= k < t.len() && #[trigger] t[k] == #[trigger] w[i] by {
        assert(w.contains(w[i]));
        assert(w.to_multiset().count(w[i]) > 0);
        assert(t.contains(w[i]));
    }
    assert forall|name: Text| #[trigger] has_total(w, name) <==> has_name(v, name) by {
        if has_total(w, name) {
            let i = choose|i: int| 0 <= i < w.len() && (#[trigger] w[i]).0 == name;
            let k = choose|k: int| 0 <= k < t.len() && #[trigger] t[k] == w[i];
            assert(names[k] == name);
            assert(names.contains(name));
            assert(names_of(v).contains(name));
        }
        if has_name(v, name) {
            assert(names_of(v).contains(name));
            assert(names.contains(name));
            let k = choose|k: int| 0 <= k < names.len() && names[k] == name;
            assert(t[k].0 == name);
            assert(t.contains(t[k]));
            assert(t.to_multiset().count(t[k]) > 0);
            assert(w.contains(t[k]));
            let i = choose|i: int| 0 <= i < w.len() && w[i] == t[k];
            assert(w[i].0 == name);
        }
    }
    assert forall|i: int| 0 <= i < w.len() implies {
        let sum = sum_of(v, adds_to((#[trigger] w[i]).0));
        &&& i64::MIN <= sum <= i64::MAX ==> w[i].1 == sum
        &&& sum > i64::MAX ==> w[i].1 == i64::MAX
        &&& sum < i64::MIN ==> w[i].1 == i64::MIN
    } by {
        let k = choose|k: int| 0 <= k < t.len() && #[trigger] t[k] == w[i];
        assert(w[i] == (names[k], fitted(named_seconds(v, names[k]))));
        lemma_named_sum(v, names[k]);
    }
    let both = |a: TotalView, b: TotalView| most_first()(a, b) || rel(a, b);
    assert forall|i: int, j: int| 0 <= i < j < w.len() implies (#[trigger] w[i]).1 >= (
    #[trigger] w[j]).1 && w[i].0 != w[j].0 && (w[i].1 == w[j].1 ==> before(w[i].0, w[j].0)) by {
        assert(both(w[i], w[j]));
        assert(orders(most_first()));
        assert(!most_first()(w[j], w[i]));
        lemma_before_total(w[i].0, w[j].0);
        if w[i].0 == w[j].0 {
            let a = choose|k: int| 0 <= k < t.len() && #[trigger] t[k] == w[i];
            let b = choose|k: int| 0 <= k < t.len() && #[trigger] t[k] == w[j];
            assert(names[a] == names[b]);
            assert(a == b);
        }
    }
}

proof fn lemma_names(v: Seq<PairView>)
    ensures
        names_of(v).no_duplicates(),
        forall|name: Text| #[trigger] names_of(v).contains(name) <==> has_name(v, name),
    decreases v.len(),
{
    if v.len() > 0 {
        let t = v.drop_last();
        lemma_names(t);
        assert forall|name: Text| #[trigger] names_of(v).contains(name) <==> has_name(v, name) by {
            let rest = names_of(t);
            if has_name(t, name) {
                let i = choose|i: int| 0 <= i < t.len() && (#[trigger] t[i]).1.name == name;
                assert(v[i].1.name == name);
            }
            if has_name(v, name) {
                let i = choose|i: int| 0 <= i < v.len() && (#[trigger] v[i]).1.name == name;
                if i < t.len() {
                    assert(t[i].1.name == name);
                    assert(rest.contains(name));
                    let k = choose|k: int| 0 <= k < rest.len() && rest[k] == name;
                    assert(names_of(v)[k] == name);
                } else if !rest.contains(name) {
                    assert(names_of(v)[rest.len() as int] == name);
                }
            }
            if names_of(v).contains(name) && !rest.contains(name) {
                let k = choose|k: int| 0 <= k < names_of(v).len() && names_of(v)[k] == name;
                if k < rest.len() {
                    assert(rest[k] == name);
                }
                assert(v[v.len() - 1].1.name == name);
            }
        }
    }
}

proof fn lemma_named_sum(v: Seq<PairView>, name: Text)
    ensures
        named_seconds(v, name) == sum_of(v, adds_to(name)),
    decreases v.len(),
{
    if v.len() > 0 {
        lemma_named_sum(v.drop_last(), name);
        assert(seconds_or_zero(v.last().0) == spent(v.last().0));
    }
}

/// The dashboard shows what is stored: a running entry with its project where there is one, the
/// entries of today, those of yesterday, and the totals of this week, which begins on a Monday. How
/// it is scrolled and what is selected stays.
pub proof fn law_dashboard(
    a: AppView,
    db: Db,
    local: Timestamp,
    midnight: Timestamp,
    yesterday: Timestamp,
    monday: Timestamp,
)
    requires
        db.valid(),
        db.readable(),
        FIRST + DAY <= midnight.local(),
        local.local() <= LAST,
        is_midnight(midnight, local),
        yesterday.local() == midnight.local() - DAY,
        yesterday.offset() == local.offset(),
        is_monday(monday, local),
    ensures
        ({
            let b = reloaded(a, db, local);
            &&& b.error_message is None
            &&& lists(db, onward(midnight), b.today_entries)
            &&& lists(db, span(yesterday, midnight), b.yesterday_entries)
            &&& totals_up(b.week_totals, pairs(db, onward(monday))->Ok_0)
            &&& lists(db, onward(monday), pairs(db, onward(monday))->Ok_0)
            &&& match b.running_timer {
                Some((e, p)) => belongs(db, e, p) && exists|k: int|
                    0 <= k < db.entries.len() && (#[trigger] db.entries[k]).end is None && read_entry(
                        db.entries[k],
                    ) == Ok::<EntryView, Fault>(e),
                None => forall|k: int|
                    0 <= k < db.entries.len() ==> (#[trigger] db.entries[k]).end is Some,
            }
            &&& b.selected_panel == a.selected_panel
            &&& b.today_scroll == a.today_scroll
            &&& b.timeline_scroll == a.timeline_scroll
            &&& b.week_scroll == a.week_scroll
            &&& b.timeline_view == a.timeline_view
            &&& b.should_quit == a.should_quit
        }),
{
    lemma_one_midnight(midnight, local);
    lemma_one_monday(monday, local);
    yesterday.lemma_parts();
    let back = days_later(day_start(local), -1);
    assert(back == Timestamp::at((midnight.local() - DAY) as i128, midnight.offset()));
    assert(back == yesterday);
    assert(onward(midnight) == since_filter(day_start(local)));
    assert(onward(monday) == since_filter(week_start(local)));
    assert(span(yesterday, midnight) == between_filter(back, day_start(local)));
    law_entries_have_projects(db, onward(midnight));
    law_entries_have_projects(db, onward(monday));
    law_entries_have_projects(db, span(yesterday, midnight));
    law_listed(db, onward(midnight));
    law_listed(db, onward(monday));
    law_listed(db, span(yesterday, midnight));
    law_totals(pairs(db, onward(monday))->Ok_0);
    lemma_first(db.entries, running());
    if any(db.entries, running()) {
        let k = choose|k: int|
            #[trigger] first_at(db.entries, running(), k) && first(db.entries, running()) == Some(
                db.entries[k],
            );
        assert(running()(db.entries[k]));
        assert(db.entries[k].end is None);
        assert(entry_readable()(db.entries[k]));
        let (e, p) = running_pair(db)->Ok_0->Some_0;
        lemma_found_project(db, e, p);
    } else {
        assert forall|k: int| 0 <= k < db.entries.len() implies (#[trigger] db.entries[k]).end
            is Some by {
            assert(!running()(db.entries[k]));
        }
    }
}

/// The dashboard shows a fault exactly where something could not be loaded, and what could not be
/// loaded is empty. Where there is no day before, nothing is loaded and everything stays as it was.
pub proof fn law_dashboard_fault(
    a: AppView,
    db: Db,
    local: Timestamp,
    midnight: Timestamp,
    yesterday: Timestamp,
    monday: Timestamp,
)
    requires
        FIRST <= local.local() <= LAST,
        is_midnight(midnight, local),
        yesterday.local() == midnight.local() - DAY,
        yesterday.offset() == local.offset(),
        is_monday(monday, local),
    ensures
        ({
            let b = reloaded(a, db, local);
            if midnight.local() < FIRST + DAY {
                &&& b.error_message is Some
                &&& b == (App { error_message: b.error_message, ..a })
            } else {
                &&& b.error_message is None <==> running_pair(db) is Ok && pairs(
                    db,
                    onward(midnight),
                ) is Ok && pairs(db, span(yesterday, midnight)) is Ok && pairs(db, onward(monday))
                    is Ok
                &&& running_pair(db) is Err ==> b.running_timer is None
                &&& pairs(db, onward(midnight)) is Err ==> b.today_entries.len() == 0
                &&& pairs(db, span(yesterday, midnight)) is Err ==> b.yesterday_entries.len() == 0
                &&& pairs(db, onward(monday)) is Err ==> b.week_totals.len() == 0
            }
        }),
{
    lemma_one_midnight(midnight, local);
    lemma_one_monday(monday, local);
    yesterday.lemma_parts();
    let back = days_later(day_start(local), -1);
    assert(back == Timestamp::at((midnight.local() - DAY) as i128, midnight.offset()));
    assert(back == yesterday);
    assert(onward(midnight) == since_filter(day_start(local)));
    assert(onward(monday) == since_filter(week_start(local)));
    assert(span(yesterday, midnight) == between_filter(back, day_start(local)));
    let none = Seq::<PairView>::empty();
    law_totals(none);
    if totals(none).len() > 0 {
        let name = totals(none)[0].0;
        assert(has_total(totals(none), name));
        assert(has_name(none, name));
    }
}

} // verus!
