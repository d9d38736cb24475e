//! Reports: the time of some entries, by project or by tag.
use crate::accounts::{
    belongs, has_entry, is_picked, is_project, law_listed, lemma_entry_ids, lemma_listing,
    lemma_listing_sum, lemma_one_project, lemma_row_seconds, lemma_sum_filter, lemma_sum_same,
    lists, picks, row_seconds, sum_of,
};
use crate::cli::{
    asked_filter, build_filter, failed, refused, seconds_of, seconds_or_zero, Output, OutputView,
};
use crate::clock::Timestamp;
use crate::dashboard::fitted;
use crate::db::{by_text, latest_first, read_entry, Db, Fault};
use crate::duration::{format_duration_human, human};
use crate::models::{EntryData, EntryView, FilterView, ProjectView, Text};
use crate::rows::{lemma_filter, lemma_sorted, sorted_by, views};
use crate::service::{get_entries, pairs, Pair, PairView};
use crate::storage::{sort_texts, Storage};
use crate::text::{
    before, cat3, chars_of, decimal, decimal_text, left_aligned, lemma_before_total, opt_str,
    pad_left, pad_right, right_aligned, same_text, signed_decimal, signed_text, texts,
};
use crate::upkeep::lemma_sorted_distinct;
use vstd::prelude::*;

verus! {

/// What the entries of a report are grouped by.
#[derive(Debug, Clone, Copy, PartialEq, Eq, Structural)]
pub enum GroupBy {
    /// Their project.
    Project,
    /// Their tags: an entry counts for each of them.
    Tag,
}

/// How a report is written.
#[derive(Debug, Clone, Copy, PartialEq, Eq, Structural)]
pub enum ReportFormat {
    /// Aligned columns.
    Table,
    /// A Markdown table.
    Markdown,
    /// Values separated by commas.
    Csv,
    /// JSON.
    Json,
}

/// One group of a report.
#[derive(PartialEq, Eq, Debug)]
pub struct ReportRow<S = String> {
    /// The project or the tag.
    pub group: S,
    /// The seconds of its entries, as far as they fit.
    pub seconds: i64,
    /// How many entries it has.
    pub entries: usize,
}

/// One group of a report, in contracts.
pub type RowView = ReportRow<Text>;

impl View for ReportRow {
    type V = RowView;

    open spec fn view(&self) -> RowView {
        ReportRow { group: self.group@, seconds: self.seconds, entries: self.entries }
    }
}

/// A report: its rows where they are to be written as JSON, else what to print.
#[derive(PartialEq, Eq, Debug)]
pub enum Report<O = Output, R = Vec<ReportRow>> {
    /// What to print.
    Printed(O),
    /// The rows.
    Rows(R),
}

/// A report, in contracts.
pub type ReportView = Report<OutputView, Seq<RowView>>;

impl View for Report {
    type V = ReportView;

    open spec fn view(&self) -> ReportView {
        match *self {
            Report::Printed(o) => Report::Printed(o@),
            Report::Rows(v) => Report::Rows(views(v@)),
        }
    }
}

// ---------------------------------------------------------------------------
// Words
// ---------------------------------------------------------------------------
/// What a grouping is read from.
pub open spec fn grouping_value(s: Text) -> Result<GroupBy, Text> {
    if s == "project"@ {
        Ok(GroupBy::Project)
    } else if s == "tag"@ {
        Ok(GroupBy::Tag)
    } else {
        Err("unknown grouping '"@ + s + "' (use project or tag)"@)
    }
}

/// What a format is read from.
pub open spec fn format_value(s: Text) -> Result<ReportFormat, Text> {
    if s == "table"@ {
        Ok(ReportFormat::Table)
    } else if s == "markdown"@ {
        Ok(ReportFormat::Markdown)
    } else if s == "csv"@ {
        Ok(ReportFormat::Csv)
    } else if s == "json"@ {
        Ok(ReportFormat::Json)
    } else {
        Err("unknown format '"@ + s + "' (use table, markdown, csv or json)"@)
    }
}

impl GroupBy {
    /// Reads a grouping.
    pub fn from_str_value(s: &str) -> (r: Result<GroupBy, String>)
        ensures
            match (r, grouping_value(s@)) {
                (Ok(a), Ok(b)) => a == b,
                (Err(a), Err(b)) => a@ == b,
                _ => false,
            },
    {
        if same_text(s, "project") {
            Ok(GroupBy::Project)
        } else if same_text(s, "tag") {
            Ok(GroupBy::Tag)
        } else {
            Err(cat3("unknown grouping '", s, "' (use project or tag)"))
        }
    }
}

impl ReportFormat {
    /// Reads a format.
    pub fn from_str_value(s: &str) -> (r: Result<ReportFormat, String>)
        ensures
            match (r, format_value(s@)) {
                (Ok(a), Ok(b)) => a == b,
                (Err(a), Err(b)) => a@ == b,
                _ => false,
            },
    {
        if same_text(s, "table") {
            Ok(ReportFormat::Table)
        } else if same_text(s, "markdown") {
            Ok(ReportFormat::Markdown)
        } else if same_text(s, "csv") {
            Ok(ReportFormat::Csv)
        } else if same_text(s, "json") {
            Ok(ReportFormat::Json)
        } else {
            Err(cat3("unknown format '", s, "' (use table, markdown, csv or json)"))
        }
    }
}

// ---------------------------------------------------------------------------
// Groups
// ---------------------------------------------------------------------------
/// The group of the entries without a tag.
pub open spec fn untagged() -> Text {
    "(untagged)"@
}

/// The groups that an entry counts for.
pub open spec fn groups_of(pair: PairView, by: GroupBy) -> Seq<Text> {
    match by {
        GroupBy::Project => seq![pair.1.name],
        GroupBy::Tag => if pair.0.tags.len() == 0 {
            seq![untagged()]
        } else {
            pair.0.tags
        },
    }
}

/// Some texts, and those of others that are not among them, each once.
pub open spec fn joined_by(known: Seq<Text>, more: Seq<Text>) -> Seq<Text>
    decreases more.len(),
{
    if more.len() == 0 {
        known
    } else {
        let rest = joined_by(known, more.drop_last());
        if rest.contains(more.last()) {
            rest
        } else {
            rest.push(more.last())
        }
    }
}

/// The groups of some entries, each once.
pub open spec fn all_groups(s: Seq<PairView>, by: GroupBy) -> Seq<Text>
    decreases s.len(),
{
    if s.len() == 0 {
        Seq::empty()
    } else {
        joined_by(all_groups(s.drop_last(), by), groups_of(s.last(), by))
    }
}

/// The entries of a group.
pub open spec fn in_group(s: Seq<PairView>, by: GroupBy, group: Text) -> Seq<PairView> {
    s.filter(|p: PairView| groups_of(p, by).contains(group))
}

/// The seconds of some entries.
pub open spec fn seconds_sum(s: Seq<PairView>) -> int
    decreases s.len(),
{
    if s.len() == 0 {
        0
    } else {
        seconds_sum(s.drop_last()) + seconds_or_zero(s.last().0)
    }
}

/// The row of a group.
pub open spec fn row_of(s: Seq<PairView>, by: GroupBy, group: Text) -> RowView {
    ReportRow {
        group,
        seconds: fitted(seconds_sum(in_group(s, by, group))),
        entries: in_group(s, by, group).len() as usize,
    }
}

/// The rows of a report, by the name of the group.
pub open spec fn report_rows(s: Seq<PairView>, by: GroupBy) -> Seq<RowView> {
    let groups = sorted_by(all_groups(s, by), by_text());
    Seq::new(groups.len(), |i: int| row_of(s, by, groups[i]))
}

fn text_known(v: &Vec<String>, t: &str) -> (r: bool)
    ensures
        r == texts(v@).contains(t@),
{
    for i in 0..v.len()
        invariant
            forall|k: int| 0 <= k < i ==> (#[trigger] texts(v@)[k]) != t@,
    {
        if same_text(v[i].as_str(), t) {
            assert(texts(v@)[i as int] == t@);
            return true;
        }
    }
    false
}

/// Adds a text unless it is there.
fn note(v: &mut Vec<String>, t: &str)
    ensures
        texts(final(v)@) == joined_by(texts(old(v)@), seq![t@]),
{
    proof {
        let one = seq![t@];
        assert(one.drop_last() =~= Seq::<Text>::empty());
        assert(joined_by(texts(v@), one.drop_last()) == texts(v@));
        assert(one.last() == t@);
    }
    if !text_known(v, t) {
        let ghost before = texts(v@);
        v.push(t.to_owned());
        assert(texts(v@) =~= before.push(t@));
    }
}

/// Adds the groups of an entry that are not there.
fn note_groups(v: &mut Vec<String>, pair: &Pair, by: GroupBy)
    ensures
        texts(final(v)@) == joined_by(texts(old(v)@), groups_of(pair@, by)),
{
    match by {
        GroupBy::Project => note(v, pair.1.name.as_str()),
        GroupBy::Tag => {
            let tags = &pair.0.tags;
            assert(pair@.0.tags == texts(tags@));
            if tags.len() == 0 {
                note(v, "(untagged)");
            } else {
                let ghost all = texts(tags@);
                let ghost before = texts(v@);
                assert(all.take(0) =~= Seq::<Text>::empty());
                for i in 0..tags.len()
                    invariant
                        all == texts(tags@),
                        texts(v@) == joined_by(before, all.take(i as int)),
                {
                    proof {
                        let next = all.take(i + 1);
                        assert(next.drop_last() =~= all.take(i as int));
                        assert(next.last() == tags@[i as int]@);
                        let one = seq![tags@[i as int]@];
                        assert(one.drop_last() =~= Seq::<Text>::empty());
                        assert(joined_by(texts(v@), one.drop_last()) == texts(v@));
                        assert(one.last() == tags@[i as int]@);
                    }
                    note(v, tags[i].as_str());
                }
                assert(all.take(tags@.len() as int) =~= all);
            }
        },
    }
}

/// Whether an entry counts for a group.
fn counts_for(pair: &Pair, by: GroupBy, group: &str) -> (r: bool)
    ensures
        r == groups_of(pair@, by).contains(group@),
{
    match by {
        GroupBy::Project => {
            assert(groups_of(pair@, by)[0] == pair@.1.name);
            same_text(pair.1.name.as_str(), group)
        },
        GroupBy::Tag => {
            let tags = &pair.0.tags;
            assert(pair@.0.tags == texts(tags@));
            if tags.len() == 0 {
                assert(groups_of(pair@, by)[0] == untagged());
                same_text("(untagged)", group)
            } else {
                text_known(tags, group)
            }
        },
    }
}

/// The row of a group.
fn make_row(v: &Vec<Pair>, by: GroupBy, group: &str) -> (r: ReportRow)
    ensures
        r@ == row_of(views(v@), by, group@),
{
    let ghost s = views(v@);
    let ghost test = |p: PairView| groups_of(p, by).contains(group@);
    let mut sum: i128 = 0;
    let mut count: usize = 0;
    proof {
        reveal_with_fuel(Seq::filter, 1);
        assert(s.take(0) =~= Seq::<PairView>::empty());
        assert(s.take(0).filter(test) =~= Seq::<PairView>::empty());
    }
    for i in 0..v.len()
        invariant
            s == views(v@),
            test == (|p: PairView| groups_of(p, by).contains(group@)),
            sum == seconds_sum(s.take(i as int).filter(test)),
            count == s.take(i as int).filter(test).len(),
            count <= i,
            -0x8000_0000_0000_0000 * i <= sum <= 0x8000_0000_0000_0000 * i,
            i <= v@.len() <= 0xffff_ffff_ffff_ffff,
    {
        let ghost kept = s.take(i as int).filter(test);
        proof {
            reveal_with_fuel(Seq::filter, 2);
            let next = s.take(i + 1);
            assert(next.drop_last() =~= s.take(i as int));
            assert(next.last() == v@[i as int]@);
            if test(v@[i as int]@) {
                assert(next.filter(test) == kept.push(v@[i as int]@));
                assert(next.filter(test).drop_last() =~= kept);
            } else {
                assert(next.filter(test) == kept);
            }
        }
        if counts_for(&v[i], by, group) {
            sum = sum + seconds_of(&v[i].0) as i128;
            count = count + 1;
        }
    }
    assert(s.take(v@.len() as int) =~= s);
    let max: i64 = i64::MAX;
    let min: i64 = i64::MIN;
    let seconds: i64 = if sum > max as i128 {
        max
    } else if sum < min as i128 {
        min
    } else {
        sum as i64
    };
    ReportRow { group: group.to_owned(), seconds, entries: count }
}

/// The time and the number of the entries of every group, by the name of the group.
pub fn generate_report(v: &Vec<Pair>, by: GroupBy) -> (r: Vec<ReportRow>)
    ensures
        views(r@) == report_rows(views(v@), by),
{
    let ghost s = views(v@);
    let mut groups: Vec<String> = Vec::new();
    assert(s.take(0) =~= Seq::<PairView>::empty());
    assert(texts(groups@) =~= all_groups(s.take(0), by));
    for i in 0..v.len()
        invariant
            s == views(v@),
            texts(groups@) == all_groups(s.take(i as int), by),
    {
        proof {
            assert(s.take(i + 1).drop_last() =~= s.take(i as int));
            assert(s.take(i + 1).last() == v@[i as int]@);
        }
        note_groups(&mut groups, &v[i], by);
    }
    assert(s.take(v@.len() as int) =~= s);
    let sorted = sort_texts(&groups);
    let ghost gs = texts(sorted@);
    let mut r: Vec<ReportRow> = Vec::new();
    for i in 0..sorted.len()
        invariant
            s == views(v@),
            gs == texts(sorted@),
            r@.len() == i,
            forall|k: int| 0 <= k < i ==> (#[trigger] r@[k])@ == row_of(s, by, gs[k]),
    {
        r.push(make_row(v, by, sorted[i].as_str()));
    }
    assert(views(r@) =~= report_rows(s, by));
    r
}

// ---------------------------------------------------------------------------
// Texts
// ---------------------------------------------------------------------------
/// The title of the column of groups.
pub open spec fn group_title(by: GroupBy) -> Text {
    match by {
        GroupBy::Project => "Project"@,
        GroupBy::Tag => "Tag"@,
    }
}

/// A line of a table.
pub open spec fn table_line(a: Text, b: Text, c: Text) -> Text {
    left_aligned(a, 20) + "  "@ + right_aligned(b, 10) + "  "@ + right_aligned(c, 7)
}

/// A line of a Markdown table.
pub open spec fn markdown_line(a: Text, b: Text, c: Text) -> Text {
    "| "@ + a + " | "@ + b + " | "@ + c + " |"@
}

/// Whether a character needs quotes around its field.
pub open spec fn needs_quotes(c: char) -> bool {
    c == ',' || c == '"' || c == '\n' || c == '\r'
}

/// A text with its quotes doubled.
pub open spec fn doubled(s: Text) -> Text
    decreases s.len(),
{
    if s.len() == 0 {
        Seq::empty()
    } else if s.last() == '"' {
        doubled(s.drop_last()) + seq!['"', '"']
    } else {
        doubled(s.drop_last()).push(s.last())
    }
}

/// A field: in quotes, which are doubled inside, where the text could be taken for something else.
pub open spec fn csv_field(s: Text) -> Text {
    if exists|i: int| 0 <= i < s.len() && needs_quotes(#[trigger] s[i]) {
        "\""@ + doubled(s) + "\""@
    } else {
        s
    }
}

/// The line of a row.
pub open spec fn row_line(r: RowView, format: ReportFormat) -> Text {
    match format {
        ReportFormat::Table => table_line(
            r.group,
            human(r.seconds as int),
            decimal(r.entries as nat),
        ),
        ReportFormat::Markdown => markdown_line(
            r.group,
            human(r.seconds as int),
            decimal(r.entries as nat),
        ),
        _ => csv_field(r.group) + ","@ + signed_decimal(r.seconds as int) + ","@ + decimal(
            r.entries as nat,
        ),
    }
}

/// The lines above the rows.
pub open spec fn head_lines(by: GroupBy, format: ReportFormat) -> Seq<Text> {
    match format {
        ReportFormat::Table => seq![table_line(group_title(by), "Time"@, "Entries"@)],
        ReportFormat::Markdown => seq![
            markdown_line(group_title(by), "Time"@, "Entries"@),
            "| --- | ---: | ---: |"@,
        ],
        _ => seq![group_title(by) + ",Seconds,Entries"@],
    }
}

/// The lines of a report.
pub open spec fn report_lines(rows: Seq<RowView>, by: GroupBy, format: ReportFormat) -> Seq<Text> {
    head_lines(by, format) + Seq::new(rows.len(), |i: int| row_line(rows[i], format))
}

/// The `report` command.
pub open spec fn report(
    db: Db,
    by: Result<GroupBy, Text>,
    format: Result<ReportFormat, Text>,
    filter: Result<FilterView, Text>,
) -> ReportView {
    match (by, format, filter) {
        (Err(e), _, _) => Report::Printed(failed(e)),
        (_, Err(e), _) => Report::Printed(failed(e)),
        (_, _, Err(e)) => Report::Printed(failed(e)),
        (Ok(b), Ok(k), Ok(f)) => match pairs(db, f) {
            Err(e) => Report::Printed(refused(e)),
            Ok(s) => if k == ReportFormat::Json {
                Report::Rows(report_rows(s, b))
            } else {
                Report::Printed(
                    Output {
                        out: report_lines(report_rows(s, b), b, k),
                        err: Seq::empty(),
                        failed: false,
                    },
                )
            },
        },
    }
}

fn title_of(by: GroupBy) -> (r: &'static str)
    ensures
        r@ == group_title(by),
{
    match by {
        GroupBy::Project => "Project",
        GroupBy::Tag => "Tag",
    }
}

fn line_of_table(a: &str, b: &str, c: &str) -> (r: String)
    ensures
        r@ == table_line(a@, b@, c@),
{
    let mut line = pad_right(a, 20);
    line.append("  ");
    line.append(pad_left(b, 10).as_str());
    line.append("  ");
    line.append(pad_left(c, 7).as_str());
    line
}

fn line_of_markdown(a: &str, b: &str, c: &str) -> (r: String)
    ensures
        r@ == markdown_line(a@, b@, c@),
{
    let mut line = cat3("| ", a, " | ");
    line.append(b);
    line.append(" | ");
    line.append(c);
    line.append(" |");
    line
}

fn field_of(s: &str) -> (r: String)
    ensures
        r@ == csv_field(s@),
{
    let v = chars_of(s);
    let mut quotes = false;
    let mut text = "".to_owned();
    proof {
        reveal_strlit("");
        assert(v@.take(0) =~= Seq::<char>::empty());
        assert(text@ =~= doubled(v@.take(0)));
    }
    for i in 0..v.len()
        invariant
            v@ == s@,
            quotes == exists|k: int| 0 <= k < i && needs_quotes(#[trigger] v@[k]),
            text@ == doubled(v@.take(i as int)),
    {
        let c = v[i];
        proof {
            assert(v@.take(i + 1).drop_last() =~= v@.take(i as int));
            assert(v@.take(i + 1).last() == c);
            assert(v@[i as int] == c);
        }
        let ghost before = text@;
        if c == '"' {
            text.push(c);
            text.push(c);
            assert(text@ =~= before + seq!['"', '"']);
        } else {
            text.push(c);
        }
        if c == ',' || c == '"' || c == '\n' || c == '\r' {
            assert(needs_quotes(v@[i as int]));
            quotes = true;
        }
    }
    assert(v@.take(v@.len() as int) =~= v@);
    if quotes {
        cat3("\"", text.as_str(), "\"")
    } else {
        s.to_owned()
    }
}

fn line_of_row(r: &ReportRow, format: ReportFormat) -> (line: String)
    ensures
        line@ == row_line(r@, format),
{
    let count = decimal_text(r.entries as u128);
    match format {
        ReportFormat::Table => {
            let time = format_duration_human(r.seconds);
            line_of_table(r.group.as_str(), time.as_str(), count.as_str())
        },
        ReportFormat::Markdown => {
            let time = format_duration_human(r.seconds);
            line_of_markdown(r.group.as_str(), time.as_str(), count.as_str())
        },
        _ => {
            let mut line = field_of(r.group.as_str());
            line.append(",");
            line.append(signed_text(r.seconds).as_str());
            line.append(",");
            line.append(count.as_str());
            line
        },
    }
}

/// The lines of a report.
pub fn format_report(rows: &Vec<ReportRow>, by: GroupBy, format: ReportFormat) -> (r: Output)
    ensures
        r@ == (Output {
            out: report_lines(views(rows@), by, format),
            err: Seq::<Text>::empty(),
            failed: false,
        }),
{
    let title = title_of(by);
    let mut o = Output::silent();
    match format {
        ReportFormat::Table => o.print(line_of_table(title, "Time", "Entries")),
        ReportFormat::Markdown => {
            o.print(line_of_markdown(title, "Time", "Entries"));
            o.print("| --- | ---: | ---: |".to_owned());
        },
        _ => {
            let mut line = title.to_owned();
            line.append(",Seconds,Entries");
            o.print(line);
        },
    }
    assert(o@.out =~= head_lines(by, format));
    let ghost all = report_lines(views(rows@), by, format);
    let ghost n = head_lines(by, format).len();
    assert(all.take(n as int) =~= o@.out);
    for i in 0..rows.len()
        invariant
            all == report_lines(views(rows@), by, format),
            n == head_lines(by, format).len(),
            o@.out =~= all.take(n + i),
            o@.err == Seq::<Text>::empty(),
            !o@.failed,
    {
        o.print(line_of_row(&rows[i], format));
        assert(all[n + i] == row_line(rows@[i as int]@, format));
    }
    assert(all.take((n + rows@.len()) as int) =~= all);
    o
}

/// Reports the time of entries, grouped by project or by tag.
pub fn cmd_report(
    storage: &Storage,
    group_by: &str,
    format: &str,
    from: Option<&str>,
    to: Option<&str>,
    project: Option<&str>,
    tags: &Vec<String>,
    local: Timestamp,
) -> (r: Report)
    requires
        storage.wf(),
    ensures
        r@ == report(
            storage@,
            grouping_value(group_by@),
            format_value(format@),
            asked_filter(
                storage@,
                opt_str(from),
                opt_str(to),
                opt_str(project),
                texts(tags@),
                local,
            ),
        ),
{
    let by = match GroupBy::from_str_value(group_by) {
        Ok(b) => b,
        Err(e) => return Report::Printed(Output::fail(e.as_str())),
    };
    let kind = match ReportFormat::from_str_value(format) {
        Ok(k) => k,
        Err(e) => return Report::Printed(Output::fail(e.as_str())),
    };
    let filter = match build_filter(storage, from, to, project, tags, local) {
        Ok(f) => f,
        Err(e) => return Report::Printed(Output::fail(e.as_str())),
    };
    let entries = match get_entries(storage, &filter) {
        Ok(v) => v,
        Err(e) => return Report::Printed(Output::refuse(&e)),
    };
    let rows = generate_report(&entries, by);
    match kind {
        ReportFormat::Json => Report::Rows(rows),
        _ => Report::Printed(format_report(&rows, by, kind)),
    }
}

// ---------------------------------------------------------------------------
// Laws
// ---------------------------------------------------------------------------
/// Whether a stored entry counts for a group: by project for that with the name of its project, by
/// tag for each of its tags, and without tags for the group of those.
pub open spec fn counts_in(db: Db, r: EntryData, by: GroupBy, group: Text) -> bool {
    match by {
        GroupBy::Project => exists|p: ProjectView| #[trigger]
            is_project(db, p) && p.id == r.project_id && p.name == group,
        GroupBy::Tag => r.tags.contains(group) || (r.tags.len() == 0 && group == "(untagged)"@),
    }
}

/// The seconds that a stored entry adds to a group of a report.
pub open spec fn adds_seconds(db: Db, f: FilterView, by: GroupBy, group: Text) -> spec_fn(
    EntryData,
) -> int {
    |r: EntryData|
        if picks(f, r) && counts_in(db, r, by, group) {
            row_seconds(r)
        } else {
            0
        }
}

/// The entries that a stored entry adds to a group of a report: itself or none.
pub open spec fn adds_one(db: Db, f: FilterView, by: GroupBy, group: Text) -> spec_fn(
    EntryData,
) -> int {
    |r: EntryData|
        if picks(f, r) && counts_in(db, r, by, group) {
            1
        } else {
            0
        }
}

/// Whether a report has a row for a group.
pub open spec fn has_row(rows: Seq<RowView>, group: Text) -> bool {
    exists|i: int| 0 <= i < rows.len() && (#[trigger] rows[i]).group == group
}

/// Whether a stored entry that meets a filter counts for a group.
pub open spec fn is_counted(db: Db, f: FilterView, by: GroupBy, group: Text) -> bool {
    exists|k: int|
        0 <= k < db.entries.len() && picks(f, #[trigger] db.entries[k]) && counts_in(
            db,
            db.entries[k],
            by,
            group,
        )
}

/// A report has a row for a group exactly where a stored entry that meets the filter counts for it.
/// The seconds and the number of a row are the sums over exactly those entries, the seconds as far as
/// they fit. The rows are in the order of the groups, and no group comes twice.
pub proof fn law_report(db: Db, by: GroupBy, f: FilterView, rows: Seq<RowView>)
    requires
        db.valid(),
        report(db, Ok(by), Ok(ReportFormat::Json), Ok(f)) == ReportView::Rows(rows),
        db.entries.len() <= usize::MAX,
    ensures
        forall|group: Text| #[trigger] has_row(rows, group) <==> is_counted(db, f, by, group),
        forall|i: int|
            0 <= i < rows.len() ==> {
                let sum = sum_of(db.entries, adds_seconds(db, f, by, (#[trigger] rows[i]).group));
                &&& i64::MIN <= sum <= i64::MAX ==> rows[i].seconds == sum
                &&& sum > i64::MAX ==> rows[i].seconds == i64::MAX
                &&& sum < i64::MIN ==> rows[i].seconds == i64::MIN
                &&& rows[i].entries == sum_of(db.entries, adds_one(db, f, by, rows[i].group))
            },
        forall|i: int, j: int|
            0 <= i < j < rows.len() ==> before((#[trigger] rows[i]).group, (#[trigger] rows[j]).group),
{
    let v = pairs(db, f)->Ok_0;
    assert(rows == report_rows(v, by));
    assert forall|group: Text| #[trigger] has_row(rows, group) <==> is_counted(db, f, by, group) by {
        law_listed(db, f);
        lemma_row_groups(db, by, f, v, group);
    }
    assert forall|i: int| 0 <= i < rows.len() implies {
        let sum = sum_of(db.entries, adds_seconds(db, f, by, (#[trigger] rows[i]).group));
        &&& i64::MIN <= sum <= i64::MAX ==> rows[i].seconds == sum
        &&& sum > i64::MAX ==> rows[i].seconds == i64::MAX
        &&& sum < i64::MIN ==> rows[i].seconds == i64::MIN
        &&& rows[i].entries == sum_of(db.entries, adds_one(db, f, by, rows[i].group))
    } by {
        lemma_group_sums(db, by, f, rows[i].group);
    }
    assert forall|i: int, j: int| 0 <= i < j < rows.len() implies before(
        (#[trigger] rows[i]).group,
        (#[trigger] rows[j]).group,
    ) by {
        lemma_row_order(v, by, i, j);
    }
}

/// The rows of a report are those of the groups that a stored entry counts for.
proof fn lemma_row_groups(db: Db, by: GroupBy, f: FilterView, v: Seq<PairView>, group: Text)
    requires
        db.valid(),
        lists(db, f, v),
    ensures
        has_row(report_rows(v, by), group) <==> is_counted(db, f, by, group),
{
    lemma_known(db, by, f, v, group);
    lemma_rows_by_group(v, by, group);
}

/// The rows of a report are those of the groups of its entries.
proof fn lemma_rows_by_group(v: Seq<PairView>, by: GroupBy, group: Text)
    ensures
        has_row(report_rows(v, by), group) <==> all_groups(v, by).contains(group),
{
    let rows = report_rows(v, by);
    let groups = all_groups(v, by);
    let sorted = sorted_by(groups, by_text());
    assert(groups.no_duplicates()) by {
        lemma_all_groups(v, by);
    }
    lemma_sorted_distinct(groups);
    if has_row(rows, group) {
        let i = choose|i: int| 0 <= i < rows.len() && (#[trigger] rows[i]).group == group;
        assert(sorted[i] == group);
        assert(sorted.contains(group));
    }
    if groups.contains(group) {
        assert(sorted.contains(group));
        let i = choose|i: int| 0 <= i < sorted.len() && sorted[i] == group;
        assert(rows[i].group == group);
    }
}

/// The rows of a report are in the order of their groups.
proof fn lemma_row_order(v: Seq<PairView>, by: GroupBy, i: int, j: int)
    requires
        0 <= i < j < report_rows(v, by).len(),
    ensures
        before(report_rows(v, by)[i].group, report_rows(v, by)[j].group),
{
    let groups = all_groups(v, by);
    let sorted = sorted_by(groups, by_text());
    lemma_all_groups(v, by);
    lemma_sorted_distinct(groups);
    assert(sorted[i] != sorted[j]);
    assert(!by_text()(sorted[j], sorted[i]));
    lemma_before_total(sorted[i], sorted[j]);
}

/// The groups of the listed entries are those that a stored entry counts for.
proof fn lemma_known(db: Db, by: GroupBy, f: FilterView, v: Seq<PairView>, group: Text)
    requires
        db.valid(),
        lists(db, f, v),
    ensures
        all_groups(v, by).contains(group) <==> is_counted(db, f, by, group),
{
    lemma_all_groups(v, by);
    if all_groups(v, by).contains(group) {
        let j = choose|j: int| 0 <= j < v.len() && groups_of(#[trigger] v[j], by).contains(group);
        assert(is_picked(db, f, v[j].0));
        let k = choose|k: int|
            0 <= k < db.entries.len() && picks(f, #[trigger] db.entries[k]) && read_entry(
                db.entries[k],
            ) == Ok::<EntryView, Fault>(v[j].0);
        assert(belongs(db, v[j].0, v[j].1));
        lemma_counts(db, db.entries[k], v[j].0, v[j].1, by, group);
    }
    if is_counted(db, f, by, group) {
        let k = choose|k: int|
            0 <= k < db.entries.len() && picks(f, #[trigger] db.entries[k]) && counts_in(
                db,
                db.entries[k],
                by,
                group,
            );
        assert(has_entry(v, db.entries[k].id));
        let j = choose|j: int| 0 <= j < v.len() && (#[trigger] v[j]).0.id == db.entries[k].id;
        assert(is_picked(db, f, v[j].0));
        let m = choose|m: int|
            0 <= m < db.entries.len() && picks(f, #[trigger] db.entries[m]) && read_entry(
                db.entries[m],
            ) == Ok::<EntryView, Fault>(v[j].0);
        lemma_entry_ids(db, k, m);
        assert(belongs(db, v[j].0, v[j].1));
        lemma_counts(db, db.entries[k], v[j].0, v[j].1, by, group);
        assert(groups_of(v[j], by).contains(group));
    }
}

/// The sums of a group over the listed entries are those over the stored ones.
proof fn lemma_group_sums(db: Db, by: GroupBy, f: FilterView, group: Text)
    requires
        db.valid(),
        pairs(db, f) is Ok,
        db.entries.len() <= usize::MAX,
    ensures
        ({
            let s = in_group(pairs(db, f)->Ok_0, by, group);
            &&& seconds_sum(s) == sum_of(db.entries, adds_seconds(db, f, by, group))
            &&& s.len() == sum_of(db.entries, adds_one(db, f, by, group))
            &&& s.len() <= usize::MAX
        }),
{
    let v = pairs(db, f)->Ok_0;
    let rows = db.entry_rows(f);
    let t = |p: PairView| groups_of(p, by).contains(group);
    let secs = |p: PairView| seconds_or_zero(p.0);
    let one = |p: PairView| 1int;
    let gs = |p: PairView|
        if t(p) {
            secs(p)
        } else {
            0
        };
    let go = |p: PairView|
        if t(p) {
            one(p)
        } else {
            0
        };
    let hs = |r: EntryData|
        if counts_in(db, r, by, group) {
            row_seconds(r)
        } else {
            0
        };
    let ho = |r: EntryData|
        if counts_in(db, r, by, group) {
            1int
        } else {
            0
        };
    lemma_listing(db, f);
    lemma_seconds_sum(v.filter(t));
    lemma_len_sum(v.filter(t));
    lemma_sum_filter(v, t, secs);
    lemma_sum_filter(v, t, one);
    assert forall|i: int| 0 <= i < v.len() implies gs(#[trigger] v[i]) == hs(rows[i]) && go(v[i])
        == ho(rows[i]) by {
        assert(read_entry(rows[i]) == Ok::<EntryView, Fault>(v[i].0));
        assert(belongs(db, v[i].0, v[i].1));
        lemma_counts(db, rows[i], v[i].0, v[i].1, by, group);
        lemma_row_seconds(rows[i], v[i].0);
    }
    lemma_listing_sum(db, f, gs, hs);
    lemma_listing_sum(db, f, go, ho);
    let as_ = |r: EntryData|
        if picks(f, r) {
            hs(r)
        } else {
            0
        };
    let ao = |r: EntryData|
        if picks(f, r) {
            ho(r)
        } else {
            0
        };
    lemma_sum_same(db.entries, db.entries, as_, adds_seconds(db, f, by, group));
    lemma_sum_same(db.entries, db.entries, ao, adds_one(db, f, by, group));
    lemma_filter(v, t);
    lemma_filter(db.entries, crate::db::selected(f));
    lemma_sorted(db.entries.filter(crate::db::selected(f)).reverse(), latest_first());
}

proof fn lemma_seconds_sum(s: Seq<PairView>)
    ensures
        seconds_sum(s) == sum_of(s, |p: PairView| seconds_or_zero(p.0)),
    decreases s.len(),
{
    if s.len() > 0 {
        lemma_seconds_sum(s.drop_last());
    }
}

proof fn lemma_len_sum(s: Seq<PairView>)
    ensures
        s.len() == sum_of(s, |p: PairView| 1int),
    decreases s.len(),
{
    if s.len() > 0 {
        lemma_len_sum(s.drop_last());
    }
}

/// An entry counts for the groups that its row counts for.
proof fn lemma_counts(
    db: Db,
    r: EntryData,
    e: EntryView,
    p: ProjectView,
    by: GroupBy,
    group: Text,
)
    requires
        db.valid(),
        read_entry(r) == Ok::<EntryView, Fault>(e),
        belongs(db, e, p),
    ensures
        groups_of((e, p), by).contains(group) <==> counts_in(db, r, by, group),
{
    let g = groups_of((e, p), by);
    match by {
        GroupBy::Project => {
            assert(g[0] == p.name);
            if g.contains(group) {
                assert(is_project(db, p) && p.id == r.project_id && p.name == group);
            }
            if counts_in(db, r, by, group) {
                let q = choose|q: ProjectView| #[trigger]
                    is_project(db, q) && q.id == r.project_id && q.name == group;
                lemma_one_project(db, p, q);
            }
        },
        GroupBy::Tag => {
            if e.tags.len() == 0 {
                assert(g[0] == untagged());
            }
        },
    }
}

/// The groups of some entries are those of each of them, each once.
proof fn lemma_all_groups(s: Seq<PairView>, by: GroupBy)
    ensures
        all_groups(s, by).no_duplicates(),
        forall|g: Text| #[trigger]
            all_groups(s, by).contains(g) <==> exists|j: int|
                0 <= j < s.len() && groups_of(#[trigger] s[j], by).contains(g),
    decreases s.len(),
{
    if s.len() > 0 {
        let r = s.drop_last();
        lemma_all_groups(r, by);
        lemma_joined(all_groups(r, by), groups_of(s.last(), by));
        assert forall|g: Text| #[trigger] all_groups(s, by).contains(g) <==> exists|j: int|
            0 <= j < s.len() && groups_of(#[trigger] s[j], by).contains(g) by {
            if all_groups(r, by).contains(g) {
                let j = choose|j: int| 0 <= j < r.len() && groups_of(#[trigger] r[j], by).contains(g);
                assert(s[j] == r[j]);
            }
            if groups_of(s.last(), by).contains(g) {
                assert(groups_of(s[s.len() - 1], by).contains(g));
            }
            if exists|j: int| 0 <= j < s.len() && groups_of(#[trigger] s[j], by).contains(g) {
                let j = choose|j: int| 0 <= j < s.len() && groups_of(#[trigger] s[j], by).contains(g);
                if j < r.len() {
                    assert(groups_of(r[j], by).contains(g));
                }
            }
        }
    }
}

proof fn lemma_joined(known: Seq<Text>, more: Seq<Text>)
    requires
        known.no_duplicates(),
    ensures
        joined_by(known, more).no_duplicates(),
        forall|g: Text| #[trigger]
            joined_by(known, more).contains(g) <==> known.contains(g) || more.contains(g),
    decreases more.len(),
{
    if more.len() > 0 {
        let rest = joined_by(known, more.drop_last());
        let x = more.last();
        lemma_joined(known, more.drop_last());
        let all = joined_by(known, more);
        assert forall|g: Text| #[trigger] all.contains(g) <==> known.contains(g) || more.contains(
            g,
        ) by {
            if all.contains(g) && !rest.contains(g) {
                let i = choose|i: int| 0 <= i < all.len() && all[i] == g;
                if i < rest.len() {
                    assert(rest[i] == g);
                }
                assert(more[more.len() - 1] == g);
            }
            if rest.contains(g) {
                let i = choose|i: int| 0 <= i < rest.len() && rest[i] == g;
                assert(all[i] == g);
                if more.drop_last().contains(g) {
                    let j = choose|j: int| 0 <= j < more.drop_last().len() && more.drop_last()[j] == g;
                    assert(more[j] == g);
                }
            }
            if more.contains(g) {
                let j = choose|j: int| 0 <= j < more.len() && more[j] == g;
                if j < more.len() - 1 {
                    assert(more.drop_last()[j] == g);
                } else if !rest.contains(x) {
                    assert(all[rest.len() as int] == g);
                }
            }
        }
    } else {
        assert forall|g: Text| #[trigger] joined_by(known, more).contains(g) <==> known.contains(g)
            || more.contains(g) by {}
    }
}

/// A text with every pair of quotes taken for one.
pub open spec fn undoubled(s: Text) -> Text
    decreases s.len(),
{
    if s.len() == 0 {
        Seq::empty()
    } else if s.last() == '"' && s.len() >= 2 {
        undoubled(s.take(s.len() - 2)).push('"')
    } else {
        undoubled(s.drop_last()).push(s.last())
    }
}

/// A field in quotes reads back: without the quotes around it, and with every pair of quotes taken for
/// one, it is the text. A text that has a comma, a quote or the end of a line in it is put in quotes,
/// and no other is.
pub proof fn law_csv_field(s: Text)
    ensures
        ({
            let f = csv_field(s);
            if exists|i: int|
                0 <= i < s.len() && ((#[trigger] s[i]) == ',' || s[i] == '"' || s[i] == '\n' || s[i]
                    == '\r') {
                &&& f.len() >= 2
                &&& f[0] == '"'
                &&& f.last() == '"'
                &&& undoubled(f.subrange(1, f.len() - 1)) == s
            } else {
                f == s
            }
        }),
{
    let f = csv_field(s);
    if exists|i: int| 0 <= i < s.len() && needs_quotes(#[trigger] s[i]) {
        let i = choose|i: int| 0 <= i < s.len() && needs_quotes(#[trigger] s[i]);
        assert(s[i] == ',' || s[i] == '"' || s[i] == '\n' || s[i] == '\r');
        reveal_strlit("\"");
        assert(f.subrange(1, f.len() - 1) =~= doubled(s));
        lemma_undoubled(s);
    } else {
        assert forall|i: int| 0 <= i < s.len() implies !((#[trigger] s[i]) == ',' || s[i] == '"'
            || s[i] == '\n' || s[i] == '\r') by {
            assert(!needs_quotes(s[i]));
        }
    }
}

proof fn lemma_undoubled(s: Text)
    ensures
        undoubled(doubled(s)) == s,
    decreases s.len(),
{
    if s.len() > 0 {
        let t = s.drop_last();
        let d = doubled(s);
        lemma_undoubled(t);
        assert(t.push(s.last()) =~= s);
        if s.last() == '"' {
            assert(d.take(d.len() - 2) =~= doubled(t));
        } else {
            assert(d.drop_last() =~= doubled(t));
        }
    } else {
        assert(doubled(s) =~= s);
        assert(undoubled(doubled(s)) =~= s);
    }
}

} // verus!
