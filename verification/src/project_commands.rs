//! What the commands on projects do and say.
use crate::cli::{confirmed, failed, is_yes, refused, said, Output, OutputView};
use crate::clock::Timestamp;
use crate::db::Db;
use crate::duration::{cents_value, dollars_text, law_cents_read_back};
use crate::error::StintError;
use crate::models::{Project, ProjectSource, ProjectStatus, ProjectView, Text};
use crate::rows::views;
use crate::service::{archive_project, archived, delete_project, deleted};
use crate::storage::Storage;
use crate::tags::{parse_tags, tags_value};
use crate::text::{
    cat3, clone_texts, decimal_text, digit, join, joined, opt_str, same_text, signed_decimal,
    signed_text, texts, trim, trimmed,
};
use vstd::prelude::*;

verus! {

// ---------------------------------------------------------------------------
// Rates
// ---------------------------------------------------------------------------
/// An amount in cents as dollars: the dollars, a point and two digits. Below zero both parts have a
/// minus sign, as far as they are not zero.
pub open spec fn amount(cents: int) -> Text {
    if cents >= 0 {
        dollars_text(cents as nat)
    } else {
        signed_decimal(-((-cents) / 100)) + "."@ + if (-cents) % 100 == 0 {
            "00"@
        } else {
            signed_decimal(-((-cents) % 100))
        }
    }
}

/// An hourly rate.
pub open spec fn rate_text(cents: int) -> Text {
    "$"@ + amount(cents) + "/hr"@
}

/// Writes an hourly rate.
pub fn format_rate(cents: i64) -> (r: String)
    ensures
        r@ == rate_text(cents as int),
{
    let mut s = "$".to_owned();
    if cents >= 0 {
        let c: u128 = cents as u128;
        let mut a = decimal_text(c / 100);
        a.append(".");
        let tens: u8 = ((c % 100) / 10) as u8;
        let ones: u8 = (c % 10) as u8;
        let ghost before = a@;
        a.push((48 + tens) as char);
        a.push((48 + ones) as char);
        assert(a@ =~= before + seq![
            digit(((cents as nat) % 100) / 10),
            digit((cents as nat) % 10),
        ]);
        s.append(a.as_str());
    } else {
        let m: i128 = -(cents as i128);
        let mut a = signed_text((-(m / 100)) as i64);
        a.append(".");
        if m % 100 == 0 {
            a.append("00");
        } else {
            a.append(signed_text((-(m % 100)) as i64).as_str());
        }
        s.append(a.as_str());
    }
    s.append("/hr");
    s
}

// ---------------------------------------------------------------------------
// Registering
// ---------------------------------------------------------------------------
/// The tags that an argument gives.
pub open spec fn given_tags(tags: Option<Text>) -> Seq<Text> {
    match tags {
        Some(t) => tags_value(t),
        None => Seq::empty(),
    }
}

/// The project that is registered.
pub open spec fn registered(
    name: Text,
    paths: Seq<Text>,
    tags: Option<Text>,
    rate: Option<i64>,
    now: Timestamp,
    id: Text,
) -> ProjectView {
    Project {
        id,
        name,
        paths,
        tags: given_tags(tags),
        hourly_rate_cents: rate,
        status: ProjectStatus::Active,
        source: ProjectSource::Manual,
        created_at: now,
        updated_at: now,
    }
}

/// The `project add` command.
pub open spec fn project_added(db: Db, p: ProjectView) -> (Db, OutputView) {
    match db.create_project(p) {
        Ok(d) => (d, said("Created project '"@ + p.name + "'"@)),
        Err(e) => (db, refused(StintError::Storage(e))),
    }
}

/// Registers a project; `paths` are the directories, made absolute.
pub fn cmd_project_add(
    storage: &mut Storage,
    name: &str,
    paths: &Vec<String>,
    tags: Option<&str>,
    rate: Option<i64>,
    now: Timestamp,
    id: &str,
) -> (r: Output)
    requires
        old(storage).wf(),
    ensures
        final(storage).wf(),
        ({
            let s = project_added(
                old(storage)@,
                registered(name@, texts(paths@), opt_str(tags), rate, now, id@),
            );
            final(storage)@ == s.0 && r@ == s.1
        }),
{
    let project = Project {
        id: id.to_owned(),
        name: name.to_owned(),
        paths: clone_texts(paths),
        tags: match tags {
            Some(t) => parse_tags(t),
            None => Vec::new(),
        },
        hourly_rate_cents: rate,
        status: ProjectStatus::Active,
        source: ProjectSource::Manual,
        created_at: now,
        updated_at: now,
    };
    assert(texts(project.tags@) =~= given_tags(opt_str(tags)));
    match storage.create_project(&project) {
        Ok(_) => Output::say(cat3("Created project '", name, "'")),
        Err(e) => Output::refuse(&StintError::Storage(e)),
    }
}

// ---------------------------------------------------------------------------
// Listing
// ---------------------------------------------------------------------------
/// The parts of a project line: its name, and its paths, rate and tags as far as it has any.
pub open spec fn project_parts(p: ProjectView) -> Seq<Text> {
    let paths = joined(p.paths, ", "@);
    seq![p.name] + if paths.len() == 0 {
        Seq::empty()
    } else {
        seq![paths]
    } + match p.hourly_rate_cents {
        Some(c) => seq![rate_text(c as int)],
        None => Seq::empty(),
    } + if p.tags.len() == 0 {
        Seq::empty()
    } else {
        seq!["["@ + joined(p.tags, ", "@) + "]"@]
    }
}

/// A line of the project list.
pub open spec fn project_line(p: ProjectView) -> Text {
    "  "@ + joined(project_parts(p), "  "@) + if p.status == ProjectStatus::Archived {
        " (archived)"@
    } else {
        ""@
    }
}

/// The lines of the project list.
pub open spec fn project_lines(s: Seq<ProjectView>) -> Seq<Text> {
    Seq::new(s.len(), |i: int| project_line(s[i]))
}

/// The `project list` command. Archived projects are listed on request only; where there is nothing
/// else, that is said.
pub open spec fn list_output(db: Db, all: bool) -> OutputView {
    let status = if all {
        None
    } else {
        Some(ProjectStatus::Active)
    };
    match db.list_projects(status) {
        Ok(s) => if s.len() > 0 {
            Output { out: project_lines(s), err: Seq::empty(), failed: false }
        } else if all {
            said("No projects registered. Use 'stint project add' to create one."@)
        } else {
            match db.list_projects(Some(ProjectStatus::Archived)) {
                Ok(a) => if a.len() > 0 {
                    said(
                        "No active projects. Use 'stint project list --all' to include archived."@,
                    )
                } else {
                    said("No projects registered. Use 'stint project add' to create one."@)
                },
                Err(e) => refused(StintError::Storage(e)),
            }
        },
        Err(e) => refused(StintError::Storage(e)),
    }
}

fn push_text(v: &mut Vec<String>, s: String)
    ensures
        texts(final(v)@) == texts(old(v)@).push(s@),
{
    let ghost before = v@;
    let ghost x = s@;
    v.push(s);
    assert(texts(v@) =~= texts(before).push(x));
}

fn line_of_project(p: &Project) -> (r: String)
    ensures
        r@ == project_line(p@),
{
    let mut parts: Vec<String> = Vec::new();
    assert(texts(parts@) =~= Seq::<Text>::empty());
    push_text(&mut parts, p.name.clone());
    let paths = join(&p.paths, ", ");
    if !paths.as_str().is_empty() {
        push_text(&mut parts, paths);
    }
    if let Some(c) = p.hourly_rate_cents {
        let rate = format_rate(c);
        assert(rate@.len() > 0) by {
            reveal_strlit("$");
        }
        push_text(&mut parts, rate);
    }
    if p.tags.len() > 0 {
        push_text(&mut parts, cat3("[", join(&p.tags, ", ").as_str(), "]"));
    }
    assert(texts(parts@) =~= project_parts(p@));
    let mut line = "  ".to_owned();
    line.append(join(&parts, "  ").as_str());
    if p.status == ProjectStatus::Archived {
        line.append(" (archived)");
    } else {
        line.append("");
    }
    line
}

/// Lists projects.
pub fn cmd_project_list(storage: &Storage, all: bool) -> (r: Output)
    requires
        storage.wf(),
    ensures
        r@ == list_output(storage@, all),
{
    let status = if all {
        None
    } else {
        Some(ProjectStatus::Active)
    };
    let projects = match storage.list_projects(status) {
        Ok(v) => v,
        Err(e) => return Output::refuse(&StintError::Storage(e)),
    };
    if projects.len() == 0 {
        if !all {
            let has_archived = match storage.list_projects(Some(ProjectStatus::Archived)) {
                Ok(v) => v.len() > 0,
                Err(e) => return Output::refuse(&StintError::Storage(e)),
            };
            if has_archived {
                return Output::say(
                    "No active projects. Use 'stint project list --all' to include archived.".to_owned(),
                );
            }
        }
        return Output::say(
            "No projects registered. Use 'stint project add' to create one.".to_owned(),
        );
    }
    let ghost s = views(projects@);
    let mut o = Output::silent();
    for i in 0..projects.len()
        invariant
            s == views(projects@),
            o@.out =~= project_lines(s).take(i as int),
            o@.err == Seq::<Text>::empty(),
            !o@.failed,
    {
        o.print(line_of_project(&projects[i]));
        assert(project_lines(s)[i as int] == project_line(projects@[i as int]@));
    }
    assert(project_lines(s).take(s.len() as int) =~= project_lines(s));
    o
}

// ---------------------------------------------------------------------------
// Editing
// ---------------------------------------------------------------------------
/// Which settings of a project to change.
#[derive(PartialEq, Eq, Debug)]
pub struct ProjectEdit<S = String> {
    /// The new hourly rate, in cents.
    pub rate: Option<i64>,
    /// Whether to take the rate away.
    pub clear_rate: bool,
    /// The new tags, with commas between them.
    pub tags: Option<S>,
    /// The new name.
    pub rename: Option<S>,
}

/// Which settings to change, in contracts.
pub type EditView = ProjectEdit<Text>;

impl View for ProjectEdit {
    type V = EditView;

    open spec fn view(&self) -> EditView {
        ProjectEdit {
            rate: self.rate,
            clear_rate: self.clear_rate,
            tags: crate::text::opt_text(self.tags),
            rename: crate::text::opt_text(self.rename),
        }
    }
}

/// Whether anything is to change.
pub open spec fn changes(e: EditView) -> bool {
    e.clear_rate || e.rate is Some || e.tags is Some || e.rename is Some
}

/// A project with its settings changed.
pub open spec fn with_settings(p: ProjectView, e: EditView, now: Timestamp) -> ProjectView {
    Project {
        hourly_rate_cents: if e.clear_rate {
            None
        } else if e.rate is Some {
            e.rate
        } else {
            p.hourly_rate_cents
        },
        tags: match e.tags {
            Some(t) => tags_value(t),
            None => p.tags,
        },
        name: match e.rename {
            Some(n) => trimmed(n),
            None => p.name,
        },
        updated_at: now,
        ..p
    }
}

/// What stands against a new name: it is empty, or another project has it.
pub open spec fn name_objection(db: Db, p: ProjectView, rename: Option<Text>) -> Option<Text> {
    match rename {
        Some(n) => if trimmed(n).len() == 0 {
            Some("project name cannot be empty"@)
        } else {
            match db.get_project_by_name(trimmed(n)) {
                Ok(Some(q)) => if q.id != p.id {
                    Some("project '"@ + q.name + "' already exists"@)
                } else {
                    None
                },
                _ => None,
            }
        },
        None => None,
    }
}

/// The `project edit` command.
pub open spec fn project_edited(db: Db, name: Text, e: EditView, now: Timestamp) -> (
    Db,
    OutputView,
) {
    match db.get_project_by_name(name) {
        Ok(Some(p)) => match name_objection(db, p, e.rename) {
            Some(m) => (db, failed(m)),
            None => if !changes(e) {
                (db, said("Nothing to change. Use --rate, --clear-rate, --tags, or --rename."@))
            } else {
                let q = with_settings(p, e, now);
                match db.update_project(q) {
                    Ok(d) => (
                        d,
                        said(
                            "Updated project '"@ + match e.rename {
                                Some(n) => n,
                                None => name,
                            } + "'"@ + match q.hourly_rate_cents {
                                Some(c) => " ("@ + rate_text(c as int) + ")"@,
                                None => ""@,
                            },
                        ),
                    ),
                    Err(f) => (db, refused(StintError::Storage(f))),
                }
            },
        },
        Ok(None) => (db, failed("project '"@ + name + "' not found"@)),
        Err(f) => (db, refused(StintError::Storage(f))),
    }
}

fn objection(storage: &Storage, p: &Project, rename: &Option<String>) -> (r: Option<String>)
    requires
        storage.wf(),
    ensures
        crate::text::opt_text(r) == name_objection(
            storage@,
            p@,
            crate::text::opt_text(*rename),
        ),
{
    match rename {
        Some(n) => {
            let t = trim(n.as_str());
            if t.as_str().is_empty() {
                return Some("project name cannot be empty".to_owned());
            }
            match storage.get_project_by_name(t.as_str()) {
                Ok(Some(q)) => {
                    if !same_text(q.id.as_str(), p.id.as_str()) {
                        Some(cat3("project '", q.name.as_str(), "' already exists"))
                    } else {
                        None
                    }
                },
                _ => None,
            }
        },
        None => None,
    }
}

/// Changes the settings of a project.
pub fn cmd_project_edit(storage: &mut Storage, name: &str, edit: &ProjectEdit, now: Timestamp) -> (r:
    Output)
    requires
        old(storage).wf(),
    ensures
        final(storage).wf(),
        ({
            let s = project_edited(old(storage)@, name@, edit@, now);
            final(storage)@ == s.0 && r@ == s.1
        }),
{
    let mut project = match storage.get_project_by_name(name) {
        Ok(Some(p)) => p,
        Ok(None) => return Output::fail(cat3("project '", name, "' not found").as_str()),
        Err(e) => return Output::refuse(&StintError::Storage(e)),
    };
    let ghost was = project@;
    if let Some(m) = objection(storage, &project, &edit.rename) {
        return Output::fail(m.as_str());
    }
    if !edit.clear_rate && edit.rate.is_none() && edit.tags.is_none() && edit.rename.is_none() {
        return Output::say(
            "Nothing to change. Use --rate, --clear-rate, --tags, or --rename.".to_owned(),
        );
    }
    if edit.clear_rate {
        project.hourly_rate_cents = None;
    } else if edit.rate.is_some() {
        project.hourly_rate_cents = edit.rate;
    }
    if let Some(t) = &edit.tags {
        project.tags = parse_tags(t.as_str());
    }
    if let Some(n) = &edit.rename {
        project.name = trim(n.as_str());
    }
    project.updated_at = now;
    assert(project@ == with_settings(was, edit@, now));
    match storage.update_project(&project) {
        Ok(_) => {
            let shown = match &edit.rename {
                Some(n) => n.as_str(),
                None => name,
            };
            let mut line = cat3("Updated project '", shown, "'");
            match project.hourly_rate_cents {
                Some(c) => line.append(cat3(" (", format_rate(c).as_str(), ")").as_str()),
                None => line.append(""),
            }
            Output::say(line)
        },
        Err(e) => Output::refuse(&StintError::Storage(e)),
    }
}

// ---------------------------------------------------------------------------
// Archiving, deleting, ignoring
// ---------------------------------------------------------------------------
/// The `project archive` command.
pub open spec fn archive_output(db: Db, name: Text, now: Timestamp) -> (Db, OutputView) {
    let s = archived(db, name, now);
    (
        s.0,
        match s.1 {
            Ok(p) => said("Archived project '"@ + p.name + "'"@),
            Err(e) => refused(e),
        },
    )
}

/// Archives a project.
pub fn cmd_project_archive(storage: &mut Storage, name: &str, now: Timestamp) -> (r: Output)
    requires
        old(storage).wf(),
    ensures
        final(storage).wf(),
        ({
            let s = archive_output(old(storage)@, name@, now);
            final(storage)@ == s.0 && r@ == s.1
        }),
{
    match archive_project(storage, name, now) {
        Ok(p) => Output::say(cat3("Archived project '", p.name.as_str(), "'")),
        Err(e) => Output::refuse(&e),
    }
}

/// The question before a project is deleted.
pub open spec fn delete_question(name: Text) -> Text {
    "Delete project '"@ + name + "' and all its entries? [y/N] "@
}

/// The question before a project is deleted.
pub fn ask_delete_project(name: &str) -> (r: String)
    ensures
        r@ == delete_question(name@),
{
    cat3("Delete project '", name, "' and all its entries? [y/N] ")
}

/// The `project delete` command, once it is confirmed.
pub open spec fn delete_output(db: Db, name: Text) -> (Db, OutputView) {
    let s = deleted(db, name);
    (
        s.0,
        match s.1 {
            Ok(n) => said("Deleted project '"@ + n + "'"@),
            Err(e) => refused(e),
        },
    )
}

/// Deletes a project and its entries.
pub fn cmd_project_delete(storage: &mut Storage, name: &str) -> (r: Output)
    requires
        old(storage).wf(),
    ensures
        final(storage).wf(),
        ({
            let s = delete_output(old(storage)@, name@);
            final(storage)@ == s.0 && r@ == s.1
        }),
{
    match delete_project(storage, name) {
        Ok(n) => Output::say(cat3("Deleted project '", n.as_str(), "'")),
        Err(e) => Output::refuse(&e),
    }
}

/// The end of the `project delete` command: the project is deleted where that is forced or the
/// answer is a yes.
pub fn finish_project_delete(
    storage: &mut Storage,
    name: &str,
    force: bool,
    answer: Option<&str>,
) -> (r: Output)
    requires
        old(storage).wf(),
    ensures
        final(storage).wf(),
        if force || is_yes(opt_str(answer)) {
            final(storage)@ == delete_output(old(storage)@, name@).0 && r@ == delete_output(
                old(storage)@,
                name@,
            ).1
        } else {
            final(storage)@ == old(storage)@ && r@ == said("Cancelled."@)
        },
{
    if force || confirmed(answer) {
        cmd_project_delete(storage, name)
    } else {
        Output::say("Cancelled.".to_owned())
    }
}

/// Ignores a directory; `path` is made absolute.
pub fn cmd_project_ignore(storage: &mut Storage, path: &str) -> (r: Output)
    requires
        old(storage).wf(),
    ensures
        final(storage).wf(),
        final(storage)@ == old(storage)@.add_ignored_path(path@),
        r@ == said("Ignoring '"@ + path@ + "'"@),
{
    storage.add_ignored_path(path);
    Output::say(cat3("Ignoring '", path, "'"))
}

/// Ignores a directory no longer; `path` is made absolute.
pub fn cmd_project_unignore(storage: &mut Storage, path: &str) -> (r: Output)
    requires
        old(storage).wf(),
    ensures
        final(storage).wf(),
        final(storage)@ == old(storage)@.remove_ignored_path(path@),
        r@ == if old(storage)@.ignored.contains(path@) {
            said("Removed '"@ + path@ + "' from ignore list"@)
        } else {
            said("'"@ + path@ + "' was not in the ignore list"@)
        },
{
    if storage.remove_ignored_path(path) {
        Output::say(cat3("Removed '", path, "' from ignore list"))
    } else {
        Output::say(cat3("'", path, "' was not in the ignore list"))
    }
}

/// A rate that is shown has the amount in it that reads back as the rate.
pub proof fn law_rate_shown(cents: nat)
    requires
        cents <= i64::MAX,
    ensures
        exists|t: Text| #[trigger]
            cents_value(t) == Ok::<i64, Text>(cents as i64) && rate_text(cents as int) == "$"@ + t
                + "/hr"@,
{
    law_cents_read_back(cents);
    let t = dollars_text(cents);
    assert(cents_value(t) == Ok::<i64, Text>(cents as i64));
}

} // verus!
