//! The dashboard: its state, what it loads, how keys change it, and what its panels show.
use crate::cli::{entries_since, seconds_of, seconds_or_zero, since_filter};
use crate::clock::Timestamp;
use crate::dates::{
    add_days, day_start, days_later, days_reach, start_of_day, start_of_week, week_start,
};
use crate::db::{by_text, Db};
use crate::error::{refusal_text, Refusal, StintError};
use crate::models::{EntryFilter, FilterView, Text};
use crate::rows::{picked, sort_positions, sorted_by, views, within};
use crate::service::{get_entries, get_status, pairs, running_pair, Pair, PairView};
use crate::storage::{sort_texts, Storage};
use crate::text::{opt_text, same_text, texts};
use vstd::prelude::*;

verus! {

/// Which panel is focused.
#[derive(Debug, Clone, Copy, PartialEq, Eq, Structural)]
pub enum Panel {
    /// Today's entries.
    Today,
    /// The timeline.
    Timeline,
    /// Project totals of the week.
    Week,
}

impl Panel {
    /// The next panel in the cycle.
    pub open spec fn following(self) -> Panel {
        match self {
            Panel::Today => Panel::Timeline,
            Panel::Timeline => Panel::Week,
            Panel::Week => Panel::Today,
        }
    }

    /// Cycles to the next panel.
    pub fn next(self) -> (r: Self)
        ensures
            r == self.following(),
    {
        match self {
            Panel::Today => Panel::Timeline,
            Panel::Timeline => Panel::Week,
            Panel::Week => Panel::Today,
        }
    }
}

/// Which day the timeline shows.
#[derive(Debug, Clone, Copy, PartialEq, Eq, Structural)]
pub enum TimelineView {
    /// Today.
    Today,
    /// Yesterday.
    Yesterday,
}

impl TimelineView {
    /// The other day.
    pub open spec fn other(self) -> TimelineView {
        match self {
            TimelineView::Today => TimelineView::Yesterday,
            TimelineView::Yesterday => TimelineView::Today,
        }
    }

    /// Toggles between today and yesterday.
    pub fn next(self) -> (r: Self)
        ensures
            r == self.other(),
    {
        match self {
            TimelineView::Today => TimelineView::Yesterday,
            TimelineView::Yesterday => TimelineView::Today,
        }
    }
}

/// The panels form a cycle: after as many steps as there are panels the focus is back, and not
/// before.
pub proof fn law_panel_cycle(p: Panel)
    ensures
        p.following() != p,
        p.following().following() != p,
        p.following().following().following() == p,
{
}

/// Toggling the timeline twice changes nothing, toggling it once does.
pub proof fn law_timeline_toggle(v: TimelineView)
    ensures
        v.other() != v,
        v.other().other() == v,
{
}


// ---------------------------------------------------------------------------
// Totals
// ---------------------------------------------------------------------------
/// The names of the projects of some entries, each once.
pub open spec fn names_of(s: Seq<PairView>) -> Seq<Text>
    decreases s.len(),
{
    if s.len() == 0 {
        Seq::empty()
    } else {
        let rest = names_of(s.drop_last());
        let name = s.last().1.name;
        if rest.contains(name) {
            rest
        } else {
            rest.push(name)
        }
    }
}

/// The seconds of the entries of a project.
pub open spec fn named_seconds(s: Seq<PairView>, name: Text) -> int
    decreases s.len(),
{
    if s.len() == 0 {
        0
    } else {
        named_seconds(s.drop_last(), name) + if s.last().1.name == name {
            seconds_or_zero(s.last().0)
        } else {
            0
        }
    }
}

/// The nearest number that fits in 64 bits.
pub open spec fn fitted(n: int) -> i64 {
    if n > i64::MAX {
        i64::MAX
    } else if n < i64::MIN {
        i64::MIN
    } else {
        n as i64
    }
}

/// A project with its seconds, in contracts.
pub type TotalView = (Text, i64);

/// The seconds of every project, by name.
pub open spec fn totals_by_name(s: Seq<PairView>) -> Seq<TotalView> {
    let names = sorted_by(names_of(s), by_text());
    Seq::new(names.len(), |i: int| (names[i], fitted(named_seconds(s, names[i]))))
}

/// The order of totals: the most seconds first.
pub open spec fn most_first() -> spec_fn(TotalView, TotalView) -> bool {
    |a: TotalView, b: TotalView| a.1 > b.1
}

/// The seconds of every project, the most first, and by name where they are the same.
pub open spec fn totals(s: Seq<PairView>) -> Seq<TotalView> {
    sorted_by(totals_by_name(s), most_first())
}

fn name_known(names: &Vec<String>, name: &str) -> (r: bool)
    ensures
        r == texts(names@).contains(name@),
{
    for i in 0..names.len()
        invariant
            forall|k: int| 0 <= k < i ==> (#[trigger] texts(names@)[k]) != name@,
    {
        if same_text(names[i].as_str(), name) {
            assert(texts(names@)[i as int] == name@);
            return true;
        }
    }
    false
}

/// The names of the projects of some entries, each once.
fn collect_names(v: &Vec<Pair>) -> (r: Vec<String>)
    ensures
        texts(r@) == names_of(views(v@)),
{
    let ghost s = views(v@);
    let mut r: Vec<String> = Vec::new();
    assert(texts(r@) =~= names_of(s.take(0)));
    for i in 0..v.len()
        invariant
            s == views(v@),
            texts(r@) == names_of(s.take(i as int)),
    {
        proof {
            assert(s.take(i + 1).drop_last() =~= s.take(i as int));
            assert(s.take(i + 1).last() == v@[i as int]@);
        }
        if !name_known(&r, v[i].1.name.as_str()) {
            let ghost before = texts(r@);
            r.push(v[i].1.name.clone());
            assert(texts(r@) =~= before.push(v@[i as int]@.1.name));
        }
    }
    assert(s.take(v@.len() as int) =~= s);
    r
}

/// The seconds of the entries of a project, as far as they fit.
fn seconds_named(v: &Vec<Pair>, name: &str) -> (r: i64)
    ensures
        r == fitted(named_seconds(views(v@), name@)),
{
    let ghost s = views(v@);
    let mut sum: i128 = 0;
    for i in 0..v.len()
        invariant
            s == views(v@),
            sum == named_seconds(s.take(i as int), name@),
            -0x8000_0000_0000_0000 * i <= sum <= 0x8000_0000_0000_0000 * i,
            i <= v@.len() <= 0xffff_ffff_ffff_ffff,
    {
        proof {
            assert(s.take(i + 1).drop_last() =~= s.take(i as int));
            assert(s.take(i + 1).last() == v@[i as int]@);
        }
        if same_text(v[i].1.name.as_str(), name) {
            sum = sum + seconds_of(&v[i].0) as i128;
        }
    }
    assert(s.take(v@.len() as int) =~= s);
    let max: i64 = i64::MAX;
    let min: i64 = i64::MIN;
    if sum > max as i128 {
        max
    } else if sum < min as i128 {
        min
    } else {
        sum as i64
    }
}

/// The seconds of every project, the most first.
pub fn week_totals(v: &Vec<Pair>) -> (r: Vec<(String, i64)>)
    ensures
        views(r@) == totals(views(v@)),
{
    let ghost s = views(v@);
    let names = sort_texts(&collect_names(v));
    let ghost ns = texts(names@);
    let mut list: Vec<(String, i64)> = Vec::new();
    let mut at: Vec<usize> = Vec::new();
    for i in 0..names.len()
        invariant
            s == views(v@),
            ns == texts(names@),
            list@.len() == i,
            at@.len() == i,
            forall|k: int|
                0 <= k < i ==> (#[trigger] list@[k])@ == (ns[k], fitted(named_seconds(s, ns[k]))),
            forall|k: int| 0 <= k < i ==> (#[trigger] at@[k]) == k,
    {
        let n: i64 = seconds_named(v, names[i].as_str());
        list.push((names[i].clone(), n));
        at.push(i);
    }
    assert(views(list@) =~= totals_by_name(s));
    assert(picked(list@, at@) =~= views(list@));
    let more = |a: &(String, i64), b: &(String, i64)| -> (r: bool)
        ensures
            r == most_first()(a@, b@),
    {
        a.1 > b.1
    };
    let order = sort_positions(&list, &at, more, Ghost(most_first()));
    let mut r: Vec<(String, i64)> = Vec::new();
    for i in 0..order.len()
        invariant
            within(order@, list@.len()),
            r@.len() == i,
            forall|k: int|
                0 <= k < i ==> (#[trigger] r@[k])@ == list@[order@[k] as int]@,
    {
        let x = &list[order[i]];
        r.push((x.0.clone(), x.1));
    }
    assert(views(r@) =~= picked(list@, order@));
    r
}

// ---------------------------------------------------------------------------
// State
// ---------------------------------------------------------------------------
/// The state of the dashboard.
#[derive(PartialEq, Eq, Debug)]
pub struct App<P = Pair, L = Vec<Pair>, W = Vec<(String, i64)>, S = String> {
    /// The running timer with its project.
    pub running_timer: Option<P>,
    /// Today's entries with their projects.
    pub today_entries: L,
    /// Yesterday's entries with their projects.
    pub yesterday_entries: L,
    /// The seconds of every project in this week.
    pub week_totals: W,
    /// The focused panel.
    pub selected_panel: Panel,
    /// How far the panel of today is scrolled.
    pub today_scroll: usize,
    /// How far the timeline is scrolled.
    pub timeline_scroll: usize,
    /// How far the panel of the week is scrolled.
    pub week_scroll: usize,
    /// Which day the timeline shows.
    pub timeline_view: TimelineView,
    /// Whether to quit.
    pub should_quit: bool,
    /// Why the last refresh could not load everything.
    pub error_message: Option<S>,
}

/// The state of the dashboard, in contracts.
pub type AppView = App<PairView, Seq<PairView>, Seq<TotalView>, Text>;

/// A running timer that may be absent, in contracts.
pub open spec fn opt_pair(p: Option<Pair>) -> Option<PairView> {
    match p {
        Some(p) => Some(p@),
        None => None,
    }
}

impl View for App {
    type V = AppView;

    open spec fn view(&self) -> AppView {
        App {
            running_timer: opt_pair(self.running_timer),
            today_entries: views(self.today_entries@),
            yesterday_entries: views(self.yesterday_entries@),
            week_totals: views(self.week_totals@),
            selected_panel: self.selected_panel,
            today_scroll: self.today_scroll,
            timeline_scroll: self.timeline_scroll,
            week_scroll: self.week_scroll,
            timeline_view: self.timeline_view,
            should_quit: self.should_quit,
            error_message: opt_text(self.error_message),
        }
    }
}

/// The dashboard before anything is loaded.
pub open spec fn blank() -> AppView {
    App {
        running_timer: None,
        today_entries: Seq::empty(),
        yesterday_entries: Seq::empty(),
        week_totals: Seq::empty(),
        selected_panel: Panel::Today,
        today_scroll: 0,
        timeline_scroll: 0,
        week_scroll: 0,
        timeline_view: TimelineView::Today,
        should_quit: false,
        error_message: None,
    }
}

/// The filter that lets entries through from one point in time to another.
pub open spec fn between_filter(from: Timestamp, to: Timestamp) -> FilterView {
    EntryFilter {
        project_id: None,
        from: Some(from),
        to: Some(to),
        source: None,
        tags: Seq::empty(),
    }
}

/// A list, empty where it could not be loaded.
pub open spec fn or_empty(r: Result<Seq<PairView>, Refusal>) -> Seq<PairView> {
    match r {
        Ok(s) => s,
        Err(_) => Seq::empty(),
    }
}

/// Why a list could not be loaded, unless something could not be loaded before.
pub open spec fn first_fault(before: Option<Text>, r: Result<Seq<PairView>, Refusal>) -> Option<
    Text,
> {
    match (before, r) {
        (None, Err(e)) => Some(refusal_text(e)),
        _ => before,
    }
}

/// The dashboard after everything was loaded at a given local time.
pub open spec fn refreshed(a: AppView, db: Db, local: Timestamp) -> AppView {
    let today = pairs(db, since_filter(day_start(local)));
    let yesterday = pairs(
        db,
        between_filter(days_later(day_start(local), -1), day_start(local)),
    );
    let week = pairs(db, since_filter(week_start(local)));
    let fault = match running_pair(db) {
        Ok(_) => None,
        Err(e) => Some(refusal_text(e)),
    };
    App {
        running_timer: match running_pair(db) {
            Ok(r) => r,
            Err(_) => None,
        },
        today_entries: or_empty(today),
        yesterday_entries: or_empty(yesterday),
        week_totals: totals(or_empty(week)),
        error_message: first_fault(first_fault(first_fault(fault, today), yesterday), week),
        ..a
    }
}

/// Whether the day before a local time lies in the supported years.
pub open spec fn has_yesterday(local: Timestamp) -> bool {
    days_reach(day_start(local), -1)
}

/// The dashboard after it was to load everything at a given local time: where the day before is not
/// in the supported years nothing is loaded, and that is noted.
pub open spec fn reloaded(a: AppView, db: Db, local: Timestamp) -> AppView {
    if has_yesterday(local) {
        refreshed(a, db, local)
    } else {
        App { error_message: Some(refusal_text(StintError::TimeOutOfRange)), ..a }
    }
}

/// Loads the entries that a filter lets through, and notes why where that fails.
fn load(storage: &Storage, filter: &EntryFilter, fault: &mut Option<String>) -> (r: Vec<Pair>)
    requires
        storage.wf(),
    ensures
        views(r@) == or_empty(pairs(storage@, filter@)),
        opt_text(*final(fault)) == first_fault(
            opt_text(*old(fault)),
            pairs(storage@, filter@),
        ),
{
    match get_entries(storage, filter) {
        Ok(v) => v,
        Err(e) => {
            if fault.is_none() {
                *fault = Some(e.message());
            }
            let r: Vec<Pair> = Vec::new();
            assert(views(r@) =~= Seq::<PairView>::empty());
            r
        },
    }
}

/// How many lines the timeline has: one for every entry, and one where there is none.
pub open spec fn timeline_length(s: Seq<PairView>) -> nat {
    if s.len() == 0 {
        1
    } else {
        s.len()
    }
}

/// The entries that the timeline shows.
pub open spec fn shown(a: AppView) -> Seq<PairView> {
    match a.timeline_view {
        TimelineView::Today => a.today_entries,
        TimelineView::Yesterday => a.yesterday_entries,
    }
}

/// How many items a panel has.
pub open spec fn items(a: AppView, p: Panel) -> nat {
    match p {
        Panel::Today => a.today_entries.len(),
        Panel::Timeline => timeline_length(shown(a)),
        Panel::Week => a.week_totals.len(),
    }
}

/// How far a panel is scrolled.
pub open spec fn scroll(a: AppView, p: Panel) -> usize {
    match p {
        Panel::Today => a.today_scroll,
        Panel::Timeline => a.timeline_scroll,
        Panel::Week => a.week_scroll,
    }
}

/// The dashboard with a panel scrolled so far.
pub open spec fn scrolled(a: AppView, p: Panel, n: usize) -> AppView {
    match p {
        Panel::Today => App { today_scroll: n, ..a },
        Panel::Timeline => App { timeline_scroll: n, ..a },
        Panel::Week => App { week_scroll: n, ..a },
    }
}

/// The dashboard after the focused panel was scrolled up.
pub open spec fn up(a: AppView) -> AppView {
    let n = scroll(a, a.selected_panel);
    if n > 0 {
        scrolled(a, a.selected_panel, (n - 1) as usize)
    } else {
        a
    }
}

/// The dashboard after the focused panel was scrolled down: up to its last item.
pub open spec fn down(a: AppView) -> AppView {
    let n = scroll(a, a.selected_panel);
    if n + 1 < items(a, a.selected_panel) {
        scrolled(a, a.selected_panel, (n + 1) as usize)
    } else {
        a
    }
}

/// The dashboard with the other day in the timeline, from its top.
pub open spec fn toggled(a: AppView) -> AppView {
    App { timeline_view: a.timeline_view.other(), timeline_scroll: 0, ..a }
}

impl App {
    /// The dashboard before anything is loaded.
    fn empty() -> (r: App)
        ensures
            r@ == blank(),
    {
        let r = App {
            running_timer: None,
            today_entries: Vec::new(),
            yesterday_entries: Vec::new(),
            week_totals: Vec::new(),
            selected_panel: Panel::Today,
            today_scroll: 0,
            timeline_scroll: 0,
            week_scroll: 0,
            timeline_view: TimelineView::Today,
            should_quit: false,
            error_message: None,
        };
        assert(views(r.today_entries@) =~= Seq::<PairView>::empty());
        assert(views(r.yesterday_entries@) =~= Seq::<PairView>::empty());
        assert(views(r.week_totals@) =~= Seq::<TotalView>::empty());
        r
    }

    /// Loads everything at a given local time. Where the day before is not in the supported years
    /// nothing is loaded, and that is noted.
    pub fn refresh_at(&mut self, storage: &Storage, local: Timestamp)
        requires
            storage.wf(),
        ensures
            final(self)@ == reloaded(old(self)@, storage@, local),
    {
        let today = start_of_day(local);
        let yesterday = match add_days(today, -1) {
            Some(d) => d,
            None => {
                self.error_message = Some(StintError::TimeOutOfRange.message());
                return;
            },
        };
        let mut fault: Option<String> = None;
        self.running_timer = match get_status(storage) {
            Ok(r) => r,
            Err(e) => {
                fault = Some(e.message());
                None
            },
        };
        self.today_entries = load(storage, &entries_since(today), &mut fault);
        let mut filter = entries_since(yesterday);
        filter.to = Some(today);
        self.yesterday_entries = load(storage, &filter, &mut fault);
        let week = load(storage, &entries_since(start_of_week(local)), &mut fault);
        self.week_totals = week_totals(&week);
        self.error_message = fault;
    }

    /// Loads everything at the local time of the clock.
    pub fn refresh(&mut self, storage: &Storage)
        requires
            storage.wf(),
        ensures
            exists|local: Timestamp|
                final(self)@ == #[trigger] reloaded(old(self)@, storage@, local),
    {
        let local = Timestamp::now_local();
        self.refresh_at(storage, local);
    }

    /// The dashboard with everything loaded at a given local time.
    pub fn new_at(storage: &Storage, local: Timestamp) -> (r: App)
        requires
            storage.wf(),
        ensures
            r@ == reloaded(blank(), storage@, local),
    {
        let mut app = App::empty();
        app.refresh_at(storage, local);
        app
    }

    /// The dashboard with everything loaded at the local time of the clock.
    pub fn new(storage: &Storage) -> (r: App)
        requires
            storage.wf(),
        ensures
            exists|local: Timestamp| r@ == #[trigger] reloaded(blank(), storage@, local),
    {
        let local = Timestamp::now_local();
        App::new_at(storage, local)
    }

    /// Scrolls the focused panel up.
    pub fn scroll_up(&mut self)
        ensures
            final(self)@ == up(old(self)@),
    {
        match self.selected_panel {
            Panel::Today => {
                if self.today_scroll > 0 {
                    self.today_scroll = self.today_scroll - 1;
                }
            },
            Panel::Timeline => {
                if self.timeline_scroll > 0 {
                    self.timeline_scroll = self.timeline_scroll - 1;
                }
            },
            Panel::Week => {
                if self.week_scroll > 0 {
                    self.week_scroll = self.week_scroll - 1;
                }
            },
        }
    }

    /// Scrolls the focused panel down.
    pub fn scroll_down(&mut self)
        ensures
            final(self)@ == down(old(self)@),
    {
        match self.selected_panel {
            Panel::Today => {
                let n: usize = self.today_entries.len();
                if n > 0 && self.today_scroll < n - 1 {
                    self.today_scroll = self.today_scroll + 1;
                }
            },
            Panel::Timeline => {
                let n: usize = self.timeline_scroll_items();
                if n > 0 && self.timeline_scroll < n - 1 {
                    self.timeline_scroll = self.timeline_scroll + 1;
                }
            },
            Panel::Week => {
                let n: usize = self.week_totals.len();
                if n > 0 && self.week_scroll < n - 1 {
                    self.week_scroll = self.week_scroll + 1;
                }
            },
        }
    }

    /// The entries that the timeline shows.
    pub fn timeline_entries(&self) -> (r: &Vec<Pair>)
        ensures
            views(r@) == shown(self@),
    {
        match self.timeline_view {
            TimelineView::Today => &self.today_entries,
            TimelineView::Yesterday => &self.yesterday_entries,
        }
    }

    /// How many lines the timeline has.
    pub fn timeline_scroll_items(&self) -> (r: usize)
        ensures
            r == timeline_length(shown(self@)),
    {
        line_count(self.timeline_entries())
    }

    /// Toggles the timeline between today and yesterday.
    pub fn toggle_timeline_view(&mut self)
        ensures
            final(self)@ == toggled(old(self)@),
    {
        self.timeline_view = self.timeline_view.next();
        self.timeline_scroll = 0;
    }

    /// Whether the timeline shows today.
    pub fn is_timeline_today(&self) -> (r: bool)
        ensures
            r == (self@.timeline_view == TimelineView::Today),
    {
        self.timeline_view == TimelineView::Today
    }
}

/// How many lines the timeline of some entries has.
pub fn line_count(entries: &Vec<Pair>) -> (r: usize)
    ensures
        r == timeline_length(views(entries@)),
{
    if entries.len() == 0 {
        1
    } else {
        entries.len()
    }
}

// ---------------------------------------------------------------------------
// Keys
// ---------------------------------------------------------------------------
/// A key that was pressed.
#[derive(Clone, Copy, PartialEq, Eq, Structural, Debug)]
pub enum Key {
    /// A character.
    Char(char),
    /// Escape.
    Esc,
    /// Tab, forward or backward.
    Tab,
    /// The arrow up.
    Up,
    /// The arrow down.
    Down,
    /// Any other key.
    Other,
}

/// The dashboard after a key was pressed; `control` is whether the control key alone was held.
pub open spec fn pressed(a: AppView, key: Key, control: bool) -> AppView {
    match key {
        Key::Esc => App { should_quit: true, ..a },
        Key::Tab => App { selected_panel: a.selected_panel.following(), ..a },
        Key::Up => up(a),
        Key::Down => down(a),
        Key::Char(c) => if c == 'q' || (c == 'c' && control) {
            App { should_quit: true, ..a }
        } else if c == 'y' {
            toggled(App { selected_panel: Panel::Timeline, ..a })
        } else if c == 't' {
            let b = App { selected_panel: Panel::Timeline, ..a };
            if a.timeline_view == TimelineView::Today {
                b
            } else {
                toggled(b)
            }
        } else {
            a
        },
        Key::Other => a,
    }
}

impl App {
    /// Handles a key.
    pub fn handle_key(&mut self, key: Key, control: bool)
        ensures
            final(self)@ == pressed(old(self)@, key, control),
    {
        match key {
            Key::Esc => {
                self.should_quit = true;
            },
            Key::Tab => {
                self.selected_panel = self.selected_panel.next();
            },
            Key::Up => self.scroll_up(),
            Key::Down => self.scroll_down(),
            Key::Char(c) => {
                if c == 'q' || (c == 'c' && control) {
                    self.should_quit = true;
                } else if c == 'y' {
                    self.selected_panel = Panel::Timeline;
                    self.toggle_timeline_view();
                } else if c == 't' {
                    self.selected_panel = Panel::Timeline;
                    if !self.is_timeline_today() {
                        self.toggle_timeline_view();
                    }
                }
            },
            Key::Other => {},
        }
    }
}

/// Keys change neither what was loaded nor, but for the keys that quit, whether to quit.
pub proof fn law_keys_keep_data(a: AppView, key: Key, control: bool)
    ensures
        ({
            let b = pressed(a, key, control);
            &&& b.running_timer == a.running_timer
            &&& b.today_entries == a.today_entries
            &&& b.yesterday_entries == a.yesterday_entries
            &&& b.week_totals == a.week_totals
            &&& b.error_message == a.error_message
            &&& a.should_quit ==> b.should_quit
            &&& b.should_quit && !a.should_quit ==> key == Key::Esc || key == Key::Char('q') || (
            key == Key::Char('c') && control)
        }),
{
}

/// Scrolling stays within the items of the focused panel, and where it moved, up undoes down.
pub proof fn law_scrolling(a: AppView)
    requires
        scroll(a, a.selected_panel) < items(a, a.selected_panel) <= usize::MAX,
    ensures
        scroll(down(a), a.selected_panel) < items(a, a.selected_panel),
        scroll(up(a), a.selected_panel) < items(a, a.selected_panel),
        down(a) != a ==> up(down(a)) == a,
        up(a) != a ==> down(up(a)) == a,
{
}

/// The key `t` always leads to the timeline of today, and `y` twice back to the same day.
pub proof fn law_timeline_keys(a: AppView, control: bool)
    ensures
        pressed(a, Key::Char('t'), control).timeline_view == TimelineView::Today,
        pressed(a, Key::Char('t'), control).selected_panel == Panel::Timeline,
        pressed(pressed(a, Key::Char('y'), control), Key::Char('y'), control).timeline_view
            == a.timeline_view,
        pressed(a, Key::Char('y'), control).selected_panel == Panel::Timeline,
{
}

/// The arrows move the selected panel by one item, up to its first and down to its last, and no other
/// panel. The timeline has a line even without an entry.
pub proof fn law_arrows(a: AppView, control: bool)
    requires
        a.today_entries.len() <= usize::MAX,
        a.yesterday_entries.len() <= usize::MAX,
        a.week_totals.len() <= usize::MAX,
    ensures
        ({
            let u = pressed(a, Key::Up, control);
            let d = pressed(a, Key::Down, control);
            &&& u.selected_panel == a.selected_panel && d.selected_panel == a.selected_panel
            &&& u.timeline_view == a.timeline_view && d.timeline_view == a.timeline_view
            &&& a.selected_panel != Panel::Today ==> u.today_scroll == a.today_scroll
                && d.today_scroll == a.today_scroll
            &&& a.selected_panel != Panel::Timeline ==> u.timeline_scroll == a.timeline_scroll
                && d.timeline_scroll == a.timeline_scroll
            &&& a.selected_panel != Panel::Week ==> u.week_scroll == a.week_scroll && d.week_scroll
                == a.week_scroll
            &&& a.selected_panel == Panel::Today ==> moves(
                a.today_scroll,
                u.today_scroll,
                d.today_scroll,
                a.today_entries.len(),
            )
            &&& a.selected_panel == Panel::Week ==> moves(
                a.week_scroll,
                u.week_scroll,
                d.week_scroll,
                a.week_totals.len(),
            )
            &&& a.selected_panel == Panel::Timeline ==> moves(
                a.timeline_scroll,
                u.timeline_scroll,
                d.timeline_scroll,
                if a.timeline_view == TimelineView::Today {
                    a.today_entries.len()
                } else {
                    a.yesterday_entries.len()
                },
            )
        }),
{
}

/// Whether an offset goes up and down by one among so many items.
pub open spec fn moves(n: usize, up: usize, down: usize, len: nat) -> bool {
    &&& up == if n > 0 {
        n - 1
    } else {
        0
    }
    &&& down == if n + 1 < len {
        n + 1
    } else {
        n as int
    }
}

/// The key Tab goes from the panel of today to the timeline, on to the week, and back to today.
pub proof fn law_tab(a: AppView, control: bool)
    ensures
        pressed(a, Key::Tab, control) == (App {
            selected_panel: match a.selected_panel {
                Panel::Today => Panel::Timeline,
                Panel::Timeline => Panel::Week,
                Panel::Week => Panel::Today,
            },
            ..a
        }),
        pressed(a, Key::Char('y'), control).timeline_view != a.timeline_view,
        pressed(a, Key::Char('y'), control).timeline_scroll == 0,
        pressed(a, Key::Esc, control).should_quit,
        pressed(a, Key::Char('q'), control).should_quit,
        pressed(a, Key::Char('c'), true).should_quit,
        pressed(a, Key::Other, control) == a,
{
}

} // verus!
