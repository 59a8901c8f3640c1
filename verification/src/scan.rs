//! The scan over session logs: which sessions count, under which project, and
//! what they add up to.
use vstd::prelude::*;
use vstd::string::*;
use crate::event::{event_views, in_time_order, texts, Event, EventV};
use crate::json::opt_text;
use crate::log::{session_title, title_of, SessionMeta};
use crate::names::{at_or, lemma_values_are_sound, lists_names, names_of, Item, NameMap};
use crate::project::{
    apply_merge, decode_project_folder, folder_path, let_through, lowercase_all, matches_project,
    merged, rule_views, MergeRule, MergeRuleV,
};
use crate::session::session_total;
use crate::sums::{lemma_part_of_sum, lemma_sum_grows, sum_by};
use crate::tables::{
    covered_on, law_empty_tables_are_balanced, law_joined_tables_are_balanced,
    law_session_spans_run_forward, law_session_tables_are_balanced, law_tables_join_in_any_order,
    lemma_session_fits, lemma_session_is_one, session_tables, spans_forward, try_total, Tables,
    TablesV,
};
use crate::text::lowercase;
use crate::time::{
    calendar_day, date_of, date_within, day_between, fmt_dt, in_rfc3339_years, instant_of,
    instant_read, law_instant_has_its_parts, law_rank_tells_instants_apart, now, read_rfc3339,
    rfc3339_text, Instant, TzOffset,
};
use crate::tokens::Tokens;
use crate::usage::UsageV;

verus! {

/// What a scan is asked for.
pub struct Settings {
    /// The longest time between two events, in seconds, that counts as
    /// activity.
    pub threshold: u64,
    pub tz: TzOffset,
    /// The first date, as the number of its day.
    pub from: Option<i32>,
    /// The last date, as the number of its day.
    pub to: Option<i32>,
    pub merges: Vec<MergeRule>,
    /// Parts of the names or working directories of the projects that count.
    pub filters: Vec<String>,
}

/// The seconds of a threshold given in minutes.
pub fn threshold_of(minutes: u64) -> (r: u64)
    requires
        minutes * 60 <= u64::MAX,
    ensures
        r == minutes * 60,
{
    minutes * 60
}

/// A folder of logs, as far as it is known which project it belongs to.
pub struct Folder {
    /// The name of the project.
    pub name: String,
    /// The working directory that the first log with one names.
    pub cwd: Option<String>,
}

/// A folder of logs over plain sequences.
pub struct FolderV {
    pub name: Seq<char>,
    pub cwd: Option<Seq<char>>,
}

impl View for Folder {
    type V = FolderV;

    open spec fn view(&self) -> FolderV {
        FolderV { name: self.name@, cwd: opt_text(self.cwd) }
    }
}

impl FolderV {
    /// A folder by its name alone: the project is the path that the name stands
    /// for, merged.
    pub open spec fn named(dir: Seq<char>, rules: Seq<MergeRuleV>) -> FolderV {
        FolderV { name: merged(folder_path(dir), rules), cwd: None }
    }

    /// The folder after a log with a working directory. The first that is not
    /// empty names the project from then on, merged.
    pub open spec fn after(self, cwd: Seq<char>, rules: Seq<MergeRuleV>) -> FolderV {
        if self.cwd is None && cwd.len() > 0 {
            FolderV { name: merged(cwd, rules), cwd: Some(cwd) }
        } else {
            self
        }
    }
}

impl Folder {
    /// A folder by its name alone.
    pub fn new(dir: &str, rules: &[MergeRule]) -> (r: Folder)
        ensures
            r@ == FolderV::named(dir@, rule_views(rules@)),
    {
        Folder { name: apply_merge(decode_project_folder(dir).as_str(), rules), cwd: None }
    }

    /// Takes note of the working directory of a log.
    pub fn learn(&mut self, cwd: &str, rules: &[MergeRule])
        ensures
            final(self)@ == old(self)@.after(cwd@, rule_views(rules@)),
    {
        if self.cwd.is_none() && !cwd.is_empty() {
            self.cwd = Some(cwd.to_owned());
            self.name = apply_merge(cwd, rules);
        }
    }
}

/// A folder whose working directory is known stays as it is.
pub proof fn law_first_working_directory_stays(
    folder: FolderV,
    a: Seq<char>,
    b: Seq<char>,
    rules: Seq<MergeRuleV>,
)
    requires
        a.len() > 0,
    ensures
        folder.after(a, rules).after(b, rules) == folder.after(a, rules),
{
}

/// The log of one session, as it was read.
pub struct SessionLog {
    pub id: String,
    pub file: String,
    pub meta: SessionMeta,
    pub events: Vec<Event>,
}

/// What one session amounts to.
pub struct SessionStat {
    pub project: String,
    pub session_id: String,
    pub title: Option<String>,
    pub file: String,
    pub start: String,
    pub end: String,
    pub active_sec: u64,
    pub total_sec: u64,
    pub messages: u64,
    pub tokens: Tokens,
    /// Cost in hundred-millionths of a US dollar.
    pub cost: u128,
    pub models: Vec<String>,
}

/// `s` tells of the session with the given log, under the given project.
pub open spec fn session_told(
    s: SessionStat,
    project: Seq<char>,
    log: SessionLog,
    tz: TzOffset,
    threshold: int,
) -> bool {
    let events = event_views(log.events@);
    let total = session_total(events, threshold);
    &&& s.project@ == project
    &&& s.session_id@ == log.id@
    &&& opt_text(s.title) == session_title(log.meta)
    &&& s.file@ == log.file@
    &&& s.start@ == rfc3339_text(events[0].at.secs(), events[0].at.nanos(), tz.secs())
    &&& s.end@ == rfc3339_text(events.last().at.secs(), events.last().at.nanos(), tz.secs())
    &&& s.active_sec == total.active_sec
    &&& s.total_sec == total.total_sec
    &&& s.messages == total.messages
    &&& s.tokens@ == total.tokens
    &&& s.cost == total.cost
    &&& lists_names(texts(s.models@), session_tables(events, tz, threshold).models)
}

/// What the sessions of one project add up to.
pub struct ProjectTally {
    /// The working directory, where one was known with the first session.
    pub cwd: Option<String>,
    /// When the first session starts, in RFC 3339 form.
    pub first: Option<String>,
    /// When the last session ends, in RFC 3339 form.
    pub last: Option<String>,
    pub tables: Tables,
}

/// What the sessions of one project add up to, over plain values.
pub struct ProjectTallyV {
    pub cwd: Option<Seq<char>>,
    pub first: Option<Seq<char>>,
    pub last: Option<Seq<char>>,
    pub tables: TablesV,
}

impl View for ProjectTally {
    type V = ProjectTallyV;

    open spec fn view(&self) -> ProjectTallyV {
        ProjectTallyV {
            cwd: opt_text(self.cwd),
            first: opt_text(self.first),
            last: opt_text(self.last),
            tables: self.tables@,
        }
    }
}

impl Item for ProjectTally {
    open spec fn sound(&self) -> bool {
        self.tables.wf()
    }
}

/// The instant in UTC in RFC 3339 form.
pub open spec fn utc_text(at: Instant) -> Seq<char> {
    rfc3339_text(at.secs(), at.nanos(), 0)
}

/// The instant that a text in RFC 3339 form denotes, or another where it is
/// none.
pub open spec fn instant_or(text: Seq<char>, other: Instant) -> Instant {
    match instant_read(text) {
        Some(at) => at,
        None => other,
    }
}

/// The mark of the first start after one more start: the new one where there
/// was none, or where it is earlier. A mark that cannot be read stands for the
/// present.
pub open spec fn first_mark(mark: Option<Seq<char>>, at: Instant, present: Instant) -> Option<
    Seq<char>,
> {
    match mark {
        Some(t) if at.rank() >= instant_or(t, present).rank() => mark,
        _ => Some(utc_text(at)),
    }
}

/// The mark of the last end after one more end: the new one where there was
/// none, or where it is later. A mark that cannot be read stands for 1970.
pub open spec fn last_mark(mark: Option<Seq<char>>, at: Instant) -> Option<Seq<char>> {
    match mark {
        Some(t) if at.rank() <= instant_or(t, instant_of((0, 0))).rank() => mark,
        _ => Some(utc_text(at)),
    }
}

/// A mark that cannot be read gives way to a start before the present, and to an
/// end after 1970; else it stays.
pub proof fn law_unreadable_marks_stand_for_the_present_and_1970(
    t: Seq<char>,
    at: Instant,
    present: Instant,
    epoch: Instant,
)
    requires
        instant_read(t) is None,
        epoch.secs() == 0 && epoch.nanos() == 0,
    ensures
        first_mark(Some(t), at, present) == if at.rank() < present.rank() {
            Some(utc_text(at))
        } else {
            Some(t)
        },
        last_mark(Some(t), at) == if epoch.rank() < at.rank() {
            Some(utc_text(at))
        } else {
            Some(t)
        },
        first_mark(None, at, present) == Some(utc_text(at)),
        last_mark(None, at) == Some(utc_text(at)),
{
    broadcast use law_instant_has_its_parts;

    assert(instant_of((0, 0)).secs() == 0 && instant_of((0, 0)).nanos() == 0);
}

/// The mark is a text that denotes the instant.
pub open spec fn marks(mark: Option<Seq<char>>, at: Instant) -> bool {
    mark matches Some(t) && instant_read(t) == Some(at)
}

/// The mark of the first start after one more start. In the years 0000 to
/// 9999 it denotes the earlier of the two.
pub fn mark_first(mark: &Option<String>, at: &Instant, present: &Instant) -> (r: Option<String>)
    ensures
        opt_text(r) == first_mark(opt_text(*mark), *at, *present),
        in_rfc3339_years(at.secs()) && *mark is None ==> marks(opt_text(r), *at),
        in_rfc3339_years(at.secs()) ==> forall|old_at: Instant| #[trigger]
            marks(opt_text(*mark), old_at) ==> marks(
                opt_text(r),
                if at.rank() < old_at.rank() {
                    *at
                } else {
                    old_at
                },
            ),
{
    if let Some(t) = mark {
        let before = match read_rfc3339(t.as_str()) {
            Some(x) => x,
            None => *present,
        };
        if before.not_after(at) {
            return Some(t.clone());
        }
    }
    let utc = TzOffset::new(0).unwrap();
    Some(fmt_dt(at, &utc))
}

/// The mark of the last end after one more end. In the years 0000 to 9999 it
/// denotes the later of the two.
pub fn mark_last(mark: &Option<String>, at: &Instant) -> (r: Option<String>)
    ensures
        opt_text(r) == last_mark(opt_text(*mark), *at),
        in_rfc3339_years(at.secs()) && *mark is None ==> marks(opt_text(r), *at),
        in_rfc3339_years(at.secs()) ==> forall|old_at: Instant| #[trigger]
            marks(opt_text(*mark), old_at) ==> marks(
                opt_text(r),
                if at.rank() > old_at.rank() {
                    *at
                } else {
                    old_at
                },
            ),
{
    broadcast use law_instant_has_its_parts;

    if let Some(t) = mark {
        let before = match read_rfc3339(t.as_str()) {
            Some(x) => x,
            None => Instant::new(0, 0).unwrap(),
        };
        if at.not_after(&before) {
            return Some(t.clone());
        }
    }
    let utc = TzOffset::new(0).unwrap();
    Some(fmt_dt(at, &utc))
}

impl ProjectTallyV {
    /// A project without a session.
    pub open spec fn new(cwd: Option<Seq<char>>) -> ProjectTallyV {
        ProjectTallyV { cwd, first: None, last: None, tables: TablesV::empty() }
    }

    /// The project with one more session.
    pub open spec fn with(
        self,
        events: Seq<EventV>,
        tz: TzOffset,
        threshold: int,
        present: Instant,
    ) -> ProjectTallyV {
        ProjectTallyV {
            cwd: self.cwd,
            first: first_mark(self.first, events[0].at, present),
            last: last_mark(self.last, events.last().at),
            tables: self.tables.joined(session_tables(events, tz, threshold)),
        }
    }
}

/// The earlier instant of two, the first of which may be missing.
pub open spec fn earlier_of(a: Option<Instant>, b: Instant) -> Instant {
    match a {
        Some(x) if x.rank() <= b.rank() => x,
        _ => b,
    }
}

/// The later instant of two, the first of which may be missing.
pub open spec fn later_of(a: Option<Instant>, b: Instant) -> Instant {
    match a {
        Some(x) if b.rank() <= x.rank() => x,
        _ => b,
    }
}

/// The earlier instant of two, the first of which may be missing.
fn earlier(a: &Option<Instant>, b: &Instant) -> (r: Instant)
    ensures
        r == earlier_of(*a, *b),
{
    match a {
        Some(x) => if x.not_after(b) {
            *x
        } else {
            *b
        },
        None => *b,
    }
}

/// The later instant of two, the first of which may be missing.
fn later(a: &Option<Instant>, b: &Instant) -> (r: Instant)
    ensures
        r == later_of(*a, *b),
{
    match a {
        Some(x) => if b.not_after(x) {
            *x
        } else {
            *b
        },
        None => *b,
    }
}

impl ProjectTally {
    /// A project without a session.
    fn new(cwd: &Option<String>) -> (r: ProjectTally)
        ensures
            r.sound(),
            r@ == ProjectTallyV::new(opt_text(*cwd)),
    {
        ProjectTally { cwd: cwd.clone(), first: None, last: None, tables: Tables::new() }
    }

    /// Adds a session, from its tables, its start and its end.
    fn add_session(&mut self, tables: &Tables, start: &Instant, end: &Instant, present: &Instant)
        requires
            old(self).sound(),
            tables.wf(),
            old(self)@.tables.total.plus(tables@.total).fits(),
        ensures
            final(self).sound(),
            final(self)@ == (ProjectTallyV {
                cwd: old(self)@.cwd,
                first: first_mark(old(self)@.first, *start, *present),
                last: last_mark(old(self)@.last, *end),
                tables: old(self)@.tables.joined(tables@),
            }),
    {
        self.tables.join(tables);
        self.first = mark_first(&self.first, start, present);
        self.last = mark_last(&self.last, end);
    }
}

/// What the sessions add up to that a scan has counted.
pub struct Scan {
    /// All sessions together.
    pub all: Tables,
    pub projects: NameMap<ProjectTally>,
    /// The sessions, in the order in which they were counted.
    pub sessions: Vec<SessionStat>,
    /// The earliest start.
    pub earliest: Option<Instant>,
    /// The latest end.
    pub latest: Option<Instant>,
}

/// What the sessions add up to that a scan has counted, over plain values.
pub struct ScanV {
    pub all: TablesV,
    pub projects: Map<Seq<char>, ProjectTallyV>,
    pub earliest: Option<Instant>,
    pub latest: Option<Instant>,
}

impl View for Scan {
    type V = ScanV;

    open spec fn view(&self) -> ScanV {
        ScanV {
            all: self.all@,
            projects: self.projects@,
            earliest: self.earliest,
            latest: self.latest,
        }
    }
}

impl ScanV {
    /// A scan that has counted nothing.
    pub open spec fn empty() -> ScanV {
        ScanV { all: TablesV::empty(), projects: Map::empty(), earliest: None, latest: None }
    }

    /// The scan with one more session, of the project of a folder.
    pub open spec fn with(
        self,
        folder: FolderV,
        events: Seq<EventV>,
        tz: TzOffset,
        threshold: int,
        present: Instant,
    ) -> ScanV {
        ScanV {
            all: self.all.joined(session_tables(events, tz, threshold)),
            projects: self.projects.insert(
                folder.name,
                at_or(self.projects, folder.name, ProjectTallyV::new(folder.cwd)).with(
                    events,
                    tz,
                    threshold,
                    present,
                ),
            ),
            earliest: Some(earlier_of(self.earliest, events[0].at)),
            latest: Some(later_of(self.latest, events.last().at)),
        }
    }
}

/// What a project amounts to.
pub open spec fn project_total() -> spec_fn(ProjectTallyV) -> UsageV {
    |p: ProjectTallyV| p.tables.total
}

/// What a project has on a day.
pub open spec fn on_day(d: Seq<char>) -> spec_fn(ProjectTallyV) -> UsageV {
    |p: ProjectTallyV| at_or(p.tables.days, d, UsageV::zero())
}

impl ScanV {
    /// The tables of all and of each project are balanced, and what the projects
    /// amount to, together and on each day, is what everything amounts to.
    pub open spec fn balanced(self) -> bool {
        &&& self.all.balanced()
        &&& self.projects.dom().finite()
        &&& forall|k: Seq<char>| #[trigger]
            self.projects.contains_key(k) ==> self.projects[k].tables.balanced()
        &&& sum_by(self.projects, project_total()) == self.all.total
        &&& forall|d: Seq<char>| #[trigger]
            sum_by(self.projects, on_day(d)) == at_or(self.all.days, d, UsageV::zero())
    }
}

/// A scan that has counted nothing is balanced.
pub proof fn law_empty_scan_is_balanced()
    ensures
        ScanV::empty().balanced(),
{
    law_empty_tables_are_balanced();
}

/// A balanced scan stays balanced with every session that is counted.
pub proof fn law_counting_keeps_the_balance(
    scan: ScanV,
    folder: FolderV,
    events: Seq<EventV>,
    tz: TzOffset,
    threshold: int,
    present: Instant,
)
    requires
        scan.balanced(),
        events.len() > 0,
    ensures
        scan.with(folder, events, tz, threshold, present).balanced(),
{
    let t = session_tables(events, tz, threshold);
    let first = ProjectTallyV::new(folder.cwd);
    let p = at_or(scan.projects, folder.name, first);
    let q = p.with(events, tz, threshold, present);
    law_empty_tables_are_balanced();
    law_session_tables_are_balanced(events, tz, threshold);
    law_joined_tables_are_balanced(scan.all, t);
    law_joined_tables_are_balanced(p.tables, t);
    lemma_sum_grows(scan.projects, project_total(), folder.name, first, q, t.total);
    let grown = scan.with(folder, events, tz, threshold, present);
    assert forall|d: Seq<char>| #[trigger] sum_by(grown.projects, on_day(d)) == at_or(
        grown.all.days,
        d,
        UsageV::zero(),
    ) by {
        let more = at_or(t.days, d, UsageV::zero());
        assert(at_or(p.tables.joined(t).days, d, UsageV::zero()) == at_or(
            p.tables.days,
            d,
            UsageV::zero(),
        ).plus(more));
        lemma_sum_grows(scan.projects, on_day(d), folder.name, first, q, more);
        assert(sum_by(scan.projects, on_day(d)) == at_or(scan.all.days, d, UsageV::zero()));
        assert(at_or(scan.all.joined(t).days, d, UsageV::zero()) == at_or(
            scan.all.days,
            d,
            UsageV::zero(),
        ).plus(more));
    }
}

/// The order in which sessions are counted does not matter for any amount, for
/// the seconds that the spans of a day cover together, for the first and last
/// day, nor for what each project amounts to.
pub proof fn law_sessions_count_in_any_order(
    scan: ScanV,
    x: FolderV,
    a: Seq<EventV>,
    y: FolderV,
    b: Seq<EventV>,
    tz: TzOffset,
    threshold: int,
    present: Instant,
)
    requires
        scan.all.within_total(),
        spans_forward(scan.all.spans),
        scan.earliest matches Some(t) ==> t.valid(),
        scan.latest matches Some(t) ==> t.valid(),
        in_time_order(a) && a.len() > 0,
        in_time_order(b) && b.len() > 0,
    ensures
        ({
            let p = scan.with(x, a, tz, threshold, present).with(y, b, tz, threshold, present);
            let q = scan.with(y, b, tz, threshold, present).with(x, a, tz, threshold, present);
            &&& p.all == (TablesV { spans: p.all.spans, ..q.all })
            &&& forall|d: Seq<char>| #[trigger]
                covered_on(p.all.spans, d) == covered_on(q.all.spans, d)
            &&& p.earliest == q.earliest
            &&& p.latest == q.latest
            &&& p.projects.dom() == q.projects.dom()
            &&& forall|k: Seq<char>| #[trigger]
                p.projects.contains_key(k) ==> p.projects[k].tables.total
                    == q.projects[k].tables.total
        }),
{
    let p = scan.with(x, a, tz, threshold, present).with(y, b, tz, threshold, present);
    let q = scan.with(y, b, tz, threshold, present).with(x, a, tz, threshold, present);
    let s = session_tables(a, tz, threshold);
    let t = session_tables(b, tz, threshold);
    law_session_spans_run_forward(a, tz, threshold);
    law_session_spans_run_forward(b, tz, threshold);
    law_tables_join_in_any_order(scan.all, s, t);
    assert(a[0].at.valid() && b[0].at.valid());
    assert(a[a.len() - 1].at.valid() && b[b.len() - 1].at.valid());
    assert(p.projects.dom() =~= q.projects.dom());
    if a[0].at.rank() == b[0].at.rank() {
        law_rank_tells_instants_apart(a[0].at, b[0].at);
    }
    if a.last().at.rank() == b.last().at.rank() {
        law_rank_tells_instants_apart(a.last().at, b.last().at);
    }
    if let Some(e) = scan.earliest {
        if e.rank() == a[0].at.rank() {
            law_rank_tells_instants_apart(e, a[0].at);
        }
        if e.rank() == b[0].at.rank() {
            law_rank_tells_instants_apart(e, b[0].at);
        }
    }
    if let Some(l) = scan.latest {
        if l.rank() == a.last().at.rank() {
            law_rank_tells_instants_apart(l, a.last().at);
        }
        if l.rank() == b.last().at.rank() {
            law_rank_tells_instants_apart(l, b.last().at);
        }
    }
    assert forall|k: Seq<char>| #[trigger] p.projects.contains_key(k) implies p.projects[
        k].tables.total == q.projects[k].tables.total by {
        let u = at_or(scan.projects, k, ProjectTallyV::new(None)).tables.total;
        assert(u.plus(s.total).plus(t.total) == u.plus(t.total).plus(s.total));
    }
}

/// What a session's record says that it amounts to.
pub open spec fn told_usage(s: SessionStat) -> UsageV {
    UsageV {
        active_sec: s.active_sec as int,
        total_sec: s.total_sec as int,
        sessions: 1,
        messages: s.messages as int,
        tool_uses: 0,
        blocks: 0,
        tokens: s.tokens@,
        cost: s.cost as int,
    }
}

/// What sessions' records say that they amount to together.
pub open spec fn told_sum(sessions: Seq<SessionStat>) -> UsageV
    decreases sessions.len(),
{
    if sessions.len() == 0 {
        UsageV::zero()
    } else {
        told_sum(sessions.drop_last()).plus(told_usage(sessions.last()))
    }
}

/// What becomes of a session.
#[derive(Clone, Copy, Debug, PartialEq, Eq, Structural)]
pub enum Fate {
    /// It has no event.
    Empty,
    /// It starts on a date that is not asked for.
    OutsideDates,
    /// Its project is not asked for.
    OtherProject,
    Counted,
}

/// What becomes of a session, given its folder with the session's working
/// directory taken note of.
pub open spec fn fate_of(
    events: Seq<EventV>,
    folder: FolderV,
    cwd: Seq<char>,
    settings: Settings,
) -> Fate {
    if events.len() == 0 {
        Fate::Empty
    } else if !day_between(
        calendar_day(date_of(events[0].at, settings.tz)),
        settings.from,
        settings.to,
    ) {
        Fate::OutsideDates
    } else if !let_through(
        lowercase(folder.name),
        lowercase(cwd),
        lowercase_all(texts(settings.filters@)),
    ) {
        Fate::OtherProject
    } else {
        Fate::Counted
    }
}

/// The day is not before the first date asked for, nor after the last.
pub open spec fn is_asked_for(day: int, settings: Settings) -> bool {
    (settings.from matches Some(f) ==> f <= day) && (settings.to matches Some(t) ==> day <= t)
}

/// A session counts if and only if it has an event, the date of its first event
/// is asked for or cannot be told, and its project is let through. Without an
/// event nothing else is looked at, and the date comes before the project.
pub proof fn law_sessions_count_that_are_asked_for(
    events: Seq<EventV>,
    folder: FolderV,
    cwd: Seq<char>,
    settings: Settings,
)
    ensures
        fate_of(events, folder, cwd, settings) is Empty <==> events.len() == 0,
        events.len() > 0 ==> {
            let day = calendar_day(date_of(events[0].at, settings.tz));
            let dated = day matches Some(d) ==> is_asked_for(d as int, settings);
            let passed = let_through(
                lowercase(folder.name),
                lowercase(cwd),
                lowercase_all(texts(settings.filters@)),
            );
            &&& fate_of(events, folder, cwd, settings) is OutsideDates <==> !dated
            &&& fate_of(events, folder, cwd, settings) is OtherProject <==> dated && !passed
            &&& fate_of(events, folder, cwd, settings) is Counted <==> dated && passed
        },
{
}

/// The first working directory that is not empty names a folder's project, with
/// the rules applied; until then the folder's own name does. Later ones, empty
/// ones, and those of logs without an event change nothing.
pub proof fn law_the_working_directory_names_the_project(
    folder: FolderV,
    dir: Seq<char>,
    log: SessionLog,
    rules: Seq<MergeRuleV>,
)
    ensures
        FolderV::named(dir, rules).name == merged(folder_path(dir), rules),
        FolderV::named(dir, rules).cwd is None,
        log.events@.len() == 0 || log.meta.cwd@.len() == 0 || folder.cwd is Some ==> folder_after(
            folder,
            log,
            rules,
        ) == folder,
        log.events@.len() > 0 && log.meta.cwd@.len() > 0 && folder.cwd is None ==> folder_after(
            folder,
            log,
            rules,
        ).name == merged(log.meta.cwd@, rules) && folder_after(folder, log, rules).cwd == Some(
            log.meta.cwd@,
        ),
{
}

/// The folder after a log: one without an event is not taken note of.
pub open spec fn folder_after(folder: FolderV, log: SessionLog, rules: Seq<MergeRuleV>) -> FolderV {
    if log.events@.len() == 0 {
        folder
    } else {
        folder.after(log.meta.cwd@, rules)
    }
}

/// What becomes of a session whose folder has taken note of it.
pub fn judge(log: &SessionLog, folder: &Folder, settings: &Settings) -> (r: Fate)
    ensures
        r == fate_of(event_views(log.events@), folder@, log.meta.cwd@, *settings),
{
    if log.events.len() == 0 {
        return Fate::Empty;
    }
    if !date_within(&log.events[0].at, &settings.tz, &settings.from, &settings.to) {
        return Fate::OutsideDates;
    }
    if !matches_project(
        folder.name.as_str(),
        log.meta.cwd.as_str(),
        settings.filters.as_slice(),
    ) {
        return Fate::OtherProject;
    }
    Fate::Counted
}

/// Tells of one session.
pub fn tell_session(
    project: &str,
    log: &SessionLog,
    tables: &Tables,
    tz: &TzOffset,
    threshold: u64,
) -> (r: SessionStat)
    requires
        log.events@.len() > 0,
        tables.wf(),
        tables@ == session_tables(event_views(log.events@), *tz, threshold as int),
    ensures
        session_told(r, project@, *log, *tz, threshold as int),
{
    let last: usize = log.events.len() - 1;
    SessionStat {
        project: project.to_owned(),
        session_id: log.id.clone(),
        title: title_of(&log.meta),
        file: log.file.clone(),
        start: fmt_dt(&log.events[0].at, tz),
        end: fmt_dt(&log.events[last].at, tz),
        active_sec: tables.total.active_sec,
        total_sec: tables.total.total_sec,
        messages: tables.total.messages,
        tokens: tables.total.tokens,
        cost: tables.total.cost,
        models: names_of(&tables.models),
    }
}

/// What the counting of a session rests on: it amounts to something that can be
/// held, by itself and with its project, and leaves the scan balanced.
proof fn lemma_room(
    scan: Scan,
    folder: FolderV,
    events: Seq<Event>,
    tz: TzOffset,
    threshold: int,
    present: Instant,
)
    requires
        scan.wf(),
        events.len() > 0,
        scan@.all.total.plus(session_total(event_views(events), threshold)).fits(),
    ensures
        session_total(event_views(events), threshold).fits(),
        at_or(scan.projects@, folder.name, ProjectTallyV::new(folder.cwd)).tables.total.plus(
            session_total(event_views(events), threshold),
        ).fits(),
        scan@.with(folder, event_views(events), tz, threshold, present).balanced(),
{
    lemma_session_fits(events, threshold, scan@.all.total);
    law_counting_keeps_the_balance(
        scan@,
        folder,
        event_views(events),
        tz,
        threshold,
        present,
    );
    if scan.projects@.contains_key(folder.name) {
        lemma_project_within(scan, folder.name);
        lemma_values_are_sound(scan.projects, folder.name);
        let v = choose|v: ProjectTally| #[trigger]
            v.sound() && v@ == scan.projects@[folder.name];
        assert(v.tables@.total.fits());
    }
}

/// A record adds to what records say together what its session amounts to.
proof fn lemma_told_sum(
    sessions: Seq<SessionStat>,
    told: SessionStat,
    log: SessionLog,
    project: Seq<char>,
    settings: Settings,
)
    requires
        session_told(told, project, log, settings.tz, settings.threshold as int),
    ensures
        told_sum(sessions.push(told)) == told_sum(sessions).plus(
            UsageV {
                tool_uses: 0,
                blocks: 0,
                ..session_total(event_views(log.events@), settings.threshold as int)
            },
        ),
{
    assert(sessions.push(told).drop_last() =~= sessions);
    lemma_session_is_one(event_views(log.events@), settings.threshold as int);
}

/// No project amounts to more than everything.
proof fn lemma_project_within(scan: Scan, k: Seq<char>)
    requires
        scan.wf(),
        scan.projects@.contains_key(k),
    ensures
        scan.projects@[k].tables.total.le(scan@.all.total),
{
    let m = scan.projects@;
    assert forall|n: Seq<char>| #[trigger] m.contains_key(n) implies UsageV::zero().le(
        project_total()(m[n]),
    ) by {
        lemma_values_are_sound(scan.projects, n);
        let v = choose|v: ProjectTally| #[trigger] v.sound() && v@ == m[n];
        assert(v.tables@.total.fits());
    }
    lemma_part_of_sum(m, project_total(), k);
}

impl Scan {
    /// Every table is well-formed, the scan is balanced, and the sessions'
    /// records say together what everything amounts to.
    pub open spec fn wf(self) -> bool {
        &&& self.all.wf()
        &&& self.projects.wf()
        &&& self@.balanced()
        &&& told_sum(self.sessions@) == (UsageV { tool_uses: 0, blocks: 0, ..self.all@.total })
    }

    /// A scan that has counted nothing.
    pub fn new() -> (r: Scan)
        ensures
            r.wf(),
            r@ == ScanV::empty(),
            r.sessions@ == Seq::<SessionStat>::empty(),
    {
        proof {
            law_empty_scan_is_balanced();
        }
        Scan {
            all: Tables::new(),
            projects: NameMap::new(),
            sessions: Vec::new(),
            earliest: None,
            latest: None,
        }
    }

    /// Counts a session under the project of its folder.
    #[verifier::spinoff_prover]
    pub fn count(
        &mut self,
        folder: &Folder,
        log: &SessionLog,
        settings: &Settings,
        present: &Instant,
    )
        requires
            old(self).wf(),
            log.events@.len() > 0,
            old(self)@.all.total.plus(
                session_total(event_views(log.events@), settings.threshold as int),
            ).fits(),
        ensures
            final(self).wf(),
            final(self)@ == old(self)@.with(
                folder@,
                event_views(log.events@),
                settings.tz,
                settings.threshold as int,
                *present,
            ),
            final(self).sessions@.len() == old(self).sessions@.len() + 1,
            final(self).sessions@.drop_last() == old(self).sessions@,
            session_told(
                final(self).sessions@.last(),
                folder@.name,
                *log,
                settings.tz,
                settings.threshold as int,
            ),
    {
        let ghost before = *self;
        let ghost events = event_views(log.events@);
        let last: usize = log.events.len() - 1;
        let start = log.events[0].at;
        let end = log.events[last].at;
        proof {
            lemma_room(
                *self,
                folder@,
                log.events@,
                settings.tz,
                settings.threshold as int,
                *present,
            );
            assert(events[0] == log.events@[0]@);
            assert(events.last() == log.events@[last as int]@);
        }
        let tables = Tables::of_session(&log.events, &settings.tz, settings.threshold);
        let told = tell_session(
            folder.name.as_str(),
            log,
            &tables,
            &settings.tz,
            settings.threshold,
        );
        let p = self.projects.entry(folder.name.as_str(), ProjectTally::new(&folder.cwd));
        p.add_session(&tables, &start, &end, present);
        self.all.join(&tables);
        self.sessions.push(told);
        self.earliest = Some(earlier(&self.earliest, &start));
        self.latest = Some(later(&self.latest, &end));
        proof {
            lemma_told_sum(before.sessions@, told, *log, folder@.name, *settings);
            assert(self.sessions@ == before.sessions@.push(told));
            assert(self.sessions@.drop_last() =~= before.sessions@);
        }
    }

    /// Takes a session into account, which may be that it does not count.
    pub fn take_in(
        &mut self,
        folder: &mut Folder,
        log: &SessionLog,
        settings: &Settings,
        present: &Instant,
    ) -> (r: Fate)
        requires
            old(self).wf(),
            fate_of(
                event_views(log.events@),
                folder_after(old(folder)@, *log, rule_views(settings.merges@)),
                log.meta.cwd@,
                *settings,
            ) is Counted ==> old(self)@.all.total.plus(
                session_total(event_views(log.events@), settings.threshold as int),
            ).fits(),
        ensures
            final(self).wf(),
            final(folder)@ == folder_after(old(folder)@, *log, rule_views(settings.merges@)),
            r == fate_of(event_views(log.events@), final(folder)@, log.meta.cwd@, *settings),
            r !is Counted ==> *final(self) == *old(self),
            r is Counted ==> {
                &&& final(self)@ == old(self)@.with(
                    final(folder)@,
                    event_views(log.events@),
                    settings.tz,
                    settings.threshold as int,
                    *present,
                )
                &&& final(self).sessions@.len() == old(self).sessions@.len() + 1
                &&& final(self).sessions@.drop_last() == old(self).sessions@
                &&& session_told(
                    final(self).sessions@.last(),
                    final(folder)@.name,
                    *log,
                    settings.tz,
                    settings.threshold as int,
                )
            },
    {
        if log.events.len() > 0 {
            folder.learn(log.meta.cwd.as_str(), settings.merges.as_slice());
        }
        let fate = judge(log, folder, settings);
        if fate == Fate::Counted {
            self.count(folder, log, settings, present);
        }
        fate
    }

    /// Whether the sums still hold with a session added.
    pub fn has_room(&self, log: &SessionLog, settings: &Settings) -> (r: bool)
        requires
            self.wf(),
            log.events@.len() > 0,
        ensures
            r == self@.all.total.plus(
                session_total(event_views(log.events@), settings.threshold as int),
            ).fits(),
    {
        proof {
            lemma_session_fits(log.events@, settings.threshold as int, self@.all.total);
        }
        match try_total(&log.events, settings.threshold) {
            Some(u) => self.all.total.try_add(&u).is_some(),
            None => false,
        }
    }

    /// Whether the next session of a project is held against the present time:
    /// the mark of the project's first start cannot be read.
    fn asks_the_time(&self, project: &str) -> (r: bool)
        requires
            self.wf(),
        ensures
            r <==> self.projects@.contains_key(project@) && (
            self.projects@[project@].first matches Some(t) && instant_read(t) is None),
    {
        match self.projects.get(project) {
            Some(p) => match &p.first {
                Some(t) => read_rfc3339(t.as_str()).is_none(),
                None => false,
            },
            None => false,
        }
    }

    /// Takes a session into account as `take_in` does, at the present time; none
    /// where it would count and the sums cannot hold it, and nothing is counted.
    pub fn try_take_in(&mut self, folder: &mut Folder, log: &SessionLog, settings: &Settings) -> (r:
        Option<Fate>)
        requires
            old(self).wf(),
        ensures
            final(self).wf(),
            final(folder)@ == folder_after(old(folder)@, *log, rule_views(settings.merges@)),
            ({
                let events = event_views(log.events@);
                let fate = fate_of(events, final(folder)@, log.meta.cwd@, *settings);
                let room = old(self)@.all.total.plus(
                    session_total(events, settings.threshold as int),
                ).fits();
                &&& r == if fate is Counted && !room {
                    None
                } else {
                    Some(fate)
                }
                &&& r != Some(Fate::Counted) ==> *final(self) == *old(self)
                &&& r == Some(Fate::Counted) ==> {
                    &&& exists|present: Instant|
                        present.valid() && final(self)@ == #[trigger] old(self)@.with(
                            final(folder)@,
                            events,
                            settings.tz,
                            settings.threshold as int,
                            present,
                        )
                    &&& final(self).sessions@.len() == old(self).sessions@.len() + 1
                    &&& final(self).sessions@.drop_last() == old(self).sessions@
                    &&& session_told(
                        final(self).sessions@.last(),
                        final(folder)@.name,
                        *log,
                        settings.tz,
                        settings.threshold as int,
                    )
                }
            }),
    {
        if log.events.len() > 0 {
            folder.learn(log.meta.cwd.as_str(), settings.merges.as_slice());
        }
        let fate = judge(log, folder, settings);
        if fate == Fate::Counted && !self.has_room(log, settings) {
            return None;
        }
        let present = if fate == Fate::Counted && self.asks_the_time(folder.name.as_str()) {
            now()
        } else {
            Instant::new(0, 0).unwrap()
        };
        Some(self.take_in(folder, log, settings, &present))
    }
}

} // verus!
