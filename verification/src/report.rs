//! The report on a scan: what was counted, listed and summed up.
use vstd::prelude::*;
use vstd::string::*;
use crate::json::opt_text;
use crate::names::{at_or, law_names_are_ordered, lists_names, name_before, Item, NameMap};
use crate::scan::{on_day, ProjectTally, ProjectTallyV, Scan, ScanV, SessionStat};
use crate::session::activity;
use crate::sorting::{sorted, stable_sort, Ranked};
use crate::sums::{lemma_sum_name_by_name, lemma_sum_remove, sum_by, sum_over};
use crate::time::{
    date_key, date_of, elapsed, offset_label, offset_text, seconds_between, stamp, stamp_text,
    Instant, TzOffset,
};
use crate::tokens::Tokens;
use crate::union::{compute_union, union_secs, Span};
use crate::usage::{usage_views, Usage, UsageV};

verus! {

/// One amount for another. Where the other is zero, it counts as zero.
#[derive(Clone, Copy, Debug, PartialEq, Eq, Structural)]
pub struct Ratio {
    pub over: u128,
    pub under: u128,
}

/// A name and how often it occurs.
pub struct NamedCount {
    pub name: String,
    pub count: u64,
}

/// What is said of a skill or a plugin.
pub struct NamedStat {
    pub name: String,
    pub messages: u64,
    pub tokens: Tokens,
    /// Cost in hundred-millionths of a US dollar.
    pub cost: u128,
}

/// What is said of a model.
pub struct ModelStat {
    pub name: String,
    pub messages: u64,
    pub tokens: Tokens,
    /// Cost in hundred-millionths of a US dollar.
    pub cost: u128,
}

/// What is said of a git branch.
pub struct BranchStat {
    pub name: String,
    pub active_sec: u64,
    pub sessions: u64,
    pub messages: u64,
    pub tokens: Tokens,
    /// Cost in hundred-millionths of a US dollar.
    pub cost: u128,
}

/// What is said of an hour of the day.
pub struct HourStat {
    /// 0 to 23, in the scan's time zone.
    pub hour: u8,
    pub messages: u64,
    pub active_sec: u64,
}

/// What is said of a day of the week.
pub struct WeekdayStat {
    /// 0 for Monday to 6 for Sunday.
    pub weekday: u8,
    pub name: &'static str,
    pub messages: u64,
    pub active_sec: u64,
}

/// What is said of a project.
pub struct ProjectStat {
    pub name: String,
    pub cwd: Option<String>,
    pub active_sec: u64,
    /// The sum of the seconds that the spans of each day cover together.
    pub active_sec_union: u128,
    pub total_sec: u64,
    pub sessions: u64,
    pub messages: u64,
    pub tokens: Tokens,
    /// Cost in hundred-millionths of a US dollar.
    pub cost: u128,
    pub first: Option<String>,
    pub last: Option<String>,
    /// Seconds of activity by hour of the day.
    pub by_hour: Vec<u64>,
    /// Seconds of activity by day of the week, from Monday.
    pub by_weekday: Vec<u64>,
    /// Messages by skill, in the order of the names.
    pub by_skill: Vec<NamedCount>,
    /// Uses by tool, in the order of the names.
    pub by_tool: Vec<NamedCount>,
}

/// What is said of a day.
pub struct DailyStat {
    pub date: String,
    /// Seconds of activity, one session after the other.
    pub active_sec: u64,
    /// Seconds of activity, what overlaps counted once.
    pub active_sec_union: u64,
    pub sessions: u64,
    pub messages: u64,
    pub tokens: Tokens,
    /// Cost in hundred-millionths of a US dollar.
    pub cost: u128,
    /// Seconds of activity by project, in the order of the names.
    pub by_project: Vec<NamedCount>,
    /// The same with what overlaps within a project counted once.
    pub union_by_project: Vec<NamedCount>,
}

/// What is said of everything.
pub struct Summary {
    pub generated_at: String,
    pub gap_threshold_min: u64,
    pub tz_offset: String,
    pub default_window_days: i64,
    /// The date of the earliest start.
    pub earliest: Option<String>,
    /// The date of the latest end.
    pub latest: Option<String>,
    /// Seconds from the earliest start to the latest end.
    pub span_sec: i64,
    pub projects: u64,
    pub sessions: u64,
    pub messages: u64,
    pub active_sec: u64,
    pub active_sec_union: u128,
    pub total_sec: u64,
    /// Active time for total time.
    pub active_total: Ratio,
    /// Hours of activity for each day from the earliest start to the latest
    /// end.
    pub active_per_day: Ratio,
    pub tokens: Tokens,
    /// Cost in hundred-millionths of a US dollar.
    pub cost: u128,
    /// Tokens read from the cache for all tokens of prompts.
    pub cache_hit: Ratio,
    /// Model calls for each message.
    pub calls_per_message: Ratio,
}

/// A report.
pub struct Report {
    pub summary: Summary,
    pub projects: Vec<ProjectStat>,
    pub sessions: Vec<SessionStat>,
    pub daily: Vec<DailyStat>,
    pub by_model: Vec<ModelStat>,
    pub by_skill: Vec<NamedStat>,
    pub by_plugin: Vec<NamedStat>,
    /// Messages that use a tool, by tool.
    pub by_tool: Vec<NamedCount>,
    /// Uses of the tools of a server, by server.
    pub by_mcp_server: Vec<NamedCount>,
    pub by_content_type: Vec<NamedCount>,
    pub by_stop_reason: Vec<NamedCount>,
    pub by_branch: Vec<BranchStat>,
    pub by_hour: Vec<HourStat>,
    pub by_weekday: Vec<WeekdayStat>,
}

/// What a report is asked for.
pub struct Request {
    /// The threshold of activity in minutes.
    pub gap_min: u64,
    /// The days that a viewer shows at first; 0 for all.
    pub window_days: i64,
    pub tz: TzOffset,
}

/// A row of a list that is made from a table of amounts.
pub trait Row: Ranked + Sized {
    /// What else the row depends on.
    type How;

    /// The row says of a name what the amount is.
    spec fn tells(&self, how: Self::How, name: Seq<char>, u: UsageV) -> bool;

    fn of(how: &Self::How, name: &str, u: &Usage) -> (r: Self)
        ensures
            r.tells(*how, name@, u@),
    ;
}

/// Which amount is counted.
#[derive(Clone, Copy, PartialEq, Eq, Structural)]
pub enum Measure {
    Messages,
    ToolUses,
    Blocks,
}

/// The amount that is counted.
pub open spec fn measured(m: Measure, u: UsageV) -> int {
    match m {
        Measure::Messages => u.messages,
        Measure::ToolUses => u.tool_uses,
        Measure::Blocks => u.blocks,
    }
}

impl Ranked for NamedCount {
    open spec fn rank(&self) -> int {
        -(self.count as int)
    }

    fn ranks_after(&self, other: &NamedCount) -> (r: bool) {
        self.count < other.count
    }
}

impl Row for NamedCount {
    type How = Measure;

    open spec fn tells(&self, how: Measure, name: Seq<char>, u: UsageV) -> bool {
        self.name@ == name && self.count == measured(how, u)
    }

    fn of(how: &Measure, name: &str, u: &Usage) -> (r: NamedCount) {
        let count: u64 = match how {
            Measure::Messages => u.messages,
            Measure::ToolUses => u.tool_uses,
            Measure::Blocks => u.blocks,
        };
        NamedCount { name: name.to_owned(), count }
    }
}

impl Ranked for NamedStat {
    open spec fn rank(&self) -> int {
        -(self.messages as int)
    }

    fn ranks_after(&self, other: &NamedStat) -> (r: bool) {
        self.messages < other.messages
    }
}

impl Row for NamedStat {
    type How = ();

    open spec fn tells(&self, how: (), name: Seq<char>, u: UsageV) -> bool {
        self.name@ == name && self.messages == u.messages && self.tokens@ == u.tokens && self.cost
            == u.cost
    }

    fn of(how: &(), name: &str, u: &Usage) -> (r: NamedStat) {
        NamedStat { name: name.to_owned(), messages: u.messages, tokens: u.tokens, cost: u.cost }
    }
}

impl Ranked for ModelStat {
    open spec fn rank(&self) -> int {
        -(self.cost as int)
    }

    fn ranks_after(&self, other: &ModelStat) -> (r: bool) {
        self.cost < other.cost
    }
}

impl Row for ModelStat {
    type How = ();

    open spec fn tells(&self, how: (), name: Seq<char>, u: UsageV) -> bool {
        self.name@ == name && self.messages == u.messages && self.tokens@ == u.tokens && self.cost
            == u.cost
    }

    fn of(how: &(), name: &str, u: &Usage) -> (r: ModelStat) {
        ModelStat { name: name.to_owned(), messages: u.messages, tokens: u.tokens, cost: u.cost }
    }
}

impl Ranked for BranchStat {
    open spec fn rank(&self) -> int {
        -(self.active_sec as int)
    }

    fn ranks_after(&self, other: &BranchStat) -> (r: bool) {
        self.active_sec < other.active_sec
    }
}

impl Row for BranchStat {
    type How = ();

    open spec fn tells(&self, how: (), name: Seq<char>, u: UsageV) -> bool {
        &&& self.name@ == name
        &&& self.active_sec == u.active_sec
        &&& self.sessions == u.sessions
        &&& self.messages == u.messages
        &&& self.tokens@ == u.tokens
        &&& self.cost == u.cost
    }

    fn of(how: &(), name: &str, u: &Usage) -> (r: BranchStat) {
        BranchStat {
            name: name.to_owned(),
            active_sec: u.active_sec,
            sessions: u.sessions,
            messages: u.messages,
            tokens: u.tokens,
            cost: u.cost,
        }
    }
}

impl Ranked for ProjectStat {
    open spec fn rank(&self) -> int {
        -(self.active_sec as int)
    }

    fn ranks_after(&self, other: &ProjectStat) -> (r: bool) {
        self.active_sec < other.active_sec
    }
}

impl Ranked for SessionStat {
    open spec fn rank(&self) -> int {
        -(self.active_sec as int)
    }

    fn ranks_after(&self, other: &SessionStat) -> (r: bool) {
        self.active_sec < other.active_sec
    }
}

/// The rows tell what a table holds, name by name in the order of the names.
pub open spec fn listing<T: Row>(rows: Seq<T>, how: T::How, table: Map<Seq<char>, UsageV>) -> bool {
    exists|names: Seq<Seq<char>>| #[trigger]
        lists_names(names, table) && rows.len() == names.len() && forall|i: int|
            0 <= i < rows.len() ==> (#[trigger] rows[i]).tells(how, names[i], table[names[i]])
}

/// The rows tell what a table holds, by rank, and by name where they rank the
/// same.
pub open spec fn ranking<T: Row>(rows: Seq<T>, how: T::How, table: Map<Seq<char>, UsageV>) -> bool {
    exists|by_name: Seq<T>| #[trigger] listing(by_name, how, table) && rows == sorted(by_name)
}

/// Lists a table by name.
pub fn list_by_name<T: Row>(how: &T::How, table: &NameMap<Usage>) -> (r: Vec<T>)
    requires
        table.wf(),
    ensures
        listing(r@, *how, table@),
{
    let mut rows: Vec<T> = Vec::new();
    let n: usize = table.len();
    for i in 0..n
        invariant
            table.wf(),
            n == table.names().len(),
            rows@.len() == i,
            forall|j: int|
                0 <= j < i ==> (#[trigger] rows@[j]).tells(
                    *how,
                    table.names()[j],
                    table@[table.names()[j]],
                ),
    {
        rows.push(T::of(how, table.name_at(i), table.value_at(i)));
    }
    assert(lists_names(table.names(), table@));
    rows
}

/// Lists a table by rank.
pub fn list_by_rank<T: Row>(how: &T::How, table: &NameMap<Usage>) -> (r: Vec<T>)
    requires
        table.wf(),
    ensures
        ranking(r@, *how, table@),
{
    let mut rows: Vec<T> = list_by_name(how, table);
    let ghost by_name = rows@;
    stable_sort(&mut rows);
    assert(listing(by_name, *how, table@));
    rows
}

/// The seconds that spans cover together, as an amount.
pub open spec fn union_activity() -> spec_fn(Seq<Span>) -> UsageV {
    |spans: Seq<Span>| activity(union_secs(spans))
}

/// The seconds that the spans of each day cover together, summed up.
pub open spec fn unions_total(spans: Map<Seq<char>, Seq<Span>>) -> int {
    sum_by(spans, union_activity()).active_sec
}

/// The seconds that the spans of each day cover together, summed up.
pub fn sum_unions(spans: &NameMap<Vec<Span>>) -> (r: u128)
    requires
        spans.wf(),
    ensures
        r == unions_total(spans@),
{
    let ghost names = spans.names();
    let mut sum: u128 = 0;
    let n: usize = spans.len();
    for i in 0..n
        invariant
            spans.wf(),
            names == spans.names(),
            n == names.len(),
            sum == sum_over(spans@, union_activity(), names.take(i as int)).active_sec,
            sum <= i * 18446744073709551615,
    {
        proof {
            assert(names.take(i + 1).drop_last() =~= names.take(i as int));
            assert(names.take(i + 1).last() == names[i as int]);
        }
        let u: u64 = compute_union(spans.value_at(i));
        sum = sum + u as u128;
    }
    proof {
        assert(names.take(names.len() as int) =~= names);
        lemma_sum_name_by_name(spans@, union_activity(), names);
    }
    sum
}

/// `p` tells of a project.
pub open spec fn project_told(p: ProjectStat, name: Seq<char>, tally: ProjectTallyV) -> bool {
    let t = tally.tables;
    &&& p.name@ == name
    &&& opt_text(p.cwd) == tally.cwd
    &&& p.active_sec == t.total.active_sec
    &&& p.active_sec_union == unions_total(t.spans)
    &&& p.total_sec == t.total.total_sec
    &&& p.sessions == t.total.sessions
    &&& p.messages == t.total.messages
    &&& p.tokens@ == t.total.tokens
    &&& p.cost == t.total.cost
    &&& opt_text(p.first) == tally.first
    &&& opt_text(p.last) == tally.last
    &&& actives_told(p.by_hour@, t.hours)
    &&& actives_told(p.by_weekday@, t.weekdays)
    &&& listing(p.by_skill@, Measure::Messages, t.skills)
    &&& listing(p.by_tool@, Measure::ToolUses, t.tools)
}

/// The seconds of activity of a row, place by place.
pub open spec fn actives_told(v: Seq<u64>, row: Seq<UsageV>) -> bool {
    &&& v.len() == row.len()
    &&& forall|i: int| 0 <= i < v.len() ==> #[trigger] v[i] == row[i].active_sec
}

fn actives_of(row: &Vec<Usage>) -> (r: Vec<u64>)
    ensures
        actives_told(r@, usage_views(row@)),
{
    let mut v: Vec<u64> = Vec::new();
    for i in 0..row.len()
        invariant
            v@.len() == i,
            forall|j: int| 0 <= j < i ==> #[trigger] v@[j] == row@[j]@.active_sec,
    {
        v.push(row[i].active_sec);
    }
    v
}

/// Tells of a project.
pub fn tell_project(name: &str, p: &ProjectTally) -> (r: ProjectStat)
    requires
        p.sound(),
    ensures
        project_told(r, name@, p@),
{
    let t = &p.tables;
    ProjectStat {
        name: name.to_owned(),
        cwd: p.cwd.clone(),
        active_sec: t.total.active_sec,
        active_sec_union: sum_unions(&t.spans),
        total_sec: t.total.total_sec,
        sessions: t.total.sessions,
        messages: t.total.messages,
        tokens: t.total.tokens,
        cost: t.total.cost,
        first: p.first.clone(),
        last: p.last.clone(),
        by_hour: actives_of(&t.hours),
        by_weekday: actives_of(&t.weekdays),
        by_skill: list_by_name(&Measure::Messages, &t.skills),
        by_tool: list_by_name(&Measure::ToolUses, &t.tools),
    }
}

/// The projects, name by name.
pub open spec fn projects_told(
    rows: Seq<ProjectStat>,
    projects: Map<Seq<char>, ProjectTallyV>,
) -> bool {
    exists|names: Seq<Seq<char>>| #[trigger]
        lists_names(names, projects) && rows.len() == names.len() && forall|i: int|
            0 <= i < rows.len() ==> project_told(#[trigger] rows[i], names[i], projects[names[i]])
}

/// Lists the projects, those with more activity first.
pub fn list_projects(projects: &NameMap<ProjectTally>) -> (r: Vec<ProjectStat>)
    requires
        projects.wf(),
    ensures
        exists|by_name: Seq<ProjectStat>| #[trigger]
            projects_told(by_name, projects@) && r@ == sorted(by_name),
{
    let mut rows: Vec<ProjectStat> = Vec::new();
    let n: usize = projects.len();
    for i in 0..n
        invariant
            projects.wf(),
            n == projects.names().len(),
            rows@.len() == i,
            forall|j: int|
                0 <= j < i ==> project_told(
                    #[trigger] rows@[j],
                    projects.names()[j],
                    projects@[projects.names()[j]],
                ),
    {
        rows.push(tell_project(projects.name_at(i), projects.value_at(i)));
    }
    assert(lists_names(projects.names(), projects@));
    assert(projects_told(rows@, projects@));
    stable_sort(&mut rows);
    rows
}

/// The projects with a span of activity on a date.
pub open spec fn active_projects(
    projects: Map<Seq<char>, ProjectTallyV>,
    date: Seq<char>,
) -> Map<Seq<char>, ProjectTallyV> {
    Map::new(
        |k: Seq<char>| projects.contains_key(k) && projects[k].tables.spans.contains_key(date),
        |k: Seq<char>| projects[k],
    )
}

/// A day's activity by project, and the same with what overlaps counted once.
pub open spec fn shares_told(
    sums: Seq<NamedCount>,
    unions: Seq<NamedCount>,
    projects: Map<Seq<char>, ProjectTallyV>,
    date: Seq<char>,
) -> bool {
    exists|names: Seq<Seq<char>>| #[trigger]
        lists_names(names, active_projects(projects, date)) && sums.len() == names.len()
            && unions.len() == names.len() && forall|i: int| 0 <= i < names.len() ==> share_told(
            #[trigger] sums[i],
            unions[i],
            names[i],
            projects[names[i]],
            date,
        )
}

/// One project's activity on a day.
pub open spec fn share_told(
    sum: NamedCount,
    union: NamedCount,
    name: Seq<char>,
    tally: ProjectTallyV,
    date: Seq<char>,
) -> bool {
    &&& sum.name@ == name
    &&& sum.count == at_or(tally.tables.days, date, UsageV::zero()).active_sec
    &&& union.name@ == name
    &&& union.count == union_secs(tally.tables.spans[date])
}

/// `d` tells of a date.
pub open spec fn day_told(d: DailyStat, date: Seq<char>, scan: ScanV) -> bool {
    let u = scan.all.days[date];
    &&& d.date@ == date
    &&& d.active_sec == u.active_sec
    &&& d.active_sec_union == union_secs(at_or(scan.all.spans, date, seq![]))
    &&& d.sessions == u.sessions
    &&& d.messages == u.messages
    &&& d.tokens@ == u.tokens
    &&& d.cost == u.cost
    &&& shares_told(d.by_project@, d.union_by_project@, scan.projects, date)
}

/// The days, date by date.
pub open spec fn days_told(rows: Seq<DailyStat>, scan: ScanV) -> bool {
    exists|names: Seq<Seq<char>>| #[trigger]
        lists_names(names, scan.all.days) && rows.len() == names.len() && forall|i: int|
            0 <= i < rows.len() ==> day_told(#[trigger] rows[i], names[i], scan)
}

/// The activity of the projects on a date.
pub fn list_shares(projects: &NameMap<ProjectTally>, date: &str) -> (r: (
    Vec<NamedCount>,
    Vec<NamedCount>,
))
    requires
        projects.wf(),
    ensures
        shares_told(r.0@, r.1@, projects@, date@),
{
    let mut sums: Vec<NamedCount> = Vec::new();
    let mut unions: Vec<NamedCount> = Vec::new();
    let ghost all = projects.names();
    let ghost mut names: Seq<Seq<char>> = seq![];
    let ghost mut places: Seq<int> = seq![];
    let n: usize = projects.len();
    for i in 0..n
        invariant
            projects.wf(),
            all == projects.names(),
            n == all.len(),
            sums@.len() == names.len(),
            unions@.len() == names.len(),
            places.len() == names.len(),
            forall|j: int|
                0 <= j < names.len() ==> share_told(
                    #[trigger] sums@[j],
                    unions@[j],
                    names[j],
                    projects@[names[j]],
                    date@,
                ),
            forall|j: int|
                0 <= j < places.len() ==> 0 <= #[trigger] places[j] < i && names[j]
                    == all[places[j]] && projects@[names[j]].tables.spans.contains_key(date@),
            forall|j: int, k: int| 0 <= j < k < places.len() ==> places[j] < places[k],
            forall|j: int|
                0 <= j < i && projects@[#[trigger] all[j]].tables.spans.contains_key(date@)
                    ==> names.contains(all[j]),
    {
        let name = projects.name_at(i);
        let p = projects.value_at(i);
        let ghost before = names;
        if let Some(spans) = p.tables.spans.get(date) {
            let active: u64 = match p.tables.days.get(date) {
                Some(u) => u.active_sec,
                None => 0,
            };
            let union: u64 = compute_union(spans);
            sums.push(NamedCount { name: name.to_owned(), count: active });
            unions.push(NamedCount { name: name.to_owned(), count: union });
            proof {
                names = names.push(all[i as int]);
                places = places.push(i as int);
                assert(names[before.len() as int] == all[i as int]);
                assert forall|j: int| 0 <= j < i + 1 && projects@[#[trigger]
                    all[j]].tables.spans.contains_key(date@) implies names.contains(all[j]) by {
                    if j < i {
                        let k = before.index_of(all[j]);
                        assert(names[k] == all[j]);
                    }
                }
            }
        }
    }
    proof {
        let table = active_projects(projects@, date@);
        assert forall|j: int, k: int| 0 <= j < k < names.len() implies name_before(
            names[j],
            names[k],
        ) by {
            assert(places[j] < places[k]);
            assert(name_before(all[places[j]], all[places[k]]));
        }
        assert forall|k: Seq<char>| #[trigger] names.contains(k) <==> table.contains_key(k) by {
            if names.contains(k) {
                let j = names.index_of(k);
                assert(names[j] == all[places[j]]);
                assert(all.contains(k));
            }
            if table.contains_key(k) {
                let j = all.index_of(k);
                assert(all[j] == k);
            }
        }
        assert(lists_names(names, table));
    }
    (sums, unions)
}

proof fn lemma_idle_projects(projects: Map<Seq<char>, ProjectTallyV>, date: Seq<char>)
    requires
        projects.dom().finite(),
        forall|k: Seq<char>| #[trigger]
            projects.contains_key(k) ==> projects[k].tables.balanced(),
    ensures
        active_projects(projects, date).dom().finite(),
        sum_by(active_projects(projects, date), on_day(date)).active_sec == sum_by(
            projects,
            on_day(date),
        ).active_sec,
    decreases projects.dom().len(),
{
    let active = active_projects(projects, date);
    if projects.dom().len() == 0 {
        assert(active.dom() =~= Set::empty());
    } else {
        let k = projects.dom().choose();
        assert(projects.contains_key(k));
        let rest = projects.remove(k);
        assert forall|n: Seq<char>| #[trigger]
            rest.contains_key(n) implies rest[n].tables.balanced() by {
            assert(projects.contains_key(n));
        }
        lemma_idle_projects(rest, date);
        lemma_sum_remove(projects, on_day(date), k);
        let idle = active_projects(rest, date);
        if projects[k].tables.spans.contains_key(date) {
            assert(active =~= idle.insert(k, projects[k]));
            assert(active.remove(k) =~= idle);
            lemma_sum_remove(active, on_day(date), k);
        } else {
            assert(active =~= idle);
            assert(projects[k].tables.balanced());
        }
    }
}

/// The activity of a day is the sum of what the projects with a span of
/// activity on it have.
pub proof fn law_a_day_is_shared_by_its_projects(scan: ScanV, date: Seq<char>)
    requires
        scan.balanced(),
    ensures
        sum_by(active_projects(scan.projects, date), on_day(date)).active_sec == at_or(
            scan.all.days,
            date,
            UsageV::zero(),
        ).active_sec,
{
    lemma_idle_projects(scan.projects, date);
    assert(sum_by(scan.projects, on_day(date)) == at_or(scan.all.days, date, UsageV::zero()));
}

/// Lists the days by date.
pub fn list_days(scan: &Scan) -> (r: Vec<DailyStat>)
    requires
        scan.wf(),
    ensures
        days_told(r@, scan@),
{
    let days = &scan.all.days;
    let mut rows: Vec<DailyStat> = Vec::new();
    let n: usize = days.len();
    for i in 0..n
        invariant
            scan.wf(),
            *days == scan.all.days,
            n == days.names().len(),
            rows@.len() == i,
            forall|j: int| 0 <= j < i ==> day_told(#[trigger] rows@[j], days.names()[j], scan@),
    {
        let date = days.name_at(i);
        let u = days.value_at(i);
        let none: Vec<Span> = Vec::new();
        let union: u64 = match scan.all.spans.get(date) {
            Some(spans) => compute_union(spans),
            None => {
                assert(none@ =~= Seq::<Span>::empty());
                compute_union(&none)
            },
        };
        let (by_project, union_by_project) = list_shares(&scan.projects, date);
        rows.push(
            DailyStat {
                date: date.to_owned(),
                active_sec: u.active_sec,
                active_sec_union: union,
                sessions: u.sessions,
                messages: u.messages,
                tokens: u.tokens,
                cost: u.cost,
                by_project,
                union_by_project,
            },
        );
    }
    assert(lists_names(days.names(), scan@.all.days));
    rows
}

/// The hours of the day, one by one.
pub open spec fn hours_told(rows: Seq<HourStat>, hours: Seq<UsageV>) -> bool {
    &&& rows.len() == hours.len()
    &&& forall|i: int|
        0 <= i < rows.len() ==> (#[trigger] rows[i]).hour == i && rows[i].messages
            == hours[i].messages && rows[i].active_sec == hours[i].active_sec
}

/// Lists the hours of the day.
pub fn list_hours(hours: &Vec<Usage>) -> (r: Vec<HourStat>)
    requires
        hours@.len() == 24,
    ensures
        hours_told(r@, usage_views(hours@)),
{
    let mut rows: Vec<HourStat> = Vec::new();
    for i in 0..hours.len()
        invariant
            hours@.len() == 24,
            rows@.len() == i,
            forall|j: int|
                0 <= j < i ==> (#[trigger] rows@[j]).hour == j && rows@[j].messages
                    == hours@[j]@.messages && rows@[j].active_sec == hours@[j]@.active_sec,
    {
        rows.push(
            HourStat {
                hour: i as u8,
                messages: hours[i].messages,
                active_sec: hours[i].active_sec,
            },
        );
    }
    rows
}

/// The short name of a day of the week.
pub open spec fn weekday_text(i: int) -> Seq<char> {
    if i == 0 {
        "Mon"@
    } else if i == 1 {
        "Tue"@
    } else if i == 2 {
        "Wed"@
    } else if i == 3 {
        "Thu"@
    } else if i == 4 {
        "Fri"@
    } else if i == 5 {
        "Sat"@
    } else {
        "Sun"@
    }
}

/// The short name of a day of the week, 0 for Monday to 6 for Sunday.
pub fn weekday_name(i: usize) -> (r: &'static str)
    requires
        i < 7,
    ensures
        r@ == weekday_text(i as int),
{
    if i == 0 {
        "Mon"
    } else if i == 1 {
        "Tue"
    } else if i == 2 {
        "Wed"
    } else if i == 3 {
        "Thu"
    } else if i == 4 {
        "Fri"
    } else if i == 5 {
        "Sat"
    } else {
        "Sun"
    }
}

/// The days of the week, one by one.
pub open spec fn weekdays_told(rows: Seq<WeekdayStat>, weekdays: Seq<UsageV>) -> bool {
    &&& rows.len() == weekdays.len()
    &&& forall|i: int|
        0 <= i < rows.len() ==> (#[trigger] rows[i]).weekday == i && rows[i].name@ == weekday_text(
            i,
        ) && rows[i].messages == weekdays[i].messages && rows[i].active_sec
            == weekdays[i].active_sec
}

/// Lists the days of the week.
pub fn list_weekdays(weekdays: &Vec<Usage>) -> (r: Vec<WeekdayStat>)
    requires
        weekdays@.len() == 7,
    ensures
        weekdays_told(r@, usage_views(weekdays@)),
{
    let mut rows: Vec<WeekdayStat> = Vec::new();
    for i in 0..weekdays.len()
        invariant
            weekdays@.len() == 7,
            rows@.len() == i,
            forall|j: int|
                0 <= j < i ==> (#[trigger] rows@[j]).weekday == j && rows@[j].name@
                    == weekday_text(j) && rows@[j].messages == weekdays@[j]@.messages
                    && rows@[j].active_sec == weekdays@[j]@.active_sec,
    {
        rows.push(
            WeekdayStat {
                weekday: i as u8,
                name: weekday_name(i),
                messages: weekdays[i].messages,
                active_sec: weekdays[i].active_sec,
            },
        );
    }
    rows
}

/// The seconds from the earliest start to the latest end; 0 without any.
pub open spec fn span_of(scan: ScanV) -> int {
    match (scan.earliest, scan.latest) {
        (Some(a), Some(b)) => elapsed(a, b),
        _ => 0,
    }
}

/// The date of an instant that may be missing.
pub open spec fn opt_date(at: Option<Instant>, tz: TzOffset) -> Option<Seq<char>> {
    match at {
        Some(t) => Some(date_of(t, tz)),
        None => None,
    }
}

/// `s` tells of everything that a scan has counted.
pub open spec fn summary_told(
    s: Summary,
    scan: ScanV,
    sessions: nat,
    request: Request,
    present: Instant,
) -> bool {
    let u = scan.all.total;
    let t = u.tokens;
    &&& s.generated_at@ == stamp_text(present.secs(), present.nanos(), request.tz.secs())
    &&& s.gap_threshold_min == request.gap_min
    &&& s.tz_offset@ == offset_text(request.tz.secs())
    &&& s.default_window_days == request.window_days
    &&& opt_text(s.earliest) == opt_date(scan.earliest, request.tz)
    &&& opt_text(s.latest) == opt_date(scan.latest, request.tz)
    &&& s.span_sec == span_of(scan)
    &&& s.projects == scan.projects.dom().len()
    &&& s.sessions == sessions
    &&& s.messages == u.messages
    &&& s.active_sec == u.active_sec
    &&& s.active_sec_union == unions_total(scan.all.spans)
    &&& s.total_sec == u.total_sec
    &&& s.active_total.over == u.active_sec
    &&& s.active_total.under == u.total_sec
    &&& s.active_per_day.over == u.active_sec * 24
    &&& s.active_per_day.under == if span_of(scan) > 0 {
        span_of(scan)
    } else {
        0
    }
    &&& s.tokens@ == t
    &&& s.cost == u.cost
    &&& s.cache_hit.over == t.cache_read
    &&& s.cache_hit.under == t.cache_read + t.cache_create_5m + t.cache_create_1h + t.input
    &&& s.calls_per_message.over == t.iterations
    &&& s.calls_per_message.under == u.messages
}

/// A table has as many entries as names.
proof fn lemma_as_many_names<T: Item>(m: NameMap<T>)
    requires
        m.wf(),
    ensures
        m@.dom().len() == m.names().len(),
{
    let names = m.names();
    assert(names.no_duplicates()) by {
        assert forall|i: int, j: int| 0 <= i < j < names.len() implies names[i] != names[j] by {
            assert(name_before(names[i], names[j]));
            law_names_are_ordered(names[i], names[i], names[i]);
        }
    }
    names.unique_seq_to_set();
    assert(m@.dom() =~= names.to_set());
}

fn date_or_none(at: &Option<Instant>, tz: &TzOffset) -> (r: Option<String>)
    ensures
        opt_text(r) == opt_date(*at, *tz),
{
    match at {
        Some(t) => Some(date_key(t, tz)),
        None => None,
    }
}

/// Sums up what a scan has counted.
pub fn summarize(scan: &Scan, request: &Request, present: &Instant) -> (r: Summary)
    requires
        scan.wf(),
    ensures
        summary_told(r, scan@, scan.sessions@.len(), *request, *present),
{
    proof {
        lemma_as_many_names(scan.projects);
    }
    let u = &scan.all.total;
    let span: i64 = match (&scan.earliest, &scan.latest) {
        (Some(a), Some(b)) => seconds_between(a, b),
        _ => 0,
    };
    let days: u128 = if span > 0 {
        span as u128
    } else {
        0
    };
    Summary {
        generated_at: stamp(present, &request.tz),
        gap_threshold_min: request.gap_min,
        tz_offset: offset_label(&request.tz),
        default_window_days: request.window_days,
        earliest: date_or_none(&scan.earliest, &request.tz),
        latest: date_or_none(&scan.latest, &request.tz),
        span_sec: span,
        projects: scan.projects.len() as u64,
        sessions: scan.sessions.len() as u64,
        messages: u.messages,
        active_sec: u.active_sec,
        active_sec_union: sum_unions(&scan.all.spans),
        total_sec: u.total_sec,
        active_total: Ratio { over: u.active_sec as u128, under: u.total_sec as u128 },
        active_per_day: Ratio { over: u.active_sec as u128 * 24, under: days },
        tokens: u.tokens,
        cost: u.cost,
        cache_hit: Ratio {
            over: u.tokens.cache_read as u128,
            under: u.tokens.cache_read as u128 + u.tokens.cache_create_5m as u128
                + u.tokens.cache_create_1h as u128 + u.tokens.input as u128,
        },
        calls_per_message: Ratio {
            over: u.tokens.iterations as u128,
            under: u.messages as u128,
        },
    }
}

/// `r` reports on a scan.
pub open spec fn reported(
    r: Report,
    scan: ScanV,
    sessions: Seq<SessionStat>,
    request: Request,
    present: Instant,
) -> bool {
    &&& summary_told(r.summary, scan, sessions.len(), request, present)
    &&& exists|by_name: Seq<ProjectStat>| #[trigger]
        projects_told(by_name, scan.projects) && r.projects@ == sorted(by_name)
    &&& r.sessions@ == sorted(sessions)
    &&& days_told(r.daily@, scan)
    &&& ranking(r.by_model@, (), scan.all.models)
    &&& ranking(r.by_skill@, (), scan.all.skills)
    &&& ranking(r.by_plugin@, (), scan.all.plugins)
    &&& ranking(r.by_tool@, Measure::Messages, scan.all.tools)
    &&& ranking(r.by_mcp_server@, Measure::ToolUses, scan.all.servers)
    &&& ranking(r.by_content_type@, Measure::Blocks, scan.all.contents)
    &&& ranking(r.by_stop_reason@, Measure::Messages, scan.all.stop_reasons)
    &&& ranking(r.by_branch@, (), scan.all.branches)
    &&& hours_told(r.by_hour@, scan.all.hours)
    &&& weekdays_told(r.by_weekday@, scan.all.weekdays)
}

/// Reports on a scan.
pub fn build_report(scan: Scan, request: &Request, present: &Instant) -> (r: Report)
    requires
        scan.wf(),
    ensures
        reported(r, scan@, scan.sessions@, *request, *present),
{
    let summary = summarize(&scan, request, present);
    let projects = list_projects(&scan.projects);
    let daily = list_days(&scan);
    let t = &scan.all;
    let by_model = list_by_rank(&(), &t.models);
    let by_skill = list_by_rank(&(), &t.skills);
    let by_plugin = list_by_rank(&(), &t.plugins);
    let by_tool = list_by_rank(&Measure::Messages, &t.tools);
    let by_mcp_server = list_by_rank(&Measure::ToolUses, &t.servers);
    let by_content_type = list_by_rank(&Measure::Blocks, &t.contents);
    let by_stop_reason = list_by_rank(&Measure::Messages, &t.stop_reasons);
    let by_branch = list_by_rank(&(), &t.branches);
    let by_hour = list_hours(&t.hours);
    let by_weekday = list_weekdays(&t.weekdays);
    let mut sessions = scan.sessions;
    stable_sort(&mut sessions);
    Report {
        summary,
        projects,
        sessions,
        daily,
        by_model,
        by_skill,
        by_plugin,
        by_tool,
        by_mcp_server,
        by_content_type,
        by_stop_reason,
        by_branch,
        by_hour,
        by_weekday,
    }
}

} // verus!
