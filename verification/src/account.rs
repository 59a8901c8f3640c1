//! What the numbers of a report come from: each is told from the events of the
//! sessions that were counted.
use vstd::prelude::*;
use vstd::seq_lib::*;
use vstd::set_lib::*;
use vstd::string::*;
use crate::event::{event_views, in_time_order, texts, EventV};
use crate::json::opt_text;
use crate::names::{at_or, law_names_are_ordered, lists_names, name_before};
use crate::report::{
    active_projects, day_told, listing, measured, project_told, projects_told, ranking, reported,
    share_told, summary_told, union_activity, unions_total, BranchStat, DailyStat, Measure,
    ModelStat, NamedCount, NamedStat, ProjectStat, Report, Request, Row, Summary,
};
use crate::scan::{
    first_mark, last_mark, session_told, FolderV, ProjectTallyV, ScanV, SessionLog, SessionStat,
};
use crate::session::{
    active_secs, activity, distinct, event_items, event_slots, event_usage, events_items,
    events_usage, gap_after, gap_count, gap_counts, gap_items, gap_slots, gap_spans, gaps_items,
    keyed, keyed_by, keyed_each, lemma_distinct, lemma_keyed_by_at, lemma_total_at_sum,
    lemma_total_of_sum, one_block, one_message, one_session, one_tool_use, session_items,
    session_total, slot_of, slots_in, tool_server, tool_servers, tool_usage, uses_of, Axis, Cycle,
};
use crate::sorting::{
    is_rearrangement, law_everything_can_be_sorted, lemma_every_place_is_named, sorted,
    sorted_by_places, Ranked,
};
use crate::sums::{
    law_joined_tables_keep_the_sum, law_table_keeps_the_sum, lemma_sum_name_by_name,
    lemma_sum_over_others, lemma_sum_remove, sum_over, table_sum, whole,
};
use crate::tables::{session_table, session_tables, TablesV};
use crate::time::{
    date_of, elapsed, instant_read, local_hour, local_weekday, rfc3339_text, Instant, TzOffset,
};
use crate::tokens::{cost_of, TokensV};
use crate::union::{
    by_nanos, by_rank, is_forward, is_whole, law_union_goes_by_what_is_covered,
    law_whole_union_is_the_covered_time, lemma_covered_last, moments_covered, moments_in,
    union_secs, Clock, Span,
};
use crate::usage::{
    has_key, law_table_holds_the_sums, lemma_has_key_push, lemma_no_span_key, spans_at,
    spans_joined, spans_of, table_of, tables_joined, total_at, total_of, UsageV,
};

verus! {

/// A session that a scan counts: the folder of its log, its events, and the
/// time at which it is counted.
pub struct Visit {
    pub folder: FolderV,
    pub events: Seq<EventV>,
    pub present: Instant,
}

/// Every session has an event.
pub open spec fn all_told(visits: Seq<Visit>) -> bool {
    forall|i: int| 0 <= i < visits.len() ==> (#[trigger] visits[i]).events.len() > 0
}

/// The scan that has counted the given sessions, one after the other.
pub open spec fn scan_after(visits: Seq<Visit>, tz: TzOffset, threshold: int) -> ScanV
    decreases visits.len(),
{
    if visits.len() == 0 {
        ScanV::empty()
    } else {
        let v = visits.last();
        scan_after(visits.drop_last(), tz, threshold).with(
            v.folder,
            v.events,
            tz,
            threshold,
            v.present,
        )
    }
}

/// What is counted of events: messages, tokens of a kind, calls of a model, and
/// cost.
pub enum Amount {
    Messages,
    Input,
    Output,
    CacheWrite5m,
    CacheWrite1h,
    CacheRead,
    Calls,
    Cost,
}

/// One of the amounts, out of messages, tokens and cost.
pub open spec fn figure(a: Amount, messages: int, t: TokensV, cost: int) -> int {
    match a {
        Amount::Messages => messages,
        Amount::Input => t.input,
        Amount::Output => t.output,
        Amount::CacheWrite5m => t.cache_create_5m,
        Amount::CacheWrite1h => t.cache_create_1h,
        Amount::CacheRead => t.cache_read,
        Amount::Calls => t.iterations,
        Amount::Cost => cost,
    }
}

/// What an event costs: its tokens at the prices of its model, or of a model
/// without a name.
pub open spec fn event_cost(e: EventV) -> int {
    match e.model {
        Some(m) => cost_of(e.tokens, m),
        None => cost_of(e.tokens, Seq::empty()),
    }
}

/// How much of an amount an event has: it is one message.
pub open spec fn worth(a: Amount, e: EventV) -> int {
    figure(a, 1, e.tokens, event_cost(e))
}

/// A number for each event.
pub type Weight = spec_fn(EventV) -> int;

/// The sum over events.
pub open spec fn over_events(events: Seq<EventV>, f: Weight) -> int
    decreases events.len(),
{
    if events.len() == 0 {
        0
    } else {
        over_events(events.drop_last(), f) + f(events.last())
    }
}

/// The sum over sessions.
pub open spec fn over_visits(visits: Seq<Visit>, f: spec_fn(Visit) -> int) -> int
    decreases visits.len(),
{
    if visits.len() == 0 {
        0
    } else {
        over_visits(visits.drop_last(), f) + f(visits.last())
    }
}

/// The sum over the events of a session.
pub open spec fn of_events(f: Weight) -> spec_fn(Visit) -> int {
    |v: Visit| over_events(v.events, f)
}

/// A number for each session of a project, and nothing for the others.
pub open spec fn of_project(name: Seq<char>, f: spec_fn(Visit) -> int) -> spec_fn(Visit) -> int {
    |v: Visit|
        if v.folder.name == name {
            f(v)
        } else {
            0
        }
}

/// The seconds from an event to the next, where no longer than the threshold.
pub open spec fn active_after(events: Seq<EventV>, threshold: int, i: int) -> int {
    let n = elapsed(events[i].at, events[i + 1].at);
    if 0 <= n <= threshold {
        n
    } else {
        0
    }
}

/// The seconds of activity that start with one of the first `n` events, as far
/// as the event is one of those asked for.
pub open spec fn over_gaps(
    events: Seq<EventV>,
    threshold: int,
    asked: spec_fn(EventV) -> bool,
    n: int,
) -> int
    decreases n,
{
    if n <= 0 {
        0
    } else {
        over_gaps(events, threshold, asked, n - 1) + if asked(events[n - 1]) {
            active_after(events, threshold, n - 1)
        } else {
            0
        }
    }
}

/// The seconds of activity of a session that start with an event that is asked
/// for.
pub open spec fn active_where(threshold: int, asked: spec_fn(EventV) -> bool) -> spec_fn(
    Visit,
) -> int {
    |v: Visit| over_gaps(v.events, threshold, asked, v.events.len() - 1)
}

/// A part of a usage: nothing has none of it, and together there is as much as
/// one by one.
spec fn is_part(m: spec_fn(UsageV) -> int) -> bool {
    &&& m(UsageV::zero()) == 0
    &&& forall|u: UsageV, v: UsageV| #[trigger] m(u.plus(v)) == m(u) + m(v)
}

/// One of the amounts of a usage.
spec fn figure_in(a: Amount) -> spec_fn(UsageV) -> int {
    |u: UsageV| figure(a, u.messages, u.tokens, u.cost)
}

spec fn active_in() -> spec_fn(UsageV) -> int {
    |u: UsageV| u.active_sec
}

spec fn total_in() -> spec_fn(UsageV) -> int {
    |u: UsageV| u.total_sec
}

spec fn sessions_in() -> spec_fn(UsageV) -> int {
    |u: UsageV| u.sessions
}

spec fn uses_in() -> spec_fn(UsageV) -> int {
    |u: UsageV| u.tool_uses
}

spec fn blocks_in() -> spec_fn(UsageV) -> int {
    |u: UsageV| u.blocks
}

proof fn lemma_parts(a: Amount)
    ensures
        is_part(figure_in(a)),
        is_part(active_in()),
        is_part(total_in()),
        is_part(sessions_in()),
        is_part(uses_in()),
        is_part(blocks_in()),
{
}

proof fn lemma_same_events(events: Seq<EventV>, f: Weight, g: Weight)
    requires
        forall|e: EventV| #[trigger] f(e) == g(e),
    ensures
        over_events(events, f) == over_events(events, g),
    decreases events.len(),
{
    if events.len() > 0 {
        lemma_same_events(events.drop_last(), f, g);
    }
}

proof fn lemma_same_visits(visits: Seq<Visit>, f: spec_fn(Visit) -> int, g: spec_fn(Visit) -> int)
    requires
        forall|i: int| 0 <= i < visits.len() ==> f(#[trigger] visits[i]) == g(visits[i]),
    ensures
        over_visits(visits, f) == over_visits(visits, g),
    decreases visits.len(),
{
    if visits.len() > 0 {
        let first = visits.drop_last();
        assert forall|i: int| 0 <= i < first.len() implies f(#[trigger] first[i]) == g(
            first[i],
        ) by {
            assert(f(visits[i]) == g(visits[i]));
        }
        lemma_same_visits(first, f, g);
        assert(f(visits[visits.len() - 1]) == g(visits[visits.len() - 1]));
    }
}

/// The rows of tables have their places.
spec fn sized(t: TablesV) -> bool {
    t.hours.len() == 24 && t.weekdays.len() == 7
}

/// A number for tables: none for tables of nothing, and for joined tables that
/// of both.
spec fn adds_up(m: spec_fn(TablesV) -> int) -> bool {
    &&& m(TablesV::empty()) == 0
    &&& forall|a: TablesV, b: TablesV|
        sized(a) && sized(b) ==> #[trigger] m(a.joined(b)) == m(a) + m(b)
}

/// What tables of a session come to.
spec fn of_session(m: spec_fn(TablesV) -> int, tz: TzOffset, threshold: int) -> spec_fn(
    Visit,
) -> int {
    |v: Visit| m(session_tables(v.events, tz, threshold))
}

/// What adds up is, of everything and of each project, the sum over the
/// sessions.
proof fn lemma_adds_up(
    visits: Seq<Visit>,
    tz: TzOffset,
    threshold: int,
    m: spec_fn(TablesV) -> int,
    name: Seq<char>,
)
    requires
        adds_up(m),
    ensures
        sized(scan_after(visits, tz, threshold).all),
        m(scan_after(visits, tz, threshold).all) == over_visits(
            visits,
            of_session(m, tz, threshold),
        ),
        scan_after(visits, tz, threshold).projects.contains_key(name) ==> sized(
            scan_after(visits, tz, threshold).projects[name].tables,
        ) && m(scan_after(visits, tz, threshold).projects[name].tables) == over_visits(
            visits,
            of_project(name, of_session(m, tz, threshold)),
        ),
        !scan_after(visits, tz, threshold).projects.contains_key(name) ==> over_visits(
            visits,
            of_project(name, of_session(m, tz, threshold)),
        ) == 0,
    decreases visits.len(),
{
    if visits.len() > 0 {
        let first = visits.drop_last();
        let v = visits.last();
        lemma_adds_up(first, tz, threshold, m, name);
        let t = session_tables(v.events, tz, threshold);
        let before = scan_after(first, tz, threshold);
        assert(sized(t));
        assert(m(before.all.joined(t)) == m(before.all) + m(t));
        if v.folder.name == name {
            let p = at_or(before.projects, name, ProjectTallyV::new(v.folder.cwd)).tables;
            assert(sized(p));
            assert(m(p.joined(t)) == m(p) + m(t));
        }
    }
}

/// The name under which an event goes, where it has one.
pub type Key = spec_fn(EventV) -> Option<Seq<char>>;

pub open spec fn model_of() -> Key {
    |e: EventV| e.model
}

pub open spec fn skill_of() -> Key {
    |e: EventV| e.skill
}

pub open spec fn plugin_of() -> Key {
    |e: EventV| e.plugin
}

pub open spec fn branch_of() -> Key {
    |e: EventV| e.git_branch
}

pub open spec fn stop_reason_of() -> Key {
    |e: EventV| e.stop_reason
}

/// The date of an event in a time zone.
pub open spec fn day_of(tz: TzOffset) -> Key {
    |e: EventV| Some(date_of(e.at, tz))
}

/// An amount of the events that go under a name.
pub open spec fn under(key: Key, name: Seq<char>, a: Amount) -> Weight {
    |e: EventV|
        if key(e) == Some(name) {
            worth(a, e)
        } else {
            0
        }
}

/// The events that go under a name.
pub open spec fn named(key: Key, name: Seq<char>) -> spec_fn(EventV) -> bool {
    |e: EventV| key(e) == Some(name)
}

/// The table of an axis.
spec fn table_in(axis: Axis, t: TablesV) -> Map<Seq<char>, UsageV> {
    match axis {
        Axis::Day => t.days,
        Axis::Model => t.models,
        Axis::Skill => t.skills,
        Axis::Plugin => t.plugins,
        Axis::Branch => t.branches,
        Axis::StopReason => t.stop_reasons,
        Axis::Content => t.contents,
        Axis::Tool => t.tools,
        Axis::Server => t.servers,
    }
}

/// A part of what a table of an axis holds for a name.
spec fn held(axis: Axis, k: Seq<char>, m: spec_fn(UsageV) -> int) -> spec_fn(TablesV) -> int {
    |t: TablesV| m(at_or(table_in(axis, t), k, UsageV::zero()))
}

proof fn lemma_joined_at(a: Map<Seq<char>, UsageV>, b: Map<Seq<char>, UsageV>, k: Seq<char>)
    ensures
        at_or(tables_joined(a, b), k, UsageV::zero()) == at_or(a, k, UsageV::zero()).plus(
            at_or(b, k, UsageV::zero()),
        ),
{
    assert(UsageV::zero().plus(UsageV::zero()) == UsageV::zero());
}

proof fn lemma_held_adds_up(axis: Axis, k: Seq<char>, m: spec_fn(UsageV) -> int)
    requires
        is_part(m),
    ensures
        adds_up(held(axis, k, m)),
{
    let f = held(axis, k, m);
    assert forall|a: TablesV, b: TablesV| sized(a) && sized(b) implies #[trigger] f(a.joined(b))
        == f(a) + f(b) by {
        lemma_joined_at(table_in(axis, a), table_in(axis, b), k);
        assert(table_in(axis, a.joined(b)) == tables_joined(table_in(axis, a), table_in(axis, b)));
    }
    assert(table_in(axis, TablesV::empty()) == Map::<Seq<char>, UsageV>::empty());
}

/// What an event adds to a name along an axis.
spec fn added(axis: Axis, tz: TzOffset, k: Seq<char>, m: spec_fn(UsageV) -> int) -> Weight {
    |e: EventV| m(total_at(event_items(axis, e, tz), k))
}

proof fn lemma_events_at(
    axis: Axis,
    events: Seq<EventV>,
    tz: TzOffset,
    k: Seq<char>,
    m: spec_fn(UsageV) -> int,
)
    requires
        is_part(m),
    ensures
        m(total_at(events_items(axis, events, tz), k)) == over_events(
            events,
            added(axis, tz, k, m),
        ),
    decreases events.len(),
{
    if events.len() > 0 {
        let first = events.drop_last();
        lemma_events_at(axis, first, tz, k, m);
        lemma_total_at_sum(
            events_items(axis, first, tz),
            event_items(axis, events.last(), tz),
            k,
        );
    }
}

/// Time between events has none of a part of which activity has none.
proof fn lemma_gaps_without(
    axis: Axis,
    events: Seq<EventV>,
    tz: TzOffset,
    threshold: int,
    n: int,
    k: Seq<char>,
    m: spec_fn(UsageV) -> int,
)
    requires
        is_part(m),
        forall|x: int| m(#[trigger] activity(x)) == 0,
    ensures
        m(total_at(gaps_items(axis, events, tz, threshold, n), k)) == 0,
    decreases n,
{
    if n > 0 {
        lemma_gaps_without(axis, events, tz, threshold, n - 1, k, m);
        if gap_counts(events, n - 1, threshold) {
            let e = events[n - 1];
            let gap = gap_after(events, n - 1);
            lemma_total_at_sum(
                gaps_items(axis, events, tz, threshold, n - 1),
                gap_items(axis, e, gap, tz),
                k,
            );
            lemma_keyed_at(Some(date_of(e.at, tz)), activity(gap), k);
            lemma_keyed_at(e.git_branch, activity(gap), k);
            assert(gap_items(Axis::Day, e, gap, tz) =~= keyed(
                Some(date_of(e.at, tz)),
                activity(gap),
            ));
        }
    }
}

proof fn lemma_keyed_at(key: Option<Seq<char>>, u: UsageV, k: Seq<char>)
    ensures
        total_at(keyed(key, u), k) == if key == Some(k) {
            u
        } else {
            UsageV::zero()
        },
        has_key(keyed(key, u), k) <==> key == Some(k),
{
    assert(UsageV::zero().plus(u) == u);
    let items = keyed(key, u);
    if let Some(x) = key {
        assert(items.drop_last() =~= Seq::<(Seq<char>, UsageV)>::empty());
        assert(total_at(items.drop_last(), k) == UsageV::zero());
        assert(items.last() == (x, u));
        assert(items[0] == (x, u));
    }
}

/// The activity that time between events adds to a name.
proof fn lemma_gaps_active(
    axis: Axis,
    key: Key,
    events: Seq<EventV>,
    tz: TzOffset,
    threshold: int,
    n: int,
    k: Seq<char>,
)
    requires
        axis is Day && key == day_of(tz) || axis is Branch && key == branch_of(),
    ensures
        total_at(gaps_items(axis, events, tz, threshold, n), k).active_sec == over_gaps(
            events,
            threshold,
            named(key, k),
            n,
        ),
    decreases n,
{
    if n > 0 {
        lemma_gaps_active(axis, key, events, tz, threshold, n - 1, k);
        if gap_counts(events, n - 1, threshold) {
            let e = events[n - 1];
            let gap = gap_after(events, n - 1);
            lemma_total_at_sum(
                gaps_items(axis, events, tz, threshold, n - 1),
                gap_items(axis, e, gap, tz),
                k,
            );
            lemma_keyed_at(key(e), activity(gap), k);
            assert(gap_items(axis, e, gap, tz) =~= keyed(key(e), activity(gap)));
        }
    }
}

/// What a session holds for a name: what its gaps and its events add, and the
/// session itself on the day of its first event.
proof fn lemma_session_at(
    axis: Axis,
    events: Seq<EventV>,
    tz: TzOffset,
    threshold: int,
    k: Seq<char>,
    m: spec_fn(UsageV) -> int,
)
    requires
        is_part(m),
        events.len() > 0,
    ensures
        m(at_or(session_table(axis, events, tz, threshold), k, UsageV::zero())) == m(
            total_at(gaps_items(axis, events, tz, threshold, events.len() - 1), k),
        ) + over_events(events, added(axis, tz, k, m)) + if axis is Day && date_of(
            events[0].at,
            tz,
        ) == k {
            m(one_session())
        } else {
            0
        },
{
    let gaps = gaps_items(axis, events, tz, threshold, gap_count(events));
    let told = events_items(axis, events, tz);
    let items = session_items(axis, events, tz, threshold);
    lemma_events_at(axis, events, tz, k, m);
    lemma_total_at_sum(gaps, told, k);
    law_table_holds_the_sums(items, k);
    if axis is Day {
        assert(items.drop_last() =~= gaps + told);
        assert(items.last() == (date_of(events[0].at, tz), one_session()));
    }
}

proof fn lemma_has_key_sum(
    a: Seq<(Seq<char>, UsageV)>,
    b: Seq<(Seq<char>, UsageV)>,
    k: Seq<char>,
)
    ensures
        has_key(a + b, k) <==> has_key(a, k) || has_key(b, k),
{
    let c = a + b;
    if has_key(a, k) {
        let i = choose|i: int| 0 <= i < a.len() && (#[trigger] a[i]).0 == k;
        assert(c[i].0 == k);
    }
    if has_key(b, k) {
        let i = choose|i: int| 0 <= i < b.len() && (#[trigger] b[i]).0 == k;
        assert(c[a.len() + i].0 == k);
    }
    if has_key(c, k) {
        let i = choose|i: int| 0 <= i < c.len() && (#[trigger] c[i]).0 == k;
        if i < a.len() {
            assert(a[i].0 == k);
        } else {
            assert(b[i - a.len()].0 == k);
        }
    }
}

/// Something goes to a name with an event if and only if the event adds some of
/// a part, and never less than nothing.
spec fn shows(axis: Axis, tz: TzOffset, k: Seq<char>, m: spec_fn(UsageV) -> int) -> bool {
    forall|e: EventV| #[trigger]
        added(axis, tz, k, m)(e) >= 0 && (has_key(event_items(axis, e, tz), k) <==> added(
            axis,
            tz,
            k,
            m,
        )(e) > 0)
}

proof fn lemma_events_show(
    axis: Axis,
    events: Seq<EventV>,
    tz: TzOffset,
    k: Seq<char>,
    m: spec_fn(UsageV) -> int,
)
    requires
        shows(axis, tz, k, m),
    ensures
        over_events(events, added(axis, tz, k, m)) >= 0,
        has_key(events_items(axis, events, tz), k) <==> over_events(
            events,
            added(axis, tz, k, m),
        ) > 0,
        forall|i: int|
            0 <= i < events.len() && added(axis, tz, k, m)(#[trigger] events[i]) > 0
                ==> over_events(events, added(axis, tz, k, m)) > 0,
    decreases events.len(),
{
    let f = added(axis, tz, k, m);
    if events.len() > 0 {
        let first = events.drop_last();
        let e = events.last();
        lemma_events_show(axis, first, tz, k, m);
        lemma_has_key_sum(events_items(axis, first, tz), event_items(axis, e, tz), k);
        assert(f(e) >= 0);
        assert forall|i: int| 0 <= i < events.len() && f(#[trigger] events[i])
            > 0 implies over_events(events, f) > 0 by {
            if i < first.len() {
                assert(f(first[i]) > 0);
            }
        }
    }
}

proof fn lemma_gaps_show(
    axis: Axis,
    events: Seq<EventV>,
    tz: TzOffset,
    threshold: int,
    n: int,
    k: Seq<char>,
    m: spec_fn(UsageV) -> int,
)
    requires
        shows(axis, tz, k, m),
        n <= events.len(),
    ensures
        has_key(gaps_items(axis, events, tz, threshold, n), k) ==> over_events(
            events,
            added(axis, tz, k, m),
        ) > 0,
    decreases n,
{
    if n > 0 {
        lemma_gaps_show(axis, events, tz, threshold, n - 1, k, m);
        lemma_events_show(axis, events, tz, k, m);
        if gap_counts(events, n - 1, threshold) {
            let e = events[n - 1];
            let gap = gap_after(events, n - 1);
            lemma_has_key_sum(
                gaps_items(axis, events, tz, threshold, n - 1),
                gap_items(axis, e, gap, tz),
                k,
            );
            let day = Some(date_of(e.at, tz));
            lemma_keyed_at(day, activity(gap), k);
            lemma_keyed_at(e.git_branch, activity(gap), k);
            lemma_keyed_at(day, event_usage(e), k);
            lemma_keyed_at(e.git_branch, event_usage(e), k);
            assert(gap_items(Axis::Day, e, gap, tz) =~= keyed(day, activity(gap)));
            assert(event_items(Axis::Day, e, tz) =~= keyed(day, event_usage(e)));
            if has_key(gap_items(axis, e, gap, tz), k) {
                assert(has_key(event_items(axis, e, tz), k));
                assert(added(axis, tz, k, m)(e) > 0);
            }
        }
    }
}

/// A session has a name in the table of an axis if and only if its events add
/// something to it.
proof fn lemma_session_shows(
    axis: Axis,
    events: Seq<EventV>,
    tz: TzOffset,
    threshold: int,
    k: Seq<char>,
    m: spec_fn(UsageV) -> int,
)
    requires
        shows(axis, tz, k, m),
        events.len() > 0,
    ensures
        over_events(events, added(axis, tz, k, m)) >= 0,
        table_in(axis, session_tables(events, tz, threshold)).contains_key(k) <==> over_events(
            events,
            added(axis, tz, k, m),
        ) > 0,
{
    let n = gap_count(events);
    let gaps = gaps_items(axis, events, tz, threshold, n);
    let told = events_items(axis, events, tz);
    let items = session_items(axis, events, tz, threshold);
    lemma_events_show(axis, events, tz, k, m);
    lemma_gaps_show(axis, events, tz, threshold, n, k, m);
    lemma_has_key_sum(gaps, told, k);
    if axis is Day {
        let e = events[0];
        let s = (date_of(e.at, tz), one_session());
        assert(items =~= (gaps + told) + seq![s]);
        lemma_has_key_sum(gaps + told, seq![s], k);
        lemma_keyed_at(Some(s.0), s.1, k);
        assert(keyed(Some(s.0), s.1) =~= seq![s]);
        lemma_keyed_at(Some(s.0), event_usage(e), k);
        assert(event_items(Axis::Day, e, tz) =~= keyed(Some(s.0), event_usage(e)));
        if s.0 == k {
            assert(added(axis, tz, k, m)(e) > 0);
        }
    }
}

/// A name is in the table of an axis if and only if the table holds some of a
/// part for it.
spec fn tells_presence(axis: Axis, k: Seq<char>, m: spec_fn(UsageV) -> int, t: TablesV) -> bool {
    &&& held(axis, k, m)(t) >= 0
    &&& table_in(axis, t).contains_key(k) <==> held(axis, k, m)(t) > 0
}

proof fn lemma_presence(
    visits: Seq<Visit>,
    tz: TzOffset,
    threshold: int,
    axis: Axis,
    k: Seq<char>,
    m: spec_fn(UsageV) -> int,
    name: Seq<char>,
)
    requires
        is_part(m),
        forall|i: int|
            0 <= i < visits.len() ==> tells_presence(
                axis,
                k,
                m,
                session_tables((#[trigger] visits[i]).events, tz, threshold),
            ),
    ensures
        tells_presence(axis, k, m, scan_after(visits, tz, threshold).all),
        scan_after(visits, tz, threshold).projects.contains_key(name) ==> tells_presence(
            axis,
            k,
            m,
            scan_after(visits, tz, threshold).projects[name].tables,
        ),
    decreases visits.len(),
{
    let empty = TablesV::empty();
    assert(table_in(axis, empty) == Map::<Seq<char>, UsageV>::empty());
    assert(tells_presence(axis, k, m, empty));
    if visits.len() > 0 {
        let first = visits.drop_last();
        let v = visits[visits.len() - 1];
        assert forall|i: int| 0 <= i < first.len() implies tells_presence(
            axis,
            k,
            m,
            session_tables((#[trigger] first[i]).events, tz, threshold),
        ) by {
            assert(visits[i] == first[i]);
        }
        lemma_presence(first, tz, threshold, axis, k, m, name);
        let before = scan_after(first, tz, threshold);
        let t = session_tables(v.events, tz, threshold);
        lemma_presence_joined(axis, k, m, before.all, t);
        if v.folder.name == name {
            let p = at_or(before.projects, name, ProjectTallyV::new(v.folder.cwd)).tables;
            lemma_presence_joined(axis, k, m, p, t);
        }
    }
}

proof fn lemma_presence_joined(
    axis: Axis,
    k: Seq<char>,
    m: spec_fn(UsageV) -> int,
    a: TablesV,
    b: TablesV,
)
    requires
        is_part(m),
        tells_presence(axis, k, m, a),
        tells_presence(axis, k, m, b),
    ensures
        tells_presence(axis, k, m, a.joined(b)),
{
    lemma_joined_at(table_in(axis, a), table_in(axis, b), k);
    assert(table_in(axis, a.joined(b)) == tables_joined(table_in(axis, a), table_in(axis, b)));
}

/// The axes along which an event goes under one name at most.
spec fn goes_by(axis: Axis, key: Key, tz: TzOffset) -> bool {
    match axis {
        Axis::Day => key == day_of(tz),
        Axis::Model => key == model_of(),
        Axis::Skill => key == skill_of(),
        Axis::Plugin => key == plugin_of(),
        Axis::Branch => key == branch_of(),
        _ => false,
    }
}

proof fn lemma_event_usage(a: Amount, e: EventV)
    ensures
        figure_in(a)(event_usage(e)) == worth(a, e),
{
    reveal_strlit("");
    assert(""@ =~= Seq::<char>::empty());
}

proof fn lemma_event_under(axis: Axis, key: Key, tz: TzOffset, k: Seq<char>, a: Amount)
    requires
        goes_by(axis, key, tz),
    ensures
        forall|e: EventV| #[trigger]
            added(axis, tz, k, figure_in(a))(e) == under(key, k, a)(e),
        shows(axis, tz, k, figure_in(Amount::Messages)),
{
    assert forall|e: EventV| #[trigger]
        added(axis, tz, k, figure_in(a))(e) == under(key, k, a)(e) by {
        lemma_keyed_at(key(e), event_usage(e), k);
        assert(event_items(axis, e, tz) =~= keyed(key(e), event_usage(e)));
        lemma_event_usage(a, e);
    }
    assert forall|e: EventV| #[trigger]
        added(axis, tz, k, figure_in(Amount::Messages))(e) >= 0 && (has_key(
            event_items(axis, e, tz),
            k,
        ) <==> added(axis, tz, k, figure_in(Amount::Messages))(e) > 0) by {
        lemma_keyed_at(key(e), event_usage(e), k);
        assert(event_items(axis, e, tz) =~= keyed(key(e), event_usage(e)));
    }
}

/// What a session has under a name.
proof fn lemma_session_under(
    axis: Axis,
    key: Key,
    events: Seq<EventV>,
    tz: TzOffset,
    threshold: int,
    k: Seq<char>,
    a: Amount,
)
    requires
        goes_by(axis, key, tz),
        events.len() > 0,
    ensures
        held(axis, k, figure_in(a))(session_tables(events, tz, threshold)) == over_events(
            events,
            under(key, k, a),
        ),
        tells_presence(
            axis,
            k,
            figure_in(Amount::Messages),
            session_tables(events, tz, threshold),
        ),
{
    let n = events.len() - 1;
    let t = session_tables(events, tz, threshold);
    let table = session_table(axis, events, tz, threshold);
    lemma_parts(a);
    lemma_parts(Amount::Messages);
    lemma_event_under(axis, key, tz, k, a);
    lemma_event_under(axis, key, tz, k, Amount::Messages);
    lemma_session_at(axis, events, tz, threshold, k, figure_in(a));
    lemma_session_at(axis, events, tz, threshold, k, figure_in(Amount::Messages));
    lemma_gaps_without(axis, events, tz, threshold, n, k, figure_in(a));
    lemma_gaps_without(axis, events, tz, threshold, n, k, figure_in(Amount::Messages));
    lemma_same_events(events, added(axis, tz, k, figure_in(a)), under(key, k, a));
    lemma_session_shows(axis, events, tz, threshold, k, figure_in(Amount::Messages));
    if !(axis is Branch) {
        assert(table_in(axis, t) == table);
    }
}

/// What a scan has under a name, of everything and of a project.
proof fn lemma_scan_under(
    axis: Axis,
    key: Key,
    visits: Seq<Visit>,
    tz: TzOffset,
    threshold: int,
    k: Seq<char>,
    a: Amount,
    name: Seq<char>,
)
    requires
        goes_by(axis, key, tz),
        all_told(visits),
    ensures
        held(axis, k, figure_in(a))(scan_after(visits, tz, threshold).all) == over_visits(
            visits,
            of_events(under(key, k, a)),
        ),
        tells_presence(
            axis,
            k,
            figure_in(Amount::Messages),
            scan_after(visits, tz, threshold).all,
        ),
        scan_after(visits, tz, threshold).projects.contains_key(name) ==> held(
            axis,
            k,
            figure_in(a),
        )(scan_after(visits, tz, threshold).projects[name].tables) == over_visits(
            visits,
            of_project(name, of_events(under(key, k, a))),
        ) && tells_presence(
            axis,
            k,
            figure_in(Amount::Messages),
            scan_after(visits, tz, threshold).projects[name].tables,
        ),
{
    let m = held(axis, k, figure_in(a));
    let f = of_session(m, tz, threshold);
    let g = of_events(under(key, k, a));
    lemma_parts(a);
    lemma_parts(Amount::Messages);
    lemma_held_adds_up(axis, k, figure_in(a));
    lemma_adds_up(visits, tz, threshold, m, name);
    assert forall|i: int| 0 <= i < visits.len() implies f(#[trigger] visits[i]) == g(visits[i])
        && tells_presence(
        axis,
        k,
        figure_in(Amount::Messages),
        session_tables(visits[i].events, tz, threshold),
    ) by {
        lemma_session_under(axis, key, visits[i].events, tz, threshold, k, a);
    }
    lemma_same_visits(visits, f, g);
    lemma_same_visits(visits, of_project(name, f), of_project(name, g));
    lemma_presence(visits, tz, threshold, axis, k, figure_in(Amount::Messages), name);
}

/// Rows that tell what a table holds: which names they tell of.
proof fn lemma_ranking<T: Row>(rows: Seq<T>, how: T::How, table: Map<Seq<char>, UsageV>) -> (names:
    Seq<Seq<char>>)
    requires
        ranking(rows, how, table),
    ensures
        names.len() == rows.len(),
        names.no_duplicates(),
        forall|k: Seq<char>| #[trigger] names.contains(k) <==> table.contains_key(k),
        forall|i: int| 0 <= i < names.len() ==> table.contains_key(#[trigger] names[i]),
        forall|i: int|
            0 <= i < rows.len() ==> (#[trigger] rows[i]).tells(how, names[i], table[names[i]]),
        forall|i: int, j: int|
            0 <= i < j < rows.len() ==> #[trigger] rows[i].rank() < #[trigger] rows[j].rank() || (
            rows[i].rank() == rows[j].rank() && name_before(names[i], names[j])),
{
    let by_name = choose|by_name: Seq<T>| #[trigger]
        listing(by_name, how, table) && rows == sorted(by_name);
    let listed = choose|listed: Seq<Seq<char>>| #[trigger]
        lists_names(listed, table) && by_name.len() == listed.len() && forall|i: int|
            0 <= i < by_name.len() ==> (#[trigger] by_name[i]).tells(
                how,
                listed[i],
                table[listed[i]],
            );
    law_everything_can_be_sorted(by_name);
    let places = choose|places: Seq<int>| sorted_by_places(by_name, rows, places);
    let names = Seq::new(rows.len(), |i: int| listed[places[i]]);
    assert forall|i: int| 0 <= i < rows.len() implies (#[trigger] rows[i]).tells(
        how,
        names[i],
        table[names[i]],
    ) by {
        assert(rows[i] == by_name[places[i]]);
    }
    assert forall|i: int| 0 <= i < names.len() implies table.contains_key(#[trigger] names[i]) by {
        assert(rows[i] == by_name[places[i]]);
        assert(listed.contains(listed[places[i]]));
    }
    assert forall|i: int, j: int| 0 <= i < j < rows.len() implies names[i] != names[j] && (
    #[trigger] rows[i].rank() < #[trigger] rows[j].rank() || (rows[i].rank() == rows[j].rank()
        && name_before(names[i], names[j]))) by {
        let p = places[i];
        let q = places[j];
        assert(p != q);
        law_names_are_ordered(listed[p], listed[p], listed[p]);
        if p < q {
            assert(name_before(listed[p], listed[q]));
        } else {
            assert(name_before(listed[q], listed[p]));
        }
    }
    assert(names.no_duplicates()) by {
        assert forall|i: int, j: int|
            0 <= i < names.len() && 0 <= j < names.len() && i != j implies names[i] != names[j] by {
            if i < j {
                assert(rows[i].rank() <= rows[j].rank());
            } else {
                assert(rows[j].rank() <= rows[i].rank());
            }
        }
    }
    assert forall|k: Seq<char>| #[trigger] names.contains(k) <==> table.contains_key(k) by {
        if names.contains(k) {
            let i = names.index_of(k);
            assert(table.contains_key(names[i]));
        }
        if table.contains_key(k) {
            assert(listed.contains(k));
            let p = listed.index_of(k);
            lemma_every_place_is_named(places, by_name.len(), p);
            let i = choose|i: int| 0 <= i < places.len() && places[i] == p;
            assert(names[i] == k);
        }
    }
    names
}

/// One of the amounts that a row on a skill or a plugin says.
pub open spec fn stat_figure(a: Amount, s: NamedStat) -> int {
    figure(a, s.messages as int, s.tokens@, s.cost as int)
}

/// One of the amounts that a row on a model says.
pub open spec fn model_figure(a: Amount, s: ModelStat) -> int {
    figure(a, s.messages as int, s.tokens@, s.cost as int)
}

/// One of the amounts that a row on a branch says.
pub open spec fn branch_figure(a: Amount, s: BranchStat) -> int {
    figure(a, s.messages as int, s.tokens@, s.cost as int)
}

/// The rows tell, of each name under which an event goes and of no other, once,
/// what the events under it amount to; those with more messages come first, and
/// of those with as many the names in their order.
pub open spec fn stats_of(rows: Seq<NamedStat>, key: Key, visits: Seq<Visit>) -> bool {
    &&& forall|i: int, a: Amount|
        0 <= i < rows.len() ==> #[trigger] stat_figure(a, rows[i]) == over_visits(
            visits,
            of_events(under(key, rows[i].name@, a)),
        )
    &&& forall|k: Seq<char>| #[trigger]
        over_visits(visits, of_events(under(key, k, Amount::Messages))) > 0 ==> exists|i: int|
            0 <= i < rows.len() && (#[trigger] rows[i]).name@ == k
    &&& forall|i: int| 0 <= i < rows.len() ==> (#[trigger] rows[i]).messages > 0
    &&& forall|i: int, j: int|
        0 <= i < j < rows.len() ==> (#[trigger] rows[i]).messages > (#[trigger] rows[j]).messages
            || (rows[i].messages == rows[j].messages && name_before(rows[i].name@, rows[j].name@))
}

proof fn lemma_stats(
    rows: Seq<NamedStat>,
    axis: Axis,
    key: Key,
    visits: Seq<Visit>,
    tz: TzOffset,
    threshold: int,
)
    requires
        all_told(visits),
        goes_by(axis, key, tz),
        ranking(rows, (), table_in(axis, scan_after(visits, tz, threshold).all)),
    ensures
        stats_of(rows, key, visits),
{
    let all = scan_after(visits, tz, threshold).all;
    let table = table_in(axis, all);
    let names = lemma_ranking(rows, (), table);
    let none = Seq::<char>::empty();
    assert forall|i: int, a: Amount| 0 <= i < rows.len() implies #[trigger] stat_figure(a, rows[i])
        == over_visits(visits, of_events(under(key, rows[i].name@, a))) && rows[i].messages
        > 0 by {
        let k = rows[i].name@;
        lemma_scan_under(axis, key, visits, tz, threshold, k, a, none);
        assert(rows[i].tells((), names[i], table[names[i]]));
    }
    assert forall|i: int| 0 <= i < rows.len() implies (#[trigger] rows[i]).messages > 0 by {
        assert(stat_figure(Amount::Messages, rows[i]) == rows[i].messages);
    }
    assert forall|k: Seq<char>| #[trigger]
        over_visits(visits, of_events(under(key, k, Amount::Messages))) > 0 implies exists|i: int|
        0 <= i < rows.len() && (#[trigger] rows[i]).name@ == k by {
        lemma_scan_under(axis, key, visits, tz, threshold, k, Amount::Messages, none);
        let i = names.index_of(k);
        assert(names.contains(k));
        assert(rows[i].tells((), names[i], table[names[i]]));
    }
    assert forall|i: int, j: int| 0 <= i < j < rows.len() implies (#[trigger] rows[i]).messages > (
    #[trigger] rows[j]).messages || (rows[i].messages == rows[j].messages && name_before(
        rows[i].name@,
        rows[j].name@,
    )) by {
        assert(rows[i].rank() < rows[j].rank() || (rows[i].rank() == rows[j].rank() && name_before(
            names[i],
            names[j],
        )));
        assert(rows[i].tells((), names[i], table[names[i]]));
        assert(rows[j].tells((), names[j], table[names[j]]));
    }
}

/// The list of skills tells what the events of each skill amount to: messages,
/// every kind of tokens, calls and cost.
pub proof fn law_skills_are_told(
    r: Report,
    visits: Seq<Visit>,
    tz: TzOffset,
    threshold: int,
    sessions: Seq<SessionStat>,
    request: Request,
    present: Instant,
)
    requires
        all_told(visits),
        reported(r, scan_after(visits, tz, threshold), sessions, request, present),
    ensures
        stats_of(r.by_skill@, skill_of(), visits),
{
    lemma_stats(r.by_skill@, Axis::Skill, skill_of(), visits, tz, threshold);
}

/// The list of plugins tells what the events of each plugin amount to.
pub proof fn law_plugins_are_told(
    r: Report,
    visits: Seq<Visit>,
    tz: TzOffset,
    threshold: int,
    sessions: Seq<SessionStat>,
    request: Request,
    present: Instant,
)
    requires
        all_told(visits),
        reported(r, scan_after(visits, tz, threshold), sessions, request, present),
    ensures
        stats_of(r.by_plugin@, plugin_of(), visits),
{
    lemma_stats(r.by_plugin@, Axis::Plugin, plugin_of(), visits, tz, threshold);
}

/// The list of models tells what the events of each model amount to, of each
/// model with an event and of no other, once; the dearest come first, and of
/// those that cost as much the names in their order.
pub proof fn law_models_are_told(
    r: Report,
    visits: Seq<Visit>,
    tz: TzOffset,
    threshold: int,
    sessions: Seq<SessionStat>,
    request: Request,
    present: Instant,
)
    requires
        all_told(visits),
        reported(r, scan_after(visits, tz, threshold), sessions, request, present),
    ensures
        forall|i: int, a: Amount|
            0 <= i < r.by_model@.len() ==> #[trigger] model_figure(a, r.by_model@[i])
                == over_visits(visits, of_events(under(model_of(), r.by_model@[i].name@, a))),
        forall|k: Seq<char>| #[trigger]
            over_visits(visits, of_events(under(model_of(), k, Amount::Messages))) > 0 ==> exists|
                i: int,
            |
                0 <= i < r.by_model@.len() && (#[trigger] r.by_model@[i]).name@ == k,
        forall|i: int| 0 <= i < r.by_model@.len() ==> (#[trigger] r.by_model@[i]).messages > 0,
        forall|i: int, j: int|
            0 <= i < j < r.by_model@.len() ==> (#[trigger] r.by_model@[i]).cost > (
            #[trigger] r.by_model@[j]).cost || (r.by_model@[i].cost == r.by_model@[j].cost
                && name_before(r.by_model@[i].name@, r.by_model@[j].name@)),
{
    let rows = r.by_model@;
    let table = scan_after(visits, tz, threshold).all.models;
    let names = lemma_ranking(rows, (), table);
    let key = model_of();
    let none = Seq::<char>::empty();
    assert forall|i: int, a: Amount| 0 <= i < rows.len() implies #[trigger] model_figure(a, rows[i])
        == over_visits(visits, of_events(under(key, rows[i].name@, a))) && rows[i].messages
        > 0 by {
        lemma_scan_under(Axis::Model, key, visits, tz, threshold, rows[i].name@, a, none);
        assert(rows[i].tells((), names[i], table[names[i]]));
    }
    assert forall|i: int| 0 <= i < rows.len() implies (#[trigger] rows[i]).messages > 0 by {
        assert(model_figure(Amount::Messages, rows[i]) == rows[i].messages);
    }
    assert forall|k: Seq<char>| #[trigger]
        over_visits(visits, of_events(under(key, k, Amount::Messages))) > 0 implies exists|i: int|
        0 <= i < rows.len() && (#[trigger] rows[i]).name@ == k by {
        lemma_scan_under(Axis::Model, key, visits, tz, threshold, k, Amount::Messages, none);
        let i = names.index_of(k);
        assert(names.contains(k));
        assert(rows[i].tells((), names[i], table[names[i]]));
    }
    assert forall|i: int, j: int| 0 <= i < j < rows.len() implies (#[trigger] rows[i]).cost > (
    #[trigger] rows[j]).cost || (rows[i].cost == rows[j].cost && name_before(
        rows[i].name@,
        rows[j].name@,
    )) by {
        assert(rows[i].rank() < rows[j].rank() || (rows[i].rank() == rows[j].rank() && name_before(
            names[i],
            names[j],
        )));
        assert(rows[i].tells((), names[i], table[names[i]]));
        assert(rows[j].tells((), names[j], table[names[j]]));
    }
}

/// How many of the texts are asked for.
pub open spec fn count_where(s: Seq<Seq<char>>, asked: spec_fn(Seq<char>) -> bool) -> int
    decreases s.len(),
{
    if s.len() == 0 {
        0
    } else {
        count_where(s.drop_last(), asked) + if asked(s.last()) {
            1int
        } else {
            0int
        }
    }
}

/// The text itself.
pub open spec fn is_text(k: Seq<char>) -> spec_fn(Seq<char>) -> bool {
    |t: Seq<char>| t == k
}

/// The tools of a server.
pub open spec fn is_of_server(k: Seq<char>) -> spec_fn(Seq<char>) -> bool {
    |t: Seq<char>| tool_server(t) == Some(k)
}

/// One for each event that uses a tool, however often.
pub open spec fn users_of_tool() -> spec_fn(Seq<char>) -> Weight {
    |k: Seq<char>|
        |e: EventV|
            if e.tools.contains(k) {
                1int
            } else {
                0int
            }
}

/// How often events use a tool.
pub open spec fn uses_of_tool() -> spec_fn(Seq<char>) -> Weight {
    |k: Seq<char>| |e: EventV| count_where(e.tools, is_text(k))
}

/// How often events use a tool of a server.
pub open spec fn uses_of_server() -> spec_fn(Seq<char>) -> Weight {
    |k: Seq<char>| |e: EventV| count_where(e.tools, is_of_server(k))
}

/// How many content blocks of a type events have.
pub open spec fn blocks_of_type() -> spec_fn(Seq<char>) -> Weight {
    |k: Seq<char>| |e: EventV| count_where(e.content_types, is_text(k))
}

/// One for each event with a stop reason.
pub open spec fn stops_for() -> spec_fn(Seq<char>) -> Weight {
    |k: Seq<char>|
        |e: EventV|
            if e.stop_reason == Some(k) {
                1int
            } else {
                0int
            }
}

proof fn lemma_count_where(s: Seq<Seq<char>>, k: Seq<char>)
    ensures
        count_where(s, is_text(k)) >= 0,
        count_where(s, is_text(k)) > 0 <==> s.contains(k),
        uses_of(s, k) == count_where(s, is_text(k)),
    decreases s.len(),
{
    if s.len() > 0 {
        let first = s.drop_last();
        lemma_count_where(first, k);
        assert(s[s.len() - 1] == s.last());
        if first.contains(k) {
            let i = first.index_of(k);
            assert(s[i] == k);
        }
        if s.contains(k) && s.last() != k {
            let i = s.index_of(k);
            assert(first[i] == k);
        }
    }
}

proof fn lemma_count_servers(tools: Seq<Seq<char>>, k: Seq<char>)
    ensures
        count_where(tool_servers(tools), is_text(k)) == count_where(tools, is_of_server(k)),
    decreases tools.len(),
{
    if tools.len() > 0 {
        let first = tools.drop_last();
        lemma_count_servers(first, k);
        if let Some(x) = tool_server(tools.last()) {
            assert(tool_servers(first).push(x).drop_last() =~= tool_servers(first));
        }
    }
}

proof fn lemma_keyed_each_at(ks: Seq<Seq<char>>, u: UsageV, k: Seq<char>)
    ensures
        u == one_block() ==> total_at(keyed_each(ks, u), k) == (UsageV {
            blocks: count_where(ks, is_text(k)),
            ..UsageV::zero()
        }),
        u == one_tool_use() ==> total_at(keyed_each(ks, u), k) == (UsageV {
            tool_uses: count_where(ks, is_text(k)),
            ..UsageV::zero()
        }),
        has_key(keyed_each(ks, u), k) <==> ks.contains(k),
    decreases ks.len(),
{
    let items = keyed_each(ks, u);
    if ks.len() > 0 {
        lemma_keyed_each_at(ks.drop_last(), u, k);
        assert(items.drop_last() =~= keyed_each(ks.drop_last(), u));
        assert(items.last() == (ks.last(), u));
    }
    if has_key(items, k) {
        let i = choose|i: int| 0 <= i < items.len() && (#[trigger] items[i]).0 == k;
        assert(ks[i] == k);
    }
    if ks.contains(k) {
        let i = ks.index_of(k);
        assert(items[i].0 == k);
    }
}

/// What is counted along an axis.
spec fn counts_by(axis: Axis, m: spec_fn(UsageV) -> int, w: spec_fn(Seq<char>) -> Weight) -> bool {
    match axis {
        Axis::StopReason => m == figure_in(Amount::Messages) && w == stops_for(),
        Axis::Content => m == blocks_in() && w == blocks_of_type(),
        Axis::Tool => m == figure_in(Amount::Messages) && w == users_of_tool() || m == uses_in()
            && w == uses_of_tool(),
        Axis::Server => m == uses_in() && w == uses_of_server(),
        _ => false,
    }
}

proof fn lemma_event_counts(
    axis: Axis,
    m: spec_fn(UsageV) -> int,
    w: spec_fn(Seq<char>) -> Weight,
    tz: TzOffset,
    k: Seq<char>,
)
    requires
        counts_by(axis, m, w),
    ensures
        forall|e: EventV| #[trigger] added(axis, tz, k, m)(e) == w(k)(e),
        shows(axis, tz, k, m),
{
    assert forall|e: EventV| #[trigger]
        added(axis, tz, k, m)(e) == w(k)(e) && added(axis, tz, k, m)(e) >= 0 && (has_key(
            event_items(axis, e, tz),
            k,
        ) <==> added(axis, tz, k, m)(e) > 0) by {
        lemma_keyed_at(e.stop_reason, one_message(), k);
        lemma_keyed_each_at(e.content_types, one_block(), k);
        lemma_keyed_each_at(tool_servers(e.tools), one_tool_use(), k);
        lemma_count_where(e.content_types, k);
        lemma_count_where(tool_servers(e.tools), k);
        lemma_count_servers(e.tools, k);
        lemma_count_where(e.tools, k);
        lemma_distinct(e.tools);
        let ks = distinct(e.tools);
        let f = tool_usage(e.tools);
        lemma_keyed_by_at(ks, f, k);
        let items = keyed_by(ks, f);
        if ks.contains(k) {
            let i = ks.index_of(k);
            assert(items[i].0 == k);
            assert(e.tools.contains(ks[i]));
        }
        if e.tools.contains(k) {
            let i = e.tools.index_of(k);
            assert(ks.contains(e.tools[i]));
        }
        if has_key(items, k) {
            let i = choose|i: int| 0 <= i < items.len() && (#[trigger] items[i]).0 == k;
            assert(ks[i] == k);
        }
    }
}

proof fn lemma_scan_counts(
    axis: Axis,
    m: spec_fn(UsageV) -> int,
    w: spec_fn(Seq<char>) -> Weight,
    visits: Seq<Visit>,
    tz: TzOffset,
    threshold: int,
    k: Seq<char>,
    name: Seq<char>,
)
    requires
        counts_by(axis, m, w),
        all_told(visits),
    ensures
        held(axis, k, m)(scan_after(visits, tz, threshold).all) == over_visits(
            visits,
            of_events(w(k)),
        ),
        tells_presence(axis, k, m, scan_after(visits, tz, threshold).all),
        scan_after(visits, tz, threshold).projects.contains_key(name) ==> held(axis, k, m)(
            scan_after(visits, tz, threshold).projects[name].tables,
        ) == over_visits(visits, of_project(name, of_events(w(k)))) && tells_presence(
            axis,
            k,
            m,
            scan_after(visits, tz, threshold).projects[name].tables,
        ),
{
    let f = of_session(held(axis, k, m), tz, threshold);
    let g = of_events(w(k));
    lemma_parts(Amount::Messages);
    lemma_event_counts(axis, m, w, tz, k);
    lemma_held_adds_up(axis, k, m);
    lemma_adds_up(visits, tz, threshold, held(axis, k, m), name);
    assert forall|i: int| 0 <= i < visits.len() implies f(#[trigger] visits[i]) == g(visits[i])
        && tells_presence(axis, k, m, session_tables(visits[i].events, tz, threshold)) by {
        let events = visits[i].events;
        lemma_session_at(axis, events, tz, threshold, k, m);
        lemma_gaps_without(axis, events, tz, threshold, events.len() - 1, k, m);
        lemma_same_events(events, added(axis, tz, k, m), w(k));
        lemma_session_shows(axis, events, tz, threshold, k, m);
        assert(table_in(axis, session_tables(events, tz, threshold)) == session_table(
            axis,
            events,
            tz,
            threshold,
        ));
    }
    lemma_same_visits(visits, f, g);
    lemma_same_visits(visits, of_project(name, f), of_project(name, g));
    lemma_presence(visits, tz, threshold, axis, k, m, name);
}

/// The rows tell, of each name with a count and of no other, once, how much is
/// counted of it; larger counts come first, and of those that are the same the
/// names in their order.
pub open spec fn counts_of(
    rows: Seq<NamedCount>,
    w: spec_fn(Seq<char>) -> Weight,
    visits: Seq<Visit>,
) -> bool {
    &&& forall|i: int|
        0 <= i < rows.len() ==> 0 < (#[trigger] rows[i]).count == over_visits(
            visits,
            of_events(w(rows[i].name@)),
        )
    &&& forall|k: Seq<char>| #[trigger]
        over_visits(visits, of_events(w(k))) > 0 ==> exists|i: int|
            0 <= i < rows.len() && (#[trigger] rows[i]).name@ == k
    &&& forall|i: int, j: int|
        0 <= i < j < rows.len() ==> (#[trigger] rows[i]).count > (#[trigger] rows[j]).count || (
        rows[i].count == rows[j].count && name_before(rows[i].name@, rows[j].name@))
}

proof fn lemma_counts(
    rows: Seq<NamedCount>,
    how: Measure,
    axis: Axis,
    m: spec_fn(UsageV) -> int,
    w: spec_fn(Seq<char>) -> Weight,
    visits: Seq<Visit>,
    tz: TzOffset,
    threshold: int,
)
    requires
        all_told(visits),
        counts_by(axis, m, w),
        forall|u: UsageV| #[trigger] measured(how, u) == m(u),
        ranking(rows, how, table_in(axis, scan_after(visits, tz, threshold).all)),
    ensures
        counts_of(rows, w, visits),
{
    let table = table_in(axis, scan_after(visits, tz, threshold).all);
    let names = lemma_ranking(rows, how, table);
    let none = Seq::<char>::empty();
    assert forall|i: int| 0 <= i < rows.len() implies 0 < (#[trigger] rows[i]).count == over_visits(
        visits,
        of_events(w(rows[i].name@)),
    ) by {
        lemma_scan_counts(axis, m, w, visits, tz, threshold, rows[i].name@, none);
        assert(rows[i].tells(how, names[i], table[names[i]]));
    }
    assert forall|k: Seq<char>| #[trigger]
        over_visits(visits, of_events(w(k))) > 0 implies exists|i: int|
        0 <= i < rows.len() && (#[trigger] rows[i]).name@ == k by {
        lemma_scan_counts(axis, m, w, visits, tz, threshold, k, none);
        assert(names.contains(k));
        let i = names.index_of(k);
        assert(rows[i].tells(how, names[i], table[names[i]]));
    }
    assert forall|i: int, j: int| 0 <= i < j < rows.len() implies (#[trigger] rows[i]).count > (
    #[trigger] rows[j]).count || (rows[i].count == rows[j].count && name_before(
        rows[i].name@,
        rows[j].name@,
    )) by {
        assert(rows[i].rank() < rows[j].rank() || (rows[i].rank() == rows[j].rank() && name_before(
            names[i],
            names[j],
        )));
        assert(rows[i].tells(how, names[i], table[names[i]]));
        assert(rows[j].tells(how, names[j], table[names[j]]));
    }
}

/// The list of tools tells how many messages use each; that of tool servers how
/// often their tools are used; that of types of content blocks how many there
/// are; and that of stop reasons how many messages have each.
pub proof fn law_tools_and_blocks_are_counted(
    r: Report,
    visits: Seq<Visit>,
    tz: TzOffset,
    threshold: int,
    sessions: Seq<SessionStat>,
    request: Request,
    present: Instant,
)
    requires
        all_told(visits),
        reported(r, scan_after(visits, tz, threshold), sessions, request, present),
    ensures
        counts_of(r.by_tool@, users_of_tool(), visits),
        counts_of(r.by_mcp_server@, uses_of_server(), visits),
        counts_of(r.by_content_type@, blocks_of_type(), visits),
        counts_of(r.by_stop_reason@, stops_for(), visits),
{
    lemma_counts(
        r.by_tool@,
        Measure::Messages,
        Axis::Tool,
        figure_in(Amount::Messages),
        users_of_tool(),
        visits,
        tz,
        threshold,
    );
    lemma_counts(
        r.by_mcp_server@,
        Measure::ToolUses,
        Axis::Server,
        uses_in(),
        uses_of_server(),
        visits,
        tz,
        threshold,
    );
    lemma_counts(
        r.by_content_type@,
        Measure::Blocks,
        Axis::Content,
        blocks_in(),
        blocks_of_type(),
        visits,
        tz,
        threshold,
    );
    lemma_counts(
        r.by_stop_reason@,
        Measure::Messages,
        Axis::StopReason,
        figure_in(Amount::Messages),
        stops_for(),
        visits,
        tz,
        threshold,
    );
}

/// One for each session that has an event under a name.
pub open spec fn touching(key: Key, name: Seq<char>) -> spec_fn(Visit) -> int {
    |v: Visit|
        if over_events(v.events, under(key, name, Amount::Messages)) > 0 {
            1int
        } else {
            0int
        }
}

/// One for each session that starts on a date.
pub open spec fn starting_on(tz: TzOffset, date: Seq<char>) -> spec_fn(Visit) -> int {
    |v: Visit|
        if date_of(v.events[0].at, tz) == date {
            1int
        } else {
            0int
        }
}

proof fn lemma_no_events(events: Seq<EventV>, f: Weight)
    requires
        forall|e: EventV| #[trigger] f(e) == 0,
    ensures
        over_events(events, f) == 0,
    decreases events.len(),
{
    if events.len() > 0 {
        lemma_no_events(events.drop_last(), f);
    }
}

/// Events add no activity and no session to a name.
proof fn lemma_only_time(axis: Axis, key: Key, tz: TzOffset, k: Seq<char>)
    requires
        goes_by(axis, key, tz),
    ensures
        forall|e: EventV| #[trigger] added(axis, tz, k, active_in())(e) == 0,
        forall|e: EventV| #[trigger] added(axis, tz, k, sessions_in())(e) == 0,
{
    assert forall|e: EventV| #[trigger] added(axis, tz, k, active_in())(e) == 0 by {
        lemma_keyed_at(key(e), event_usage(e), k);
        assert(event_items(axis, e, tz) =~= keyed(key(e), event_usage(e)));
    }
    assert forall|e: EventV| #[trigger] added(axis, tz, k, sessions_in())(e) == 0 by {
        lemma_keyed_at(key(e), event_usage(e), k);
        assert(event_items(axis, e, tz) =~= keyed(key(e), event_usage(e)));
    }
}

/// The activity and the sessions that a session has on a day or on a branch.
proof fn lemma_session_time(
    axis: Axis,
    key: Key,
    events: Seq<EventV>,
    tz: TzOffset,
    threshold: int,
    k: Seq<char>,
)
    requires
        axis is Day && key == day_of(tz) || axis is Branch && key == branch_of(),
        events.len() > 0,
    ensures
        held(axis, k, active_in())(session_tables(events, tz, threshold)) == over_gaps(
            events,
            threshold,
            named(key, k),
            events.len() - 1,
        ),
        axis is Day ==> held(axis, k, sessions_in())(session_tables(events, tz, threshold))
            == if date_of(events[0].at, tz) == k {
            1int
        } else {
            0int
        },
        axis is Branch ==> held(axis, k, sessions_in())(session_tables(events, tz, threshold))
            == if over_events(events, under(key, k, Amount::Messages)) > 0 {
            1int
        } else {
            0int
        },
{
    let n = events.len() - 1;
    lemma_parts(Amount::Messages);
    lemma_only_time(axis, key, tz, k);
    lemma_no_events(events, added(axis, tz, k, active_in()));
    lemma_no_events(events, added(axis, tz, k, sessions_in()));
    lemma_session_at(axis, events, tz, threshold, k, active_in());
    lemma_session_at(axis, events, tz, threshold, k, sessions_in());
    lemma_gaps_active(axis, key, events, tz, threshold, n, k);
    lemma_gaps_without(axis, events, tz, threshold, n, k, sessions_in());
    lemma_session_under(axis, key, events, tz, threshold, k, Amount::Messages);
}

proof fn lemma_scan_time(
    axis: Axis,
    key: Key,
    visits: Seq<Visit>,
    tz: TzOffset,
    threshold: int,
    k: Seq<char>,
    name: Seq<char>,
)
    requires
        axis is Day && key == day_of(tz) || axis is Branch && key == branch_of(),
        all_told(visits),
    ensures
        held(axis, k, active_in())(scan_after(visits, tz, threshold).all) == over_visits(
            visits,
            active_where(threshold, named(key, k)),
        ),
        axis is Day ==> held(axis, k, sessions_in())(scan_after(visits, tz, threshold).all)
            == over_visits(visits, starting_on(tz, k)),
        axis is Branch ==> held(axis, k, sessions_in())(scan_after(visits, tz, threshold).all)
            == over_visits(visits, touching(key, k)),
        scan_after(visits, tz, threshold).projects.contains_key(name) ==> held(
            axis,
            k,
            active_in(),
        )(scan_after(visits, tz, threshold).projects[name].tables) == over_visits(
            visits,
            of_project(name, active_where(threshold, named(key, k))),
        ),
{
    let f = of_session(held(axis, k, active_in()), tz, threshold);
    let g = active_where(threshold, named(key, k));
    let h = of_session(held(axis, k, sessions_in()), tz, threshold);
    lemma_parts(Amount::Messages);
    lemma_held_adds_up(axis, k, active_in());
    lemma_held_adds_up(axis, k, sessions_in());
    lemma_adds_up(visits, tz, threshold, held(axis, k, active_in()), name);
    lemma_adds_up(visits, tz, threshold, held(axis, k, sessions_in()), name);
    assert forall|i: int| 0 <= i < visits.len() implies f(#[trigger] visits[i]) == g(visits[i]) by {
        lemma_session_time(axis, key, visits[i].events, tz, threshold, k);
    }
    lemma_same_visits(visits, f, g);
    lemma_same_visits(visits, of_project(name, f), of_project(name, g));
    if axis is Day {
        assert forall|i: int| 0 <= i < visits.len() implies h(#[trigger] visits[i]) == starting_on(
            tz,
            k,
        )(visits[i]) by {
            lemma_session_time(axis, key, visits[i].events, tz, threshold, k);
        }
        lemma_same_visits(visits, h, starting_on(tz, k));
    } else {
        assert forall|i: int| 0 <= i < visits.len() implies h(#[trigger] visits[i]) == touching(
            key,
            k,
        )(visits[i]) by {
            lemma_session_time(axis, key, visits[i].events, tz, threshold, k);
        }
        lemma_same_visits(visits, h, touching(key, k));
    }
}

/// The list of branches tells of each branch with an event, and of no other,
/// once, what its events amount to, the activity that starts with them, and how
/// many sessions have one; those with more activity come first, and of those
/// with as much the names in their order.
pub proof fn law_branches_are_told(
    r: Report,
    visits: Seq<Visit>,
    tz: TzOffset,
    threshold: int,
    sessions: Seq<SessionStat>,
    request: Request,
    present: Instant,
)
    requires
        all_told(visits),
        reported(r, scan_after(visits, tz, threshold), sessions, request, present),
    ensures
        forall|i: int, a: Amount|
            0 <= i < r.by_branch@.len() ==> #[trigger] branch_figure(a, r.by_branch@[i])
                == over_visits(visits, of_events(under(branch_of(), r.by_branch@[i].name@, a))),
        forall|i: int|
            0 <= i < r.by_branch@.len() ==> (#[trigger] r.by_branch@[i]).messages > 0
                && r.by_branch@[i].active_sec == over_visits(
                visits,
                active_where(threshold, named(branch_of(), r.by_branch@[i].name@)),
            ) && r.by_branch@[i].sessions == over_visits(
                visits,
                touching(branch_of(), r.by_branch@[i].name@),
            ),
        forall|k: Seq<char>| #[trigger]
            over_visits(visits, of_events(under(branch_of(), k, Amount::Messages))) > 0 ==> exists|
                i: int,
            |
                0 <= i < r.by_branch@.len() && (#[trigger] r.by_branch@[i]).name@ == k,
        forall|i: int, j: int|
            0 <= i < j < r.by_branch@.len() ==> (#[trigger] r.by_branch@[i]).active_sec > (
            #[trigger] r.by_branch@[j]).active_sec || (r.by_branch@[i].active_sec
                == r.by_branch@[j].active_sec && name_before(
                r.by_branch@[i].name@,
                r.by_branch@[j].name@,
            )),
{
    let rows = r.by_branch@;
    let table = scan_after(visits, tz, threshold).all.branches;
    let names = lemma_ranking(rows, (), table);
    let key = branch_of();
    let none = Seq::<char>::empty();
    assert forall|i: int, a: Amount| 0 <= i < rows.len() implies #[trigger] branch_figure(
        a,
        rows[i],
    ) == over_visits(visits, of_events(under(key, rows[i].name@, a))) by {
        lemma_scan_under(Axis::Branch, key, visits, tz, threshold, rows[i].name@, a, none);
        assert(rows[i].tells((), names[i], table[names[i]]));
    }
    assert forall|i: int| 0 <= i < rows.len() implies (#[trigger] rows[i]).messages > 0
        && rows[i].active_sec == over_visits(
        visits,
        active_where(threshold, named(key, rows[i].name@)),
    ) && rows[i].sessions == over_visits(visits, touching(key, rows[i].name@)) by {
        let k = rows[i].name@;
        lemma_scan_under(Axis::Branch, key, visits, tz, threshold, k, Amount::Messages, none);
        lemma_scan_time(Axis::Branch, key, visits, tz, threshold, k, none);
        assert(rows[i].tells((), names[i], table[names[i]]));
    }
    assert forall|k: Seq<char>| #[trigger]
        over_visits(visits, of_events(under(key, k, Amount::Messages))) > 0 implies exists|i: int|
        0 <= i < rows.len() && (#[trigger] rows[i]).name@ == k by {
        lemma_scan_under(Axis::Branch, key, visits, tz, threshold, k, Amount::Messages, none);
        assert(names.contains(k));
        let i = names.index_of(k);
        assert(rows[i].tells((), names[i], table[names[i]]));
    }
    assert forall|i: int, j: int| 0 <= i < j < rows.len() implies (#[trigger] rows[i]).active_sec
        > (#[trigger] rows[j]).active_sec || (rows[i].active_sec == rows[j].active_sec
        && name_before(rows[i].name@, rows[j].name@)) by {
        assert(rows[i].rank() < rows[j].rank() || (rows[i].rank() == rows[j].rank() && name_before(
            names[i],
            names[j],
        )));
        assert(rows[i].tells((), names[i], table[names[i]]));
        assert(rows[j].tells((), names[j], table[names[j]]));
    }
}

/// An amount of all events.
pub open spec fn all_of(a: Amount) -> Weight {
    |e: EventV| worth(a, e)
}

/// Every event.
pub open spec fn any_event() -> spec_fn(EventV) -> bool {
    |e: EventV| true
}

/// The seconds from the first event of a session to the last; none where time
/// runs backwards.
pub open spec fn length_of() -> spec_fn(Visit) -> int {
    |v: Visit|
        {
            let n = elapsed(v.events[0].at, v.events[v.events.len() - 1].at);
            if n < 0 {
                0
            } else {
                n
            }
        }
}

/// One for each session.
pub open spec fn one_each() -> spec_fn(Visit) -> int {
    |v: Visit| 1int
}

/// A part of what everything amounts to.
spec fn in_total(m: spec_fn(UsageV) -> int) -> spec_fn(TablesV) -> int {
    |t: TablesV| m(t.total)
}

proof fn lemma_all_gaps(events: Seq<EventV>, threshold: int, n: int)
    ensures
        active_secs(events, threshold, n) == over_gaps(events, threshold, any_event(), n),
    decreases n,
{
    if n > 0 {
        lemma_all_gaps(events, threshold, n - 1);
    }
}

proof fn lemma_all_events(events: Seq<EventV>, a: Amount)
    ensures
        figure_in(a)(events_usage(events)) == over_events(events, all_of(a)),
        events_usage(events).active_sec == 0,
        events_usage(events).total_sec == 0,
        events_usage(events).sessions == 0,
    decreases events.len(),
{
    lemma_parts(a);
    if events.len() > 0 {
        lemma_all_events(events.drop_last(), a);
        lemma_event_usage(a, events.last());
    }
}

/// What a session amounts to.
proof fn lemma_session_total(events: Seq<EventV>, threshold: int, a: Amount)
    requires
        events.len() > 0,
    ensures
        figure_in(a)(session_total(events, threshold)) == over_events(events, all_of(a)),
        session_total(events, threshold).active_sec == over_gaps(
            events,
            threshold,
            any_event(),
            events.len() - 1,
        ),
        session_total(events, threshold).total_sec == if elapsed(
            events[0].at,
            events[events.len() - 1].at,
        ) < 0 {
            0
        } else {
            elapsed(events[0].at, events[events.len() - 1].at)
        },
        session_total(events, threshold).sessions == 1,
{
    lemma_parts(a);
    lemma_all_events(events, a);
    lemma_all_gaps(events, threshold, events.len() - 1);
}

/// What a scan and each of its projects amount to.
proof fn lemma_scan_total(
    visits: Seq<Visit>,
    tz: TzOffset,
    threshold: int,
    a: Amount,
    name: Seq<char>,
)
    requires
        all_told(visits),
    ensures
        ({
            let scan = scan_after(visits, tz, threshold);
            let u = scan.all.total;
            &&& figure_in(a)(u) == over_visits(visits, of_events(all_of(a)))
            &&& u.active_sec == over_visits(visits, active_where(threshold, any_event()))
            &&& u.total_sec == over_visits(visits, length_of())
            &&& u.sessions == over_visits(visits, one_each())
            &&& scan.projects.contains_key(name) ==> {
                let p = scan.projects[name].tables.total;
                &&& figure_in(a)(p) == over_visits(visits, of_project(name, of_events(all_of(a))))
                &&& p.active_sec == over_visits(
                    visits,
                    of_project(name, active_where(threshold, any_event())),
                )
                &&& p.total_sec == over_visits(visits, of_project(name, length_of()))
                &&& p.sessions == over_visits(visits, of_project(name, one_each()))
            }
        }),
{
    let ms = in_total(figure_in(a));
    let ma = in_total(active_in());
    let mt = in_total(total_in());
    let mn = in_total(sessions_in());
    let fs = of_session(ms, tz, threshold);
    let fa = of_session(ma, tz, threshold);
    let ft = of_session(mt, tz, threshold);
    let fn_ = of_session(mn, tz, threshold);
    lemma_parts(a);
    lemma_adds_up(visits, tz, threshold, ms, name);
    lemma_adds_up(visits, tz, threshold, ma, name);
    lemma_adds_up(visits, tz, threshold, mt, name);
    lemma_adds_up(visits, tz, threshold, mn, name);
    assert forall|i: int| 0 <= i < visits.len() implies fs(#[trigger] visits[i]) == of_events(
        all_of(a),
    )(visits[i]) && fa(visits[i]) == active_where(threshold, any_event())(visits[i]) && ft(
        visits[i],
    ) == length_of()(visits[i]) && fn_(visits[i]) == one_each()(visits[i]) by {
        lemma_session_total(visits[i].events, threshold, a);
    }
    lemma_same_visits(visits, fs, of_events(all_of(a)));
    lemma_same_visits(visits, fa, active_where(threshold, any_event()));
    lemma_same_visits(visits, ft, length_of());
    lemma_same_visits(visits, fn_, one_each());
    lemma_same_visits(visits, of_project(name, fs), of_project(name, of_events(all_of(a))));
    lemma_same_visits(
        visits,
        of_project(name, fa),
        of_project(name, active_where(threshold, any_event())),
    );
    lemma_same_visits(visits, of_project(name, ft), of_project(name, length_of()));
    lemma_same_visits(visits, of_project(name, fn_), of_project(name, one_each()));
}

/// Events at an hour of the day in a time zone.
pub open spec fn at_hour(tz: TzOffset, hour: int) -> spec_fn(EventV) -> bool {
    |e: EventV| local_hour(e.at.secs(), tz.secs()) == hour
}

/// Events on a day of the week in a time zone.
pub open spec fn on_weekday(tz: TzOffset, weekday: int) -> spec_fn(EventV) -> bool {
    |e: EventV| local_weekday(e.at.secs(), tz.secs()) == weekday
}

/// One for each event that is asked for.
pub open spec fn ones(asked: spec_fn(EventV) -> bool) -> Weight {
    |e: EventV|
        if asked(e) {
            1int
        } else {
            0int
        }
}

/// The row of a cycle.
spec fn row_in(cycle: Cycle, t: TablesV) -> Seq<UsageV> {
    match cycle {
        Cycle::Hour => t.hours,
        Cycle::Weekday => t.weekdays,
    }
}

/// A part of what a row holds at a place.
spec fn in_row(cycle: Cycle, s: int, m: spec_fn(UsageV) -> int) -> spec_fn(TablesV) -> int {
    |t: TablesV| m(row_in(cycle, t)[s])
}

proof fn lemma_gap_slots_at(
    cycle: Cycle,
    asked: spec_fn(EventV) -> bool,
    events: Seq<EventV>,
    tz: TzOffset,
    threshold: int,
    n: int,
    s: int,
)
    requires
        forall|e: EventV| #[trigger] asked(e) <==> slot_of(cycle, e.at, tz) == s,
    ensures
        total_at(gap_slots(cycle, events, tz, threshold, n), s) == activity(
            over_gaps(events, threshold, asked, n),
        ),
    decreases n,
{
    if n > 0 {
        lemma_gap_slots_at(cycle, asked, events, tz, threshold, n - 1, s);
        let first = gap_slots(cycle, events, tz, threshold, n - 1);
        let x = (slot_of(cycle, events[n - 1].at, tz), activity(gap_after(events, n - 1)));
        assert(first.push(x).drop_last() =~= first);
        assert(asked(events[n - 1]) <==> x.0 == s);
    }
}

proof fn lemma_event_slots_at(
    cycle: Cycle,
    asked: spec_fn(EventV) -> bool,
    events: Seq<EventV>,
    tz: TzOffset,
    s: int,
)
    requires
        forall|e: EventV| #[trigger] asked(e) <==> slot_of(cycle, e.at, tz) == s,
    ensures
        total_at(event_slots(cycle, events, tz), s) == (UsageV {
            messages: over_events(events, ones(asked)),
            ..UsageV::zero()
        }),
    decreases events.len(),
{
    let items = event_slots(cycle, events, tz);
    if events.len() > 0 {
        let first = events.drop_last();
        lemma_event_slots_at(cycle, asked, first, tz, s);
        assert(items.drop_last() =~= event_slots(cycle, first, tz));
        assert(items.last() == (slot_of(cycle, events.last().at, tz), one_message()));
        assert(asked(events.last()) <==> items.last().0 == s);
    }
}

/// Messages and activity at a place of a cycle.
proof fn lemma_scan_slots(
    cycle: Cycle,
    asked: spec_fn(EventV) -> bool,
    visits: Seq<Visit>,
    tz: TzOffset,
    threshold: int,
    s: int,
    name: Seq<char>,
)
    requires
        0 <= s < slots_in(cycle),
        forall|e: EventV| #[trigger] asked(e) <==> slot_of(cycle, e.at, tz) == s,
    ensures
        ({
            let scan = scan_after(visits, tz, threshold);
            &&& sized(scan.all)
            &&& row_in(cycle, scan.all)[s].messages == over_visits(visits, of_events(ones(asked)))
            &&& row_in(cycle, scan.all)[s].active_sec == over_visits(
                visits,
                active_where(threshold, asked),
            )
            &&& scan.projects.contains_key(name) ==> sized(scan.projects[name].tables) && row_in(
                cycle,
                scan.projects[name].tables,
            )[s].active_sec == over_visits(
                visits,
                of_project(name, active_where(threshold, asked)),
            )
        }),
{
    let mm = in_row(cycle, s, figure_in(Amount::Messages));
    let ma = in_row(cycle, s, active_in());
    let fm = of_session(mm, tz, threshold);
    let fa = of_session(ma, tz, threshold);
    lemma_parts(Amount::Messages);
    assert(adds_up(mm)) by {
        assert forall|a: TablesV, b: TablesV| sized(a) && sized(b) implies #[trigger] mm(
            a.joined(b),
        ) == mm(a) + mm(b) by {
            assert(row_in(cycle, a.joined(b))[s] == row_in(cycle, a)[s].plus(row_in(cycle, b)[s]));
        }
    }
    assert(adds_up(ma)) by {
        assert forall|a: TablesV, b: TablesV| sized(a) && sized(b) implies #[trigger] ma(
            a.joined(b),
        ) == ma(a) + ma(b) by {
            assert(row_in(cycle, a.joined(b))[s] == row_in(cycle, a)[s].plus(row_in(cycle, b)[s]));
        }
    }
    lemma_adds_up(visits, tz, threshold, mm, name);
    lemma_adds_up(visits, tz, threshold, ma, name);
    assert forall|i: int| 0 <= i < visits.len() implies fm(#[trigger] visits[i]) == of_events(
        ones(asked),
    )(visits[i]) && fa(visits[i]) == active_where(threshold, asked)(visits[i]) by {
        let events = visits[i].events;
        let gaps = gap_slots(cycle, events, tz, threshold, gap_count(events));
        lemma_gap_slots_at(cycle, asked, events, tz, threshold, gap_count(events), s);
        lemma_event_slots_at(cycle, asked, events, tz, s);
        lemma_total_at_sum(gaps, event_slots(cycle, events, tz), s);
    }
    lemma_same_visits(visits, fm, of_events(ones(asked)));
    lemma_same_visits(visits, fa, active_where(threshold, asked));
    lemma_same_visits(
        visits,
        of_project(name, fa),
        of_project(name, active_where(threshold, asked)),
    );
}

/// The hours of the day and the days of the week are all listed, in their
/// order, each with the messages that fall in it and the activity that starts
/// in it.
pub proof fn law_hours_and_weekdays_are_told(
    r: Report,
    visits: Seq<Visit>,
    tz: TzOffset,
    threshold: int,
    sessions: Seq<SessionStat>,
    request: Request,
    present: Instant,
)
    requires
        reported(r, scan_after(visits, tz, threshold), sessions, request, present),
    ensures
        r.by_hour@.len() == 24,
        forall|h: int|
            0 <= h < 24 ==> (#[trigger] r.by_hour@[h]).hour == h && r.by_hour@[h].messages
                == over_visits(visits, of_events(ones(at_hour(tz, h)))) && r.by_hour@[h].active_sec
                == over_visits(visits, active_where(threshold, at_hour(tz, h))),
        r.by_weekday@.len() == 7,
        forall|d: int|
            0 <= d < 7 ==> (#[trigger] r.by_weekday@[d]).weekday == d && r.by_weekday@[d].messages
                == over_visits(visits, of_events(ones(on_weekday(tz, d))))
                && r.by_weekday@[d].active_sec == over_visits(
                visits,
                active_where(threshold, on_weekday(tz, d)),
            ),
        r.by_weekday@[0].name@ == "Mon"@,
        r.by_weekday@[1].name@ == "Tue"@,
        r.by_weekday@[2].name@ == "Wed"@,
        r.by_weekday@[3].name@ == "Thu"@,
        r.by_weekday@[4].name@ == "Fri"@,
        r.by_weekday@[5].name@ == "Sat"@,
        r.by_weekday@[6].name@ == "Sun"@,
{
    let none = Seq::<char>::empty();
    lemma_scan_slots(Cycle::Hour, at_hour(tz, 0), visits, tz, threshold, 0, none);
    assert forall|h: int| 0 <= h < 24 implies (#[trigger] r.by_hour@[h]).hour == h
        && r.by_hour@[h].messages == over_visits(visits, of_events(ones(at_hour(tz, h))))
        && r.by_hour@[h].active_sec == over_visits(
        visits,
        active_where(threshold, at_hour(tz, h)),
    ) by {
        lemma_scan_slots(Cycle::Hour, at_hour(tz, h), visits, tz, threshold, h, none);
    }
    assert forall|d: int| 0 <= d < 7 implies (#[trigger] r.by_weekday@[d]).weekday == d
        && r.by_weekday@[d].messages == over_visits(visits, of_events(ones(on_weekday(tz, d))))
        && r.by_weekday@[d].active_sec == over_visits(
        visits,
        active_where(threshold, on_weekday(tz, d)),
    ) by {
        lemma_scan_slots(Cycle::Weekday, on_weekday(tz, d), visits, tz, threshold, d, none);
    }
}

/// The names of the projects that sessions belong to.
pub open spec fn projects_in(visits: Seq<Visit>) -> Set<Seq<char>> {
    Set::new(
        |k: Seq<char>|
            exists|i: int| 0 <= i < visits.len() && (#[trigger] visits[i]).folder.name == k,
    )
}

/// An instant at which a session starts, and none starts before.
pub open spec fn is_first_start(visits: Seq<Visit>, t: Instant) -> bool {
    &&& exists|i: int| 0 <= i < visits.len() && (#[trigger] visits[i]).events[0].at == t
    &&& forall|i: int|
        0 <= i < visits.len() ==> t.rank() <= (#[trigger] visits[i]).events[0].at.rank()
}

/// An instant at which a session ends, and none ends after.
pub open spec fn is_last_end(visits: Seq<Visit>, t: Instant) -> bool {
    &&& exists|i: int|
        0 <= i < visits.len() && (#[trigger] visits[i]).events[visits[i].events.len() - 1].at == t
    &&& forall|i: int|
        0 <= i < visits.len() ==> (#[trigger] visits[i]).events[visits[i].events.len()
            - 1].at.rank() <= t.rank()
}

#[verifier::spinoff_prover]
proof fn lemma_scan_ends(visits: Seq<Visit>, tz: TzOffset, threshold: int)
    requires
        all_told(visits),
    ensures
        scan_after(visits, tz, threshold).projects.dom() == projects_in(visits),
        match scan_after(visits, tz, threshold).earliest {
            Some(t) => is_first_start(visits, t),
            None => visits.len() == 0,
        },
        match scan_after(visits, tz, threshold).latest {
            Some(t) => is_last_end(visits, t),
            None => visits.len() == 0,
        },
    decreases visits.len(),
{
    let scan = scan_after(visits, tz, threshold);
    if visits.len() > 0 {
        let first = visits.drop_last();
        let n = visits.len() - 1;
        let v = visits[n];
        let before = scan_after(first, tz, threshold);
        assert(all_told(first)) by {
            assert forall|i: int| 0 <= i < first.len() implies (
            #[trigger] first[i]).events.len() > 0 by {
                assert(visits[i].events.len() > 0);
            }
        }
        assert(v.events.len() > 0);
        lemma_scan_ends(first, tz, threshold);
        assert(forall|i: int| 0 <= i < first.len() ==> first[i] == visits[i]);
        assert forall|k: Seq<char>| scan.projects.dom().contains(k) == projects_in(visits).contains(
            k,
        ) by {
            if projects_in(first).contains(k) {
                let i = choose|i: int|
                    0 <= i < first.len() && (#[trigger] first[i]).folder.name == k;
                assert(visits[i].folder.name == k);
            }
            if v.folder.name == k {
                assert(visits[n].folder.name == k);
            }
            if projects_in(visits).contains(k) && v.folder.name != k {
                let i = choose|i: int|
                    0 <= i < visits.len() && (#[trigger] visits[i]).folder.name == k;
                assert(first[i].folder.name == k);
            }
        }
        let a = scan.earliest->0;
        if first.len() > 0 {
            let t = before.earliest->0;
            let i = choose|i: int| 0 <= i < first.len() && (#[trigger] first[i]).events[0].at == t;
            assert(visits[i].events[0].at == t);
            let u = before.latest->0;
            let j = choose|j: int|
                0 <= j < first.len() && (#[trigger] first[j]).events[first[j].events.len() - 1].at
                    == u;
            assert(visits[j].events[visits[j].events.len() - 1].at == u);
        }
        assert(visits[n].events[0].at == v.events[0].at);
        assert(v.events.last() == v.events[v.events.len() - 1]);
        assert forall|i: int| 0 <= i < visits.len() implies a.rank() <= (
        #[trigger] visits[i]).events[0].at.rank() by {
            if i < n {
                assert(before.earliest->0.rank() <= first[i].events[0].at.rank());
            }
        }
        let b = scan.latest->0;
        assert forall|i: int| 0 <= i < visits.len() implies (
        #[trigger] visits[i]).events[visits[i].events.len() - 1].at.rank() <= b.rank() by {
            if i < n {
                assert(first[i].events[first[i].events.len() - 1].at.rank()
                    <= before.latest->0.rank());
            }
        }
    }
    assert(scan.projects.dom() =~= projects_in(visits));
}

/// One of the amounts that a summary says.
pub open spec fn summary_figure(a: Amount, s: Summary) -> int {
    figure(a, s.messages as int, s.tokens@, s.cost as int)
}

/// The summary tells what all events amount to, the activity and the length of
/// all sessions, and how many projects there are. It runs from the first start
/// to the last end.
pub proof fn law_summary_sums_up_the_events(
    s: Summary,
    visits: Seq<Visit>,
    tz: TzOffset,
    threshold: int,
    sessions: nat,
    request: Request,
    present: Instant,
)
    requires
        all_told(visits),
        summary_told(s, scan_after(visits, tz, threshold), sessions, request, present),
    ensures
        forall|a: Amount| #[trigger]
            summary_figure(a, s) == over_visits(visits, of_events(all_of(a))),
        s.active_sec == over_visits(visits, active_where(threshold, any_event())),
        s.total_sec == over_visits(visits, length_of()),
        s.sessions == sessions,
        s.projects == projects_in(visits).len(),
        visits.len() == 0 ==> s.earliest is None && s.latest is None && s.span_sec == 0,
        visits.len() > 0 ==> exists|t: Instant, u: Instant| #[trigger]
            is_first_start(visits, t) && #[trigger] is_last_end(visits, u) && opt_text(s.earliest)
                == Some(date_of(t, request.tz)) && opt_text(s.latest) == Some(
                date_of(u, request.tz),
            ) && s.span_sec == elapsed(t, u),
        s.gap_threshold_min == request.gap_min,
        s.default_window_days == request.window_days,
{
    let none = Seq::<char>::empty();
    assert forall|a: Amount| #[trigger]
        summary_figure(a, s) == over_visits(visits, of_events(all_of(a))) by {
        lemma_scan_total(visits, tz, threshold, a, none);
    }
    lemma_scan_total(visits, tz, threshold, Amount::Messages, none);
    lemma_scan_ends(visits, tz, threshold);
    if visits.len() > 0 {
        let scan = scan_after(visits, tz, threshold);
        let t = scan.earliest->0;
        let u = scan.latest->0;
        assert(is_first_start(visits, t) && is_last_end(visits, u));
    }
}

/// The share of tokens read from the cache is that of the tokens read from it
/// among all tokens but the output: those of prompts, whether they were read
/// from the cache, written to it for either lifetime, or neither. One more of
/// any of these makes the whole larger by one.
pub proof fn law_cache_hits_are_a_share_of_prompts(
    s: Summary,
    visits: Seq<Visit>,
    tz: TzOffset,
    threshold: int,
    sessions: nat,
    request: Request,
    present: Instant,
)
    requires
        all_told(visits),
        summary_told(s, scan_after(visits, tz, threshold), sessions, request, present),
    ensures
        s.cache_hit.over == over_visits(visits, of_events(all_of(Amount::CacheRead))),
        s.cache_hit.over == s.tokens.cache_read,
        s.cache_hit.under + s.tokens.output == s.tokens@.total(),
        s.cache_hit.under - s.cache_hit.over == s.tokens.input + s.tokens.cache_create_5m
            + s.tokens.cache_create_1h,
        s.cache_hit.under == over_visits(visits, of_events(all_of(Amount::Input))) + over_visits(
            visits,
            of_events(all_of(Amount::CacheWrite5m)),
        ) + over_visits(visits, of_events(all_of(Amount::CacheWrite1h))) + over_visits(
            visits,
            of_events(all_of(Amount::CacheRead)),
        ),
{
    let none = Seq::<char>::empty();
    lemma_scan_total(visits, tz, threshold, Amount::Input, none);
    lemma_scan_total(visits, tz, threshold, Amount::CacheWrite5m, none);
    lemma_scan_total(visits, tz, threshold, Amount::CacheWrite1h, none);
    lemma_scan_total(visits, tz, threshold, Amount::CacheRead, none);
}

/// The other shares of a summary: activity in the length of the sessions; hours
/// of activity in the days from the first start to the last end, where these
/// are any time apart; and calls of a model in the messages.
pub proof fn law_shares_of_a_summary(
    s: Summary,
    visits: Seq<Visit>,
    tz: TzOffset,
    threshold: int,
    sessions: nat,
    request: Request,
    present: Instant,
)
    requires
        all_told(visits),
        summary_told(s, scan_after(visits, tz, threshold), sessions, request, present),
    ensures
        s.active_total.over == over_visits(visits, active_where(threshold, any_event())),
        s.active_total.under == over_visits(visits, length_of()),
        s.calls_per_message.over == over_visits(visits, of_events(all_of(Amount::Calls))),
        s.calls_per_message.under == over_visits(visits, of_events(all_of(Amount::Messages))),
        s.span_sec <= 0 ==> s.active_per_day.under == 0,
        s.span_sec > 0 ==> s.active_per_day.under == s.span_sec && s.active_per_day.over * 3600
            == s.active_sec * 86400,
{
    let none = Seq::<char>::empty();
    lemma_scan_total(visits, tz, threshold, Amount::Calls, none);
    lemma_scan_total(visits, tz, threshold, Amount::Messages, none);
}

/// The time from an event to the next is activity: no longer than the
/// threshold.
pub open spec fn is_active(events: Seq<EventV>, threshold: int, i: int) -> bool {
    0 <= threshold && elapsed(events[i].at, events[i + 1].at) <= threshold
}

/// A session is active at a moment in a time that starts on a date.
pub open spec fn covers(
    events: Seq<EventV>,
    tz: TzOffset,
    threshold: int,
    date: Seq<char>,
    clock: Clock,
    t: int,
) -> bool {
    exists|i: int|
        0 <= i < events.len() - 1 && is_active(events, threshold, i) && date_of(
            (#[trigger] events[i]).at,
            tz,
        ) == date && clock(events[i].at) <= t < clock(events[i + 1].at)
}

/// The moments, by date, at which at least one of the sessions that are asked
/// for is active.
pub open spec fn active_moments(
    visits: Seq<Visit>,
    asked: spec_fn(Visit) -> bool,
    tz: TzOffset,
    threshold: int,
    clock: Clock,
) -> Set<(Seq<char>, int)> {
    Set::new(
        |c: (Seq<char>, int)|
            exists|j: int|
                0 <= j < visits.len() && asked(#[trigger] visits[j]) && covers(
                    visits[j].events,
                    tz,
                    threshold,
                    c.0,
                    clock,
                    c.1,
                ),
    )
}

/// Every session.
pub open spec fn any_visit() -> spec_fn(Visit) -> bool {
    |v: Visit| true
}

/// The sessions of a project.
pub open spec fn visits_of(name: Seq<char>) -> spec_fn(Visit) -> bool {
    |v: Visit| v.folder.name == name
}

/// The moments that spans cover, by date.
spec fn cells(m: Map<Seq<char>, Seq<Span>>, clock: Clock) -> Set<(Seq<char>, int)> {
    Set::new(
        |c: (Seq<char>, int)|
            moments_covered(clock, at_or(m, c.0, seq![])).contains(c.1),
    )
}

proof fn lemma_covered_sum(clock: Clock, a: Seq<Span>, b: Seq<Span>, t: int)
    ensures
        moments_covered(clock, a + b).contains(t) <==> moments_covered(clock, a).contains(t)
            || moments_covered(clock, b).contains(t),
{
    let c = a + b;
    if moments_covered(clock, a).contains(t) {
        let i = choose|i: int| 0 <= i < a.len() && #[trigger] moments_in(clock, a[i]).contains(t);
        assert(c[i] == a[i]);
        assert(moments_in(clock, c[i]).contains(t));
    }
    if moments_covered(clock, b).contains(t) {
        let i = choose|i: int| 0 <= i < b.len() && #[trigger] moments_in(clock, b[i]).contains(t);
        assert(c[a.len() + i] == b[i]);
        assert(moments_in(clock, c[a.len() + i]).contains(t));
    }
    if moments_covered(clock, c).contains(t) {
        let i = choose|i: int| 0 <= i < c.len() && #[trigger] moments_in(clock, c[i]).contains(t);
        if i < a.len() {
            assert(moments_in(clock, a[i]).contains(t));
        } else {
            assert(moments_in(clock, b[i - a.len()]).contains(t));
        }
    }
}

/// The spans of a session on a date cover what the session is active at.
#[verifier::spinoff_prover]
proof fn lemma_gap_spans_cover(
    events: Seq<EventV>,
    tz: TzOffset,
    threshold: int,
    n: int,
    d: Seq<char>,
    clock: Clock,
    t: int,
)
    requires
        n < events.len(),
    ensures
        moments_covered(clock, spans_at(gap_spans(events, tz, threshold, n), d)).contains(t)
            <==> exists|i: int|
            0 <= i < n && is_active(events, threshold, i) && date_of(
                (#[trigger] events[i]).at,
                tz,
            ) == d && clock(events[i].at) <= t < clock(events[i + 1].at),
    decreases n,
{
    if n > 0 {
        lemma_gap_spans_cover(events, tz, threshold, n - 1, d, clock, t);
        let first = gap_spans(events, tz, threshold, n - 1);
        let e = events[n - 1];
        let x = (date_of(e.at, tz), Span { start: e.at, end: events[n].at });
        assert(first.push(x).drop_last() =~= first);
        let before = spans_at(first, d);
        assert(before.push(x.1).drop_last() =~= before);
        lemma_covered_last(clock, before.push(x.1));
        assert(is_active(events, threshold, n - 1) <==> gap_counts(events, n - 1, threshold));
        assert(moments_in(clock, x.1).contains(t) <==> clock(e.at) <= t < clock(
            events[n - 1 + 1].at,
        ));
    }
}

proof fn lemma_session_covers(
    events: Seq<EventV>,
    tz: TzOffset,
    threshold: int,
    d: Seq<char>,
    clock: Clock,
    t: int,
)
    requires
        events.len() > 0,
    ensures
        moments_covered(
            clock,
            at_or(session_tables(events, tz, threshold).spans, d, seq![]),
        ).contains(t) <==> covers(events, tz, threshold, d, clock, t),
{
    let items = gap_spans(events, tz, threshold, gap_count(events));
    lemma_gap_spans_cover(events, tz, threshold, gap_count(events), d, clock, t);
    if !has_key(items, d) {
        lemma_no_span_key(items, d);
    }
}

/// What the spans of a scan and of its projects cover, at one moment.
#[verifier::spinoff_prover]
proof fn lemma_scan_covers_at(
    visits: Seq<Visit>,
    tz: TzOffset,
    threshold: int,
    clock: Clock,
    name: Seq<char>,
    c: (Seq<char>, int),
)
    requires
        all_told(visits),
    ensures
        ({
            let scan = scan_after(visits, tz, threshold);
            let all = active_moments(visits, any_visit(), tz, threshold, clock);
            let own = active_moments(visits, visits_of(name), tz, threshold, clock);
            &&& cells(scan.all.spans, clock).contains(c) <==> all.contains(c)
            &&& scan.projects.contains_key(name) ==> (cells(
                scan.projects[name].tables.spans,
                clock,
            ).contains(c) <==> own.contains(c))
            &&& !scan.projects.contains_key(name) ==> !own.contains(c)
        }),
    decreases visits.len(),
{
    let empty = TablesV::empty();
    assert(!cells(empty.spans, clock).contains(c)) by {
        assert(at_or(empty.spans, c.0, seq![]) == Seq::<Span>::empty());
    }
    if visits.len() > 0 {
        let first = visits.drop_last();
        let v = visits[visits.len() - 1];
        let t = session_tables(v.events, tz, threshold);
        let before = scan_after(first, tz, threshold);
        assert(all_told(first)) by {
            assert forall|i: int| 0 <= i < first.len() implies (
            #[trigger] first[i]).events.len() > 0 by {
                assert(visits[i].events.len() > 0);
            }
        }
        assert(v.events.len() > 0);
        assert(visits =~= first.push(v));
        lemma_scan_covers_at(first, tz, threshold, clock, name, c);
        lemma_more_covers(first, v, any_visit(), tz, threshold, clock, c);
        lemma_more_covers(first, v, visits_of(name), tz, threshold, clock, c);
        lemma_session_covers(v.events, tz, threshold, c.0, clock, c.1);
        lemma_joined_covers(before.all, t, clock, c);
        if v.folder.name == name {
            let p = at_or(before.projects, name, ProjectTallyV::new(v.folder.cwd)).tables;
            lemma_joined_covers(p, t, clock, c);
        }
    }
}

/// What the spans of a scan and of its projects cover.
proof fn lemma_scan_covers(
    visits: Seq<Visit>,
    tz: TzOffset,
    threshold: int,
    clock: Clock,
    name: Seq<char>,
)
    requires
        all_told(visits),
    ensures
        cells(scan_after(visits, tz, threshold).all.spans, clock) == active_moments(
            visits,
            any_visit(),
            tz,
            threshold,
            clock,
        ),
        scan_after(visits, tz, threshold).projects.contains_key(name) ==> cells(
            scan_after(visits, tz, threshold).projects[name].tables.spans,
            clock,
        ) == active_moments(visits, visits_of(name), tz, threshold, clock),
{
    let scan = scan_after(visits, tz, threshold);
    let all = active_moments(visits, any_visit(), tz, threshold, clock);
    let own = active_moments(visits, visits_of(name), tz, threshold, clock);
    assert forall|c: (Seq<char>, int)| cells(scan.all.spans, clock).contains(c) == all.contains(
        c,
    ) by {
        lemma_scan_covers_at(visits, tz, threshold, clock, name, c);
    }
    assert(cells(scan.all.spans, clock) =~= all);
    if scan.projects.contains_key(name) {
        let spans = scan.projects[name].tables.spans;
        assert forall|c: (Seq<char>, int)| cells(spans, clock).contains(c) == own.contains(c) by {
            lemma_scan_covers_at(visits, tz, threshold, clock, name, c);
        }
        assert(cells(spans, clock) =~= own);
    }
}

proof fn lemma_joined_covers(a: TablesV, b: TablesV, clock: Clock, c: (Seq<char>, int))
    ensures
        cells(a.joined(b).spans, clock).contains(c) <==> cells(a.spans, clock).contains(c)
            || moments_covered(clock, at_or(b.spans, c.0, seq![])).contains(c.1),
{
    let x = at_or(a.spans, c.0, seq![]);
    let y = at_or(b.spans, c.0, seq![]);
    lemma_covered_sum(clock, x, y, c.1);
    assert(at_or(spans_joined(a.spans, b.spans), c.0, seq![]) =~= x + y);
}

proof fn lemma_more_covers(
    first: Seq<Visit>,
    v: Visit,
    asked: spec_fn(Visit) -> bool,
    tz: TzOffset,
    threshold: int,
    clock: Clock,
    c: (Seq<char>, int),
)
    ensures
        active_moments(first.push(v), asked, tz, threshold, clock).contains(c) <==> active_moments(
            first,
            asked,
            tz,
            threshold,
            clock,
        ).contains(c) || (asked(v) && covers(v.events, tz, threshold, c.0, clock, c.1)),
{
    let visits = first.push(v);
    let hit = |w: Visit| asked(w) && covers(w.events, tz, threshold, c.0, clock, c.1);
    if active_moments(first, asked, tz, threshold, clock).contains(c) {
        let j = choose|j: int| 0 <= j < first.len() && asked(#[trigger] first[j]) && covers(
            first[j].events,
            tz,
            threshold,
            c.0,
            clock,
            c.1,
        );
        assert(hit(visits[j]));
    }
    if hit(v) {
        assert(hit(visits[first.len() as int]));
    }
    if active_moments(visits, asked, tz, threshold, clock).contains(c) {
        let j = choose|j: int| 0 <= j < visits.len() && asked(#[trigger] visits[j]) && covers(
            visits[j].events,
            tz,
            threshold,
            c.0,
            clock,
            c.1,
        );
        if j < first.len() {
            assert(hit(first[j]));
        }
    }
}

/// Every span of every date is of a kind.
spec fn all_spans(m: Map<Seq<char>, Seq<Span>>, kind: spec_fn(Span) -> bool) -> bool {
    &&& m.dom().finite()
    &&& forall|d: Seq<char>, i: int|
        m.contains_key(d) && 0 <= i < m[d].len() ==> kind(#[trigger] m[d][i])
}

proof fn lemma_joined_spans(
    a: Map<Seq<char>, Seq<Span>>,
    b: Map<Seq<char>, Seq<Span>>,
    kind: spec_fn(Span) -> bool,
)
    requires
        all_spans(a, kind),
        all_spans(b, kind),
    ensures
        all_spans(spans_joined(a, b), kind),
{
    let m = spans_joined(a, b);
    assert(m.dom() =~= a.dom().union(b.dom()));
    assert forall|d: Seq<char>, i: int| m.contains_key(d) && 0 <= i < m[d].len() implies kind(
        #[trigger] m[d][i],
    ) by {
        let x = at_or(a, d, seq![]);
        if i < x.len() {
            assert(m[d][i] == a[d][i]);
        } else {
            assert(m[d][i] == b[d][i - x.len()]);
        }
    }
}

proof fn lemma_grouped_spans(items: Seq<(Seq<char>, Span)>, kind: spec_fn(Span) -> bool)
    requires
        forall|i: int| 0 <= i < items.len() ==> kind((#[trigger] items[i]).1),
    ensures
        all_spans(spans_of(items), kind),
    decreases items.len(),
{
    let m = spans_of(items);
    if items.len() == 0 {
        assert(m =~= Map::empty());
    } else {
        let first = items.drop_last();
        let x = items[items.len() - 1];
        assert forall|i: int| 0 <= i < first.len() implies kind((#[trigger] first[i]).1) by {
            assert(kind(items[i].1));
        }
        lemma_grouped_spans(first, kind);
        let before = spans_of(first);
        assert(items =~= first.push(x));
        assert forall|k: Seq<char>| m.dom().contains(k) <==> before.dom().insert(x.0).contains(
            k,
        ) by {
            lemma_has_key_push(first, x, k);
        }
        assert(m.dom() =~= before.dom().insert(x.0));
        assert forall|d: Seq<char>, i: int| m.contains_key(d) && 0 <= i < m[d].len() implies kind(
            #[trigger] m[d][i],
        ) by {
            if !has_key(first, d) {
                lemma_no_span_key(first, d);
            }
            if i < spans_at(first, d).len() {
                assert(m[d][i] == before[d][i]);
            } else {
                assert(m[d][i] == x.1);
            }
        }
    }
}

/// The span from each event to the next is of a kind.
spec fn all_steps(events: Seq<EventV>, kind: spec_fn(Span) -> bool) -> bool {
    forall|i: int|
        0 <= i < events.len() - 1 ==> kind(
            Span { start: (#[trigger] events[i]).at, end: events[i + 1].at },
        )
}

proof fn lemma_gap_spans_are(
    events: Seq<EventV>,
    tz: TzOffset,
    threshold: int,
    n: int,
    kind: spec_fn(Span) -> bool,
)
    requires
        all_steps(events, kind),
        n < events.len(),
    ensures
        forall|i: int|
            0 <= i < gap_spans(events, tz, threshold, n).len() ==> kind(
                (#[trigger] gap_spans(events, tz, threshold, n)[i]).1,
            ),
    decreases n,
{
    if n > 0 {
        lemma_gap_spans_are(events, tz, threshold, n - 1, kind);
        let first = gap_spans(events, tz, threshold, n - 1);
        let all = gap_spans(events, tz, threshold, n);
        let e = events[n - 1];
        assert(kind(Span { start: e.at, end: events[n - 1 + 1].at }));
        assert forall|i: int| 0 <= i < all.len() implies kind((#[trigger] all[i]).1) by {
            if i < first.len() {
                assert(all[i] == first[i]);
            }
        }
    }
}

proof fn lemma_scan_spans(
    visits: Seq<Visit>,
    tz: TzOffset,
    threshold: int,
    kind: spec_fn(Span) -> bool,
    name: Seq<char>,
)
    requires
        all_told(visits),
        forall|i: int| 0 <= i < visits.len() ==> all_steps((#[trigger] visits[i]).events, kind),
    ensures
        all_spans(scan_after(visits, tz, threshold).all.spans, kind),
        scan_after(visits, tz, threshold).projects.contains_key(name) ==> all_spans(
            scan_after(visits, tz, threshold).projects[name].tables.spans,
            kind,
        ),
    decreases visits.len(),
{
    if visits.len() > 0 {
        let first = visits.drop_last();
        let v = visits[visits.len() - 1];
        assert forall|i: int| 0 <= i < first.len() implies (#[trigger] first[i]).events.len() > 0
            && all_steps(first[i].events, kind) by {
            assert(visits[i].events.len() > 0);
            assert(all_steps(visits[i].events, kind));
        }
        lemma_scan_spans(first, tz, threshold, kind, name);
        let before = scan_after(first, tz, threshold);
        let items = gap_spans(v.events, tz, threshold, gap_count(v.events));
        assert(v.events.len() > 0);
        lemma_gap_spans_are(v.events, tz, threshold, gap_count(v.events), kind);
        lemma_grouped_spans(items, kind);
        lemma_joined_spans(before.all.spans, spans_of(items), kind);
        let p = at_or(before.projects, v.folder.name, ProjectTallyV::new(v.folder.cwd)).tables;
        if v.folder.name == name {
            assert(all_spans(p.spans, kind));
            lemma_joined_spans(p.spans, spans_of(items), kind);
        }
    }
}

/// The seconds of spans between whole seconds are the moments that they cover,
/// date by date.
proof fn lemma_union_cells(m: Map<Seq<char>, Seq<Span>>)
    requires
        all_spans(m, |s: Span| is_whole(s)),
    ensures
        cells(m, by_nanos()).finite(),
        unions_total(m) * 1_000_000_000 == cells(m, by_nanos()).len(),
    decreases m.dom().len(),
{
    let clock = by_nanos();
    if m.dom().len() == 0 {
        assert forall|c: (Seq<char>, int)| !cells(m, clock).contains(c) by {
            assert(!m.dom().contains(c.0));
        }
        assert(cells(m, clock) =~= Set::empty());
    } else {
        let k = m.dom().choose();
        assert(m.dom().contains(k));
        let rest = m.remove(k);
        assert(all_spans(rest, |s: Span| is_whole(s))) by {
            assert forall|d: Seq<char>, i: int|
                rest.contains_key(d) && 0 <= i < rest[d].len() implies is_whole(
                #[trigger] rest[d][i],
            ) by {
                assert(is_whole(m[d][i]));
            }
        }
        lemma_union_cells(rest);
        let moments = moments_covered(clock, m[k]);
        assert forall|i: int| 0 <= i < m[k].len() implies is_whole(#[trigger] m[k][i]) by {}
        law_whole_union_is_the_covered_time(m[k]);
        let pair = |t: int| (k, t);
        let own = moments.map(pair);
        lemma_map_size(moments, own, pair);
        let others = cells(rest, clock);
        assert forall|c: (Seq<char>, int)|
            cells(m, clock).contains(c) <==> (others + own).contains(c) by {
            if own.contains(c) {
                let t = choose|t: int| moments.contains(t) && pair(t) == c;
                assert(c.0 == k && c.1 == t);
            }
            if c.0 == k {
                assert(pair(c.1) == c);
                assert(moments.contains(c.1) ==> own.contains(c));
            }
        }
        assert(cells(m, clock) =~= others + own);
        assert(others.disjoint(own)) by {
            assert forall|c: (Seq<char>, int)| #[trigger] others.contains(c) implies !own.contains(
                c,
            ) by {
                if own.contains(c) {
                    let t = choose|t: int| moments.contains(t) && pair(t) == c;
                    assert(c.0 == k);
                }
            }
        }
        lemma_set_disjoint_lens(others, own);
    }
}

/// Nothing covers no time.
proof fn lemma_empty_union()
    ensures
        union_secs(Seq::<Span>::empty()) == 0,
{
    let none = Seq::<Span>::empty();
    law_whole_union_is_the_covered_time(none);
    assert(moments_covered(by_nanos(), none) =~= Set::empty());
}

/// Spans that cover the same moments on each date have the same seconds.
proof fn lemma_same_cells(a: Map<Seq<char>, Seq<Span>>, b: Map<Seq<char>, Seq<Span>>)
    requires
        all_spans(a, |s: Span| is_forward(s)),
        all_spans(b, |s: Span| is_forward(s)),
        cells(a, by_rank()) == cells(b, by_rank()),
    ensures
        unions_total(a) == unions_total(b),
    decreases a.dom().len() + b.dom().len(),
{
    let clock = by_rank();
    if a.dom().len() == 0 && b.dom().len() == 0 {
    } else {
        let k = if a.dom().len() > 0 {
            a.dom().choose()
        } else {
            b.dom().choose()
        };
        assert(a.dom().contains(k) || b.dom().contains(k));
        let x = at_or(a, k, seq![]);
        let y = at_or(b, k, seq![]);
        assert forall|i: int| 0 <= i < x.len() implies is_forward(#[trigger] x[i]) by {
            assert(is_forward(a[k][i]));
        }
        assert forall|i: int| 0 <= i < y.len() implies is_forward(#[trigger] y[i]) by {
            assert(is_forward(b[k][i]));
        }
        assert forall|t: int| moments_covered(clock, x).contains(t) == moments_covered(
            clock,
            y,
        ).contains(t) by {
            assert(cells(a, clock).contains((k, t)) == cells(b, clock).contains((k, t)));
        }
        assert(moments_covered(clock, x) =~= moments_covered(clock, y));
        law_union_goes_by_what_is_covered(x, y);
        lemma_empty_union();
        let p = a.remove(k);
        let q = b.remove(k);
        if a.contains_key(k) {
            lemma_sum_remove(a, union_activity(), k);
        } else {
            assert(p =~= a);
        }
        if b.contains_key(k) {
            lemma_sum_remove(b, union_activity(), k);
        } else {
            assert(q =~= b);
        }
        assert(all_spans(p, |s: Span| is_forward(s))) by {
            assert forall|d: Seq<char>, i: int|
                p.contains_key(d) && 0 <= i < p[d].len() implies is_forward(#[trigger] p[d][i]) by {
                assert(is_forward(a[d][i]));
            }
        }
        assert(all_spans(q, |s: Span| is_forward(s))) by {
            assert forall|d: Seq<char>, i: int|
                q.contains_key(d) && 0 <= i < q[d].len() implies is_forward(#[trigger] q[d][i]) by {
                assert(is_forward(b[d][i]));
            }
        }
        assert forall|c: (Seq<char>, int)| cells(p, clock).contains(c) == cells(q, clock).contains(
            c,
        ) by {
            if c.0 != k {
                assert(cells(a, clock).contains(c) == cells(b, clock).contains(c));
            }
        }
        assert(cells(p, clock) =~= cells(q, clock));
        lemma_same_cells(p, q);
    }
}

/// Every session has an event, and its events follow each other in time.
pub open spec fn all_ordered(visits: Seq<Visit>) -> bool {
    forall|i: int|
        0 <= i < visits.len() ==> (#[trigger] visits[i]).events.len() > 0 && in_time_order(
            visits[i].events,
        )
}

/// Every event falls on a whole second.
pub open spec fn on_whole_seconds(visits: Seq<Visit>) -> bool {
    forall|i: int, j: int|
        0 <= i < visits.len() && 0 <= j < visits[i].events.len() ==> (
        #[trigger] visits[i].events[j]).at.nanos() == 0
}

proof fn lemma_steps_run_forward(visits: Seq<Visit>)
    requires
        all_ordered(visits),
    ensures
        all_told(visits),
        forall|i: int|
            0 <= i < visits.len() ==> all_steps(
                (#[trigger] visits[i]).events,
                |s: Span| is_forward(s),
            ),
        on_whole_seconds(visits) ==> forall|i: int|
            0 <= i < visits.len() ==> all_steps(
                (#[trigger] visits[i]).events,
                |s: Span| is_whole(s),
            ),
{
    assert forall|i: int| 0 <= i < visits.len() implies all_steps(
        (#[trigger] visits[i]).events,
        |s: Span| is_forward(s),
    ) by {
        let events = visits[i].events;
        assert forall|j: int| 0 <= j < events.len() - 1 implies is_forward(
            Span { start: (#[trigger] events[j]).at, end: events[j + 1].at },
        ) by {
            assert(events[j].at.rank() <= events[j + 1].at.rank());
        }
    }
    if on_whole_seconds(visits) {
        assert forall|i: int| 0 <= i < visits.len() implies all_steps(
            (#[trigger] visits[i]).events,
            |s: Span| is_whole(s),
        ) by {
            let events = visits[i].events;
            assert forall|j: int| 0 <= j < events.len() - 1 implies is_whole(
                Span { start: (#[trigger] events[j]).at, end: events[j + 1].at },
            ) by {
                assert(events[j].at.rank() <= events[j + 1].at.rank());
                assert(visits[i].events[j].at.nanos() == 0);
                assert(visits[i].events[j + 1].at.nanos() == 0);
            }
        }
    }
}

/// The union of a project's activity counts each moment of a date once, however
/// many of its sessions are active then: between whole seconds it is exactly
/// the time at which at least one of them is.
pub proof fn law_a_project_counts_parallel_time_once(
    p: ProjectStat,
    name: Seq<char>,
    visits: Seq<Visit>,
    tz: TzOffset,
    threshold: int,
)
    requires
        all_ordered(visits),
        on_whole_seconds(visits),
        projects_in(visits).contains(name),
        project_told(p, name, scan_after(visits, tz, threshold).projects[name]),
    ensures
        active_moments(visits, visits_of(name), tz, threshold, by_nanos()).finite(),
        p.active_sec_union * 1_000_000_000 == active_moments(
            visits,
            visits_of(name),
            tz,
            threshold,
            by_nanos(),
        ).len(),
{
    lemma_steps_run_forward(visits);
    lemma_scan_ends(visits, tz, threshold);
    lemma_scan_covers(visits, tz, threshold, by_nanos(), name);
    lemma_scan_spans(visits, tz, threshold, |s: Span| is_whole(s), name);
    lemma_union_cells(scan_after(visits, tz, threshold).projects[name].tables.spans);
}

/// The union of all activity counts each moment of a date once, however many
/// sessions are active then.
pub proof fn law_the_summary_counts_parallel_time_once(
    s: Summary,
    visits: Seq<Visit>,
    tz: TzOffset,
    threshold: int,
    sessions: nat,
    request: Request,
    present: Instant,
)
    requires
        all_ordered(visits),
        on_whole_seconds(visits),
        summary_told(s, scan_after(visits, tz, threshold), sessions, request, present),
    ensures
        active_moments(visits, any_visit(), tz, threshold, by_nanos()).finite(),
        s.active_sec_union * 1_000_000_000 == active_moments(
            visits,
            any_visit(),
            tz,
            threshold,
            by_nanos(),
        ).len(),
{
    let none = Seq::<char>::empty();
    lemma_steps_run_forward(visits);
    lemma_scan_covers(visits, tz, threshold, by_nanos(), none);
    lemma_scan_spans(visits, tz, threshold, |s: Span| is_whole(s), none);
    lemma_union_cells(scan_after(visits, tz, threshold).all.spans);
}

/// Only the moments at which a project is active matter for its union, whatever
/// its sessions are: where two runs of sessions are active at the same moments
/// of the same dates, the unions are the same. A session within the activity of
/// others adds nothing.
pub proof fn law_project_union_goes_by_active_moments(
    p: ProjectStat,
    q: ProjectStat,
    name: Seq<char>,
    a: Seq<Visit>,
    b: Seq<Visit>,
    tz: TzOffset,
    threshold: int,
)
    requires
        all_ordered(a),
        all_ordered(b),
        projects_in(a).contains(name),
        projects_in(b).contains(name),
        project_told(p, name, scan_after(a, tz, threshold).projects[name]),
        project_told(q, name, scan_after(b, tz, threshold).projects[name]),
        active_moments(a, visits_of(name), tz, threshold, by_rank()) == active_moments(
            b,
            visits_of(name),
            tz,
            threshold,
            by_rank(),
        ),
    ensures
        p.active_sec_union == q.active_sec_union,
{
    lemma_steps_run_forward(a);
    lemma_steps_run_forward(b);
    lemma_scan_ends(a, tz, threshold);
    lemma_scan_ends(b, tz, threshold);
    lemma_scan_covers(a, tz, threshold, by_rank(), name);
    lemma_scan_covers(b, tz, threshold, by_rank(), name);
    lemma_scan_spans(a, tz, threshold, |s: Span| is_forward(s), name);
    lemma_scan_spans(b, tz, threshold, |s: Span| is_forward(s), name);
    lemma_same_cells(
        scan_after(a, tz, threshold).projects[name].tables.spans,
        scan_after(b, tz, threshold).projects[name].tables.spans,
    );
}

/// The union of a project's activity is the sum, over the dates, of the seconds
/// that its spans of the date cover together.
pub proof fn law_project_union_is_taken_date_by_date(
    p: ProjectStat,
    name: Seq<char>,
    tally: ProjectTallyV,
    dates: Seq<Seq<char>>,
)
    requires
        project_told(p, name, tally),
        lists_names(dates, tally.tables.spans),
    ensures
        p.active_sec_union == over_dates(tally.tables.spans, dates),
{
    lemma_sum_name_by_name(tally.tables.spans, union_activity(), dates);
    lemma_over_dates(tally.tables.spans, dates);
}

/// The seconds that the spans of each of the dates cover together, summed up.
pub open spec fn over_dates(m: Map<Seq<char>, Seq<Span>>, dates: Seq<Seq<char>>) -> int
    decreases dates.len(),
{
    if dates.len() == 0 {
        0
    } else {
        over_dates(m, dates.drop_last()) + union_secs(m[dates.last()])
    }
}

proof fn lemma_over_dates(m: Map<Seq<char>, Seq<Span>>, dates: Seq<Seq<char>>)
    ensures
        sum_over(m, union_activity(), dates).active_sec == over_dates(m, dates),
    decreases dates.len(),
{
    if dates.len() > 0 {
        lemma_over_dates(m, dates.drop_last());
    }
}

/// The union of all activity is the sum, over the dates, of the seconds that
/// the spans of the date cover together.
pub proof fn law_summary_union_is_taken_date_by_date(
    s: Summary,
    scan: ScanV,
    sessions: nat,
    request: Request,
    present: Instant,
    dates: Seq<Seq<char>>,
)
    requires
        summary_told(s, scan, sessions, request, present),
        lists_names(dates, scan.all.spans),
    ensures
        s.active_sec_union == over_dates(scan.all.spans, dates),
{
    lemma_sum_name_by_name(scan.all.spans, union_activity(), dates);
    lemma_over_dates(scan.all.spans, dates);
}

/// Rows on projects by rank: which projects they tell of.
proof fn lemma_project_rows(
    rows: Seq<ProjectStat>,
    projects: Map<Seq<char>, ProjectTallyV>,
) -> (names: Seq<Seq<char>>)
    requires
        exists|by_name: Seq<ProjectStat>| #[trigger]
            projects_told(by_name, projects) && rows == sorted(by_name),
    ensures
        names.len() == rows.len(),
        forall|k: Seq<char>| #[trigger] names.contains(k) <==> projects.contains_key(k),
        forall|i: int| 0 <= i < names.len() ==> projects.contains_key(#[trigger] names[i]),
        forall|i: int|
            0 <= i < rows.len() ==> project_told(#[trigger] rows[i], names[i], projects[names[i]]),
        forall|i: int, j: int|
            0 <= i < j < rows.len() ==> #[trigger] rows[i].rank() < #[trigger] rows[j].rank() || (
            rows[i].rank() == rows[j].rank() && name_before(names[i], names[j])),
{
    let by_name = choose|by_name: Seq<ProjectStat>| #[trigger]
        projects_told(by_name, projects) && rows == sorted(by_name);
    let listed = choose|listed: Seq<Seq<char>>| #[trigger]
        lists_names(listed, projects) && by_name.len() == listed.len() && forall|i: int|
            0 <= i < by_name.len() ==> project_told(
                #[trigger] by_name[i],
                listed[i],
                projects[listed[i]],
            );
    law_everything_can_be_sorted(by_name);
    let places = choose|places: Seq<int>| sorted_by_places(by_name, rows, places);
    let names = Seq::new(rows.len(), |i: int| listed[places[i]]);
    assert forall|i: int| 0 <= i < rows.len() implies project_told(
        #[trigger] rows[i],
        names[i],
        projects[names[i]],
    ) by {
        assert(rows[i] == by_name[places[i]]);
    }
    assert forall|i: int| 0 <= i < names.len() implies projects.contains_key(
        #[trigger] names[i],
    ) by {
        assert(rows[i] == by_name[places[i]]);
        assert(listed.contains(listed[places[i]]));
    }
    assert forall|i: int, j: int| 0 <= i < j < rows.len() implies (#[trigger] rows[i].rank()
        < #[trigger] rows[j].rank() || (rows[i].rank() == rows[j].rank() && name_before(
        names[i],
        names[j],
    ))) by {
        if places[i] < places[j] {
            assert(name_before(listed[places[i]], listed[places[j]]));
        }
    }
    assert forall|k: Seq<char>| #[trigger] names.contains(k) <==> projects.contains_key(k) by {
        if names.contains(k) {
            let i = names.index_of(k);
            assert(projects.contains_key(names[i]));
        }
        if projects.contains_key(k) {
            assert(listed.contains(k));
            let p = listed.index_of(k);
            lemma_every_place_is_named(places, by_name.len(), p);
            let i = choose|i: int| 0 <= i < places.len() && places[i] == p;
            assert(names[i] == k);
        }
    }
    names
}

/// One of the amounts that a row on a project says.
pub open spec fn project_figure(a: Amount, p: ProjectStat) -> int {
    figure(a, p.messages as int, p.tokens@, p.cost as int)
}

/// A number for each session of a project, by name.
pub open spec fn in_project(project: Seq<char>, w: spec_fn(Seq<char>) -> Weight) -> spec_fn(
    Seq<char>,
) -> spec_fn(Visit) -> int {
    |k: Seq<char>| of_project(project, of_events(w(k)))
}

/// The messages of a skill.
pub open spec fn messages_of_skill() -> spec_fn(Seq<char>) -> Weight {
    |k: Seq<char>| under(skill_of(), k, Amount::Messages)
}

/// The rows tell, of each name with a count and of no other, in the order of the
/// names, how much is counted of it.
pub open spec fn listed_counts(
    rows: Seq<NamedCount>,
    f: spec_fn(Seq<char>) -> spec_fn(Visit) -> int,
    visits: Seq<Visit>,
) -> bool {
    &&& forall|i: int|
        0 <= i < rows.len() ==> 0 < (#[trigger] rows[i]).count == over_visits(
            visits,
            f(rows[i].name@),
        )
    &&& forall|k: Seq<char>| #[trigger]
        over_visits(visits, f(k)) > 0 ==> exists|i: int|
            0 <= i < rows.len() && (#[trigger] rows[i]).name@ == k
    &&& forall|i: int, j: int|
        0 <= i < j < rows.len() ==> name_before(
            (#[trigger] rows[i]).name@,
            (#[trigger] rows[j]).name@,
        )
}

/// What a row on a project says of the project's sessions.
pub open spec fn tells_of_project(
    p: ProjectStat,
    visits: Seq<Visit>,
    tz: TzOffset,
    threshold: int,
) -> bool {
    let k = p.name@;
    &&& forall|a: Amount| #[trigger]
        project_figure(a, p) == over_visits(visits, of_project(k, of_events(all_of(a))))
    &&& p.active_sec == over_visits(visits, of_project(k, active_where(threshold, any_event())))
    &&& p.total_sec == over_visits(visits, of_project(k, length_of()))
    &&& p.sessions == over_visits(visits, of_project(k, one_each()))
    &&& p.by_hour@.len() == 24
    &&& forall|h: int|
        0 <= h < 24 ==> #[trigger] p.by_hour@[h] == over_visits(
            visits,
            of_project(k, active_where(threshold, at_hour(tz, h))),
        )
    &&& p.by_weekday@.len() == 7
    &&& forall|d: int|
        0 <= d < 7 ==> #[trigger] p.by_weekday@[d] == over_visits(
            visits,
            of_project(k, active_where(threshold, on_weekday(tz, d))),
        )
    &&& listed_counts(p.by_skill@, in_project(k, messages_of_skill()), visits)
    &&& listed_counts(p.by_tool@, in_project(k, uses_of_tool()), visits)
}

proof fn lemma_project_skills(
    p: ProjectStat,
    name: Seq<char>,
    visits: Seq<Visit>,
    tz: TzOffset,
    threshold: int,
)
    requires
        all_told(visits),
        scan_after(visits, tz, threshold).projects.contains_key(name),
        project_told(p, name, scan_after(visits, tz, threshold).projects[name]),
    ensures
        listed_counts(p.by_skill@, in_project(name, messages_of_skill()), visits),
{
    let t = scan_after(visits, tz, threshold).projects[name].tables;
    let rows = p.by_skill@;
    let table = t.skills;
    let f = in_project(name, messages_of_skill());
    let names = choose|names: Seq<Seq<char>>| #[trigger]
        lists_names(names, table) && rows.len() == names.len() && forall|i: int|
            0 <= i < rows.len() ==> (#[trigger] rows[i]).tells(
                Measure::Messages,
                names[i],
                table[names[i]],
            );
    assert forall|k: Seq<char>|
        over_visits(visits, #[trigger] f(k)) == at_or(table, k, UsageV::zero()).messages && (
        table.contains_key(k) <==> over_visits(visits, f(k)) > 0) by {
        lemma_scan_under(
            Axis::Skill,
            skill_of(),
            visits,
            tz,
            threshold,
            k,
            Amount::Messages,
            name,
        );
        assert(f(k) == of_project(name, of_events(under(skill_of(), k, Amount::Messages))));
    }
    assert forall|i: int| 0 <= i < rows.len() implies 0 < (#[trigger] rows[i]).count == over_visits(
        visits,
        f(rows[i].name@),
    ) by {
        assert(rows[i].tells(Measure::Messages, names[i], table[names[i]]));
        assert(names.contains(names[i]));
        assert(over_visits(visits, f(names[i])) > 0);
    }
    assert forall|k: Seq<char>| #[trigger] over_visits(visits, f(k)) > 0 implies exists|i: int|
        0 <= i < rows.len() && (#[trigger] rows[i]).name@ == k by {
        assert(names.contains(k));
        let i = names.index_of(k);
        assert(rows[i].tells(Measure::Messages, names[i], table[names[i]]));
    }
    assert forall|i: int, j: int| 0 <= i < j < rows.len() implies name_before(
        (#[trigger] rows[i]).name@,
        (#[trigger] rows[j]).name@,
    ) by {
        assert(rows[i].tells(Measure::Messages, names[i], table[names[i]]));
        assert(rows[j].tells(Measure::Messages, names[j], table[names[j]]));
        assert(name_before(names[i], names[j]));
    }
}

proof fn lemma_project_tools(
    p: ProjectStat,
    name: Seq<char>,
    visits: Seq<Visit>,
    tz: TzOffset,
    threshold: int,
)
    requires
        all_told(visits),
        scan_after(visits, tz, threshold).projects.contains_key(name),
        project_told(p, name, scan_after(visits, tz, threshold).projects[name]),
    ensures
        listed_counts(p.by_tool@, in_project(name, uses_of_tool()), visits),
{
    let t = scan_after(visits, tz, threshold).projects[name].tables;
    let rows = p.by_tool@;
    let table = t.tools;
    let f = in_project(name, uses_of_tool());
    let names = choose|names: Seq<Seq<char>>| #[trigger]
        lists_names(names, table) && rows.len() == names.len() && forall|i: int|
            0 <= i < rows.len() ==> (#[trigger] rows[i]).tells(
                Measure::ToolUses,
                names[i],
                table[names[i]],
            );
    assert forall|k: Seq<char>|
        over_visits(visits, #[trigger] f(k)) == at_or(table, k, UsageV::zero()).tool_uses && (
        table.contains_key(k) <==> over_visits(visits, f(k)) > 0) by {
        lemma_scan_counts(
            Axis::Tool,
            uses_in(),
            uses_of_tool(),
            visits,
            tz,
            threshold,
            k,
            name,
        );
        assert(f(k) == of_project(name, of_events(uses_of_tool()(k))));
    }
    assert forall|i: int| 0 <= i < rows.len() implies 0 < (#[trigger] rows[i]).count == over_visits(
        visits,
        f(rows[i].name@),
    ) by {
        assert(rows[i].tells(Measure::ToolUses, names[i], table[names[i]]));
        assert(names.contains(names[i]));
        assert(over_visits(visits, f(names[i])) > 0);
    }
    assert forall|k: Seq<char>| #[trigger] over_visits(visits, f(k)) > 0 implies exists|i: int|
        0 <= i < rows.len() && (#[trigger] rows[i]).name@ == k by {
        assert(names.contains(k));
        let i = names.index_of(k);
        assert(rows[i].tells(Measure::ToolUses, names[i], table[names[i]]));
    }
    assert forall|i: int, j: int| 0 <= i < j < rows.len() implies name_before(
        (#[trigger] rows[i]).name@,
        (#[trigger] rows[j]).name@,
    ) by {
        assert(rows[i].tells(Measure::ToolUses, names[i], table[names[i]]));
        assert(rows[j].tells(Measure::ToolUses, names[j], table[names[j]]));
        assert(name_before(names[i], names[j]));
    }
}

/// A row on a project tells what its sessions amount to.
pub proof fn law_a_project_is_told(
    p: ProjectStat,
    name: Seq<char>,
    visits: Seq<Visit>,
    tz: TzOffset,
    threshold: int,
)
    requires
        all_told(visits),
        projects_in(visits).contains(name),
        project_told(p, name, scan_after(visits, tz, threshold).projects[name]),
    ensures
        p.name@ == name,
        tells_of_project(p, visits, tz, threshold),
{
    let scan = scan_after(visits, tz, threshold);
    lemma_scan_ends(visits, tz, threshold);
    assert(scan.projects.contains_key(name));
    assert forall|a: Amount| #[trigger]
        project_figure(a, p) == over_visits(visits, of_project(name, of_events(all_of(a)))) by {
        lemma_scan_total(visits, tz, threshold, a, name);
    }
    lemma_scan_total(visits, tz, threshold, Amount::Messages, name);
    lemma_scan_slots(Cycle::Hour, at_hour(tz, 0), visits, tz, threshold, 0, name);
    assert forall|h: int| 0 <= h < 24 implies #[trigger] p.by_hour@[h] == over_visits(
        visits,
        of_project(name, active_where(threshold, at_hour(tz, h))),
    ) by {
        lemma_scan_slots(Cycle::Hour, at_hour(tz, h), visits, tz, threshold, h, name);
    }
    assert forall|d: int| 0 <= d < 7 implies #[trigger] p.by_weekday@[d] == over_visits(
        visits,
        of_project(name, active_where(threshold, on_weekday(tz, d))),
    ) by {
        lemma_scan_slots(Cycle::Weekday, on_weekday(tz, d), visits, tz, threshold, d, name);
    }
    lemma_project_skills(p, name, visits, tz, threshold);
    lemma_project_tools(p, name, visits, tz, threshold);
}

/// The list of projects has one row for each project of a session and no other;
/// those with more activity come first, and of those with as much the names in
/// their order.
pub proof fn law_projects_are_listed(
    r: Report,
    visits: Seq<Visit>,
    tz: TzOffset,
    threshold: int,
    sessions: Seq<SessionStat>,
    request: Request,
    present: Instant,
)
    requires
        all_told(visits),
        reported(r, scan_after(visits, tz, threshold), sessions, request, present),
    ensures
        forall|i: int|
            0 <= i < r.projects@.len() ==> projects_in(visits).contains(
                (#[trigger] r.projects@[i]).name@,
            ) && tells_of_project(r.projects@[i], visits, tz, threshold) && project_told(
                r.projects@[i],
                r.projects@[i].name@,
                scan_after(visits, tz, threshold).projects[r.projects@[i].name@],
            ),
        forall|k: Seq<char>| #[trigger]
            projects_in(visits).contains(k) ==> exists|i: int|
                0 <= i < r.projects@.len() && (#[trigger] r.projects@[i]).name@ == k,
        forall|i: int, j: int|
            0 <= i < j < r.projects@.len() ==> (#[trigger] r.projects@[i]).active_sec > (
            #[trigger] r.projects@[j]).active_sec || (r.projects@[i].active_sec
                == r.projects@[j].active_sec && name_before(
                r.projects@[i].name@,
                r.projects@[j].name@,
            )),
{
    let rows = r.projects@;
    let projects = scan_after(visits, tz, threshold).projects;
    lemma_scan_ends(visits, tz, threshold);
    let names = lemma_project_rows(rows, projects);
    assert forall|i: int| 0 <= i < rows.len() implies projects_in(visits).contains(
        (#[trigger] rows[i]).name@,
    ) && tells_of_project(rows[i], visits, tz, threshold) && project_told(
        rows[i],
        rows[i].name@,
        projects[rows[i].name@],
    ) by {
        assert(project_told(rows[i], names[i], projects[names[i]]));
        assert(projects.contains_key(names[i]));
        assert(projects.dom().contains(names[i]));
        law_a_project_is_told(rows[i], names[i], visits, tz, threshold);
    }
    assert forall|k: Seq<char>| #[trigger] projects_in(visits).contains(k) implies exists|i: int|
        0 <= i < rows.len() && (#[trigger] rows[i]).name@ == k by {
        assert(projects.contains_key(k));
        assert(names.contains(k));
        let i = names.index_of(k);
        assert(project_told(rows[i], names[i], projects[names[i]]));
    }
    assert forall|i: int, j: int| 0 <= i < j < rows.len() implies (#[trigger] rows[i]).active_sec
        > (#[trigger] rows[j]).active_sec || (rows[i].active_sec == rows[j].active_sec
        && name_before(rows[i].name@, rows[j].name@)) by {
        assert(rows[i].rank() < rows[j].rank() || (rows[i].rank() == rows[j].rank() && name_before(
            names[i],
            names[j],
        )));
        assert(project_told(rows[i], names[i], projects[names[i]]));
        assert(project_told(rows[j], names[j], projects[names[j]]));
    }
}

/// The place of the first session of a project.
pub open spec fn is_first_visit(visits: Seq<Visit>, name: Seq<char>, i: int) -> bool {
    &&& 0 <= i < visits.len() && visits[i].folder.name == name
    &&& forall|j: int| 0 <= j < i ==> (#[trigger] visits[j]).folder.name != name
}

/// An instant at which a session of a project starts, and none starts before.
pub open spec fn starts_first(visits: Seq<Visit>, name: Seq<char>, t: Instant) -> bool {
    &&& exists|i: int|
        0 <= i < visits.len() && (#[trigger] visits[i]).folder.name == name
            && visits[i].events[0].at == t
    &&& forall|i: int|
        0 <= i < visits.len() && (#[trigger] visits[i]).folder.name == name ==> t.rank()
            <= visits[i].events[0].at.rank()
}

/// An instant at which a session of a project ends, and none ends after.
pub open spec fn ends_last(visits: Seq<Visit>, name: Seq<char>, t: Instant) -> bool {
    &&& exists|i: int|
        0 <= i < visits.len() && (#[trigger] visits[i]).folder.name == name
            && visits[i].events[visits[i].events.len() - 1].at == t
    &&& forall|i: int|
        0 <= i < visits.len() && (#[trigger] visits[i]).folder.name == name
            ==> visits[i].events[visits[i].events.len() - 1].at.rank() <= t.rank()
}

/// The instants at which sessions start and end are read from the texts that
/// are written of them in UTC.
pub open spec fn ends_read_back(visits: Seq<Visit>) -> bool {
    forall|i: int| 0 <= i < visits.len() ==> {
        let events = (#[trigger] visits[i]).events;
        let a = events[0].at;
        let b = events[events.len() - 1].at;
        &&& instant_read(rfc3339_text(a.secs(), a.nanos(), 0)) == Some(a)
        &&& instant_read(rfc3339_text(b.secs(), b.nanos(), 0)) == Some(b)
    }
}

/// A mark is the text of an instant in UTC.
#[verifier::opaque]
spec fn is_mark(mark: Option<Seq<char>>, t: Instant) -> bool {
    mark == Some(rfc3339_text(t.secs(), t.nanos(), 0))
}

proof fn lemma_first_cwd(
    visits: Seq<Visit>,
    tz: TzOffset,
    threshold: int,
    name: Seq<char>,
) -> (i: int)
    requires
        all_told(visits),
        projects_in(visits).contains(name),
    ensures
        is_first_visit(visits, name, i),
        scan_after(visits, tz, threshold).projects[name].cwd == visits[i].folder.cwd,
    decreases visits.len(),
{
    let first = visits.drop_last();
    let n = visits.len() - 1;
    lemma_fewer_visits(visits);
    lemma_scan_ends(first, tz, threshold);
    if projects_in(first).contains(name) {
        let i = lemma_first_cwd(first, tz, threshold, name);
        assert(scan_after(first, tz, threshold).projects.dom().contains(name));
        assert forall|j: int| 0 <= j < i implies (#[trigger] visits[j]).folder.name != name by {
            assert(first[j].folder.name != name);
        }
        i
    } else {
        assert(!scan_after(first, tz, threshold).projects.dom().contains(name));
        assert forall|j: int| 0 <= j < n implies (#[trigger] visits[j]).folder.name != name by {
            assert(first[j] == visits[j]);
        }
        let j = choose|j: int| 0 <= j < visits.len() && (#[trigger] visits[j]).folder.name == name;
        assert(j == n);
        n
    }
}

#[verifier::spinoff_prover]
proof fn lemma_fewer_visits(visits: Seq<Visit>)
    requires
        all_told(visits),
        visits.len() > 0,
    ensures
        all_told(visits.drop_last()),
        visits.last().events.len() > 0,
        visits =~= visits.drop_last().push(visits.last()),
        ends_read_back(visits) ==> ends_read_back(visits.drop_last()),
{
    let first = visits.drop_last();
    assert forall|i: int| 0 <= i < first.len() implies (#[trigger] first[i]).events.len() > 0 by {
        assert(visits[i].events.len() > 0);
    }
    assert(visits[visits.len() - 1].events.len() > 0);
    if ends_read_back(visits) {
        assert forall|i: int| 0 <= i < first.len() implies {
            let events = (#[trigger] first[i]).events;
            let a = events[0].at;
            let b = events[events.len() - 1].at;
            &&& instant_read(rfc3339_text(a.secs(), a.nanos(), 0)) == Some(a)
            &&& instant_read(rfc3339_text(b.secs(), b.nanos(), 0)) == Some(b)
        } by {
            assert(visits[i] == first[i]);
        }
    }
}

/// The earliest start and the latest end of the sessions of a project.
spec fn ends_of(visits: Seq<Visit>, name: Seq<char>) -> Option<(Instant, Instant)>
    decreases visits.len(),
{
    if visits.len() == 0 {
        None
    } else {
        let v = visits.last();
        let before = ends_of(visits.drop_last(), name);
        if v.folder.name != name {
            before
        } else {
            let a = v.events[0].at;
            let b = v.events[v.events.len() - 1].at;
            match before {
                None => Some((a, b)),
                Some((t, u)) => Some(
                    (
                        if a.rank() >= t.rank() {
                            t
                        } else {
                            a
                        },
                        if b.rank() <= u.rank() {
                            u
                        } else {
                            b
                        },
                    ),
                ),
            }
        }
    }
}

proof fn lemma_ends_of(visits: Seq<Visit>, name: Seq<char>)
    ensures
        ends_of(visits, name) is Some <==> projects_in(visits).contains(name),
        ends_of(visits, name) matches Some((t, u)) ==> starts_first(visits, name, t) && ends_last(
            visits,
            name,
            u,
        ),
    decreases visits.len(),
{
    if visits.len() > 0 {
        let first = visits.drop_last();
        let n = visits.len() - 1;
        let v = visits[n];
        lemma_ends_of(first, name);
        assert(visits =~= first.push(v));
        assert(forall|i: int| 0 <= i < first.len() ==> first[i] == visits[i]);
        if let Some((t, u)) = ends_of(first, name) {
            lemma_one_more_visit(first, v, name, t, u);
            let i = choose|i: int|
                0 <= i < first.len() && (#[trigger] first[i]).folder.name == name;
            assert(visits[i].folder.name == name);
        } else {
            assert forall|j: int| 0 <= j < n implies (#[trigger] visits[j]).folder.name != name by {
                assert(first[j] == visits[j]);
            }
            if v.folder.name == name {
                assert(visits[n].folder.name == name);
            }
        }
    }
}

/// The texts of an instant in UTC are read back.
#[verifier::opaque]
spec fn reads_back(t: Instant) -> bool {
    instant_read(rfc3339_text(t.secs(), t.nanos(), 0)) == Some(t)
}

proof fn lemma_first_mark(mark: Option<Seq<char>>, t: Instant, at: Instant, present: Instant)
    requires
        reads_back(t),
        is_mark(mark, t),
    ensures
        is_mark(
            first_mark(mark, at, present),
            if at.rank() >= t.rank() {
                t
            } else {
                at
            },
        ),
        is_mark(
            last_mark(mark, at),
            if at.rank() <= t.rank() {
                t
            } else {
                at
            },
        ),
{
    reveal(reads_back);
    reveal(is_mark);
}

proof fn lemma_new_mark(at: Instant, present: Instant)
    ensures
        is_mark(first_mark(None, at, present), at),
        is_mark(last_mark(None, at), at),
{
    reveal(is_mark);
}

proof fn lemma_marks(visits: Seq<Visit>, tz: TzOffset, threshold: int, name: Seq<char>)
    requires
        all_told(visits),
        forall|i: int|
            0 <= i < visits.len() ==> reads_back((#[trigger] visits[i]).events[0].at)
                && reads_back(visits[i].events[visits[i].events.len() - 1].at),
    ensures
        scan_after(visits, tz, threshold).projects.contains_key(name) <==> ends_of(
            visits,
            name,
        ) is Some,
        ends_of(visits, name) matches Some((t, u)) ==> reads_back(t) && reads_back(u) && is_mark(
            scan_after(visits, tz, threshold).projects[name].first,
            t,
        ) && is_mark(scan_after(visits, tz, threshold).projects[name].last, u),
    decreases visits.len(),
{
    if visits.len() > 0 {
        let first = visits.drop_last();
        let v = visits[visits.len() - 1];
        lemma_fewer_visits(visits);
        assert forall|i: int| 0 <= i < first.len() implies reads_back(
            (#[trigger] first[i]).events[0].at,
        ) && reads_back(first[i].events[first[i].events.len() - 1].at) by {
            assert(first[i] == visits[i]);
        }
        lemma_marks(first, tz, threshold, name);
        let a = v.events[0].at;
        let b = v.events[v.events.len() - 1].at;
        assert(v.events.last().at == b);
        assert(reads_back(a) && reads_back(b));
        let before = scan_after(first, tz, threshold);
        if v.folder.name == name {
            match ends_of(first, name) {
                Some((t, u)) => {
                    lemma_first_mark(before.projects[name].first, t, a, v.present);
                    lemma_first_mark(before.projects[name].last, u, b, v.present);
                },
                None => {
                    lemma_new_mark(a, v.present);
                    lemma_new_mark(b, v.present);
                },
            }
        }
    }
}

proof fn lemma_one_more_visit(
    first: Seq<Visit>,
    v: Visit,
    name: Seq<char>,
    t: Instant,
    u: Instant,
)
    requires
        starts_first(first, name, t),
        ends_last(first, name, u),
    ensures
        v.folder.name != name ==> starts_first(first.push(v), name, t) && ends_last(
            first.push(v),
            name,
            u,
        ),
        v.folder.name == name ==> starts_first(
            first.push(v),
            name,
            if v.events[0].at.rank() >= t.rank() {
                t
            } else {
                v.events[0].at
            },
        ),
        v.folder.name == name ==> ends_last(
            first.push(v),
            name,
            if v.events[v.events.len() - 1].at.rank() <= u.rank() {
                u
            } else {
                v.events[v.events.len() - 1].at
            },
        ),
{
    let visits = first.push(v);
    let n = first.len() as int;
    assert(visits[n] == v);
    assert(forall|i: int| 0 <= i < first.len() ==> first[i] == visits[i]);
    let i = choose|i: int|
        0 <= i < first.len() && (#[trigger] first[i]).folder.name == name
            && first[i].events[0].at == t;
    assert(visits[i].folder.name == name && visits[i].events[0].at == t);
    let j = choose|j: int|
        0 <= j < first.len() && (#[trigger] first[j]).folder.name == name
            && first[j].events[first[j].events.len() - 1].at == u;
    assert(visits[j].folder.name == name && visits[j].events[visits[j].events.len() - 1].at == u);
    assert forall|k: int|
        0 <= k < visits.len() && (#[trigger] visits[k]).folder.name == name && k
            < n implies t.rank() <= visits[k].events[0].at.rank()
        && visits[k].events[visits[k].events.len() - 1].at.rank() <= u.rank() by {
        assert(first[k].folder.name == name);
    }
}

/// A project has the working directory that was known with its first session,
/// the text in UTC of the instant at which its earliest session starts, and
/// that of the instant at which its latest ends, where such texts are read
/// back.
pub proof fn law_a_project_runs_from_first_start_to_last_end(
    p: ProjectStat,
    name: Seq<char>,
    visits: Seq<Visit>,
    tz: TzOffset,
    threshold: int,
)
    requires
        all_told(visits),
        projects_in(visits).contains(name),
        project_told(p, name, scan_after(visits, tz, threshold).projects[name]),
    ensures
        exists|i: int| #[trigger]
            is_first_visit(visits, name, i) && opt_text(p.cwd) == visits[i].folder.cwd,
        ends_read_back(visits) ==> exists|t: Instant, u: Instant| #[trigger]
            starts_first(visits, name, t) && #[trigger] ends_last(visits, name, u) && opt_text(
                p.first,
            ) == Some(rfc3339_text(t.secs(), t.nanos(), 0)) && opt_text(p.last) == Some(
                rfc3339_text(u.secs(), u.nanos(), 0),
            ),
{
    let i = lemma_first_cwd(visits, tz, threshold, name);
    if ends_read_back(visits) {
        assert forall|i: int| 0 <= i < visits.len() implies reads_back(
            (#[trigger] visits[i]).events[0].at,
        ) && reads_back(visits[i].events[visits[i].events.len() - 1].at) by {
            reveal(reads_back);
        }
        lemma_marks(visits, tz, threshold, name);
        lemma_ends_of(visits, name);
        let (t, u) = ends_of(visits, name)->0;
        assert(starts_first(visits, name, t) && ends_last(visits, name, u));
        reveal(is_mark);
    }
}

/// One of the amounts that a row on a day says.
pub open spec fn day_figure(a: Amount, d: DailyStat) -> int {
    figure(a, d.messages as int, d.tokens@, d.cost as int)
}

/// The list of days has one row for each date of an event and no other, in the
/// order of the dates. It tells what the events of the date amount to, the
/// activity that starts on it, and the sessions that do.
pub proof fn law_days_are_told(
    r: Report,
    visits: Seq<Visit>,
    tz: TzOffset,
    threshold: int,
    sessions: Seq<SessionStat>,
    request: Request,
    present: Instant,
)
    requires
        all_told(visits),
        reported(r, scan_after(visits, tz, threshold), sessions, request, present),
    ensures
        forall|i: int, a: Amount|
            0 <= i < r.daily@.len() ==> #[trigger] day_figure(a, r.daily@[i]) == over_visits(
                visits,
                of_events(under(day_of(tz), r.daily@[i].date@, a)),
            ),
        forall|i: int|
            0 <= i < r.daily@.len() ==> (#[trigger] r.daily@[i]).messages > 0
                && r.daily@[i].active_sec == over_visits(
                visits,
                active_where(threshold, named(day_of(tz), r.daily@[i].date@)),
            ) && r.daily@[i].sessions == over_visits(
                visits,
                starting_on(tz, r.daily@[i].date@),
            ) && day_told(
                r.daily@[i],
                r.daily@[i].date@,
                scan_after(visits, tz, threshold),
            ),
        forall|k: Seq<char>| #[trigger]
            over_visits(visits, of_events(under(day_of(tz), k, Amount::Messages))) > 0 ==> exists|
                i: int,
            |
                0 <= i < r.daily@.len() && (#[trigger] r.daily@[i]).date@ == k,
        forall|i: int, j: int|
            0 <= i < j < r.daily@.len() ==> name_before(
                (#[trigger] r.daily@[i]).date@,
                (#[trigger] r.daily@[j]).date@,
            ),
{
    let rows = r.daily@;
    let scan = scan_after(visits, tz, threshold);
    let key = day_of(tz);
    let none = Seq::<char>::empty();
    let names = choose|names: Seq<Seq<char>>| #[trigger]
        lists_names(names, scan.all.days) && rows.len() == names.len() && forall|i: int|
            0 <= i < rows.len() ==> day_told(#[trigger] rows[i], names[i], scan);
    assert forall|i: int, a: Amount| 0 <= i < rows.len() implies #[trigger] day_figure(a, rows[i])
        == over_visits(visits, of_events(under(key, rows[i].date@, a))) by {
        lemma_scan_under(Axis::Day, key, visits, tz, threshold, names[i], a, none);
        assert(day_told(rows[i], names[i], scan));
        assert(names.contains(names[i]));
    }
    assert forall|i: int| 0 <= i < rows.len() implies (#[trigger] rows[i]).messages > 0
        && rows[i].active_sec == over_visits(
        visits,
        active_where(threshold, named(key, rows[i].date@)),
    ) && rows[i].sessions == over_visits(visits, starting_on(tz, rows[i].date@)) && day_told(
        rows[i],
        rows[i].date@,
        scan,
    ) by {
        let k = names[i];
        assert(day_told(rows[i], k, scan));
        assert(names.contains(k));
        lemma_scan_under(Axis::Day, key, visits, tz, threshold, k, Amount::Messages, none);
        lemma_scan_time(Axis::Day, key, visits, tz, threshold, k, none);
    }
    assert forall|k: Seq<char>| #[trigger]
        over_visits(visits, of_events(under(key, k, Amount::Messages))) > 0 implies exists|i: int|
        0 <= i < rows.len() && (#[trigger] rows[i]).date@ == k by {
        lemma_scan_under(Axis::Day, key, visits, tz, threshold, k, Amount::Messages, none);
        assert(names.contains(k));
        let i = names.index_of(k);
        assert(day_told(rows[i], names[i], scan));
    }
    assert forall|i: int, j: int| 0 <= i < j < rows.len() implies name_before(
        (#[trigger] rows[i]).date@,
        (#[trigger] rows[j]).date@,
    ) by {
        assert(day_told(rows[i], names[i], scan));
        assert(day_told(rows[j], names[j], scan));
        assert(name_before(names[i], names[j]));
    }
}

/// The moments of a date at which at least one of the sessions that are asked
/// for is active.
pub open spec fn moments_on(
    visits: Seq<Visit>,
    asked: spec_fn(Visit) -> bool,
    tz: TzOffset,
    threshold: int,
    clock: Clock,
    date: Seq<char>,
) -> Set<int> {
    Set::new(
        |t: int| active_moments(visits, asked, tz, threshold, clock).contains((date, t)),
    )
}

/// A session of a project has a time of activity that starts on a date.
pub open spec fn is_active_on(
    visits: Seq<Visit>,
    name: Seq<char>,
    tz: TzOffset,
    threshold: int,
    date: Seq<char>,
) -> bool {
    exists|j: int, i: int|
        0 <= j < visits.len() && visits[j].folder.name == name && 0 <= i < visits[j].events.len()
            - 1 && is_active(visits[j].events, threshold, i) && date_of(
            (#[trigger] visits[j].events[i]).at,
            tz,
        ) == date
}

proof fn lemma_span_key(
    events: Seq<EventV>,
    tz: TzOffset,
    threshold: int,
    n: int,
    d: Seq<char>,
)
    requires
        n < events.len(),
    ensures
        has_key(gap_spans(events, tz, threshold, n), d) <==> exists|i: int|
            0 <= i < n && is_active(events, threshold, i) && date_of(
                (#[trigger] events[i]).at,
                tz,
            ) == d,
    decreases n,
{
    if n > 0 {
        lemma_span_key(events, tz, threshold, n - 1, d);
        let first = gap_spans(events, tz, threshold, n - 1);
        let e = events[n - 1];
        let x = (date_of(e.at, tz), Span { start: e.at, end: events[n].at });
        assert(is_active(events, threshold, n - 1) <==> gap_counts(events, n - 1, threshold));
        lemma_has_key_push(first, x, d);
    }
}

proof fn lemma_project_span_key(
    visits: Seq<Visit>,
    tz: TzOffset,
    threshold: int,
    name: Seq<char>,
    d: Seq<char>,
)
    requires
        all_told(visits),
    ensures
        is_active_on(visits, name, tz, threshold, d) <==> scan_after(
            visits,
            tz,
            threshold,
        ).projects.contains_key(name) && scan_after(visits, tz, threshold).projects[
            name].tables.spans.contains_key(d),
    decreases visits.len(),
{
    if visits.len() > 0 {
        let first = visits.drop_last();
        let n = visits.len() - 1;
        let v = visits[n];
        lemma_fewer_visits(visits);
        lemma_project_span_key(first, tz, threshold, name, d);
        lemma_span_key(v.events, tz, threshold, gap_count(v.events), d);
        let own = session_tables(v.events, tz, threshold).spans.contains_key(d);
        if is_active_on(first, name, tz, threshold, d) {
            let (j, i) = choose|j: int, i: int|
                0 <= j < first.len() && first[j].folder.name == name && 0 <= i
                    < first[j].events.len() - 1 && is_active(first[j].events, threshold, i)
                    && date_of((#[trigger] first[j].events[i]).at, tz) == d;
            assert(visits[j] == first[j]);
            assert(date_of(visits[j].events[i].at, tz) == d);
        }
        if v.folder.name == name && own {
            let i = choose|i: int|
                0 <= i < gap_count(v.events) && is_active(v.events, threshold, i) && date_of(
                    (#[trigger] v.events[i]).at,
                    tz,
                ) == d;
            assert(date_of(visits[n].events[i].at, tz) == d);
        }
        if is_active_on(visits, name, tz, threshold, d) {
            let (j, i) = choose|j: int, i: int|
                0 <= j < visits.len() && visits[j].folder.name == name && 0 <= i
                    < visits[j].events.len() - 1 && is_active(visits[j].events, threshold, i)
                    && date_of((#[trigger] visits[j].events[i]).at, tz) == d;
            if j < n {
                assert(first[j] == visits[j]);
                assert(date_of(first[j].events[i].at, tz) == d);
            } else {
                assert(date_of(v.events[i].at, tz) == d);
            }
        }
    }
}

/// What is said of a project's share in a day.
pub open spec fn tells_of_share(
    sum: NamedCount,
    union: NamedCount,
    date: Seq<char>,
    visits: Seq<Visit>,
    tz: TzOffset,
    threshold: int,
) -> bool {
    let k = sum.name@;
    &&& union.name@ == k
    &&& is_active_on(visits, k, tz, threshold, date)
    &&& sum.count == over_visits(
        visits,
        of_project(k, active_where(threshold, named(day_of(tz), date))),
    )
    &&& all_ordered(visits) && on_whole_seconds(visits) ==> moments_on(
        visits,
        visits_of(k),
        tz,
        threshold,
        by_nanos(),
        date,
    ).finite() && union.count * 1_000_000_000 == moments_on(
        visits,
        visits_of(k),
        tz,
        threshold,
        by_nanos(),
        date,
    ).len()
}

/// The spans that a table has for a date cover the moments of the date.
proof fn lemma_date_union(
    spans: Map<Seq<char>, Seq<Span>>,
    visits: Seq<Visit>,
    asked: spec_fn(Visit) -> bool,
    tz: TzOffset,
    threshold: int,
    date: Seq<char>,
)
    requires
        all_spans(spans, |s: Span| is_whole(s)),
        cells(spans, by_nanos()) == active_moments(visits, asked, tz, threshold, by_nanos()),
    ensures
        moments_on(visits, asked, tz, threshold, by_nanos(), date).finite(),
        union_secs(at_or(spans, date, seq![])) * 1_000_000_000 == moments_on(
            visits,
            asked,
            tz,
            threshold,
            by_nanos(),
            date,
        ).len(),
{
    let x = at_or(spans, date, seq![]);
    let clock = by_nanos();
    assert forall|i: int| 0 <= i < x.len() implies is_whole(#[trigger] x[i]) by {
        assert(is_whole(spans[date][i]));
    }
    law_whole_union_is_the_covered_time(x);
    assert forall|t: int| moments_covered(clock, x).contains(t) == moments_on(
        visits,
        asked,
        tz,
        threshold,
        clock,
        date,
    ).contains(t) by {
        assert(cells(spans, clock).contains((date, t)) == moments_covered(clock, x).contains(t));
    }
    assert(moments_covered(clock, x) =~= moments_on(visits, asked, tz, threshold, clock, date));
}

/// The union of a day's activity counts each moment of the date once, however
/// many sessions are active then.
pub proof fn law_a_day_counts_parallel_time_once(
    d: DailyStat,
    date: Seq<char>,
    visits: Seq<Visit>,
    tz: TzOffset,
    threshold: int,
)
    requires
        all_ordered(visits),
        on_whole_seconds(visits),
        day_told(d, date, scan_after(visits, tz, threshold)),
    ensures
        moments_on(visits, any_visit(), tz, threshold, by_nanos(), date).finite(),
        d.active_sec_union * 1_000_000_000 == moments_on(
            visits,
            any_visit(),
            tz,
            threshold,
            by_nanos(),
            date,
        ).len(),
{
    let none = Seq::<char>::empty();
    lemma_steps_run_forward(visits);
    lemma_scan_covers(visits, tz, threshold, by_nanos(), none);
    lemma_scan_spans(visits, tz, threshold, |s: Span| is_whole(s), none);
    lemma_date_union(
        scan_after(visits, tz, threshold).all.spans,
        visits,
        any_visit(),
        tz,
        threshold,
        date,
    );
}

/// Only the moments of a date at which some session is active matter for the
/// union of its activity.
pub proof fn law_day_union_goes_by_active_moments(
    d: DailyStat,
    e: DailyStat,
    date: Seq<char>,
    a: Seq<Visit>,
    b: Seq<Visit>,
    tz: TzOffset,
    threshold: int,
)
    requires
        all_ordered(a),
        all_ordered(b),
        day_told(d, date, scan_after(a, tz, threshold)),
        day_told(e, date, scan_after(b, tz, threshold)),
        moments_on(a, any_visit(), tz, threshold, by_rank(), date) == moments_on(
            b,
            any_visit(),
            tz,
            threshold,
            by_rank(),
            date,
        ),
    ensures
        d.active_sec_union == e.active_sec_union,
{
    let none = Seq::<char>::empty();
    let clock = by_rank();
    lemma_steps_run_forward(a);
    lemma_steps_run_forward(b);
    lemma_scan_covers(a, tz, threshold, clock, none);
    lemma_scan_covers(b, tz, threshold, clock, none);
    lemma_scan_spans(a, tz, threshold, |s: Span| is_forward(s), none);
    lemma_scan_spans(b, tz, threshold, |s: Span| is_forward(s), none);
    let m = scan_after(a, tz, threshold).all.spans;
    let n = scan_after(b, tz, threshold).all.spans;
    let x = at_or(m, date, seq![]);
    let y = at_or(n, date, seq![]);
    assert forall|i: int| 0 <= i < x.len() implies is_forward(#[trigger] x[i]) by {
        assert(is_forward(m[date][i]));
    }
    assert forall|i: int| 0 <= i < y.len() implies is_forward(#[trigger] y[i]) by {
        assert(is_forward(n[date][i]));
    }
    assert forall|t: int| moments_covered(clock, x).contains(t) == moments_covered(
        clock,
        y,
    ).contains(t) by {
        assert(cells(m, clock).contains((date, t)) == moments_on(
            a,
            any_visit(),
            tz,
            threshold,
            clock,
            date,
        ).contains(t));
        assert(cells(n, clock).contains((date, t)) == moments_on(
            b,
            any_visit(),
            tz,
            threshold,
            clock,
            date,
        ).contains(t));
    }
    assert(moments_covered(clock, x) =~= moments_covered(clock, y));
    law_union_goes_by_what_is_covered(x, y);
}

/// A day is shared by the projects with a time of activity that starts on it,
/// and by no others: each is listed once, in the order of the names, with its
/// activity and with the union of it.
pub proof fn law_a_day_is_told_by_project(
    d: DailyStat,
    date: Seq<char>,
    visits: Seq<Visit>,
    tz: TzOffset,
    threshold: int,
)
    requires
        all_told(visits),
        day_told(d, date, scan_after(visits, tz, threshold)),
    ensures
        d.by_project@.len() == d.union_by_project@.len(),
        forall|i: int|
            0 <= i < d.by_project@.len() ==> tells_of_share(
                #[trigger] d.by_project@[i],
                d.union_by_project@[i],
                date,
                visits,
                tz,
                threshold,
            ),
        forall|k: Seq<char>| #[trigger]
            is_active_on(visits, k, tz, threshold, date) ==> exists|i: int|
                0 <= i < d.by_project@.len() && (#[trigger] d.by_project@[i]).name@ == k,
        forall|i: int, j: int|
            0 <= i < j < d.by_project@.len() ==> name_before(
                (#[trigger] d.by_project@[i]).name@,
                (#[trigger] d.by_project@[j]).name@,
            ),
{
    let sums = d.by_project@;
    let unions = d.union_by_project@;
    let scan = scan_after(visits, tz, threshold);
    let table = active_projects(scan.projects, date);
    let names = choose|names: Seq<Seq<char>>| #[trigger]
        lists_names(names, table) && sums.len() == names.len() && unions.len() == names.len()
            && forall|i: int| 0 <= i < names.len() ==> share_told(
            #[trigger] sums[i],
            unions[i],
            names[i],
            scan.projects[names[i]],
            date,
        );
    assert forall|i: int| 0 <= i < sums.len() implies tells_of_share(
        #[trigger] sums[i],
        unions[i],
        date,
        visits,
        tz,
        threshold,
    ) by {
        let k = names[i];
        assert(share_told(sums[i], unions[i], k, scan.projects[k], date));
        assert(names.contains(k));
        assert(table.contains_key(k));
        lemma_project_span_key(visits, tz, threshold, k, date);
        lemma_scan_time(Axis::Day, day_of(tz), visits, tz, threshold, date, k);
        if all_ordered(visits) && on_whole_seconds(visits) {
            lemma_steps_run_forward(visits);
            lemma_scan_covers(visits, tz, threshold, by_nanos(), k);
            lemma_scan_spans(visits, tz, threshold, |s: Span| is_whole(s), k);
            lemma_date_union(
                scan.projects[k].tables.spans,
                visits,
                visits_of(k),
                tz,
                threshold,
                date,
            );
        }
    }
    assert forall|k: Seq<char>| #[trigger]
        is_active_on(visits, k, tz, threshold, date) implies exists|i: int|
        0 <= i < sums.len() && (#[trigger] sums[i]).name@ == k by {
        lemma_project_span_key(visits, tz, threshold, k, date);
        assert(table.contains_key(k));
        assert(names.contains(k));
        let i = names.index_of(k);
        assert(share_told(sums[i], unions[i], names[i], scan.projects[names[i]], date));
    }
    assert forall|i: int, j: int| 0 <= i < j < sums.len() implies name_before(
        (#[trigger] sums[i]).name@,
        (#[trigger] sums[j]).name@,
    ) by {
        assert(share_told(sums[i], unions[i], names[i], scan.projects[names[i]], date));
        assert(share_told(sums[j], unions[j], names[j], scan.projects[names[j]], date));
        assert(name_before(names[i], names[j]));
    }
}

/// One of the amounts that the record of a session says.
pub open spec fn session_figure(a: Amount, s: SessionStat) -> int {
    figure(a, s.messages as int, s.tokens@, s.cost as int)
}

/// The record of a session tells what its events amount to, the activity
/// between them, the time from the first to the last, and which models occur.
/// Its title is the custom one, and the other only where there is none.
pub proof fn law_a_session_is_told(
    s: SessionStat,
    project: Seq<char>,
    log: SessionLog,
    tz: TzOffset,
    threshold: int,
)
    requires
        log.events@.len() > 0,
        session_told(s, project, log, tz, threshold),
    ensures
        ({
            let events = event_views(log.events@);
            let first = events[0].at;
            let last = events[events.len() - 1].at;
            &&& s.project@ == project
            &&& s.session_id@ == log.id@
            &&& s.file@ == log.file@
            &&& forall|a: Amount| #[trigger]
                session_figure(a, s) == over_events(events, all_of(a))
            &&& s.active_sec == over_gaps(events, threshold, any_event(), events.len() - 1)
            &&& s.total_sec == if elapsed(first, last) < 0 {
                0
            } else {
                elapsed(first, last)
            }
            &&& s.start@ == rfc3339_text(first.secs(), first.nanos(), tz.secs())
            &&& s.end@ == rfc3339_text(last.secs(), last.nanos(), tz.secs())
            &&& forall|m: Seq<char>| #[trigger]
                texts(s.models@).contains(m) <==> over_events(
                    events,
                    under(model_of(), m, Amount::Messages),
                ) > 0
            &&& forall|i: int, j: int|
                0 <= i < j < s.models@.len() ==> name_before(
                    (#[trigger] s.models@[i])@,
                    (#[trigger] s.models@[j])@,
                )
            &&& log.meta.custom_title is Some ==> opt_text(s.title) == opt_text(
                log.meta.custom_title,
            )
            &&& log.meta.custom_title is None ==> opt_text(s.title) == opt_text(log.meta.ai_title)
        }),
{
    let events = event_views(log.events@);
    assert forall|a: Amount| #[trigger] session_figure(a, s) == over_events(events, all_of(a)) by {
        lemma_session_total(events, threshold, a);
    }
    lemma_session_total(events, threshold, Amount::Messages);
    assert forall|m: Seq<char>| #[trigger] texts(s.models@).contains(m) <==> over_events(
        events,
        under(model_of(), m, Amount::Messages),
    ) > 0 by {
        lemma_session_under(
            Axis::Model,
            model_of(),
            events,
            tz,
            threshold,
            m,
            Amount::Messages,
        );
    }
    let names = texts(s.models@);
    assert forall|i: int, j: int| 0 <= i < j < s.models@.len() implies name_before(
        (#[trigger] s.models@[i])@,
        (#[trigger] s.models@[j])@,
    ) by {
        assert(names[i] == s.models@[i]@ && names[j] == s.models@[j]@);
        assert(name_before(names[i], names[j]));
    }
}

/// The records of all sessions are listed, those with more activity first, and
/// those with as much as they were counted.
pub proof fn law_sessions_are_listed(
    r: Report,
    scan: ScanV,
    sessions: Seq<SessionStat>,
    request: Request,
    present: Instant,
)
    requires
        reported(r, scan, sessions, request, present),
    ensures
        exists|places: Seq<int>| #[trigger]
            is_rearrangement(places, sessions.len()) && r.sessions@.len() == sessions.len()
                && forall|i: int|
                0 <= i < sessions.len() ==> #[trigger] r.sessions@[i] == sessions[places[i]],
        forall|i: int, j: int|
            0 <= i < j < r.sessions@.len() ==> (#[trigger] r.sessions@[i]).active_sec >= (
            #[trigger] r.sessions@[j]).active_sec,
{
    law_everything_can_be_sorted(sessions);
    let places = choose|places: Seq<int>| sorted_by_places(sessions, r.sessions@, places);
    assert(is_rearrangement(places, sessions.len()));
    assert forall|i: int, j: int| 0 <= i < j < r.sessions@.len() implies (
    #[trigger] r.sessions@[i]).active_sec >= (#[trigger] r.sessions@[j]).active_sec by {
        assert(r.sessions@[i].rank() <= r.sessions@[j].rank());
    }
}

/// An amount of the events that go under some name.
pub open spec fn under_any(key: Key, a: Amount) -> Weight {
    |e: EventV|
        if key(e) is Some {
            worth(a, e)
        } else {
            0
        }
}

/// The sum of an amount over rows on skills or plugins.
pub open spec fn over_stats(rows: Seq<NamedStat>, a: Amount) -> int
    decreases rows.len(),
{
    if rows.len() == 0 {
        0
    } else {
        over_stats(rows.drop_last(), a) + stat_figure(a, rows.last())
    }
}

/// The sum of an amount over rows on models.
pub open spec fn over_models(rows: Seq<ModelStat>, a: Amount) -> int
    decreases rows.len(),
{
    if rows.len() == 0 {
        0
    } else {
        over_models(rows.drop_last(), a) + model_figure(a, rows.last())
    }
}

/// A sum can be taken name by name, in any order.
proof fn lemma_sum_in_any_order(m: Map<Seq<char>, UsageV>, names: Seq<Seq<char>>)
    requires
        names.no_duplicates(),
        forall|k: Seq<char>| #[trigger] names.contains(k) <==> m.contains_key(k),
    ensures
        m.dom().finite(),
        table_sum(m) == sum_over(m, whole(), names),
    decreases names.len(),
{
    seq_to_set_is_finite(names);
    assert(m.dom() =~= names.to_set());
    if names.len() == 0 {
        assert(m.dom() =~= Set::empty());
    } else {
        let first = names.drop_last();
        let k = names.last();
        assert(names[names.len() - 1] == k);
        assert(names.contains(k));
        if first.contains(k) {
            let i = first.index_of(k);
            assert(names[i] == k);
        }
        let rest = m.remove(k);
        assert forall|n: Seq<char>| #[trigger] first.contains(n) <==> rest.contains_key(n) by {
            if first.contains(n) {
                let i = first.index_of(n);
                assert(names[i] == n);
                assert(names.contains(n));
            }
            if rest.contains_key(n) {
                assert(names.contains(n));
                let i = names.index_of(n);
                assert(first[i] == n);
            }
        }
        lemma_sum_in_any_order(rest, first);
        lemma_sum_remove(m, whole(), k);
        lemma_sum_over_others(m, whole(), first, k);
    }
}

proof fn lemma_events_in_all(
    axis: Axis,
    key: Key,
    events: Seq<EventV>,
    tz: TzOffset,
    a: Amount,
)
    requires
        goes_by(axis, key, tz),
    ensures
        figure_in(a)(total_of(events_items(axis, events, tz))) == over_events(
            events,
            under_any(key, a),
        ),
    decreases events.len(),
{
    lemma_parts(a);
    if events.len() > 0 {
        let first = events.drop_last();
        let e = events.last();
        lemma_events_in_all(axis, key, first, tz, a);
        lemma_total_of_sum(events_items(axis, first, tz), event_items(axis, e, tz));
        assert(event_items(axis, e, tz) =~= keyed(key(e), event_usage(e)));
        lemma_keyed_total(key(e), event_usage(e));
        lemma_event_usage(a, e);
    }
}

proof fn lemma_keyed_total(key: Option<Seq<char>>, u: UsageV)
    ensures
        total_of(keyed(key, u)) == if key is Some {
            u
        } else {
            UsageV::zero()
        },
{
    assert(UsageV::zero().plus(u) == u);
    let items = keyed(key, u);
    if let Some(x) = key {
        assert(items.drop_last() =~= Seq::<(Seq<char>, UsageV)>::empty());
        assert(total_of(items.drop_last()) == UsageV::zero());
        assert(items.last() == (x, u));
    }
}

proof fn lemma_gaps_in_all(
    axis: Axis,
    events: Seq<EventV>,
    tz: TzOffset,
    threshold: int,
    n: int,
    a: Amount,
)
    ensures
        figure_in(a)(total_of(gaps_items(axis, events, tz, threshold, n))) == 0,
    decreases n,
{
    lemma_parts(a);
    if n > 0 {
        lemma_gaps_in_all(axis, events, tz, threshold, n - 1, a);
        if gap_counts(events, n - 1, threshold) {
            let e = events[n - 1];
            let gap = gap_after(events, n - 1);
            lemma_total_of_sum(
                gaps_items(axis, events, tz, threshold, n - 1),
                gap_items(axis, e, gap, tz),
            );
            lemma_keyed_total(Some(date_of(e.at, tz)), activity(gap));
            lemma_keyed_total(e.git_branch, activity(gap));
            assert(gap_items(Axis::Day, e, gap, tz) =~= keyed(
                Some(date_of(e.at, tz)),
                activity(gap),
            ));
        }
    }
}

/// What all names together have.
proof fn lemma_scan_in_all(
    axis: Axis,
    key: Key,
    visits: Seq<Visit>,
    tz: TzOffset,
    threshold: int,
    a: Amount,
)
    requires
        axis is Model || axis is Skill || axis is Plugin,
        goes_by(axis, key, tz),
    ensures
        table_in(axis, scan_after(visits, tz, threshold).all).dom().finite(),
        figure_in(a)(table_sum(table_in(axis, scan_after(visits, tz, threshold).all)))
            == over_visits(visits, of_events(under_any(key, a))),
    decreases visits.len(),
{
    lemma_parts(a);
    if visits.len() > 0 {
        let first = visits.drop_last();
        let v = visits.last();
        lemma_scan_in_all(axis, key, first, tz, threshold, a);
        let before = scan_after(first, tz, threshold).all;
        let n = gap_count(v.events);
        let items = session_items(axis, v.events, tz, threshold);
        let t = session_tables(v.events, tz, threshold);
        law_table_keeps_the_sum(items);
        assert(table_in(axis, t) == table_of(items));
        lemma_total_of_sum(
            gaps_items(axis, v.events, tz, threshold, n),
            events_items(axis, v.events, tz),
        );
        lemma_gaps_in_all(axis, v.events, tz, threshold, n, a);
        lemma_events_in_all(axis, key, v.events, tz, a);
        law_joined_tables_keep_the_sum(table_in(axis, before), table_in(axis, t));
        assert(table_in(axis, before.joined(t)) == tables_joined(
            table_in(axis, before),
            table_in(axis, t),
        ));
    } else {
        assert(table_in(axis, TablesV::empty()) == Map::<Seq<char>, UsageV>::empty());
    }
}

proof fn lemma_over_stats(
    rows: Seq<NamedStat>,
    names: Seq<Seq<char>>,
    table: Map<Seq<char>, UsageV>,
    a: Amount,
)
    requires
        names.len() == rows.len(),
        forall|i: int|
            0 <= i < rows.len() ==> (#[trigger] rows[i]).tells((), names[i], table[names[i]]),
    ensures
        figure_in(a)(sum_over(table, whole(), names)) == over_stats(rows, a),
    decreases rows.len(),
{
    lemma_parts(a);
    if rows.len() > 0 {
        let n = rows.len() - 1;
        let fewer = rows.drop_last();
        assert forall|i: int| 0 <= i < fewer.len() implies (#[trigger] fewer[i]).tells(
            (),
            names.drop_last()[i],
            table[names.drop_last()[i]],
        ) by {
            assert(rows[i].tells((), names[i], table[names[i]]));
        }
        lemma_over_stats(fewer, names.drop_last(), table, a);
        assert(rows[n].tells((), names[n], table[names[n]]));
    }
}

proof fn lemma_over_models(
    rows: Seq<ModelStat>,
    names: Seq<Seq<char>>,
    table: Map<Seq<char>, UsageV>,
    a: Amount,
)
    requires
        names.len() == rows.len(),
        forall|i: int|
            0 <= i < rows.len() ==> (#[trigger] rows[i]).tells((), names[i], table[names[i]]),
    ensures
        figure_in(a)(sum_over(table, whole(), names)) == over_models(rows, a),
    decreases rows.len(),
{
    lemma_parts(a);
    if rows.len() > 0 {
        let n = rows.len() - 1;
        let fewer = rows.drop_last();
        assert forall|i: int| 0 <= i < fewer.len() implies (#[trigger] fewer[i]).tells(
            (),
            names.drop_last()[i],
            table[names.drop_last()[i]],
        ) by {
            assert(rows[i].tells((), names[i], table[names[i]]));
        }
        lemma_over_models(fewer, names.drop_last(), table, a);
        assert(rows[n].tells((), names[n], table[names[n]]));
    }
}

/// Every event goes under some name.
pub open spec fn all_named(visits: Seq<Visit>, key: Key) -> bool {
    forall|i: int, j: int|
        0 <= i < visits.len() && 0 <= j < visits[i].events.len() ==> key(
            #[trigger] visits[i].events[j],
        ) is Some
}

proof fn lemma_all_named(visits: Seq<Visit>, key: Key, a: Amount)
    requires
        all_named(visits, key),
    ensures
        over_visits(visits, of_events(under_any(key, a))) == over_visits(
            visits,
            of_events(all_of(a)),
        ),
{
    assert forall|i: int| 0 <= i < visits.len() implies of_events(under_any(key, a))(
        #[trigger] visits[i],
    ) == of_events(all_of(a))(visits[i]) by {
        let events = visits[i].events;
        assert forall|j: int| 0 <= j < events.len() implies key(#[trigger] events[j]) is Some by {
            assert(key(visits[i].events[j]) is Some);
        }
        lemma_named_events(events, key, a);
    }
    lemma_same_visits(visits, of_events(under_any(key, a)), of_events(all_of(a)));
}

proof fn lemma_named_events(events: Seq<EventV>, key: Key, a: Amount)
    requires
        forall|j: int| 0 <= j < events.len() ==> key(#[trigger] events[j]) is Some,
    ensures
        over_events(events, under_any(key, a)) == over_events(events, all_of(a)),
    decreases events.len(),
{
    if events.len() > 0 {
        let first = events.drop_last();
        assert forall|j: int| 0 <= j < first.len() implies key(#[trigger] first[j]) is Some by {
            assert(key(events[j]) is Some);
        }
        lemma_named_events(first, key, a);
        assert(key(events[events.len() - 1]) is Some);
    }
}

/// The rows on skills, on plugins and on models add up to what all events with a
/// skill, with a plugin and with a model amount to. Where every event has a
/// skill, the rows on skills add up to the summary.
pub proof fn law_rows_add_up(
    r: Report,
    visits: Seq<Visit>,
    tz: TzOffset,
    threshold: int,
    sessions: Seq<SessionStat>,
    request: Request,
    present: Instant,
    a: Amount,
)
    requires
        all_told(visits),
        reported(r, scan_after(visits, tz, threshold), sessions, request, present),
    ensures
        over_stats(r.by_skill@, a) == over_visits(visits, of_events(under_any(skill_of(), a))),
        over_stats(r.by_plugin@, a) == over_visits(visits, of_events(under_any(plugin_of(), a))),
        over_models(r.by_model@, a) == over_visits(visits, of_events(under_any(model_of(), a))),
        all_named(visits, skill_of()) ==> over_stats(r.by_skill@, a) == summary_figure(
            a,
            r.summary,
        ),
        all_named(visits, plugin_of()) ==> over_stats(r.by_plugin@, a) == summary_figure(
            a,
            r.summary,
        ),
        all_named(visits, model_of()) ==> over_models(r.by_model@, a) == summary_figure(
            a,
            r.summary,
        ),
{
    let all = scan_after(visits, tz, threshold).all;
    let skills = lemma_ranking(r.by_skill@, (), all.skills);
    lemma_sum_in_any_order(all.skills, skills);
    lemma_over_stats(r.by_skill@, skills, all.skills, a);
    lemma_scan_in_all(Axis::Skill, skill_of(), visits, tz, threshold, a);
    let plugins = lemma_ranking(r.by_plugin@, (), all.plugins);
    lemma_sum_in_any_order(all.plugins, plugins);
    lemma_over_stats(r.by_plugin@, plugins, all.plugins, a);
    lemma_scan_in_all(Axis::Plugin, plugin_of(), visits, tz, threshold, a);
    let models = lemma_ranking(r.by_model@, (), all.models);
    lemma_sum_in_any_order(all.models, models);
    lemma_over_models(r.by_model@, models, all.models, a);
    lemma_scan_in_all(Axis::Model, model_of(), visits, tz, threshold, a);
    law_summary_sums_up_the_events(
        r.summary,
        visits,
        tz,
        threshold,
        sessions.len(),
        request,
        present,
    );
    assert(summary_figure(a, r.summary) == over_visits(visits, of_events(all_of(a))));
    if all_named(visits, skill_of()) {
        lemma_all_named(visits, skill_of(), a);
    }
    if all_named(visits, plugin_of()) {
        lemma_all_named(visits, plugin_of(), a);
    }
    if all_named(visits, model_of()) {
        lemma_all_named(visits, model_of(), a);
    }
}

} // verus!
