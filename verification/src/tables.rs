//! All tables of the statistics together, of one session or of many.
use vstd::prelude::*;
use vstd::string::*;
use crate::event::{event_views, in_time_order, Event, EventV};
use crate::names::{at_or, NameMap};
use crate::session::{
    active_secs, activity, event_slots, event_usage, events_fit, events_items, events_usage,
    gap_after, gap_count, gap_counts, gap_seconds, gap_slots, gap_spans, gaps_items,
    law_axis_within_session_total, law_cycle_within_session_total, law_spans_run_forward,
    lemma_events_fit, lemma_total_at_sum, lemma_total_of_sum, one_message, one_session,
    session_items, session_slots, session_total, slot_of, slots_in, tally, tally_cycle,
    tally_spans, usage_of, Axis, Cycle,
};
use crate::sums::{
    law_joined_rows_keep_the_sum, law_joined_tables_keep_the_sum, law_row_keeps_the_sum,
    law_table_keeps_the_sum, row_sum, table_sum,
};
use crate::time::{date_of, seconds_between, TzOffset};
use crate::union::{
    by_rank, is_forward, law_union_goes_by_what_is_covered, moments_covered, moments_in,
    union_secs, Span,
};
use crate::usage::{
    has_key, join_rows, join_spans, join_tables, law_table_holds_the_sums, lemma_has_key_push,
    lemma_joined_within, lemma_push_contains, lemma_total_at_bounds, row_within, rows_joined,
    spans_at, spans_joined, spans_of, table_of, table_within, tables_joined, total_at, total_of,
    usage_views, Usage, UsageV,
};

verus! {

/// The tables of the statistics.
pub struct Tables {
    /// What everything amounts to.
    pub total: Usage,
    /// Amounts by date.
    pub days: NameMap<Usage>,
    /// Amounts by model.
    pub models: NameMap<Usage>,
    /// Amounts by skill.
    pub skills: NameMap<Usage>,
    /// Amounts by plugin.
    pub plugins: NameMap<Usage>,
    /// Amounts by git branch.
    pub branches: NameMap<Usage>,
    /// Amounts by stop reason.
    pub stop_reasons: NameMap<Usage>,
    /// Amounts by type of content block.
    pub contents: NameMap<Usage>,
    /// Amounts by tool.
    pub tools: NameMap<Usage>,
    /// Amounts by tool server.
    pub servers: NameMap<Usage>,
    /// Messages and activity by hour of the day.
    pub hours: Vec<Usage>,
    /// Messages and activity by day of the week, from Monday.
    pub weekdays: Vec<Usage>,
    /// Spans of activity by the date on which they start.
    pub spans: NameMap<Vec<Span>>,
}

/// The tables of the statistics over plain values.
pub struct TablesV {
    pub total: UsageV,
    pub days: Map<Seq<char>, UsageV>,
    pub models: Map<Seq<char>, UsageV>,
    pub skills: Map<Seq<char>, UsageV>,
    pub plugins: Map<Seq<char>, UsageV>,
    pub branches: Map<Seq<char>, UsageV>,
    pub stop_reasons: Map<Seq<char>, UsageV>,
    pub contents: Map<Seq<char>, UsageV>,
    pub tools: Map<Seq<char>, UsageV>,
    pub servers: Map<Seq<char>, UsageV>,
    pub hours: Seq<UsageV>,
    pub weekdays: Seq<UsageV>,
    pub spans: Map<Seq<char>, Seq<Span>>,
}

impl View for Tables {
    type V = TablesV;

    open spec fn view(&self) -> TablesV {
        TablesV {
            total: self.total@,
            days: self.days@,
            models: self.models@,
            skills: self.skills@,
            plugins: self.plugins@,
            branches: self.branches@,
            stop_reasons: self.stop_reasons@,
            contents: self.contents@,
            tools: self.tools@,
            servers: self.servers@,
            hours: usage_views(self.hours@),
            weekdays: usage_views(self.weekdays@),
            spans: self.spans@,
        }
    }
}

impl TablesV {
    /// Tables of nothing.
    pub open spec fn empty() -> TablesV {
        TablesV {
            total: UsageV::zero(),
            days: Map::empty(),
            models: Map::empty(),
            skills: Map::empty(),
            plugins: Map::empty(),
            branches: Map::empty(),
            stop_reasons: Map::empty(),
            contents: Map::empty(),
            tools: Map::empty(),
            servers: Map::empty(),
            hours: Seq::new(24, |i: int| UsageV::zero()),
            weekdays: Seq::new(7, |i: int| UsageV::zero()),
            spans: Map::empty(),
        }
    }

    /// Two sets of tables in one.
    pub open spec fn joined(self, o: TablesV) -> TablesV {
        TablesV {
            total: self.total.plus(o.total),
            days: tables_joined(self.days, o.days),
            models: tables_joined(self.models, o.models),
            skills: tables_joined(self.skills, o.skills),
            plugins: tables_joined(self.plugins, o.plugins),
            branches: tables_joined(self.branches, o.branches),
            stop_reasons: tables_joined(self.stop_reasons, o.stop_reasons),
            contents: tables_joined(self.contents, o.contents),
            tools: tables_joined(self.tools, o.tools),
            servers: tables_joined(self.servers, o.servers),
            hours: rows_joined(self.hours, o.hours),
            weekdays: rows_joined(self.weekdays, o.weekdays),
            spans: spans_joined(self.spans, o.spans),
        }
    }

    /// No table holds more anywhere than everything amounts to.
    pub open spec fn within_total(self) -> bool {
        &&& self.total.fits()
        &&& table_within(self.days, self.total)
        &&& table_within(self.models, self.total)
        &&& table_within(self.skills, self.total)
        &&& table_within(self.plugins, self.total)
        &&& table_within(self.branches, self.total)
        &&& table_within(self.stop_reasons, self.total)
        &&& table_within(self.contents, self.total)
        &&& table_within(self.tools, self.total)
        &&& table_within(self.servers, self.total)
        &&& self.hours.len() == 24 && row_within(self.hours, self.total)
        &&& self.weekdays.len() == 7 && row_within(self.weekdays, self.total)
    }
}

/// The amounts of activity and messages, and nothing else.
pub open spec fn pulse(u: UsageV) -> UsageV {
    UsageV { active_sec: u.active_sec, messages: u.messages, ..UsageV::zero() }
}

impl TablesV {
    /// Everything is on some day, but for the time from first to last event,
    /// which is on none; all activity and all messages are at some hour and at
    /// some day of the week; and a day without a span has no activity.
    pub open spec fn balanced(self) -> bool {
        &&& self.days.dom().finite()
        &&& table_sum(self.days) == (UsageV { total_sec: 0, ..self.total })
        &&& self.hours.len() == 24 && row_sum(self.hours) == pulse(self.total)
        &&& self.weekdays.len() == 7 && row_sum(self.weekdays) == pulse(self.total)
        &&& forall|d: Seq<char>| !#[trigger] self.spans.contains_key(d) ==> at_or(
            self.days,
            d,
            UsageV::zero(),
        ).active_sec == 0
    }
}

/// Tables of nothing are balanced.
pub proof fn law_empty_tables_are_balanced()
    ensures
        TablesV::empty().balanced(),
{
    let t = TablesV::empty();
    law_row_keeps_the_sum(Seq::<(int, UsageV)>::empty(), 24);
    law_row_keeps_the_sum(Seq::<(int, UsageV)>::empty(), 7);
    assert(t.hours =~= Seq::new(24, |s: int| total_at(Seq::<(int, UsageV)>::empty(), s)));
    assert(t.weekdays =~= Seq::new(7, |s: int| total_at(Seq::<(int, UsageV)>::empty(), s)));
}

/// Balanced tables stay balanced when they are joined.
pub proof fn law_joined_tables_are_balanced(a: TablesV, b: TablesV)
    requires
        a.balanced(),
        b.balanced(),
    ensures
        a.joined(b).balanced(),
{
    law_joined_tables_keep_the_sum(a.days, b.days);
    law_joined_rows_keep_the_sum(a.hours, b.hours);
    law_joined_rows_keep_the_sum(a.weekdays, b.weekdays);
    let j = a.joined(b);
    assert forall|d: Seq<char>| !#[trigger] j.spans.contains_key(d) implies at_or(
        j.days,
        d,
        UsageV::zero(),
    ).active_sec == 0 by {
        assert(!a.spans.contains_key(d) && !b.spans.contains_key(d));
    }
}

proof fn lemma_gaps_total_by_day(
    events: Seq<EventV>,
    tz: TzOffset,
    threshold: int,
    n: int,
    d: Seq<char>,
)
    ensures
        total_of(gaps_items(Axis::Day, events, tz, threshold, n)) == activity(
            active_secs(events, threshold, n),
        ),
        !has_key(gap_spans(events, tz, threshold, n), d) ==> total_at(
            gaps_items(Axis::Day, events, tz, threshold, n),
            d,
        ) == UsageV::zero(),
    decreases n,
{
    if n > 0 {
        lemma_gaps_total_by_day(events, tz, threshold, n - 1, d);
        if gap_counts(events, n - 1, threshold) {
            let items = gaps_items(Axis::Day, events, tz, threshold, n - 1);
            let spans = gap_spans(events, tz, threshold, n - 1);
            let x = (date_of(events[n - 1].at, tz), activity(gap_after(events, n - 1)));
            let y = (x.0, Span { start: events[n - 1].at, end: events[n].at });
            assert(items + seq![x] =~= items.push(x));
            assert(items.push(x).drop_last() =~= items);
            lemma_has_key_push(spans, y, d);
        }
    }
}

proof fn lemma_events_total_by_day(events: Seq<EventV>, tz: TzOffset, d: Seq<char>)
    ensures
        total_of(events_items(Axis::Day, events, tz)) == events_usage(events),
        total_at(events_items(Axis::Day, events, tz), d).active_sec == 0,
    decreases events.len(),
{
    if events.len() > 0 {
        lemma_events_total_by_day(events.drop_last(), tz, d);
        let items = events_items(Axis::Day, events.drop_last(), tz);
        let x = (date_of(events.last().at, tz), event_usage(events.last()));
        assert(items + seq![x] =~= items.push(x));
        assert(items.push(x).drop_last() =~= items);
    }
}

proof fn lemma_slots_total(
    cycle: Cycle,
    events: Seq<EventV>,
    tz: TzOffset,
    threshold: int,
    n: int,
)
    ensures
        total_of(gap_slots(cycle, events, tz, threshold, n)) == activity(
            active_secs(events, threshold, n),
        ),
        forall|i: int|
            0 <= i < gap_slots(cycle, events, tz, threshold, n).len() ==> 0 <= (
            #[trigger] gap_slots(cycle, events, tz, threshold, n)[i]).0 < slots_in(cycle),
    decreases n,
{
    if n > 0 {
        lemma_slots_total(cycle, events, tz, threshold, n - 1);
        if gap_counts(events, n - 1, threshold) {
            let items = gap_slots(cycle, events, tz, threshold, n - 1);
            let x = (slot_of(cycle, events[n - 1].at, tz), activity(gap_after(events, n - 1)));
            assert(items.push(x).drop_last() =~= items);
            assert forall|i: int| 0 <= i < items.push(x).len() implies 0 <= (#[trigger] items.push(
                x,
            )[i]).0 < slots_in(cycle) by {
                if i < items.len() {
                    assert(0 <= items[i].0 < slots_in(cycle));
                }
            }
        }
    }
}

proof fn lemma_message_slots_total(cycle: Cycle, events: Seq<EventV>, tz: TzOffset)
    ensures
        total_of(event_slots(cycle, events, tz)) == (UsageV {
            messages: events.len() as int,
            ..UsageV::zero()
        }),
        events_usage(events).messages == events.len(),
        events_usage(events).active_sec == 0,
        events_usage(events).total_sec == 0,
        events_usage(events).sessions == 0,
    decreases events.len(),
{
    let items = event_slots(cycle, events, tz);
    if events.len() > 0 {
        lemma_message_slots_total(cycle, events.drop_last(), tz);
        assert(items.drop_last() =~= event_slots(cycle, events.drop_last(), tz));
        assert(items.last().1 == one_message());
    }
}

proof fn lemma_session_row_total(
    cycle: Cycle,
    events: Seq<EventV>,
    tz: TzOffset,
    threshold: int,
)
    ensures
        row_sum(session_row(cycle, events, tz, threshold)) == pulse(
            session_total(events, threshold),
        ),
{
    let n = gap_count(events);
    let gaps = gap_slots(cycle, events, tz, threshold, n);
    let messages = event_slots(cycle, events, tz);
    let items = session_slots(cycle, events, tz, threshold);
    lemma_slots_total(cycle, events, tz, threshold, n);
    lemma_message_slots_total(cycle, events, tz);
    lemma_total_of_sum(gaps, messages);
    assert forall|i: int| 0 <= i < items.len() implies 0 <= (#[trigger] items[i]).0 < slots_in(
        cycle,
    ) by {
        if i < gaps.len() {
            assert(0 <= gaps[i].0 < slots_in(cycle));
        } else {
            assert(items[i] == messages[i - gaps.len()]);
        }
    }
    law_row_keeps_the_sum(items, slots_in(cycle));
}

/// The tables of a session are balanced.
pub proof fn law_session_tables_are_balanced(events: Seq<EventV>, tz: TzOffset, threshold: int)
    requires
        events.len() > 0,
    ensures
        session_tables(events, tz, threshold).balanced(),
{
    let t = session_tables(events, tz, threshold);
    let n = gap_count(events);
    let gaps = gaps_items(Axis::Day, events, tz, threshold, n);
    let told = events_items(Axis::Day, events, tz);
    let s = (date_of(events[0].at, tz), one_session());
    let items = session_items(Axis::Day, events, tz, threshold);
    lemma_gaps_total_by_day(events, tz, threshold, n, s.0);
    lemma_events_total_by_day(events, tz, s.0);
    lemma_total_of_sum(gaps, told);
    lemma_message_slots_total(Cycle::Hour, events, tz);
    assert(items.drop_last() =~= gaps + told);
    assert(items.last() == s);
    law_table_keeps_the_sum(items);
    lemma_session_row_total(Cycle::Hour, events, tz, threshold);
    lemma_session_row_total(Cycle::Weekday, events, tz, threshold);
    assert forall|d: Seq<char>| !#[trigger] t.spans.contains_key(d) implies at_or(
        t.days,
        d,
        UsageV::zero(),
    ).active_sec == 0 by {
        assert(!has_key(gap_spans(events, tz, threshold, n), d));
        lemma_gaps_total_by_day(events, tz, threshold, n, d);
        lemma_events_total_by_day(events, tz, d);
        lemma_total_at_sum(gaps, told, d);
        law_table_holds_the_sums(items, d);
    }
}

/// No span of any day runs backwards.
pub open spec fn spans_forward(m: Map<Seq<char>, Seq<Span>>) -> bool {
    forall|d: Seq<char>, i: int|
        m.contains_key(d) && 0 <= i < m[d].len() ==> is_forward(#[trigger] m[d][i])
}

/// The seconds of a day that spans cover together.
pub open spec fn covered_on(m: Map<Seq<char>, Seq<Span>>, d: Seq<char>) -> int {
    union_secs(at_or(m, d, seq![]))
}

proof fn lemma_grouped_spans_forward(items: Seq<(Seq<char>, Span)>, d: Seq<char>)
    requires
        forall|i: int| 0 <= i < items.len() ==> is_forward((#[trigger] items[i]).1),
    ensures
        forall|i: int|
            0 <= i < spans_at(items, d).len() ==> is_forward(#[trigger] spans_at(items, d)[i]),
    decreases items.len(),
{
    if items.len() > 0 {
        let first = items.drop_last();
        assert forall|i: int| 0 <= i < first.len() implies is_forward((#[trigger] first[i]).1) by {
            assert(is_forward(items[i].1));
        }
        lemma_grouped_spans_forward(first, d);
        assert(is_forward(items[items.len() - 1].1));
        assert forall|i: int| 0 <= i < spans_at(items, d).len() implies is_forward(
            #[trigger] spans_at(items, d)[i],
        ) by {
            if i < spans_at(first, d).len() {
                assert(spans_at(items, d)[i] == spans_at(first, d)[i]);
            }
        }
    }
}

/// No span of a session whose events follow each other in time runs backwards.
pub proof fn law_session_spans_run_forward(events: Seq<EventV>, tz: TzOffset, threshold: int)
    requires
        in_time_order(events),
        events.len() > 0,
    ensures
        spans_forward(session_tables(events, tz, threshold).spans),
{
    let items = gap_spans(events, tz, threshold, gap_count(events));
    let m = session_tables(events, tz, threshold).spans;
    assert forall|i: int| 0 <= i < items.len() implies is_forward((#[trigger] items[i]).1) by {
        law_spans_run_forward(events, tz, threshold, gap_count(events), i);
    }
    assert forall|d: Seq<char>, i: int| m.contains_key(d) && 0 <= i < m[d].len() implies is_forward(
        #[trigger] m[d][i],
    ) by {
        lemma_grouped_spans_forward(items, d);
        assert(m[d] == spans_at(items, d));
    }
}

/// Joined spans run forward where both do.
pub proof fn law_joined_spans_run_forward(
    a: Map<Seq<char>, Seq<Span>>,
    b: Map<Seq<char>, Seq<Span>>,
)
    requires
        spans_forward(a),
        spans_forward(b),
    ensures
        spans_forward(spans_joined(a, b)),
{
    let m = spans_joined(a, b);
    assert forall|d: Seq<char>, i: int| m.contains_key(d) && 0 <= i < m[d].len() implies is_forward(
        #[trigger] m[d][i],
    ) by {
        let x = at_or(a, d, seq![]);
        if i < x.len() {
            assert(m[d][i] == a[d][i]);
        } else {
            assert(m[d][i] == b[d][i - x.len()]);
        }
    }
}

proof fn lemma_spans_in_either_order(x: Seq<Span>, y: Seq<Span>, z: Seq<Span>)
    requires
        forall|i: int| 0 <= i < x.len() ==> is_forward(#[trigger] x[i]),
        forall|i: int| 0 <= i < y.len() ==> is_forward(#[trigger] y[i]),
        forall|i: int| 0 <= i < z.len() ==> is_forward(#[trigger] z[i]),
    ensures
        union_secs(x + y + z) == union_secs(x + z + y),
{
    let a = x + y + z;
    let b = x + z + y;
    let to_b = |i: int|
        if i < x.len() {
            i
        } else if i < x.len() + y.len() {
            i + z.len()
        } else {
            i - y.len()
        };
    let to_a = |i: int|
        if i < x.len() {
            i
        } else if i < x.len() + z.len() {
            i + y.len()
        } else {
            i - z.len()
        };
    assert forall|t: int| moments_covered(by_rank(), a).contains(t) == moments_covered(
        by_rank(),
        b,
    ).contains(t) by {
        if moments_covered(by_rank(), a).contains(t) {
            let i = choose|i: int|
                0 <= i < a.len() && #[trigger] moments_in(by_rank(), a[i]).contains(t);
            assert(a[i] == b[to_b(i)]);
            assert(moments_in(by_rank(), b[to_b(i)]).contains(t));
        }
        if moments_covered(by_rank(), b).contains(t) {
            let i = choose|i: int|
                0 <= i < b.len() && #[trigger] moments_in(by_rank(), b[i]).contains(t);
            assert(b[i] == a[to_a(i)]);
            assert(moments_in(by_rank(), a[to_a(i)]).contains(t));
        }
    }
    assert(moments_covered(by_rank(), a) =~= moments_covered(by_rank(), b));
    assert forall|i: int| 0 <= i < a.len() implies is_forward(#[trigger] a[i]) by {
        if i < x.len() {
            assert(a[i] == x[i]);
        } else if i < x.len() + y.len() {
            assert(a[i] == y[i - x.len()]);
        } else {
            assert(a[i] == z[i - x.len() - y.len()]);
        }
    }
    assert forall|i: int| 0 <= i < b.len() implies is_forward(#[trigger] b[i]) by {
        assert(b[i] == a[to_a(i)]);
    }
    law_union_goes_by_what_is_covered(a, b);
}

proof fn lemma_day_in_either_order(
    t: Map<Seq<char>, Seq<Span>>,
    a: Map<Seq<char>, Seq<Span>>,
    b: Map<Seq<char>, Seq<Span>>,
    d: Seq<char>,
)
    requires
        spans_forward(t),
        spans_forward(a),
        spans_forward(b),
    ensures
        covered_on(spans_joined(spans_joined(t, a), b), d) == covered_on(
            spans_joined(spans_joined(t, b), a),
            d,
        ),
{
    let p = at_or(t, d, seq![]);
    let q = at_or(a, d, seq![]);
    let r = at_or(b, d, seq![]);
    assert forall|i: int| 0 <= i < p.len() implies is_forward(#[trigger] p[i]) by {
        assert(is_forward(t[d][i]));
    }
    assert forall|i: int| 0 <= i < q.len() implies is_forward(#[trigger] q[i]) by {
        assert(is_forward(a[d][i]));
    }
    assert forall|i: int| 0 <= i < r.len() implies is_forward(#[trigger] r[i]) by {
        assert(is_forward(b[d][i]));
    }
    assert(at_or(spans_joined(spans_joined(t, a), b), d, seq![]) =~= p + q + r);
    assert(at_or(spans_joined(spans_joined(t, b), a), d, seq![]) =~= p + r + q);
    lemma_spans_in_either_order(p, q, r);
}

proof fn lemma_tables_in_either_order(
    t: Map<Seq<char>, UsageV>,
    a: Map<Seq<char>, UsageV>,
    b: Map<Seq<char>, UsageV>,
)
    ensures
        tables_joined(tables_joined(t, a), b) == tables_joined(tables_joined(t, b), a),
{
    let x = tables_joined(tables_joined(t, a), b);
    let y = tables_joined(tables_joined(t, b), a);
    let zero = UsageV::zero();
    assert forall|k: Seq<char>| #[trigger] x.contains_key(k) implies x[k] == y[k] by {
        let p = at_or(t, k, zero);
        let q = at_or(a, k, zero);
        let r = at_or(b, k, zero);
        assert(zero.plus(zero) == zero);
        assert(at_or(tables_joined(t, a), k, zero) == p.plus(q));
        assert(at_or(tables_joined(t, b), k, zero) == p.plus(r));
        assert(p.plus(q).plus(r) == p.plus(r).plus(q));
    }
    assert(x =~= y);
}

proof fn lemma_rows_in_either_order(t: Seq<UsageV>, a: Seq<UsageV>, b: Seq<UsageV>)
    requires
        t.len() == a.len() == b.len(),
    ensures
        rows_joined(rows_joined(t, a), b) == rows_joined(rows_joined(t, b), a),
{
    assert(rows_joined(rows_joined(t, a), b) =~= rows_joined(rows_joined(t, b), a));
}

/// The order in which tables are joined does not matter for any amount, nor for
/// the seconds that the spans of a day cover together.
pub proof fn law_tables_join_in_any_order(t: TablesV, a: TablesV, b: TablesV)
    requires
        t.hours.len() == a.hours.len() == b.hours.len(),
        t.weekdays.len() == a.weekdays.len() == b.weekdays.len(),
        spans_forward(t.spans),
        spans_forward(a.spans),
        spans_forward(b.spans),
    ensures
        t.joined(a).joined(b) == (TablesV {
            spans: t.joined(a).joined(b).spans,
            ..t.joined(b).joined(a)
        }),
        t.joined(a).joined(b).spans.dom() == t.joined(b).joined(a).spans.dom(),
        forall|d: Seq<char>|
            #![trigger covered_on(t.joined(a).joined(b).spans, d)]
            covered_on(t.joined(a).joined(b).spans, d) == covered_on(
                t.joined(b).joined(a).spans,
                d,
            ),
{
    let x = t.joined(a).joined(b);
    let y = t.joined(b).joined(a);
    lemma_tables_in_either_order(t.days, a.days, b.days);
    lemma_tables_in_either_order(t.models, a.models, b.models);
    lemma_tables_in_either_order(t.skills, a.skills, b.skills);
    lemma_tables_in_either_order(t.plugins, a.plugins, b.plugins);
    lemma_tables_in_either_order(t.branches, a.branches, b.branches);
    lemma_tables_in_either_order(t.stop_reasons, a.stop_reasons, b.stop_reasons);
    lemma_tables_in_either_order(t.contents, a.contents, b.contents);
    lemma_tables_in_either_order(t.tools, a.tools, b.tools);
    lemma_tables_in_either_order(t.servers, a.servers, b.servers);
    lemma_rows_in_either_order(t.hours, a.hours, b.hours);
    lemma_rows_in_either_order(t.weekdays, a.weekdays, b.weekdays);
    assert(x.spans.dom() =~= y.spans.dom());
    assert forall|d: Seq<char>| #![trigger covered_on(x.spans, d)]
        covered_on(x.spans, d) == covered_on(y.spans, d) by {
        lemma_day_in_either_order(t.spans, a.spans, b.spans, d);
    }
}

/// The same amounts, each as that of one session.
pub open spec fn one_session_each(m: Map<Seq<char>, UsageV>) -> Map<Seq<char>, UsageV> {
    m.map_values(|u: UsageV| UsageV { sessions: 1, ..u })
}

/// What a session adds along an axis, grouped.
pub open spec fn session_table(
    axis: Axis,
    events: Seq<EventV>,
    tz: TzOffset,
    threshold: int,
) -> Map<Seq<char>, UsageV> {
    table_of(session_items(axis, events, tz, threshold))
}

/// What a session adds along a cycle, grouped.
pub open spec fn session_row(
    cycle: Cycle,
    events: Seq<EventV>,
    tz: TzOffset,
    threshold: int,
) -> Seq<UsageV> {
    Seq::new(
        slots_in(cycle),
        |s: int| total_at(session_slots(cycle, events, tz, threshold), s),
    )
}

/// The tables of one session. It counts as a session once for each branch
/// that it touches.
pub open spec fn session_tables(events: Seq<EventV>, tz: TzOffset, threshold: int) -> TablesV {
    TablesV {
        total: session_total(events, threshold),
        days: session_table(Axis::Day, events, tz, threshold),
        models: session_table(Axis::Model, events, tz, threshold),
        skills: session_table(Axis::Skill, events, tz, threshold),
        plugins: session_table(Axis::Plugin, events, tz, threshold),
        branches: one_session_each(session_table(Axis::Branch, events, tz, threshold)),
        stop_reasons: session_table(Axis::StopReason, events, tz, threshold),
        contents: session_table(Axis::Content, events, tz, threshold),
        tools: session_table(Axis::Tool, events, tz, threshold),
        servers: session_table(Axis::Server, events, tz, threshold),
        hours: session_row(Cycle::Hour, events, tz, threshold),
        weekdays: session_row(Cycle::Weekday, events, tz, threshold),
        spans: spans_of(gap_spans(events, tz, threshold, gap_count(events))),
    }
}

impl Tables {
    /// Every table is well-formed and holds no more than everything amounts
    /// to.
    pub open spec fn wf(self) -> bool {
        &&& self.days.wf()
        &&& self.models.wf()
        &&& self.skills.wf()
        &&& self.plugins.wf()
        &&& self.branches.wf()
        &&& self.stop_reasons.wf()
        &&& self.contents.wf()
        &&& self.tools.wf()
        &&& self.servers.wf()
        &&& self.spans.wf()
        &&& self@.within_total()
    }

    /// Tables of nothing.
    pub fn new() -> (r: Tables)
        ensures
            r.wf(),
            r@ == TablesV::empty(),
    {
        let hours = zero_row(24);
        let weekdays = zero_row(7);
        let r = Tables {
            total: Usage::zero(),
            days: NameMap::new(),
            models: NameMap::new(),
            skills: NameMap::new(),
            plugins: NameMap::new(),
            branches: NameMap::new(),
            stop_reasons: NameMap::new(),
            contents: NameMap::new(),
            tools: NameMap::new(),
            servers: NameMap::new(),
            hours,
            weekdays,
            spans: NameMap::new(),
        };
        assert(r@.hours =~= TablesV::empty().hours);
        assert(r@.weekdays =~= TablesV::empty().weekdays);
        r
    }

    /// Joins the other tables into these.
    pub fn join(&mut self, o: &Tables)
        requires
            old(self).wf(),
            o.wf(),
            old(self)@.total.plus(o@.total).fits(),
        ensures
            final(self).wf(),
            final(self)@ == old(self)@.joined(o@),
    {
        let ghost a = self@;
        let ghost b = o@;
        proof {
            lemma_join_fits(a.days, b.days, a.total, b.total);
            lemma_joined_within(a.days, b.days, a.total, b.total);
            lemma_join_fits(a.models, b.models, a.total, b.total);
            lemma_joined_within(a.models, b.models, a.total, b.total);
            lemma_join_fits(a.skills, b.skills, a.total, b.total);
            lemma_joined_within(a.skills, b.skills, a.total, b.total);
            lemma_join_fits(a.plugins, b.plugins, a.total, b.total);
            lemma_joined_within(a.plugins, b.plugins, a.total, b.total);
            lemma_join_fits(a.branches, b.branches, a.total, b.total);
            lemma_joined_within(a.branches, b.branches, a.total, b.total);
            lemma_join_fits(a.stop_reasons, b.stop_reasons, a.total, b.total);
            lemma_joined_within(a.stop_reasons, b.stop_reasons, a.total, b.total);
            lemma_join_fits(a.contents, b.contents, a.total, b.total);
            lemma_joined_within(a.contents, b.contents, a.total, b.total);
            lemma_join_fits(a.tools, b.tools, a.total, b.total);
            lemma_joined_within(a.tools, b.tools, a.total, b.total);
            lemma_join_fits(a.servers, b.servers, a.total, b.total);
            lemma_joined_within(a.servers, b.servers, a.total, b.total);
            lemma_rows_fit(self.hours@, o.hours@, a.total, b.total);
            lemma_rows_fit(self.weekdays@, o.weekdays@, a.total, b.total);
        }
        self.total.add(&o.total);
        join_tables(&mut self.days, &o.days);
        join_tables(&mut self.models, &o.models);
        join_tables(&mut self.skills, &o.skills);
        join_tables(&mut self.plugins, &o.plugins);
        join_tables(&mut self.branches, &o.branches);
        join_tables(&mut self.stop_reasons, &o.stop_reasons);
        join_tables(&mut self.contents, &o.contents);
        join_tables(&mut self.tools, &o.tools);
        join_tables(&mut self.servers, &o.servers);
        join_rows(&mut self.hours, &o.hours);
        join_rows(&mut self.weekdays, &o.weekdays);
        join_spans(&mut self.spans, &o.spans);
    }

    /// The tables of one session.
    pub fn of_session(events: &Vec<Event>, tz: &TzOffset, threshold: u64) -> (r: Tables)
        requires
            events@.len() > 0,
            session_total(event_views(events@), threshold as int).fits(),
        ensures
            r.wf(),
            r@ == session_tables(event_views(events@), *tz, threshold as int),
    {
        let ghost all = event_views(events@);
        let total = try_total(events, threshold).unwrap();
        let days = tally(Axis::Day, events, tz, threshold);
        let models = tally(Axis::Model, events, tz, threshold);
        let skills = tally(Axis::Skill, events, tz, threshold);
        let plugins = tally(Axis::Plugin, events, tz, threshold);
        let touched = tally(Axis::Branch, events, tz, threshold);
        let branches = mark_sessions(&touched);
        let stop_reasons = tally(Axis::StopReason, events, tz, threshold);
        let contents = tally(Axis::Content, events, tz, threshold);
        let tools = tally(Axis::Tool, events, tz, threshold);
        let servers = tally(Axis::Server, events, tz, threshold);
        let hours = tally_cycle(Cycle::Hour, events, tz, threshold);
        let weekdays = tally_cycle(Cycle::Weekday, events, tz, threshold);
        let spans = tally_spans(events, tz, threshold);
        proof {
            lemma_events_fit(events@);
            lemma_axis_table_within(Axis::Day, all, *tz, threshold as int);
            lemma_axis_table_within(Axis::Model, all, *tz, threshold as int);
            lemma_axis_table_within(Axis::Skill, all, *tz, threshold as int);
            lemma_axis_table_within(Axis::Plugin, all, *tz, threshold as int);
            lemma_axis_table_within(Axis::Branch, all, *tz, threshold as int);
            lemma_axis_table_within(Axis::StopReason, all, *tz, threshold as int);
            lemma_axis_table_within(Axis::Content, all, *tz, threshold as int);
            lemma_axis_table_within(Axis::Tool, all, *tz, threshold as int);
            lemma_axis_table_within(Axis::Server, all, *tz, threshold as int);
            lemma_cycle_row_within(Cycle::Hour, all, *tz, threshold as int);
            lemma_cycle_row_within(Cycle::Weekday, all, *tz, threshold as int);
        }
        Tables {
            total,
            days,
            models,
            skills,
            plugins,
            branches,
            stop_reasons,
            contents,
            tools,
            servers,
            hours,
            weekdays,
            spans,
        }
    }
}

fn zero_row(n: usize) -> (r: Vec<Usage>)
    ensures
        usage_views(r@) == Seq::new(n as nat, |i: int| UsageV::zero()),
{
    let mut row: Vec<Usage> = Vec::new();
    let mut i: usize = 0;
    while i < n
        invariant
            i <= n,
            row@.len() == i,
            forall|j: int| 0 <= j < i ==> #[trigger] row@[j]@ == UsageV::zero(),
        decreases n - i,
    {
        row.push(Usage::zero());
        i += 1;
    }
    assert(usage_views(row@) =~= Seq::new(n as nat, |i: int| UsageV::zero()));
    row
}

proof fn lemma_join_fits(
    a: Map<Seq<char>, UsageV>,
    b: Map<Seq<char>, UsageV>,
    most_a: UsageV,
    most_b: UsageV,
)
    requires
        table_within(a, most_a),
        table_within(b, most_b),
        most_a.fits(),
        most_a.plus(most_b).fits(),
    ensures
        forall|k: Seq<char>| #[trigger]
            b.contains_key(k) ==> at_or(a, k, UsageV::zero()).plus(b[k]).fits(),
{
    assert forall|k: Seq<char>| #[trigger] b.contains_key(k) implies at_or(
        a,
        k,
        UsageV::zero(),
    ).plus(b[k]).fits() by {
        if a.contains_key(k) {
            assert(a[k].fits());
        }
    }
}

proof fn lemma_rows_fit(a: Seq<Usage>, b: Seq<Usage>, most_a: UsageV, most_b: UsageV)
    requires
        a.len() == b.len(),
        row_within(usage_views(a), most_a),
        row_within(usage_views(b), most_b),
        most_a.plus(most_b).fits(),
    ensures
        forall|i: int| 0 <= i < b.len() ==> (#[trigger] a[i])@.plus(b[i]@).fits(),
        row_within(rows_joined(usage_views(a), usage_views(b)), most_a.plus(most_b)),
{
    let x = usage_views(a);
    let y = usage_views(b);
    assert forall|i: int| 0 <= i < b.len() implies (#[trigger] a[i])@.plus(b[i]@).fits() by {
        assert(x[i].fits() && y[i].fits());
    }
    let j = rows_joined(x, y);
    assert forall|i: int| 0 <= i < j.len() implies (#[trigger] j[i]).fits() && j[i].le(
        most_a.plus(most_b),
    ) by {
        assert(x[i].fits() && y[i].fits());
        assert(a[i]@.plus(b[i]@).fits());
    }
}

proof fn lemma_axis_table_within(axis: Axis, events: Seq<EventV>, tz: TzOffset, threshold: int)
    requires
        events_fit(events),
        events.len() > 0,
        0 <= threshold <= u64::MAX,
        session_total(events, threshold).fits(),
    ensures
        table_within(session_table(axis, events, tz, threshold), session_total(events, threshold)),
        axis is Branch ==> table_within(
            one_session_each(session_table(axis, events, tz, threshold)),
            session_total(events, threshold),
        ),
{
    let items = session_items(axis, events, tz, threshold);
    let t = session_table(axis, events, tz, threshold);
    let most = session_total(events, threshold);
    assert forall|k: Seq<char>| #[trigger] t.contains_key(k) implies t[k].fits() && t[k].le(
        most,
    ) by {
        law_axis_within_session_total(axis, events, tz, threshold, k);
        lemma_total_at_bounds(items, k, 0);
    }
    if axis is Branch {
        lemma_one_session(events);
        let o = one_session_each(t);
        assert forall|k: Seq<char>| #[trigger] o.contains_key(k) implies o[k].fits() && o[k].le(
            most,
        ) by {
            assert(t.contains_key(k));
        }
    }
}

/// A session counts as one session.
pub(crate) proof fn lemma_session_is_one(events: Seq<EventV>, threshold: int)
    ensures
        session_total(events, threshold).sessions == 1,
{
    lemma_one_session(events);
}

proof fn lemma_one_session(events: Seq<EventV>)
    ensures
        events_usage(events).sessions == 0,
    decreases events.len(),
{
    if events.len() > 0 {
        lemma_one_session(events.drop_last());
    }
}

proof fn lemma_cycle_row_within(cycle: Cycle, events: Seq<EventV>, tz: TzOffset, threshold: int)
    requires
        events_fit(events),
        events.len() > 0,
        0 <= threshold <= u64::MAX,
        session_total(events, threshold).fits(),
    ensures
        row_within(session_row(cycle, events, tz, threshold), session_total(events, threshold)),
{
    let items = session_slots(cycle, events, tz, threshold);
    let row = session_row(cycle, events, tz, threshold);
    law_cycle_within_session_total(cycle, events, tz, threshold);
    assert forall|i: int| 0 <= i < row.len() implies (#[trigger] row[i]).fits() && row[i].le(
        session_total(events, threshold),
    ) by {
        lemma_total_at_bounds(items, i, 0);
    }
}

/// The same table with each amount as that of one session.
fn mark_sessions(t: &NameMap<Usage>) -> (r: NameMap<Usage>)
    requires
        t.wf(),
    ensures
        r.wf(),
        r@ == one_session_each(t@),
{
    let mut out: NameMap<Usage> = NameMap::new();
    let ghost names = t.names();
    let n: usize = t.len();
    for i in 0..n
        invariant
            n == names.len(),
            names == t.names(),
            t.wf(),
            out.wf(),
            forall|k: Seq<char>| #[trigger]
                out@.contains_key(k) <==> names.take(i as int).contains(k),
            forall|k: Seq<char>| #[trigger]
                out@.contains_key(k) ==> t@.contains_key(k) && out@[k] == (UsageV {
                    sessions: 1,
                    ..t@[k]
                }),
    {
        let ghost name = names[i as int];
        proof {
            assert(names.take(i + 1) =~= names.take(i as int).push(name));
            assert forall|k: Seq<char>| names.take(i + 1).contains(k) <==> names.take(
                i as int,
            ).contains(k) || k == name by {
                lemma_push_contains(names.take(i as int), name, k);
            }
        }
        let u = *t.value_at(i);
        let marked = Usage { sessions: 1, ..u };
        let cell = out.entry(t.name_at(i), Usage::zero());
        *cell = marked;
    }
    proof {
        assert(names.take(names.len() as int) =~= names);
        assert(out@ =~= one_session_each(t@));
    }
    out
}

/// What a session amounts to, where it can be held.
pub fn try_total(events: &Vec<Event>, threshold: u64) -> (r: Option<Usage>)
    requires
        events@.len() > 0,
    ensures
        match r {
            Some(u) => u@ == session_total(event_views(events@), threshold as int) && u@.fits(),
            None => !session_total(event_views(events@), threshold as int).fits(),
        },
{
    let ghost all = event_views(events@);
    let ghost full = session_total(all, threshold as int);
    let mut u = Usage::zero();
    proof {
        lemma_events_fit(events@);
        lemma_active_grows(all, threshold as int, 0, gap_count(all));
        assert(all.take(0) =~= Seq::<EventV>::empty());
    }
    for i in 0..events.len()
        invariant
            all == event_views(events@),
            events_fit(all),
            full == session_total(all, threshold as int),
            0 <= active_secs(all, threshold as int, gap_count(all)),
            u@ == events_usage(all.take(i as int)),
            u@.fits(),
    {
        proof {
            assert(all.take(i + 1).drop_last() =~= all.take(i as int));
            assert(all.take(i + 1).last() == events@[i as int]@);
            lemma_usage_grows(all, i + 1);
        }
        let x = usage_of(&events[i]);
        match u.try_add(&x) {
            Some(sum) => {
                u = sum;
            },
            None => {
                return None;
            },
        }
    }
    proof {
        assert(all.take(all.len() as int) =~= all);
    }
    let n: usize = events.len() - 1;
    let mut active: u64 = 0;
    for i in 0..n
        invariant
            all == event_views(events@),
            n == gap_count(all),
            full == session_total(all, threshold as int),
            events_usage(all).active_sec >= 0,
            active == active_secs(all, threshold as int, i as int),
    {
        proof {
            lemma_active_grows(all, threshold as int, i + 1, gap_count(all));
        }
        let gap: u64 = gap_seconds(events, i);
        if gap <= threshold {
            match active.checked_add(gap) {
                Some(sum) => {
                    active = sum;
                },
                None => {
                    return None;
                },
            }
        }
    }
    let span = seconds_between(&events[0].at, &events[n].at);
    let length: u64 = if span < 0 {
        0
    } else {
        span as u64
    };
    assert(all.last() == events@[n as int]@);
    let rest = Usage { active_sec: active, total_sec: length, sessions: 1, ..Usage::zero() };
    u.try_add(&rest)
}

/// A session that can be added to other amounts amounts to something that can
/// be held by itself.
pub(crate) proof fn lemma_session_fits(events: Seq<Event>, threshold: int, others: UsageV)
    requires
        events.len() > 0,
        others.fits(),
    ensures
        others.plus(session_total(event_views(events), threshold)).fits() ==> session_total(
            event_views(events),
            threshold,
        ).fits(),
{
    let all = event_views(events);
    lemma_events_fit(events);
    lemma_usage_grows(all, all.len() as int);
    assert(all.take(all.len() as int) =~= all);
    lemma_active_grows(all, threshold, 0, gap_count(all));
}

proof fn lemma_usage_grows(events: Seq<EventV>, n: int)
    requires
        events_fit(events),
        0 <= n <= events.len(),
    ensures
        UsageV::zero().le(events_usage(events.take(n))),
        events_usage(events.take(n)).cost <= crate::tokens::cost_bound(
            events_usage(events.take(n)).tokens,
        ),
        events_usage(events.take(n)).le(events_usage(events)),
    decreases events.len(),
{
    if events.len() == 0 {
        assert(events.take(n) =~= events);
    } else {
        let first = events.drop_last();
        assert(events_fit(first)) by {
            assert forall|i: int| 0 <= i < first.len() implies event_usage(
                #[trigger] first[i],
            ).fits() by {
                assert(event_usage(events[i]).fits());
            }
        }
        assert(event_usage(events[events.len() - 1]).fits());
        if n < events.len() {
            lemma_usage_grows(first, n);
            assert(first.take(n) =~= events.take(n));
        } else {
            lemma_usage_grows(first, first.len() as int);
            assert(first.take(first.len() as int) =~= first);
            assert(events.take(n) =~= events);
        }
    }
}

proof fn lemma_active_grows(events: Seq<EventV>, threshold: int, n: int, m: int)
    requires
        n <= m,
    ensures
        0 <= active_secs(events, threshold, n) <= active_secs(events, threshold, m),
    decreases m,
{
    if m > 0 {
        if n < m {
            lemma_active_grows(events, threshold, n, m - 1);
        } else {
            lemma_active_grows(events, threshold, n - 1, m - 1);
        }
    }
}

} // verus!
