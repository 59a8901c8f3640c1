//! What one session adds to the statistics: the amounts that its events and
//! the time between them come to, by day, model, tool and so on.
use vstd::prelude::*;
use vstd::string::*;
use crate::event::{event_views, in_time_order, texts, Event, EventV};
use crate::json::opt_text;
use crate::names::NameMap;
use crate::text::{
    after_prefix, found_from, law_prefixes_come_off, law_search_finds_the_first_place, lowercase,
    occurs, same_text, split_at_first, split_once, stands_at, strip_prefix,
};
use crate::time::{
    date_key, date_of, elapsed, hour_of, local_hour, local_weekday, seconds_between, weekday_of,
    Instant, TzOffset,
};
use crate::tokens::{cost_bound, cost_of, cost_usd, law_cost_is_bounded};
use crate::union::{is_forward, Span};
use crate::usage::{
    all_fit, group, group_slots, group_spans, item_views, lemma_total_at_bounds, slot_views,
    span_views, spans_of, table_of, total_at, total_of, Usage, UsageV,
};

verus! {

/// By what the amounts of a session are grouped.
#[derive(Clone, Copy, PartialEq, Eq, Structural)]
pub enum Axis {
    /// The date in the scan's time zone.
    Day,
    Model,
    Skill,
    Plugin,
    Branch,
    StopReason,
    /// The type of content blocks.
    Content,
    Tool,
    /// The server of tools that a tool server offers.
    Server,
}

/// One message, and nothing else.
pub open spec fn one_message() -> UsageV {
    UsageV { messages: 1, ..UsageV::zero() }
}

/// One use of a tool, and nothing else.
pub open spec fn one_tool_use() -> UsageV {
    UsageV { tool_uses: 1, ..UsageV::zero() }
}

/// One content block, and nothing else.
pub open spec fn one_block() -> UsageV {
    UsageV { blocks: 1, ..UsageV::zero() }
}

/// One session, and nothing else.
pub open spec fn one_session() -> UsageV {
    UsageV { sessions: 1, ..UsageV::zero() }
}

/// Seconds of activity, and nothing else.
pub open spec fn activity(secs: int) -> UsageV {
    UsageV { active_sec: secs, ..UsageV::zero() }
}

/// What an event amounts to. Its tokens are priced as its model's; an event
/// without a model is priced as one with an empty name.
pub open spec fn event_usage(e: EventV) -> UsageV {
    UsageV {
        active_sec: 0,
        total_sec: 0,
        sessions: 0,
        messages: 1,
        tool_uses: e.tools.len() as int,
        blocks: e.content_types.len() as int,
        tokens: e.tokens,
        cost: cost_of(
            e.tokens,
            match e.model {
                Some(m) => m,
                None => ""@,
            },
        ),
    }
}

/// The amount under the key, where there is a key.
pub open spec fn keyed(k: Option<Seq<char>>, u: UsageV) -> Seq<(Seq<char>, UsageV)> {
    match k {
        Some(k) => seq![(k, u)],
        None => seq![],
    }
}

/// The same amount under each of the keys.
pub open spec fn keyed_each(ks: Seq<Seq<char>>, u: UsageV) -> Seq<(Seq<char>, UsageV)> {
    Seq::new(ks.len(), |i: int| (ks[i], u))
}

/// The server that a tool's name tells: what stands between `mcp__` and the
/// next `__`, or the end, where that is not empty.
pub open spec fn tool_server(tool: Seq<char>) -> Option<Seq<char>> {
    match after_prefix(tool, "mcp__"@) {
        None => None,
        Some(rest) => {
            let server = match split_at_first(rest, "__"@) {
                Some((a, _)) => a,
                None => rest,
            };
            if server.len() == 0 {
                None
            } else {
                Some(server)
            }
        },
    }
}

/// The tools of a server tell the server: a name made of `mcp__`, the server,
/// `__` and anything else tells the server, where that is not empty, holds no
/// `__` and does not end in `_`.
pub proof fn law_tools_tell_their_server(server: Seq<char>, rest: Seq<char>)
    requires
        server.len() > 0,
        !occurs(server.push('_'), "__"@),
    ensures
        tool_server("mcp__"@ + server + "__"@ + rest) == Some(server),
{
    let tool = "mcp__"@ + server + "__"@ + rest;
    let tail = server + "__"@ + rest;
    let n = server.len() as int;
    reveal_strlit("__");
    assert(tool.skip("mcp__"@.len() as int) =~= tail);
    assert("mcp__"@.is_prefix_of(tool)) by {
        assert(tool.subrange(0, "mcp__"@.len() as int) =~= "mcp__"@);
    }
    assert(stands_at(tail, "__"@, n)) by {
        assert(tail.subrange(n, n + 2) =~= "__"@);
    }
    law_search_finds_the_first_place(tail, "__"@);
    assert(occurs(tail, "__"@));
    let i = found_from(tail, "__"@, 0)->0;
    assert(stands_at(tail, "__"@, i) && i <= n);
    if i < n {
        let s = server.push('_');
        assert(s.subrange(i, i + 2) =~= tail.subrange(i, i + 2));
        assert(stands_at(s, "__"@, i));
    }
    assert(tail.take(n) =~= server);
}

/// A name made of `mcp__` and something without `__` tells that, where it is not
/// empty; a name that does not start with `mcp__` tells no server.
pub proof fn law_other_tools_tell_all_or_nothing(server: Seq<char>, other: Seq<char>)
    requires
        !occurs(server, "__"@),
        forall|t: Seq<char>| other != #[trigger] ("mcp__"@ + t),
    ensures
        tool_server("mcp__"@ + server) == if server.len() == 0 {
            None
        } else {
            Some(server)
        },
        tool_server(other) is None,
{
    law_prefixes_come_off("mcp__"@, server, other);
    law_search_finds_the_first_place(server, "__"@);
}

/// The servers that tools' names tell, one for each that tells one.
pub open spec fn tool_servers(tools: Seq<Seq<char>>) -> Seq<Seq<char>>
    decreases tools.len(),
{
    if tools.len() == 0 {
        seq![]
    } else {
        let first = tool_servers(tools.drop_last());
        match tool_server(tools.last()) {
            Some(s) => first.push(s),
            None => first,
        }
    }
}

/// Names, each once, in the order in which they first occur.
pub open spec fn distinct(names: Seq<Seq<char>>) -> Seq<Seq<char>>
    decreases names.len(),
{
    if names.len() == 0 {
        seq![]
    } else {
        let first = distinct(names.drop_last());
        if first.contains(names.last()) {
            first
        } else {
            first.push(names.last())
        }
    }
}

/// How often a name occurs.
pub open spec fn uses_of(names: Seq<Seq<char>>, k: Seq<char>) -> nat
    decreases names.len(),
{
    if names.len() == 0 {
        0
    } else {
        uses_of(names.drop_last(), k) + if names.last() == k {
            1nat
        } else {
            0nat
        }
    }
}

/// One message that uses tools, as far as it uses the given one.
pub open spec fn tool_usage(tools: Seq<Seq<char>>) -> spec_fn(Seq<char>) -> UsageV {
    |k: Seq<char>|
        UsageV { messages: 1, tool_uses: uses_of(tools, k) as int, ..UsageV::zero() }
}

/// An amount under each of the keys.
pub open spec fn keyed_by(ks: Seq<Seq<char>>, f: spec_fn(Seq<char>) -> UsageV) -> Seq<
    (Seq<char>, UsageV),
> {
    Seq::new(ks.len(), |i: int| (ks[i], f(ks[i])))
}

/// What an event adds along an axis. Of the tools, each that the event uses
/// gets the message once, however often it is used.
pub open spec fn event_items(axis: Axis, e: EventV, tz: TzOffset) -> Seq<(Seq<char>, UsageV)> {
    match axis {
        Axis::Day => seq![(date_of(e.at, tz), event_usage(e))],
        Axis::Model => keyed(e.model, event_usage(e)),
        Axis::Skill => keyed(e.skill, event_usage(e)),
        Axis::Plugin => keyed(e.plugin, event_usage(e)),
        Axis::Branch => keyed(e.git_branch, event_usage(e)),
        Axis::StopReason => keyed(e.stop_reason, one_message()),
        Axis::Content => keyed_each(e.content_types, one_block()),
        Axis::Tool => keyed_by(distinct(e.tools), tool_usage(e.tools)),
        Axis::Server => keyed_each(tool_servers(e.tools), one_tool_use()),
    }
}

/// What events add along an axis.
pub open spec fn events_items(
    axis: Axis,
    events: Seq<EventV>,
    tz: TzOffset,
) -> Seq<(Seq<char>, UsageV)>
    decreases events.len(),
{
    if events.len() == 0 {
        seq![]
    } else {
        events_items(axis, events.drop_last(), tz) + event_items(axis, events.last(), tz)
    }
}

/// The seconds from an event to the next; none where time runs backwards.
pub open spec fn gap_after(events: Seq<EventV>, i: int) -> int {
    let n = elapsed(events[i].at, events[i + 1].at);
    if n < 0 {
        0
    } else {
        n
    }
}

/// The time from an event to the next counts as activity: it is no longer than
/// the threshold.
pub open spec fn gap_counts(events: Seq<EventV>, i: int, threshold: int) -> bool {
    gap_after(events, i) <= threshold
}

/// What the time after an event adds along an axis, given the gap's length:
/// activity, on the day and on the branch of the event.
pub open spec fn gap_items(
    axis: Axis,
    e: EventV,
    gap: int,
    tz: TzOffset,
) -> Seq<(Seq<char>, UsageV)> {
    match axis {
        Axis::Day => seq![(date_of(e.at, tz), activity(gap))],
        Axis::Branch => keyed(e.git_branch, activity(gap)),
        _ => seq![],
    }
}

/// What the first `n` gaps add along an axis.
pub open spec fn gaps_items(
    axis: Axis,
    events: Seq<EventV>,
    tz: TzOffset,
    threshold: int,
    n: int,
) -> Seq<(Seq<char>, UsageV)>
    decreases n,
{
    if n <= 0 {
        seq![]
    } else {
        let first = gaps_items(axis, events, tz, threshold, n - 1);
        if gap_counts(events, n - 1, threshold) {
            first + gap_items(axis, events[n - 1], gap_after(events, n - 1), tz)
        } else {
            first
        }
    }
}

/// The number of gaps between events.
pub open spec fn gap_count(events: Seq<EventV>) -> int {
    if events.len() == 0 {
        0
    } else {
        events.len() - 1
    }
}

/// What a session adds along an axis. On the day of its first event it counts
/// as a session.
pub open spec fn session_items(
    axis: Axis,
    events: Seq<EventV>,
    tz: TzOffset,
    threshold: int,
) -> Seq<(Seq<char>, UsageV)> {
    let amounts = gaps_items(axis, events, tz, threshold, gap_count(events)) + events_items(
        axis,
        events,
        tz,
    );
    if axis is Day && events.len() > 0 {
        amounts.push((date_of(events[0].at, tz), one_session()))
    } else {
        amounts
    }
}

/// The seconds of activity in the first `n` gaps.
pub open spec fn active_secs(events: Seq<EventV>, threshold: int, n: int) -> int
    decreases n,
{
    if n <= 0 {
        0
    } else {
        active_secs(events, threshold, n - 1) + if gap_counts(events, n - 1, threshold) {
            gap_after(events, n - 1)
        } else {
            0
        }
    }
}

/// What events amount to together.
pub open spec fn events_usage(events: Seq<EventV>) -> UsageV
    decreases events.len(),
{
    if events.len() == 0 {
        UsageV::zero()
    } else {
        events_usage(events.drop_last()).plus(event_usage(events.last()))
    }
}

/// The seconds from the first event of a session to its last.
pub open spec fn duration(events: Seq<EventV>) -> int {
    if events.len() == 0 {
        0
    } else {
        let n = elapsed(events[0].at, events.last().at);
        if n < 0 {
            0
        } else {
            n
        }
    }
}

/// What a session amounts to.
pub open spec fn session_total(events: Seq<EventV>, threshold: int) -> UsageV {
    events_usage(events).plus(
        UsageV {
            active_sec: active_secs(events, threshold, gap_count(events)),
            total_sec: duration(events),
            sessions: 1,
            ..UsageV::zero()
        },
    )
}

/// The spans of activity in the first `n` gaps, by the day on which they
/// start.
pub open spec fn gap_spans(
    events: Seq<EventV>,
    tz: TzOffset,
    threshold: int,
    n: int,
) -> Seq<(Seq<char>, Span)>
    decreases n,
{
    if n <= 0 {
        seq![]
    } else {
        let first = gap_spans(events, tz, threshold, n - 1);
        if gap_counts(events, n - 1, threshold) {
            first.push(
                (
                    date_of(events[n - 1].at, tz),
                    Span { start: events[n - 1].at, end: events[n].at },
                ),
            )
        } else {
            first
        }
    }
}

/// Where in the week or day an instant falls.
#[derive(Clone, Copy, PartialEq, Eq, Structural)]
pub enum Cycle {
    /// Hours 0 to 23.
    Hour,
    /// Monday, 0, to Sunday, 6.
    Weekday,
}

/// The place of an instant in a cycle.
pub open spec fn slot_of(cycle: Cycle, at: Instant, tz: TzOffset) -> int {
    match cycle {
        Cycle::Hour => local_hour(at.secs(), tz.secs()),
        Cycle::Weekday => local_weekday(at.secs(), tz.secs()),
    }
}

/// The number of places in a cycle.
pub open spec fn slots_in(cycle: Cycle) -> nat {
    match cycle {
        Cycle::Hour => 24,
        Cycle::Weekday => 7,
    }
}

/// What the first `n` gaps add along a cycle.
pub open spec fn gap_slots(
    cycle: Cycle,
    events: Seq<EventV>,
    tz: TzOffset,
    threshold: int,
    n: int,
) -> Seq<(int, UsageV)>
    decreases n,
{
    if n <= 0 {
        seq![]
    } else {
        let first = gap_slots(cycle, events, tz, threshold, n - 1);
        if gap_counts(events, n - 1, threshold) {
            first.push(
                (slot_of(cycle, events[n - 1].at, tz), activity(gap_after(events, n - 1))),
            )
        } else {
            first
        }
    }
}

/// What events add along a cycle: a message each.
pub open spec fn event_slots(cycle: Cycle, events: Seq<EventV>, tz: TzOffset) -> Seq<
    (int, UsageV),
> {
    Seq::new(events.len(), |i: int| (slot_of(cycle, events[i].at, tz), one_message()))
}

/// What a session adds along a cycle.
pub open spec fn session_slots(
    cycle: Cycle,
    events: Seq<EventV>,
    tz: TzOffset,
    threshold: int,
) -> Seq<(int, UsageV)> {
    gap_slots(cycle, events, tz, threshold, gap_count(events)) + event_slots(cycle, events, tz)
}

/// Every event of a log has amounts that can be held.
proof fn lemma_event_fits(e: Event)
    ensures
        event_usage(e@).fits(),
{
    assert(e.tools.len() == e.tools@.len());
    assert(e.content_types.len() == e.content_types@.len());
    law_cost_is_bounded(
        e@.tokens,
        lowercase(
            match e@.model {
                Some(m) => m,
                None => ""@,
            },
        ),
    );
}

/// Every event has amounts that can be held.
pub open spec fn events_fit(events: Seq<EventV>) -> bool {
    forall|i: int| 0 <= i < events.len() ==> event_usage(#[trigger] events[i]).fits()
}

pub(crate) proof fn lemma_events_fit(events: Seq<Event>)
    ensures
        events_fit(event_views(events)),
{
    assert forall|i: int| 0 <= i < events.len() implies event_usage(
        #[trigger] event_views(events)[i],
    ).fits() by {
        lemma_event_fits(events[i]);
    }
}

pub(crate) proof fn lemma_total_of_sum<K>(a: Seq<(K, UsageV)>, b: Seq<(K, UsageV)>)
    ensures
        total_of(a + b) == total_of(a).plus(total_of(b)),
        all_fit(a) && all_fit(b) ==> all_fit(a + b),
    decreases b.len(),
{
    if b.len() == 0 {
        assert(a + b =~= a);
    } else {
        lemma_total_of_sum(a, b.drop_last());
        assert((a + b).drop_last() =~= a + b.drop_last());
        assert((a + b).last() == b.last());
    }
    if all_fit(a) && all_fit(b) {
        assert forall|i: int| 0 <= i < (a + b).len() implies (#[trigger] (a + b)[i]).1.fits() by {
            if i < a.len() {
                assert(a[i].1.fits());
            } else {
                assert(b[i - a.len()].1.fits());
            }
        }
    }
}

proof fn lemma_total_of_one<K>(x: (K, UsageV))
    ensures
        total_of(seq![x]) == x.1,
        x.1.fits() ==> all_fit(seq![x]),
{
    assert(seq![x].drop_last() =~= Seq::<(K, UsageV)>::empty());
    assert(total_of(Seq::<(K, UsageV)>::empty()) == UsageV::zero());
    assert(seq![x].last() == x);
    assert(UsageV::zero().plus(x.1) == x.1);
}

proof fn lemma_keyed_each_total(ks: Seq<Seq<char>>, u: UsageV)
    requires
        u == one_block() || u == one_tool_use(),
    ensures
        all_fit(keyed_each(ks, u)),
        u == one_block() ==> total_of(keyed_each(ks, u)) == (UsageV {
            blocks: ks.len() as int,
            ..UsageV::zero()
        }),
        u == one_tool_use() ==> total_of(keyed_each(ks, u)) == (UsageV {
            tool_uses: ks.len() as int,
            ..UsageV::zero()
        }),
    decreases ks.len(),
{
    let items = keyed_each(ks, u);
    if ks.len() > 0 {
        lemma_keyed_each_total(ks.drop_last(), u);
        assert(items.drop_last() =~= keyed_each(ks.drop_last(), u));
        assert(items.last().1 == u);
    }
    assert forall|i: int| 0 <= i < items.len() implies (#[trigger] items[i]).1.fits() by {}
}

/// What goes to a key of two runs of amounts is what goes to it of each.
pub(crate) proof fn lemma_total_at_sum<K>(a: Seq<(K, UsageV)>, b: Seq<(K, UsageV)>, k: K)
    ensures
        total_at(a + b, k) == total_at(a, k).plus(total_at(b, k)),
    decreases b.len(),
{
    if b.len() == 0 {
        assert(a + b =~= a);
    } else {
        lemma_total_at_sum(a, b.drop_last(), k);
        assert((a + b).drop_last() =~= a + b.drop_last());
        assert((a + b).last() == b.last());
    }
}

pub(crate) proof fn lemma_distinct(names: Seq<Seq<char>>)
    ensures
        distinct(names).no_duplicates(),
        distinct(names).len() <= names.len(),
        forall|i: int| 0 <= i < names.len() ==> distinct(names).contains(#[trigger] names[i]),
        forall|i: int|
            0 <= i < distinct(names).len() ==> names.contains(#[trigger] distinct(names)[i]),
    decreases names.len(),
{
    if names.len() > 0 {
        let first = distinct(names.drop_last());
        lemma_distinct(names.drop_last());
        assert forall|i: int| 0 <= i < distinct(names).len() implies names.contains(
            #[trigger] distinct(names)[i],
        ) by {
            if i < first.len() {
                assert(names.drop_last().contains(first[i]));
                let j = names.drop_last().index_of(first[i]);
                assert(names[j] == first[i]);
            } else {
                assert(names[names.len() - 1] == distinct(names)[i]);
            }
        }
        assert forall|i: int| 0 <= i < names.len() implies distinct(names).contains(
            #[trigger] names[i],
        ) by {
            if i < names.len() - 1 {
                assert(names.drop_last()[i] == names[i]);
                assert(first.contains(names[i]));
                let j = first.index_of(names[i]);
                assert(distinct(names)[j] == names[i]);
            } else if !first.contains(names.last()) {
                assert(distinct(names)[first.len() as int] == names[i]);
            }
        }
    }
}

/// How often all of the given names occur.
spec fn uses_of_all(ks: Seq<Seq<char>>, names: Seq<Seq<char>>) -> nat
    decreases ks.len(),
{
    if ks.len() == 0 {
        0
    } else {
        uses_of_all(ks.drop_last(), names) + uses_of(names, ks.last())
    }
}

proof fn lemma_one_more_use(ks: Seq<Seq<char>>, names: Seq<Seq<char>>)
    requires
        ks.no_duplicates(),
        names.len() > 0,
    ensures
        uses_of_all(ks, names) == uses_of_all(ks, names.drop_last()) + if ks.contains(
            names.last(),
        ) {
            1nat
        } else {
            0nat
        },
    decreases ks.len(),
{
    if ks.len() > 0 {
        let first = ks.drop_last();
        lemma_one_more_use(first, names);
        assert(ks[ks.len() - 1] == ks.last());
        if first.contains(names.last()) {
            let i = first.index_of(names.last());
            assert(ks[i] == names.last());
            assert(ks.last() != names.last());
        }
        if ks.contains(names.last()) && ks.last() != names.last() {
            let i = ks.index_of(names.last());
            assert(first[i] == names.last());
        }
    }
}

proof fn lemma_uses_within(ks: Seq<Seq<char>>, names: Seq<Seq<char>>)
    requires
        ks.no_duplicates(),
    ensures
        uses_of_all(ks, names) <= names.len(),
    decreases names.len(),
{
    if names.len() > 0 {
        lemma_one_more_use(ks, names);
        lemma_uses_within(ks, names.drop_last());
    } else {
        lemma_no_uses(ks, names);
    }
}

proof fn lemma_no_uses(ks: Seq<Seq<char>>, names: Seq<Seq<char>>)
    requires
        names.len() == 0,
    ensures
        uses_of_all(ks, names) == 0,
    decreases ks.len(),
{
    if ks.len() > 0 {
        lemma_no_uses(ks.drop_last(), names);
    }
}

proof fn lemma_uses_at_most(names: Seq<Seq<char>>, k: Seq<char>)
    ensures
        uses_of(names, k) <= names.len(),
    decreases names.len(),
{
    if names.len() > 0 {
        lemma_uses_at_most(names.drop_last(), k);
    }
}

/// Under keys that are all different, each has its own amount.
pub(crate) proof fn lemma_keyed_by_at(
    ks: Seq<Seq<char>>,
    f: spec_fn(Seq<char>) -> UsageV,
    k: Seq<char>,
)
    requires
        ks.no_duplicates(),
    ensures
        total_at(keyed_by(ks, f), k) == if ks.contains(k) {
            UsageV::zero().plus(f(k))
        } else {
            UsageV::zero()
        },
    decreases ks.len(),
{
    if ks.len() > 0 {
        let first = ks.drop_last();
        let items = keyed_by(ks, f);
        lemma_keyed_by_at(first, f, k);
        assert(items.drop_last() =~= keyed_by(first, f));
        assert(items.last() == (ks.last(), f(ks.last())));
        assert(ks[ks.len() - 1] == ks.last());
        if first.contains(k) {
            let i = first.index_of(k);
            assert(ks[i] == k);
        }
        if ks.contains(k) && ks.last() != k {
            let i = ks.index_of(k);
            assert(first[i] == k);
        }
    }
}

proof fn lemma_tool_items_total(ks: Seq<Seq<char>>, tools: Seq<Seq<char>>)
    ensures
        total_of(keyed_by(ks, tool_usage(tools))) == (UsageV {
            messages: ks.len() as int,
            tool_uses: uses_of_all(ks, tools) as int,
            ..UsageV::zero()
        }),
    decreases ks.len(),
{
    let items = keyed_by(ks, tool_usage(tools));
    if ks.len() > 0 {
        lemma_tool_items_total(ks.drop_last(), tools);
        assert(items.drop_last() =~= keyed_by(ks.drop_last(), tool_usage(tools)));
        assert(items.last() == (ks.last(), tool_usage(tools)(ks.last())));
    }
}

/// An event adds to its tools, taken one by one, no more than it amounts to;
/// taken together, a message for each, and no more uses than it has.
proof fn lemma_tool_items(e: EventV, tz: TzOffset, k: Seq<char>)
    requires
        event_usage(e).fits(),
    ensures
        all_fit(event_items(Axis::Tool, e, tz)),
        total_of(event_items(Axis::Tool, e, tz)).le(
            UsageV { messages: e.tools.len() as int, ..event_usage(e) },
        ),
        total_at(event_items(Axis::Tool, e, tz), k).le(event_usage(e)),
{
    let ks = distinct(e.tools);
    let items = event_items(Axis::Tool, e, tz);
    lemma_distinct(e.tools);
    lemma_uses_within(ks, e.tools);
    lemma_tool_items_total(ks, e.tools);
    lemma_keyed_by_at(ks, tool_usage(e.tools), k);
    lemma_uses_at_most(e.tools, k);
    assert forall|i: int| 0 <= i < items.len() implies (#[trigger] items[i]).1.fits() by {
        lemma_uses_at_most(e.tools, ks[i]);
    }
}

/// A session's amounts with as many messages as it has uses of tools.
pub open spec fn by_use(u: UsageV) -> UsageV {
    UsageV { messages: u.tool_uses, ..u }
}

proof fn lemma_tools_within(events: Seq<EventV>, tz: TzOffset, k: Seq<char>)
    requires
        events_fit(events),
    ensures
        all_fit(events_items(Axis::Tool, events, tz)),
        total_of(events_items(Axis::Tool, events, tz)).le(by_use(events_usage(events))),
        total_at(events_items(Axis::Tool, events, tz), k).le(events_usage(events)),
    decreases events.len(),
{
    if events.len() > 0 {
        let first = events.drop_last();
        assert(events_fit(first)) by {
            assert forall|i: int| 0 <= i < first.len() implies event_usage(
                #[trigger] first[i],
            ).fits() by {
                assert(event_usage(events[i]).fits());
            }
        }
        lemma_tools_within(first, tz, k);
        assert(event_usage(events[events.len() - 1]).fits());
        lemma_tool_items(events.last(), tz, k);
        let a = events_items(Axis::Tool, first, tz);
        let b = event_items(Axis::Tool, events.last(), tz);
        lemma_total_of_sum(a, b);
        lemma_total_at_sum(a, b, k);
    }
}

proof fn lemma_no_tool_gaps(events: Seq<EventV>, tz: TzOffset, threshold: int, n: int)
    ensures
        gaps_items(Axis::Tool, events, tz, threshold, n) == Seq::<(Seq<char>, UsageV)>::empty(),
    decreases n,
{
    if n > 0 {
        lemma_no_tool_gaps(events, tz, threshold, n - 1);
    }
}

proof fn lemma_servers_len(tools: Seq<Seq<char>>)
    ensures
        tool_servers(tools).len() <= tools.len(),
    decreases tools.len(),
{
    if tools.len() > 0 {
        lemma_servers_len(tools.drop_last());
    }
}

proof fn lemma_event_items_within(axis: Axis, e: EventV, tz: TzOffset)
    requires
        axis !is Tool,
        event_usage(e).fits(),
    ensures
        all_fit(event_items(axis, e, tz)),
        total_of(event_items(axis, e, tz)).le(event_usage(e)),
{
    lemma_keyed_each_total(e.content_types, one_block());
    lemma_keyed_each_total(tool_servers(e.tools), one_tool_use());
    lemma_servers_len(e.tools);
    lemma_total_of_one((date_of(e.at, tz), event_usage(e)));
    assert forall|k: Seq<char>, u: UsageV| u.fits() implies all_fit(#[trigger] seq![(k, u)])
        && total_of(seq![(k, u)]) == u by {
        lemma_total_of_one((k, u));
    }
    assert(one_message().fits());
    assert(total_of(Seq::<(Seq<char>, UsageV)>::empty()) == UsageV::zero());
}

proof fn lemma_events_items_within(axis: Axis, events: Seq<EventV>, tz: TzOffset)
    requires
        axis !is Tool,
        events_fit(events),
    ensures
        all_fit(events_items(axis, events, tz)),
        total_of(events_items(axis, events, tz)).le(events_usage(events)),
    decreases events.len(),
{
    if events.len() > 0 {
        let first = events.drop_last();
        assert(events_fit(first)) by {
            assert forall|i: int| 0 <= i < first.len() implies event_usage(
                #[trigger] first[i],
            ).fits() by {
                assert(event_usage(events[i]).fits());
            }
        }
        lemma_events_items_within(axis, first, tz);
        assert(event_usage(events[events.len() - 1]).fits());
        lemma_event_items_within(axis, events.last(), tz);
        lemma_total_of_sum(events_items(axis, first, tz), event_items(axis, events.last(), tz));
    }
}

proof fn lemma_gaps_items_within(
    axis: Axis,
    events: Seq<EventV>,
    tz: TzOffset,
    threshold: int,
    n: int,
)
    requires
        0 <= threshold <= u64::MAX,
    ensures
        all_fit(gaps_items(axis, events, tz, threshold, n)),
        total_of(gaps_items(axis, events, tz, threshold, n)).le(
            activity(active_secs(events, threshold, n)),
        ),
    decreases n,
{
    if n > 0 {
        lemma_gaps_items_within(axis, events, tz, threshold, n - 1);
        if gap_counts(events, n - 1, threshold) {
            let gap = gap_after(events, n - 1);
            let e = events[n - 1];
            let items = gap_items(axis, e, gap, tz);
            assert(activity(gap).fits());
            lemma_total_of_one((date_of(e.at, tz), activity(gap)));
            if let Some(b) = e.git_branch {
                lemma_total_of_one((b, activity(gap)));
            }
            assert(total_of(Seq::<(Seq<char>, UsageV)>::empty()) == UsageV::zero());
            assert(total_of(items).le(activity(gap)));
            lemma_total_of_sum(gaps_items(axis, events, tz, threshold, n - 1), items);
        }
    }
}

proof fn lemma_axis_total_within(axis: Axis, events: Seq<EventV>, tz: TzOffset, threshold: int)
    requires
        axis !is Tool,
        events_fit(events),
        events.len() > 0,
        0 <= threshold <= u64::MAX,
    ensures
        all_fit(session_items(axis, events, tz, threshold)),
        total_of(session_items(axis, events, tz, threshold)).le(session_total(events, threshold)),
{
    let n = gap_count(events);
    let g = gaps_items(axis, events, tz, threshold, n);
    let e = events_items(axis, events, tz);
    lemma_gaps_items_within(axis, events, tz, threshold, n);
    lemma_events_items_within(axis, events, tz);
    lemma_total_of_sum(g, e);
    if axis is Day {
        let s = (date_of(events[0].at, tz), one_session());
        assert((g + e).push(s).drop_last() =~= g + e);
        assert forall|i: int| 0 <= i < (g + e).push(s).len() implies (#[trigger] (g + e).push(
            s,
        )[i]).1.fits() by {
            if i < (g + e).len() {
                assert((g + e)[i].1.fits());
            }
        }
    }
}

/// Along every axis, what a session adds to one key is no more than what the
/// session amounts to. What it adds to all keys together is no more either,
/// but for the tools: there a message counts for each tool that it uses, which
/// is no more than the uses of tools.
pub proof fn law_axis_within_session_total(
    axis: Axis,
    events: Seq<EventV>,
    tz: TzOffset,
    threshold: int,
    k: Seq<char>,
)
    requires
        events_fit(events),
        events.len() > 0,
        0 <= threshold <= u64::MAX,
    ensures
        all_fit(session_items(axis, events, tz, threshold)),
        total_at(session_items(axis, events, tz, threshold), k).le(
            session_total(events, threshold),
        ),
        total_of(session_items(axis, events, tz, threshold)).le(
            if axis is Tool {
                by_use(session_total(events, threshold))
            } else {
                session_total(events, threshold)
            },
        ),
{
    let items = session_items(axis, events, tz, threshold);
    if axis is Tool {
        let n = gap_count(events);
        lemma_no_tool_gaps(events, tz, threshold, n);
        lemma_tools_within(events, tz, k);
        assert(items =~= events_items(axis, events, tz));
        law_activity_grows_with_the_threshold(events, threshold, threshold, n);
    } else {
        lemma_axis_total_within(axis, events, tz, threshold);
        lemma_total_at_bounds(items, k, 0);
    }
}

proof fn lemma_gap_slots_within(
    cycle: Cycle,
    events: Seq<EventV>,
    tz: TzOffset,
    threshold: int,
    n: int,
)
    requires
        0 <= threshold <= u64::MAX,
    ensures
        all_fit(gap_slots(cycle, events, tz, threshold, n)),
        total_of(gap_slots(cycle, events, tz, threshold, n)).le(
            activity(active_secs(events, threshold, n)),
        ),
    decreases n,
{
    if n > 0 {
        lemma_gap_slots_within(cycle, events, tz, threshold, n - 1);
        if gap_counts(events, n - 1, threshold) {
            let first = gap_slots(cycle, events, tz, threshold, n - 1);
            let x = (slot_of(cycle, events[n - 1].at, tz), activity(gap_after(events, n - 1)));
            assert(first.push(x).drop_last() =~= first);
            assert(x.1.fits());
            assert forall|i: int| 0 <= i < first.push(x).len() implies (#[trigger] first.push(
                x,
            )[i]).1.fits() by {
                if i < first.len() {
                    assert(first[i].1.fits());
                }
            }
        }
    }
}

proof fn lemma_event_slots_within(cycle: Cycle, events: Seq<EventV>, tz: TzOffset)
    requires
        events_fit(events),
    ensures
        all_fit(event_slots(cycle, events, tz)),
        total_of(event_slots(cycle, events, tz)).le(events_usage(events)),
    decreases events.len(),
{
    let items = event_slots(cycle, events, tz);
    assert forall|i: int| 0 <= i < items.len() implies (#[trigger] items[i]).1.fits() by {}
    if events.len() > 0 {
        let first = events.drop_last();
        assert(events_fit(first)) by {
            assert forall|i: int| 0 <= i < first.len() implies event_usage(
                #[trigger] first[i],
            ).fits() by {
                assert(event_usage(events[i]).fits());
            }
        }
        lemma_event_slots_within(cycle, first, tz);
        assert(items.drop_last() =~= event_slots(cycle, first, tz));
        assert(event_usage(events[events.len() - 1]).fits());
    }
}

/// Along every cycle, what a session adds is no more than what it amounts to.
pub proof fn law_cycle_within_session_total(
    cycle: Cycle,
    events: Seq<EventV>,
    tz: TzOffset,
    threshold: int,
)
    requires
        events_fit(events),
        0 <= threshold <= u64::MAX,
        0 <= duration(events),
    ensures
        all_fit(session_slots(cycle, events, tz, threshold)),
        total_of(session_slots(cycle, events, tz, threshold)).le(
            session_total(events, threshold),
        ),
{
    lemma_gap_slots_within(cycle, events, tz, threshold, gap_count(events));
    lemma_event_slots_within(cycle, events, tz);
    lemma_total_of_sum(
        gap_slots(cycle, events, tz, threshold, gap_count(events)),
        event_slots(cycle, events, tz),
    );
}

/// The longer a gap may be, the more time counts as activity.
pub proof fn law_activity_grows_with_the_threshold(events: Seq<EventV>, a: int, b: int, n: int)
    requires
        a <= b,
    ensures
        0 <= active_secs(events, a, n) <= active_secs(events, b, n),
    decreases n,
{
    if n > 0 {
        law_activity_grows_with_the_threshold(events, a, b, n - 1);
    }
}

/// Nanoseconds from the epoch, leap seconds left aside.
spec fn nanos_at(at: Instant) -> int {
    at.secs() * 1_000_000_000 + at.nanos()
}

proof fn lemma_active_nanos(events: Seq<EventV>, threshold: int, n: int)
    requires
        in_time_order(events),
        forall|i: int| 0 <= i < events.len() ==> (#[trigger] events[i]).at.nanos() < 1_000_000_000,
        0 <= n < events.len(),
    ensures
        active_secs(events, threshold, n) * 1_000_000_000 <= nanos_at(events[n].at) - nanos_at(
            events[0].at,
        ),
    decreases n,
{
    if n > 0 {
        lemma_active_nanos(events, threshold, n - 1);
        let a = events[n - 1].at;
        let b = events[n].at;
        assert(a.rank() <= b.rank());
        assert(nanos_at(a) <= nanos_at(b));
        assert(elapsed(a, b) * 1_000_000_000 <= nanos_at(b) - nanos_at(a));
    }
}

/// A session is active no longer than it lasts, where no event falls in a leap
/// second.
pub proof fn law_activity_is_within_the_duration(events: Seq<EventV>, threshold: int)
    requires
        in_time_order(events),
        forall|i: int| 0 <= i < events.len() ==> (#[trigger] events[i]).at.nanos() < 1_000_000_000,
    ensures
        active_secs(events, threshold, gap_count(events)) <= duration(events),
{
    if events.len() > 0 {
        let n = gap_count(events);
        lemma_active_nanos(events, threshold, n);
        let a = events[0].at;
        let b = events[n].at;
        assert(events.last() == events[n]);
        assert(a.rank() <= b.rank());
        assert(nanos_at(a) <= nanos_at(b));
        assert(elapsed(a, b) == (nanos_at(b) - nanos_at(a)) / 1_000_000_000);
    }
}

/// No span of activity runs backwards.
pub proof fn law_spans_run_forward(
    events: Seq<EventV>,
    tz: TzOffset,
    threshold: int,
    n: int,
    i: int,
)
    requires
        in_time_order(events),
        n < events.len(),
        0 <= i < gap_spans(events, tz, threshold, n).len(),
    ensures
        is_forward(gap_spans(events, tz, threshold, n)[i].1),
    decreases n,
{
    if n > 0 {
        let first = gap_spans(events, tz, threshold, n - 1);
        if i < first.len() {
            law_spans_run_forward(events, tz, threshold, n - 1, i);
        } else {
            assert(events[n - 1].at.rank() <= events[n].at.rank());
        }
    }
}

/// What an event amounts to.
pub fn usage_of(e: &Event) -> (r: Usage)
    ensures
        r@ == event_usage(e@),
        r@.fits(),
{
    proof {
        lemma_event_fits(*e);
    }
    let cost: u128 = match &e.model {
        Some(m) => cost_usd(&e.tokens, m.as_str()),
        None => cost_usd(&e.tokens, ""),
    };
    Usage {
        active_sec: 0,
        total_sec: 0,
        sessions: 0,
        messages: 1,
        tool_uses: e.tools.len() as u64,
        blocks: e.content_types.len() as u64,
        tokens: e.tokens,
        cost,
    }
}

/// The server that a tool's name tells.
pub fn server_of(tool: &str) -> (r: Option<String>)
    ensures
        opt_text(r) == tool_server(tool@),
{
    match strip_prefix(tool, "mcp__") {
        None => None,
        Some(rest) => {
            let server = match split_once(rest, "__") {
                Some((a, _)) => a,
                None => rest,
            };
            if server.is_empty() {
                None
            } else {
                Some(server.to_owned())
            }
        },
    }
}

fn push_keyed(out: &mut Vec<(String, Usage)>, k: &Option<String>, u: Usage)
    ensures
        item_views(final(out)@) == item_views(old(out)@) + keyed(opt_text(*k), u@),
{
    let ghost before = item_views(out@);
    if let Some(k) = k {
        out.push((k.clone(), u));
    }
    assert(item_views(out@) =~= before + keyed(opt_text(*k), u@));
}

fn push_each(out: &mut Vec<(String, Usage)>, ks: &Vec<String>, u: Usage)
    ensures
        item_views(final(out)@) == item_views(old(out)@) + keyed_each(texts(ks@), u@),
{
    let ghost before = item_views(out@);
    for i in 0..ks.len()
        invariant
            item_views(out@) == before + keyed_each(texts(ks@).take(i as int), u@),
    {
        let ghost step = item_views(out@);
        out.push((ks[i].clone(), u));
        proof {
            let x = (ks@[i as int]@, u@);
            assert(item_views(out@) =~= step.push(x));
            assert(keyed_each(texts(ks@).take(i + 1), u@) =~= keyed_each(
                texts(ks@).take(i as int),
                u@,
            ).push(x));
        }
    }
    assert(texts(ks@).take(ks@.len() as int) =~= texts(ks@));
}

fn servers_of(tools: &Vec<String>) -> (r: Vec<String>)
    ensures
        texts(r@) == tool_servers(texts(tools@)),
{
    let ghost all = texts(tools@);
    let mut out: Vec<String> = Vec::new();
    assert(texts(out@) =~= tool_servers(all.take(0)));
    for i in 0..tools.len()
        invariant
            all == texts(tools@),
            texts(out@) == tool_servers(all.take(i as int)),
    {
        let ghost before = texts(out@);
        assert(all.take(i + 1).drop_last() =~= all.take(i as int));
        assert(all.take(i + 1).last() == tools@[i as int]@);
        if let Some(s) = server_of(tools[i].as_str()) {
            out.push(s);
            assert(texts(out@) =~= before.push(s@));
        }
    }
    assert(all.take(all.len() as int) =~= all);
    out
}

/// How often a name occurs.
fn count_uses(names: &Vec<String>, k: &str) -> (r: u64)
    ensures
        r == uses_of(texts(names@), k@),
{
    let ghost all = texts(names@);
    let mut n: usize = 0;
    for i in 0..names.len()
        invariant
            all == texts(names@),
            n == uses_of(all.take(i as int), k@),
            n <= i,
    {
        assert(all.take(i + 1).drop_last() =~= all.take(i as int));
        assert(all.take(i + 1).last() == names@[i as int]@);
        if same_text(names[i].as_str(), k) {
            n += 1;
        }
    }
    assert(all.take(all.len() as int) =~= all);
    n as u64
}

/// Whether a name is among others.
fn is_among(names: &Vec<String>, k: &str) -> (r: bool)
    ensures
        r == texts(names@).contains(k@),
{
    for i in 0..names.len()
        invariant
            forall|j: int| 0 <= j < i ==> texts(names@)[j] != k@,
    {
        assert(texts(names@)[i as int] == names@[i as int]@);
        if same_text(names[i].as_str(), k) {
            return true;
        }
    }
    false
}

/// The names, each once.
fn distinct_names(names: &Vec<String>) -> (r: Vec<String>)
    ensures
        texts(r@) == distinct(texts(names@)),
{
    let ghost all = texts(names@);
    let mut out: Vec<String> = Vec::new();
    assert(texts(out@) =~= distinct(all.take(0)));
    for i in 0..names.len()
        invariant
            all == texts(names@),
            texts(out@) == distinct(all.take(i as int)),
    {
        let ghost before = texts(out@);
        assert(all.take(i + 1).drop_last() =~= all.take(i as int));
        assert(all.take(i + 1).last() == names@[i as int]@);
        if !is_among(&out, names[i].as_str()) {
            out.push(names[i].clone());
            assert(texts(out@) =~= before.push(all[i as int]));
        }
    }
    assert(all.take(all.len() as int) =~= all);
    out
}

/// Appends what an event adds to each tool that it uses.
fn push_tools(out: &mut Vec<(String, Usage)>, tools: &Vec<String>)
    ensures
        item_views(final(out)@) == item_views(old(out)@) + keyed_by(
            distinct(texts(tools@)),
            tool_usage(texts(tools@)),
        ),
{
    let ghost before = item_views(out@);
    let ghost f = tool_usage(texts(tools@));
    let ks = distinct_names(tools);
    assert(before + keyed_by(texts(ks@).take(0), f) =~= before);
    for i in 0..ks.len()
        invariant
            f == tool_usage(texts(tools@)),
            item_views(out@) == before + keyed_by(texts(ks@).take(i as int), f),
    {
        let ghost step = item_views(out@);
        let n: u64 = count_uses(tools, ks[i].as_str());
        let u = Usage { messages: 1, tool_uses: n, ..Usage::zero() };
        out.push((ks[i].clone(), u));
        proof {
            let k = ks@[i as int]@;
            assert(u@ == f(k));
            assert(item_views(out@) =~= step.push((k, f(k))));
            assert(keyed_by(texts(ks@).take(i + 1), f) =~= keyed_by(
                texts(ks@).take(i as int),
                f,
            ).push((k, f(k))));
        }
    }
    assert(texts(ks@).take(ks@.len() as int) =~= texts(ks@));
}

/// Appends what an event adds along an axis.
fn push_event_items(out: &mut Vec<(String, Usage)>, axis: Axis, e: &Event, tz: &TzOffset)
    ensures
        item_views(final(out)@) == item_views(old(out)@) + event_items(axis, e@, *tz),
{
    let ghost before = item_views(out@);
    let u = usage_of(e);
    let one = Usage { messages: 1, ..Usage::zero() };
    let block = Usage { blocks: 1, ..Usage::zero() };
    let tool = Usage { tool_uses: 1, ..Usage::zero() };
    assert(one@ == one_message() && block@ == one_block() && tool@ == one_tool_use());
    match axis {
        Axis::Day => {
            out.push((date_key(&e.at, tz), u));
            assert(item_views(out@) =~= before + event_items(axis, e@, *tz));
        },
        Axis::Model => push_keyed(out, &e.model, u),
        Axis::Skill => push_keyed(out, &e.skill, u),
        Axis::Plugin => push_keyed(out, &e.plugin, u),
        Axis::Branch => push_keyed(out, &e.git_branch, u),
        Axis::StopReason => push_keyed(out, &e.stop_reason, one),
        Axis::Content => push_each(out, &e.content_types, block),
        Axis::Tool => push_tools(out, &e.tools),
        Axis::Server => {
            let servers = servers_of(&e.tools);
            push_each(out, &servers, tool);
        },
    }
}

/// The seconds from an event to the next; none where time runs backwards.
pub(crate) fn gap_seconds(events: &Vec<Event>, i: usize) -> (r: u64)
    requires
        i + 1 < events.len(),
    ensures
        r == gap_after(event_views(events@), i as int),
{
    let n = seconds_between(&events[i].at, &events[i + 1].at);
    if n < 0 {
        0
    } else {
        n as u64
    }
}

/// Appends what the time after an event adds along an axis.
fn push_gap_items(
    out: &mut Vec<(String, Usage)>,
    axis: Axis,
    e: &Event,
    gap: u64,
    tz: &TzOffset,
)
    ensures
        item_views(final(out)@) == item_views(old(out)@) + gap_items(axis, e@, gap as int, *tz),
{
    let ghost before = item_views(out@);
    let u = Usage { active_sec: gap, ..Usage::zero() };
    assert(u@ == activity(gap as int));
    match axis {
        Axis::Day => {
            out.push((date_key(&e.at, tz), u));
        },
        Axis::Branch => push_keyed(out, &e.git_branch, u),
        _ => {},
    }
    assert(item_views(out@) =~= before + gap_items(axis, e@, gap as int, *tz));
}

/// What a session adds along an axis, one amount after the other.
fn collect_items(axis: Axis, events: &Vec<Event>, tz: &TzOffset, threshold: u64) -> (r: Vec<
    (String, Usage),
>)
    ensures
        item_views(r@) == session_items(axis, event_views(events@), *tz, threshold as int),
{
    let ghost all = event_views(events@);
    let mut out: Vec<(String, Usage)> = Vec::new();
    let n: usize = if events.len() == 0 {
        0
    } else {
        events.len() - 1
    };
    assert(item_views(out@) =~= gaps_items(axis, all, *tz, threshold as int, 0));
    for i in 0..n
        invariant
            all == event_views(events@),
            n == gap_count(all),
            item_views(out@) == gaps_items(axis, all, *tz, threshold as int, i as int),
    {
        let gap: u64 = gap_seconds(events, i);
        assert(all[i as int] == events@[i as int]@);
        if gap <= threshold {
            push_gap_items(&mut out, axis, &events[i], gap, tz);
        }
    }
    let ghost gaps = item_views(out@);
    assert(gaps + events_items(axis, all.take(0), *tz) =~= gaps);
    for i in 0..events.len()
        invariant
            all == event_views(events@),
            gaps == gaps_items(axis, all, *tz, threshold as int, gap_count(all)),
            item_views(out@) == gaps + events_items(axis, all.take(i as int), *tz),
    {
        proof {
            assert(all.take(i + 1).drop_last() =~= all.take(i as int));
            assert(all.take(i + 1).last() == events@[i as int]@);
        }
        push_event_items(&mut out, axis, &events[i], tz);
        assert(item_views(out@) =~= gaps + events_items(axis, all.take(i + 1), *tz));
    }
    assert(all.take(all.len() as int) =~= all);
    if axis == Axis::Day && events.len() > 0 {
        let ghost before = item_views(out@);
        let one = Usage { sessions: 1, ..Usage::zero() };
        assert(one@ == one_session());
        out.push((date_key(&events[0].at, tz), one));
        assert(item_views(out@) =~= before.push((date_of(all[0].at, *tz), one_session())));
    }
    out
}

/// What a session adds along an axis, grouped.
pub fn tally(axis: Axis, events: &Vec<Event>, tz: &TzOffset, threshold: u64) -> (r: NameMap<Usage>)
    requires
        events@.len() > 0,
        session_total(event_views(events@), threshold as int).fits(),
    ensures
        r.wf(),
        r@ == table_of(session_items(axis, event_views(events@), *tz, threshold as int)),
{
    let items = collect_items(axis, events, tz, threshold);
    proof {
        let all = event_views(events@);
        lemma_events_fit(events@);
        law_axis_within_session_total(axis, all, *tz, threshold as int, Seq::empty());
        lemma_total_fits(item_views(items@));
    }
    group(&items)
}

/// A sum of amounts that can be held has no amount below zero, and a cost that
/// its tokens can have.
proof fn lemma_total_fits<K>(items: Seq<(K, UsageV)>)
    requires
        all_fit(items),
    ensures
        UsageV::zero().le(total_of(items)),
        total_of(items).cost <= cost_bound(total_of(items).tokens),
    decreases items.len(),
{
    if items.len() > 0 {
        assert(all_fit(items.drop_last())) by {
            assert forall|i: int| 0 <= i < items.drop_last().len() implies (
            #[trigger] items.drop_last()[i]).1.fits() by {
                assert(items[i].1.fits());
            }
        }
        lemma_total_fits(items.drop_last());
        assert(items[items.len() - 1].1.fits());
    }
}

fn slot_at(cycle: Cycle, at: &Instant, tz: &TzOffset) -> (r: usize)
    ensures
        r == slot_of(cycle, *at, *tz),
        r < slots_in(cycle),
{
    match cycle {
        Cycle::Hour => hour_of(at, tz),
        Cycle::Weekday => weekday_of(at, tz),
    }
}

/// What a session adds along a cycle, grouped.
pub fn tally_cycle(cycle: Cycle, events: &Vec<Event>, tz: &TzOffset, threshold: u64) -> (r: Vec<
    Usage,
>)
    requires
        events@.len() > 0,
        session_total(event_views(events@), threshold as int).fits(),
    ensures
        crate::usage::usage_views(r@) == Seq::new(
            slots_in(cycle),
            |s: int|
                crate::usage::total_at(
                    session_slots(cycle, event_views(events@), *tz, threshold as int),
                    s,
                ),
        ),
{
    let ghost all = event_views(events@);
    let mut out: Vec<(usize, Usage)> = Vec::new();
    let n: usize = events.len() - 1;
    assert(slot_views(out@) =~= gap_slots(cycle, all, *tz, threshold as int, 0));
    for i in 0..n
        invariant
            all == event_views(events@),
            n == gap_count(all),
            slot_views(out@) == gap_slots(cycle, all, *tz, threshold as int, i as int),
            forall|j: int| 0 <= j < out@.len() ==> (#[trigger] out@[j]).0 < slots_in(cycle),
    {
        let gap: u64 = gap_seconds(events, i);
        assert(all[i as int] == events@[i as int]@);
        let ghost before = slot_views(out@);
        if gap <= threshold {
            let u = Usage { active_sec: gap, ..Usage::zero() };
            assert(u@ == activity(gap as int));
            let slot: usize = slot_at(cycle, &events[i].at, tz);
            out.push((slot, u));
            assert(slot_views(out@) =~= before.push((slot as int, u@)));
        }
    }
    let ghost gaps = slot_views(out@);
    for i in 0..events.len()
        invariant
            all == event_views(events@),
            gaps == gap_slots(cycle, all, *tz, threshold as int, gap_count(all)),
            slot_views(out@) == gaps + event_slots(cycle, all, *tz).take(i as int),
            forall|j: int| 0 <= j < out@.len() ==> (#[trigger] out@[j]).0 < slots_in(cycle),
    {
        let u = Usage { messages: 1, ..Usage::zero() };
        assert(u@ == one_message());
        let slot: usize = slot_at(cycle, &events[i].at, tz);
        let ghost step = slot_views(out@);
        out.push((slot, u));
        proof {
            let slots = event_slots(cycle, all, *tz);
            assert(slots[i as int] == (slot as int, u@));
            assert(slot_views(out@) =~= step.push((slot as int, u@)));
            assert(slots.take(i + 1) =~= slots.take(i as int).push(slots[i as int]));
        }
    }
    proof {
        assert(event_slots(cycle, all, *tz).take(all.len() as int) =~= event_slots(
            cycle,
            all,
            *tz,
        ));
        lemma_events_fit(events@);
        law_cycle_within_session_total(cycle, all, *tz, threshold as int);
        lemma_total_fits(slot_views(out@));
    }
    let count: usize = match cycle {
        Cycle::Hour => 24,
        Cycle::Weekday => 7,
    };
    group_slots(&out, count)
}

/// The spans of activity of a session, by the day on which they start.
pub fn tally_spans(events: &Vec<Event>, tz: &TzOffset, threshold: u64) -> (r: NameMap<Vec<Span>>)
    ensures
        r.wf(),
        r@ == spans_of(
            gap_spans(
                event_views(events@),
                *tz,
                threshold as int,
                gap_count(event_views(events@)),
            ),
        ),
{
    let ghost all = event_views(events@);
    let mut out: Vec<(String, Span)> = Vec::new();
    let n: usize = if events.len() == 0 {
        0
    } else {
        events.len() - 1
    };
    assert(span_views(out@) =~= gap_spans(all, *tz, threshold as int, 0));
    for i in 0..n
        invariant
            all == event_views(events@),
            n == gap_count(all),
            span_views(out@) == gap_spans(all, *tz, threshold as int, i as int),
    {
        let gap: u64 = gap_seconds(events, i);
        let ghost before = span_views(out@);
        assert(all[i as int] == events@[i as int]@);
        assert(all[i + 1] == events@[i + 1]@);
        if gap <= threshold {
            let key = date_key(&events[i].at, tz);
            let span = Span { start: events[i].at, end: events[i + 1].at };
            out.push((key, span));
            assert(span_views(out@) =~= before.push((date_of(all[i as int].at, *tz), span)));
        }
    }
    group_spans(&out)
}

} // verus!
