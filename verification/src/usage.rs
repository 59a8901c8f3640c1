//! Amounts of usage, and tables of amounts grouped by a name.
use vstd::prelude::*;
use vstd::string::*;
use crate::names::{ascending, at_or, law_names_are_ordered, name_before, Item, NameMap};
use crate::tokens::{cost_bound, Tokens, TokensV};
use crate::union::Span;

verus! {

/// An amount of usage.
#[derive(Clone, Copy, Debug, PartialEq, Eq, Structural)]
pub struct Usage {
    /// Seconds of activity.
    pub active_sec: u64,
    /// Seconds from the first to the last event.
    pub total_sec: u64,
    pub sessions: u64,
    pub messages: u64,
    pub tool_uses: u64,
    /// Content blocks of assistant turns.
    pub blocks: u64,
    pub tokens: Tokens,
    /// Cost in hundred-millionths of a US dollar.
    pub cost: u128,
}

/// An amount of usage without a limit.
pub struct UsageV {
    pub active_sec: int,
    pub total_sec: int,
    pub sessions: int,
    pub messages: int,
    pub tool_uses: int,
    pub blocks: int,
    pub tokens: TokensV,
    pub cost: int,
}

impl UsageV {
    pub open spec fn zero() -> UsageV {
        UsageV {
            active_sec: 0,
            total_sec: 0,
            sessions: 0,
            messages: 0,
            tool_uses: 0,
            blocks: 0,
            tokens: TokensV::zero(),
            cost: 0,
        }
    }

    /// The sums, amount by amount.
    pub open spec fn plus(self, o: UsageV) -> UsageV {
        UsageV {
            active_sec: self.active_sec + o.active_sec,
            total_sec: self.total_sec + o.total_sec,
            sessions: self.sessions + o.sessions,
            messages: self.messages + o.messages,
            tool_uses: self.tool_uses + o.tool_uses,
            blocks: self.blocks + o.blocks,
            tokens: self.tokens.plus(o.tokens),
            cost: self.cost + o.cost,
        }
    }

    /// No amount is more than the other's.
    pub open spec fn le(self, o: UsageV) -> bool {
        &&& self.active_sec <= o.active_sec
        &&& self.total_sec <= o.total_sec
        &&& self.sessions <= o.sessions
        &&& self.messages <= o.messages
        &&& self.tool_uses <= o.tool_uses
        &&& self.blocks <= o.blocks
        &&& self.tokens.le(o.tokens)
        &&& self.cost <= o.cost
    }

    /// Every amount can be held, and the cost is one that the tokens can have.
    pub open spec fn fits(self) -> bool {
        &&& 0 <= self.active_sec <= u64::MAX
        &&& 0 <= self.total_sec <= u64::MAX
        &&& 0 <= self.sessions <= u64::MAX
        &&& 0 <= self.messages <= u64::MAX
        &&& 0 <= self.tool_uses <= u64::MAX
        &&& 0 <= self.blocks <= u64::MAX
        &&& self.tokens.fits()
        &&& 0 <= self.cost <= cost_bound(self.tokens)
    }
}

impl View for Usage {
    type V = UsageV;

    open spec fn view(&self) -> UsageV {
        UsageV {
            active_sec: self.active_sec as int,
            total_sec: self.total_sec as int,
            sessions: self.sessions as int,
            messages: self.messages as int,
            tool_uses: self.tool_uses as int,
            blocks: self.blocks as int,
            tokens: self.tokens@,
            cost: self.cost as int,
        }
    }
}

impl Item for Usage {
    open spec fn sound(&self) -> bool {
        self@.fits()
    }
}

impl Usage {
    pub fn zero() -> (r: Usage)
        ensures
            r@ == UsageV::zero(),
            r@.fits(),
    {
        Usage {
            active_sec: 0,
            total_sec: 0,
            sessions: 0,
            messages: 0,
            tool_uses: 0,
            blocks: 0,
            tokens: Tokens::default(),
            cost: 0,
        }
    }

    /// Adds the other amounts to these.
    pub fn add(&mut self, o: &Usage)
        requires
            old(self)@.plus(o@).fits(),
        ensures
            final(self)@ == old(self)@.plus(o@),
    {
        self.active_sec = self.active_sec + o.active_sec;
        self.total_sec = self.total_sec + o.total_sec;
        self.sessions = self.sessions + o.sessions;
        self.messages = self.messages + o.messages;
        self.tool_uses = self.tool_uses + o.tool_uses;
        self.blocks = self.blocks + o.blocks;
        self.tokens.add(&o.tokens);
        self.cost = self.cost + o.cost;
    }
}

impl Usage {
    /// The sum of the amounts, where it can be held.
    pub fn try_add(&self, o: &Usage) -> (r: Option<Usage>)
        requires
            self@.fits(),
            o@.fits(),
        ensures
            match r {
                Some(u) => u@ == self@.plus(o@) && u@.fits(),
                None => !self@.plus(o@).fits(),
            },
    {
        Some(
            Usage {
                active_sec: self.active_sec.checked_add(o.active_sec)?,
                total_sec: self.total_sec.checked_add(o.total_sec)?,
                sessions: self.sessions.checked_add(o.sessions)?,
                messages: self.messages.checked_add(o.messages)?,
                tool_uses: self.tool_uses.checked_add(o.tool_uses)?,
                blocks: self.blocks.checked_add(o.blocks)?,
                tokens: Tokens {
                    input: self.tokens.input.checked_add(o.tokens.input)?,
                    output: self.tokens.output.checked_add(o.tokens.output)?,
                    cache_create_5m: self.tokens.cache_create_5m.checked_add(
                        o.tokens.cache_create_5m,
                    )?,
                    cache_create_1h: self.tokens.cache_create_1h.checked_add(
                        o.tokens.cache_create_1h,
                    )?,
                    cache_read: self.tokens.cache_read.checked_add(o.tokens.cache_read)?,
                    iterations: self.tokens.iterations.checked_add(o.tokens.iterations)?,
                },
                cost: self.cost + o.cost,
            },
        )
    }
}

/// What a usage can hold fits, as long as its cost is one that its tokens can
/// have; and nothing else fits.
pub proof fn law_what_is_held_fits(x: Usage, u: UsageV)
    ensures
        x.cost <= cost_bound(x.tokens@) ==> x@.fits(),
        u.fits() ==> exists|y: Usage| #[trigger] y@ == u,
{
    if u.fits() {
        assert(u.cost <= 18446744073709551615 * 14025);
        let t = u.tokens;
        let y = Usage {
            active_sec: u.active_sec as u64,
            total_sec: u.total_sec as u64,
            sessions: u.sessions as u64,
            messages: u.messages as u64,
            tool_uses: u.tool_uses as u64,
            blocks: u.blocks as u64,
            tokens: Tokens {
                input: t.input as u64,
                output: t.output as u64,
                cache_create_5m: t.cache_create_5m as u64,
                cache_create_1h: t.cache_create_1h as u64,
                cache_read: t.cache_read as u64,
                iterations: t.iterations as u64,
            },
            cost: u.cost as u128,
        };
        assert(y@ == u);
    }
}

/// The sum of the amounts that go to a key.
pub open spec fn total_at<K>(items: Seq<(K, UsageV)>, k: K) -> UsageV
    decreases items.len(),
{
    if items.len() == 0 {
        UsageV::zero()
    } else {
        let first = total_at(items.drop_last(), k);
        if items.last().0 == k {
            first.plus(items.last().1)
        } else {
            first
        }
    }
}

/// The sum of all amounts.
pub open spec fn total_of<K>(items: Seq<(K, UsageV)>) -> UsageV
    decreases items.len(),
{
    if items.len() == 0 {
        UsageV::zero()
    } else {
        total_of(items.drop_last()).plus(items.last().1)
    }
}

/// An amount goes to the key.
pub open spec fn has_key<T>(items: Seq<(Seq<char>, T)>, k: Seq<char>) -> bool {
    exists|i: int| 0 <= i < items.len() && (#[trigger] items[i]).0 == k
}

/// Amounts grouped by key: each key that something goes to, with the sum of
/// what goes to it.
pub open spec fn table_of(items: Seq<(Seq<char>, UsageV)>) -> Map<Seq<char>, UsageV> {
    Map::new(|k: Seq<char>| has_key(items, k), |k: Seq<char>| total_at(items, k))
}

/// What spans go to a key, in their order.
pub open spec fn spans_at(items: Seq<(Seq<char>, Span)>, k: Seq<char>) -> Seq<Span>
    decreases items.len(),
{
    if items.len() == 0 {
        seq![]
    } else {
        let first = spans_at(items.drop_last(), k);
        if items.last().0 == k {
            first.push(items.last().1)
        } else {
            first
        }
    }
}

/// Spans grouped by key: each key that one goes to, with those that do.
pub open spec fn spans_of(items: Seq<(Seq<char>, Span)>) -> Map<Seq<char>, Seq<Span>> {
    Map::new(|k: Seq<char>| has_key(items, k), |k: Seq<char>| spans_at(items, k))
}

/// Every single amount can be held.
pub open spec fn all_fit<K>(items: Seq<(K, UsageV)>) -> bool {
    forall|i: int| 0 <= i < items.len() ==> (#[trigger] items[i]).1.fits()
}

/// What goes to one key is no more than all, and no less of more amounts.
pub proof fn lemma_total_at_bounds<K>(items: Seq<(K, UsageV)>, k: K, n: int)
    requires
        all_fit(items),
        0 <= n <= items.len(),
    ensures
        UsageV::zero().le(total_at(items, k)),
        0 <= total_at(items, k).cost <= cost_bound(total_at(items, k).tokens),
        total_at(items, k).le(total_of(items)),
        total_at(items.take(n), k).le(total_at(items, k)),
    decreases items.len(),
{
    if items.len() == 0 {
        assert(items.take(n) =~= items);
    } else {
        let first = items.drop_last();
        assert(all_fit(first)) by {
            assert forall|i: int| 0 <= i < first.len() implies (#[trigger] first[i]).1.fits() by {
                assert(items[i].1.fits());
            }
        }
        assert(items[items.len() - 1].1.fits());
        if n < items.len() {
            lemma_total_at_bounds(first, k, n);
            assert(first.take(n) =~= items.take(n));
        } else {
            lemma_total_at_bounds(first, k, 0);
            assert(items.take(n) =~= items);
        }
    }
}

proof fn lemma_no_key(items: Seq<(Seq<char>, UsageV)>, k: Seq<char>)
    requires
        !has_key(items, k),
    ensures
        total_at(items, k) == UsageV::zero(),
    decreases items.len(),
{
    if items.len() > 0 {
        assert(items[items.len() - 1].0 != k);
        assert(!has_key(items.drop_last(), k)) by {
            if has_key(items.drop_last(), k) {
                let i = choose|i: int|
                    0 <= i < items.drop_last().len() && (#[trigger] items.drop_last()[i]).0 == k;
                assert(items[i].0 == k);
            }
        }
        lemma_no_key(items.drop_last(), k);
    }
}

/// A table gives each key the sum of what goes to it, and zero where nothing
/// does.
pub proof fn law_table_holds_the_sums(items: Seq<(Seq<char>, UsageV)>, k: Seq<char>)
    ensures
        at_or(table_of(items), k, UsageV::zero()) == total_at(items, k),
{
    if !has_key(items, k) {
        lemma_no_key(items, k);
    }
}

pub(crate) proof fn lemma_has_key_push<T>(
    items: Seq<(Seq<char>, T)>,
    x: (Seq<char>, T),
    k: Seq<char>,
)
    ensures
        has_key(items.push(x), k) <==> has_key(items, k) || x.0 == k,
{
    if has_key(items, k) {
        let i = choose|i: int| 0 <= i < items.len() && (#[trigger] items[i]).0 == k;
        assert(items.push(x)[i].0 == k);
    }
    if x.0 == k {
        assert(items.push(x)[items.len() as int].0 == k);
    }
    if has_key(items.push(x), k) {
        let i = choose|i: int| 0 <= i < items.push(x).len() && (#[trigger] items.push(x)[i]).0 == k;
        if i < items.len() {
            assert(items[i].0 == k);
        }
    }
}

pub(crate) proof fn lemma_table_push(items: Seq<(Seq<char>, UsageV)>, x: (Seq<char>, UsageV))
    ensures
        table_of(items.push(x)) == table_of(items).insert(
            x.0,
            at_or(table_of(items), x.0, UsageV::zero()).plus(x.1),
        ),
{
    law_table_holds_the_sums(items, x.0);
    assert(items.push(x).drop_last() =~= items);
    let a = table_of(items.push(x));
    let b = table_of(items).insert(x.0, total_at(items, x.0).plus(x.1));
    assert forall|k: Seq<char>| a.contains_key(k) == b.contains_key(k) by {
        lemma_has_key_push(items, x, k);
    }
    assert(a =~= b);
}

proof fn lemma_spans_push(items: Seq<(Seq<char>, Span)>, x: (Seq<char>, Span))
    ensures
        spans_of(items.push(x)) == spans_of(items).insert(
            x.0,
            at_or(spans_of(items), x.0, seq![]).push(x.1),
        ),
{
    assert(items.push(x).drop_last() =~= items);
    if !has_key(items, x.0) {
        lemma_no_span_key(items, x.0);
    }
    let a = spans_of(items.push(x));
    let b = spans_of(items).insert(x.0, spans_at(items, x.0).push(x.1));
    assert forall|k: Seq<char>| a.contains_key(k) == b.contains_key(k) by {
        lemma_has_key_push(items, x, k);
    }
    assert(a =~= b);
}

pub(crate) proof fn lemma_no_span_key(items: Seq<(Seq<char>, Span)>, k: Seq<char>)
    requires
        !has_key(items, k),
    ensures
        spans_at(items, k) == Seq::<Span>::empty(),
    decreases items.len(),
{
    if items.len() > 0 {
        assert(items[items.len() - 1].0 != k);
        if has_key(items.drop_last(), k) {
            let i = choose|i: int|
                0 <= i < items.drop_last().len() && (#[trigger] items.drop_last()[i]).0 == k;
            assert(items[i].0 == k);
        }
        lemma_no_span_key(items.drop_last(), k);
    }
}

/// Keyed amounts over plain values.
pub open spec fn item_views(v: Seq<(String, Usage)>) -> Seq<(Seq<char>, UsageV)> {
    Seq::new(v.len(), |i: int| (v[i].0@, v[i].1@))
}

/// Amounts with a place, over plain values.
pub open spec fn slot_views(v: Seq<(usize, Usage)>) -> Seq<(int, UsageV)> {
    Seq::new(v.len(), |i: int| (v[i].0 as int, v[i].1@))
}

/// Keyed spans over plain values.
pub open spec fn span_views(v: Seq<(String, Span)>) -> Seq<(Seq<char>, Span)> {
    Seq::new(v.len(), |i: int| (v[i].0@, v[i].1))
}

/// Groups amounts by key.
pub fn group(items: &Vec<(String, Usage)>) -> (r: NameMap<Usage>)
    requires
        all_fit(item_views(items@)),
        total_of(item_views(items@)).fits(),
    ensures
        r.wf(),
        r@ == table_of(item_views(items@)),
{
    let ghost all = item_views(items@);
    let mut table: NameMap<Usage> = NameMap::new();
    assert(table@ =~= table_of(all.take(0)));
    for i in 0..items.len()
        invariant
            all == item_views(items@),
            all_fit(all),
            total_of(all).fits(),
            table.wf(),
            table@ == table_of(all.take(i as int)),
    {
        let ghost k = all[i as int].0;
        proof {
            assert(all.take(i + 1) =~= all.take(i as int).push(all[i as int]));
            assert(all.take(i + 1).drop_last() =~= all.take(i as int));
            lemma_table_push(all.take(i as int), all[i as int]);
            law_table_holds_the_sums(all.take(i as int), k);
            lemma_total_at_bounds(all, k, i + 1);
            assert(all_fit(all.take(i + 1))) by {
                assert forall|j: int| 0 <= j < i + 1 implies (#[trigger] all.take(
                    i + 1,
                )[j]).1.fits() by {
                    assert(all[j].1.fits());
                }
            }
            lemma_total_at_bounds(all.take(i + 1), k, 0);
        }
        let cell = table.entry(items[i].0.as_str(), Usage::zero());
        cell.add(&items[i].1);
    }
    assert(all.take(all.len() as int) =~= all);
    table
}

/// Views of amounts in a row.
pub open spec fn usage_views(v: Seq<Usage>) -> Seq<UsageV> {
    Seq::new(v.len(), |i: int| v[i]@)
}

/// Groups amounts by place.
pub fn group_slots(items: &Vec<(usize, Usage)>, n: usize) -> (r: Vec<Usage>)
    requires
        forall|i: int| 0 <= i < items@.len() ==> (#[trigger] items@[i]).0 < n,
        all_fit(slot_views(items@)),
        total_of(slot_views(items@)).fits(),
    ensures
        usage_views(r@) == Seq::new(n as nat, |s: int| total_at(slot_views(items@), s)),
{
    let ghost all = slot_views(items@);
    let mut slots: Vec<Usage> = Vec::new();
    let mut s: usize = 0;
    while s < n
        invariant
            s <= n,
            slots@.len() == s,
            forall|j: int| 0 <= j < s ==> #[trigger] slots@[j]@ == UsageV::zero(),
        decreases n - s,
    {
        slots.push(Usage::zero());
        s += 1;
    }
    for i in 0..items.len()
        invariant
            forall|i: int| 0 <= i < items@.len() ==> (#[trigger] items@[i]).0 < n,
            all == slot_views(items@),
            all_fit(all),
            total_of(all).fits(),
            slots@.len() == n,
            forall|j: int|
                0 <= j < n ==> #[trigger] slots@[j]@ == total_at(all.take(i as int), j),
    {
        let at: usize = items[i].0;
        let ghost before = slots@;
        proof {
            assert(items@[i as int].0 < n);
            assert(all.take(i + 1).drop_last() =~= all.take(i as int));
            assert(all.take(i + 1).last() == all[i as int]);
            assert(slots@[at as int]@ == total_at(all.take(i as int), at as int));
            lemma_total_at_bounds(all, at as int, i + 1);
            assert(all_fit(all.take(i + 1))) by {
                assert forall|j: int| 0 <= j < i + 1 implies (#[trigger] all.take(
                    i + 1,
                )[j]).1.fits() by {
                    assert(all[j].1.fits());
                }
            }
            lemma_total_at_bounds(all.take(i + 1), at as int, 0);
        }
        let mut cell: Usage = slots[at];
        cell.add(&items[i].1);
        slots.set(at, cell);
        assert forall|j: int| 0 <= j < n implies #[trigger] slots@[j]@ == total_at(
            all.take(i + 1),
            j,
        ) by {
            assert(before[j]@ == total_at(all.take(i as int), j));
        }
    }
    assert(all.take(all.len() as int) =~= all);
    assert(usage_views(slots@) =~= Seq::new(n as nat, |s: int| total_at(all, s)));
    slots
}

impl Item for Vec<Span> {
    open spec fn sound(&self) -> bool {
        true
    }
}

/// Groups spans by key.
pub fn group_spans(items: &Vec<(String, Span)>) -> (r: NameMap<Vec<Span>>)
    ensures
        r.wf(),
        r@ == spans_of(span_views(items@)),
{
    let ghost all = span_views(items@);
    let mut table: NameMap<Vec<Span>> = NameMap::new();
    assert(table@ =~= spans_of(all.take(0)));
    for i in 0..items.len()
        invariant
            all == span_views(items@),
            table.wf(),
            table@ == spans_of(all.take(i as int)),
    {
        proof {
            assert(all.take(i + 1) =~= all.take(i as int).push(all[i as int]));
            lemma_spans_push(all.take(i as int), all[i as int]);
        }
        let cell = table.entry(items[i].0.as_str(), Vec::new());
        cell.push(items[i].1);
    }
    assert(all.take(all.len() as int) =~= all);
    table
}

/// Two tables in one: every key of either, with what both hold for it.
pub open spec fn tables_joined(
    a: Map<Seq<char>, UsageV>,
    b: Map<Seq<char>, UsageV>,
) -> Map<Seq<char>, UsageV> {
    Map::new(
        |k: Seq<char>| a.contains_key(k) || b.contains_key(k),
        |k: Seq<char>| at_or(a, k, UsageV::zero()).plus(at_or(b, k, UsageV::zero())),
    )
}

/// Two tables of spans in one: every key of either, with the spans of the
/// first before those of the second.
pub open spec fn spans_joined(
    a: Map<Seq<char>, Seq<Span>>,
    b: Map<Seq<char>, Seq<Span>>,
) -> Map<Seq<char>, Seq<Span>> {
    Map::new(
        |k: Seq<char>| a.contains_key(k) || b.contains_key(k),
        |k: Seq<char>| at_or(a, k, seq![]) + at_or(b, k, seq![]),
    )
}

/// Two rows in one, place by place.
pub open spec fn rows_joined(a: Seq<UsageV>, b: Seq<UsageV>) -> Seq<UsageV> {
    Seq::new(a.len(), |i: int| a[i].plus(b[i]))
}

/// A table holds no more under any key than the given amount.
pub open spec fn table_within(m: Map<Seq<char>, UsageV>, most: UsageV) -> bool {
    forall|k: Seq<char>| #[trigger] m.contains_key(k) ==> m[k].fits() && m[k].le(most)
}

/// A row holds no more at any place than the given amount.
pub open spec fn row_within(v: Seq<UsageV>, most: UsageV) -> bool {
    forall|i: int| 0 <= i < v.len() ==> (#[trigger] v[i]).fits() && v[i].le(most)
}

/// What tables hold stays within the sum of what they are within.
pub proof fn lemma_joined_within(
    a: Map<Seq<char>, UsageV>,
    b: Map<Seq<char>, UsageV>,
    most_a: UsageV,
    most_b: UsageV,
)
    requires
        table_within(a, most_a),
        table_within(b, most_b),
        most_a.fits(),
        most_b.fits(),
        most_a.plus(most_b).fits(),
    ensures
        table_within(tables_joined(a, b), most_a.plus(most_b)),
{
    let j = tables_joined(a, b);
    assert forall|k: Seq<char>| #[trigger] j.contains_key(k) implies j[k].fits() && j[k].le(
        most_a.plus(most_b),
    ) by {
        if a.contains_key(k) {
            assert(a[k].fits());
        }
        if b.contains_key(k) {
            assert(b[k].fits());
        }
    }
}

/// Amounts grouped together are the joined tables of the amounts grouped
/// apart.
pub proof fn law_grouping_together_joins_tables(
    x: Seq<(Seq<char>, UsageV)>,
    y: Seq<(Seq<char>, UsageV)>,
)
    ensures
        table_of(x + y) == tables_joined(table_of(x), table_of(y)),
    decreases y.len(),
{
    if y.len() == 0 {
        assert(x + y =~= x);
        assert forall|k: Seq<char>| !has_key(y, k) by {}
        assert forall|k: Seq<char>| #[trigger] at_or(table_of(x), k, UsageV::zero()) == at_or(
            table_of(x),
            k,
            UsageV::zero(),
        ).plus(UsageV::zero()) by {}
        assert(table_of(x + y) =~= tables_joined(table_of(x), table_of(y)));
    } else {
        let z = y.drop_last();
        let l = y.last();
        law_grouping_together_joins_tables(x, z);
        assert(x + y =~= (x + z).push(l));
        assert(y =~= z.push(l));
        lemma_table_push(x + z, l);
        lemma_table_push(z, l);
        let a = table_of(x);
        let b = table_of(z);
        assert(tables_joined(a, b).insert(
            l.0,
            at_or(tables_joined(a, b), l.0, UsageV::zero()).plus(l.1),
        ) =~= tables_joined(a, b.insert(l.0, at_or(b, l.0, UsageV::zero()).plus(l.1))));
    }
}

/// Joins the second table into the first.
pub fn join_tables(a: &mut NameMap<Usage>, b: &NameMap<Usage>)
    requires
        old(a).wf(),
        b.wf(),
        forall|k: Seq<char>| #[trigger]
            b@.contains_key(k) ==> at_or(old(a)@, k, UsageV::zero()).plus(b@[k]).fits(),
    ensures
        final(a).wf(),
        final(a)@ == tables_joined(old(a)@, b@),
{
    let ghost before = a@;
    let ghost names = b.names();
    let n: usize = b.len();
    for i in 0..n
        invariant
            n == names.len(),
            a.wf(),
            b.wf(),
            names == b.names(),
            forall|k: Seq<char>| #[trigger]
                b@.contains_key(k) ==> at_or(before, k, UsageV::zero()).plus(b@[k]).fits(),
            forall|k: Seq<char>| #[trigger]
                a@.contains_key(k) <==> before.contains_key(k) || names.take(i as int).contains(k),
            forall|k: Seq<char>| #[trigger]
                a@.contains_key(k) ==> a@[k] == if names.take(i as int).contains(k) {
                    at_or(before, k, UsageV::zero()).plus(b@[k])
                } else {
                    before[k]
                },
    {
        let ghost name = names[i as int];
        proof {
            lemma_not_yet_taken(names, i as int);
            assert(names.take(i + 1) =~= names.take(i as int).push(name));
            assert forall|k: Seq<char>| names.take(i + 1).contains(k) <==> names.take(
                i as int,
            ).contains(k) || k == name by {
                lemma_push_contains(names.take(i as int), name, k);
            }
        }
        let v = b.value_at(i);
        let cell = a.entry(b.name_at(i), Usage::zero());
        cell.add(v);
    }
    proof {
        assert(names.take(names.len() as int) =~= names);
        lemma_plus_zero();
        assert(a@ =~= tables_joined(before, b@));
    }
}

proof fn lemma_plus_zero()
    ensures
        forall|u: UsageV| #[trigger] u.plus(UsageV::zero()) == u,
{
}

pub(crate) proof fn lemma_push_contains(s: Seq<Seq<char>>, x: Seq<char>, k: Seq<char>)
    ensures
        s.push(x).contains(k) <==> s.contains(k) || k == x,
{
    if s.contains(k) {
        let i = s.index_of(k);
        assert(s.push(x)[i] == k);
    }
    if k == x {
        assert(s.push(x)[s.len() as int] == k);
    }
    if s.push(x).contains(k) && k != x {
        let i = s.push(x).index_of(k);
        assert(s[i] == k);
    }
}

proof fn lemma_not_yet_taken(names: Seq<Seq<char>>, i: int)
    requires
        ascending(names),
        0 <= i < names.len(),
    ensures
        !names.take(i).contains(names[i]),
{
    if names.take(i).contains(names[i]) {
        let j = names.take(i).index_of(names[i]);
        assert(names[j] == names[i]);
        assert(j < i);
        assert(name_before(names[j], names[i]));
        law_names_are_ordered(names[i], names[i], names[i]);
    }
}

/// Joins the second table of spans into the first.
pub fn join_spans(a: &mut NameMap<Vec<Span>>, b: &NameMap<Vec<Span>>)
    requires
        old(a).wf(),
        b.wf(),
    ensures
        final(a).wf(),
        final(a)@ == spans_joined(old(a)@, b@),
{
    let ghost before = a@;
    let ghost names = b.names();
    let n: usize = b.len();
    for i in 0..n
        invariant
            n == names.len(),
            a.wf(),
            b.wf(),
            names == b.names(),
            forall|k: Seq<char>| #[trigger]
                a@.contains_key(k) <==> before.contains_key(k) || names.take(i as int).contains(k),
            forall|k: Seq<char>| #[trigger]
                a@.contains_key(k) ==> a@[k] == if names.take(i as int).contains(k) {
                    at_or(before, k, seq![]) + b@[k]
                } else {
                    before[k]
                },
    {
        let ghost name = names[i as int];
        proof {
            lemma_not_yet_taken(names, i as int);
            assert(names.take(i + 1) =~= names.take(i as int).push(name));
            assert forall|k: Seq<char>| names.take(i + 1).contains(k) <==> names.take(
                i as int,
            ).contains(k) || k == name by {
                lemma_push_contains(names.take(i as int), name, k);
            }
        }
        let v = b.value_at(i);
        let cell = a.entry(b.name_at(i), Vec::new());
        append_spans(cell, v);
    }
    proof {
        assert(names.take(names.len() as int) =~= names);
        assert forall|k: Seq<char>| #[trigger] a@.contains_key(k) implies a@[k] == spans_joined(
            before,
            b@,
        )[k] by {
            assert(before[k] + Seq::<Span>::empty() =~= before[k]);
        }
        assert(a@ =~= spans_joined(before, b@));
    }
}

fn append_spans(a: &mut Vec<Span>, b: &Vec<Span>)
    ensures
        final(a)@ == old(a)@ + b@,
{
    let ghost before = a@;
    for i in 0..b.len()
        invariant
            a@ == before + b@.take(i as int),
    {
        a.push(b[i]);
        assert(a@ =~= before + b@.take(i + 1));
    }
    assert(b@.take(b@.len() as int) =~= b@);
}

/// Joins the second row into the first.
pub fn join_rows(a: &mut Vec<Usage>, b: &Vec<Usage>)
    requires
        old(a)@.len() == b@.len(),
        forall|i: int| 0 <= i < b@.len() ==> (#[trigger] old(a)@[i])@.plus(b@[i]@).fits(),
    ensures
        usage_views(final(a)@) == rows_joined(usage_views(old(a)@), usage_views(b@)),
{
    let ghost before = a@;
    for i in 0..b.len()
        invariant
            a@.len() == b@.len(),
            before.len() == b@.len(),
            forall|i: int| 0 <= i < b@.len() ==> (#[trigger] before[i])@.plus(b@[i]@).fits(),
            forall|j: int| i <= j < a@.len() ==> #[trigger] a@[j] == before[j],
            forall|j: int| 0 <= j < i ==> #[trigger] a@[j]@ == before[j]@.plus(b@[j]@),
    {
        assert(a@[i as int] == before[i as int]);
        let mut cell: Usage = a[i];
        cell.add(&b[i]);
        a.set(i, cell);
    }
    assert(usage_views(a@) =~= rows_joined(usage_views(before), usage_views(b@)));
}

} // verus!
