//! Spans of time and the wall-clock time that they cover together.
use vstd::prelude::*;
use vstd::set_lib::*;
use crate::sorting::{
    lemma_every_place_is_named, law_everything_can_be_sorted, sorted, sorted_by_places, stable_sort,
    stably_sorted, Ranked,
};
use crate::time::{elapsed, law_rank_tells_instants_apart, seconds_between, Instant};

verus! {

/// A span of time.
#[derive(Clone, Copy, Debug, PartialEq, Eq, Structural)]
pub struct Span {
    pub start: Instant,
    pub end: Instant,
}

impl Span {
    /// The whole seconds from start to end.
    pub open spec fn secs(self) -> int {
        elapsed(self.start, self.end)
    }
}

impl Ranked for Span {
    open spec fn rank(&self) -> int {
        self.start.rank()
    }

    fn ranks_after(&self, other: &Span) -> (r: bool) {
        !self.start.not_after(&other.start)
    }
}

/// The later of two instants.
pub open spec fn later(a: Instant, b: Instant) -> Instant {
    if a.rank() <= b.rank() {
        b
    } else {
        a
    }
}

/// A span that starts no later than a run ends is part of the run; any other
/// starts a run of its own.
pub open spec fn run_with(runs: Seq<Span>, s: Span) -> Seq<Span> {
    if runs.len() > 0 && s.start.rank() <= runs.last().end.rank() {
        runs.drop_last().push(
            Span { start: runs.last().start, end: later(runs.last().end, s.end) },
        )
    } else {
        runs.push(s)
    }
}

/// The unbroken runs of time that spans by start cover.
pub open spec fn runs_of(by_start: Seq<Span>) -> Seq<Span>
    decreases by_start.len(),
{
    if by_start.len() == 0 {
        seq![]
    } else {
        run_with(runs_of(by_start.drop_last()), by_start.last())
    }
}

/// The whole seconds of spans, one by one.
pub open spec fn total_secs(spans: Seq<Span>) -> int
    decreases spans.len(),
{
    if spans.len() == 0 {
        0
    } else {
        total_secs(spans.drop_last()) + spans.last().secs()
    }
}

/// The whole seconds that spans by start cover together, and 0 for less.
pub open spec fn covered_secs(by_start: Seq<Span>) -> int {
    let n = total_secs(runs_of(by_start));
    if n < 0 {
        0
    } else {
        n
    }
}

/// The whole seconds that spans cover together: what overlaps counts once.
pub open spec fn union_secs(spans: Seq<Span>) -> int {
    covered_secs(sorted(spans))
}

/// A measure that grows with time and leaves room for leap seconds.
spec fn height(t: Instant) -> int {
    t.secs() * 2_000_000_000 + t.nanos()
}

proof fn lemma_elapsed_bounds(a: Instant, b: Instant)
    requires
        a.valid(),
        b.valid(),
    ensures
        a.rank() <= b.rank() ==> elapsed(a, b) * 1_000_000_000 <= height(b) - height(a),
        a.rank() >= b.rank() ==> elapsed(a, b) <= 0,
        -20_000_000_000_000 <= elapsed(a, b) <= 20_000_000_000_000,
{
}

proof fn lemma_later_is_higher(a: Instant, b: Instant)
    requires
        a.valid(),
        b.valid(),
        a.rank() <= b.rank(),
    ensures
        height(a) <= height(b),
{
}

proof fn lemma_grown_total(run: Span, next: Instant, n: int, total: int, more: int)
    requires
        run.start.valid() && run.end.valid() && next.valid(),
        run.start.rank() <= next.rank(),
        run.end.rank() < next.rank(),
        more == elapsed(run.start, run.end),
        total * 1_000_000_000 <= height(run.start) + 20_000_000_000_000_000_000_000,
        total >= -20_000_000_000_000 * n,
    ensures
        (total + more) * 1_000_000_000 <= height(next) + 20_000_000_000_000_000_000_000,
        total + more >= -20_000_000_000_000 * (n + 1),
{
    lemma_elapsed_bounds(run.start, run.end);
    lemma_later_is_higher(run.start, next);
    lemma_later_is_higher(run.end, next);
}

/// The spans follow each other by start.
spec fn starts_ascend(by_start: Seq<Span>) -> bool {
    forall|j: int, k: int|
        0 <= j <= k < by_start.len() ==> #[trigger] by_start[j].start.rank()
            <= #[trigger] by_start[k].start.rank()
}

/// Of the first spans, the last run is the given one and the others make up the
/// total.
#[verifier::opaque]
spec fn runs_so_far(by_start: Seq<Span>, n: int, last: Span, total: int) -> bool {
    let runs = runs_of(by_start.take(n));
    &&& 0 < n <= by_start.len()
    &&& last.start.valid() && last.end.valid()
    &&& runs.len() > 0
    &&& runs.last() == last
    &&& total == total_secs(runs.drop_last())
    &&& total * 1_000_000_000 <= height(last.start) + 20_000_000_000_000_000_000_000
    &&& total >= -20_000_000_000_000 * n
    &&& last.start.rank() <= by_start[n - 1].start.rank()
}

proof fn lemma_first_run(by_start: Seq<Span>)
    requires
        by_start.len() > 0,
        by_start[0].start.valid() && by_start[0].end.valid(),
    ensures
        runs_so_far(by_start, 1, by_start[0], 0),
{
    reveal(runs_so_far);
    assert(by_start.take(1).drop_last() =~= by_start.take(0));
    assert(runs_of(by_start.take(0)) == Seq::<Span>::empty());
    assert(by_start.take(1).last() == by_start[0]);
    assert(runs_of(by_start.take(1)) =~= seq![by_start[0]]);
    assert(runs_of(by_start.take(1)).drop_last() =~= Seq::<Span>::empty());
}

proof fn lemma_joined_run(by_start: Seq<Span>, n: int, last: Span, total: int, joined: Span)
    requires
        starts_ascend(by_start),
        runs_so_far(by_start, n, last, total),
        n < by_start.len(),
        by_start[n].end.valid(),
        by_start[n].start.rank() <= last.end.rank(),
        joined.start == last.start,
        joined.end == if last.end.rank() <= by_start[n].end.rank() {
            by_start[n].end
        } else {
            last.end
        },
    ensures
        runs_so_far(by_start, n + 1, joined, total),
{
    reveal(runs_so_far);
    let s = by_start[n];
    let runs = runs_of(by_start.take(n));
    assert(by_start.take(n + 1).drop_last() =~= by_start.take(n));
    assert(by_start.take(n + 1).last() == s);
    assert(runs_of(by_start.take(n + 1)) == run_with(runs, s));
    assert(run_with(runs, s) == runs.drop_last().push(joined));
    assert(runs.drop_last().push(joined).drop_last() =~= runs.drop_last());
    assert(by_start[n - 1].start.rank() <= by_start[n].start.rank());
}

proof fn lemma_new_run(by_start: Seq<Span>, n: int, last: Span, total: int)
    requires
        starts_ascend(by_start),
        runs_so_far(by_start, n, last, total),
        n < by_start.len(),
        by_start[n].start.valid() && by_start[n].end.valid(),
        by_start[n].start.rank() > last.end.rank(),
    ensures
        runs_so_far(by_start, n + 1, by_start[n], total + elapsed(last.start, last.end)),
{
    let s = by_start[n];
    let runs = runs_of(by_start.take(n));
    assert(runs_of(by_start.take(n + 1)) == runs.push(s) && runs.push(s).drop_last() == runs) by {
        reveal(runs_so_far);
        assert(by_start.take(n + 1).drop_last() =~= by_start.take(n));
        assert(by_start.take(n + 1).last() == s);
        assert(runs.push(s).drop_last() =~= runs);
    }
    assert(total_secs(runs) == total + elapsed(last.start, last.end)) by {
        reveal(runs_so_far);
    }
    assert(last.start.valid() && last.end.valid() && last.start.rank() <= s.start.rank() && total
        * 1_000_000_000 <= height(last.start) + 20_000_000_000_000_000_000_000 && total
        >= -20_000_000_000_000 * n && 0 < n) by {
        reveal(runs_so_far);
        assert(by_start[n - 1].start.rank() <= by_start[n].start.rank());
    }
    lemma_grown_total(last, s.start, n, total, elapsed(last.start, last.end));
    reveal(runs_so_far);
}

proof fn lemma_all_runs(by_start: Seq<Span>, last: Span, total: int)
    requires
        runs_so_far(by_start, by_start.len() as int, last, total),
    ensures
        covered_secs(by_start) == if total + elapsed(last.start, last.end) < 0 {
            0
        } else {
            total + elapsed(last.start, last.end)
        },
{
    reveal(runs_so_far);
    assert(by_start.take(by_start.len() as int) =~= by_start);
}

proof fn lemma_total_is_bounded(by_start: Seq<Span>, n: int, last: Span, total: int)
    requires
        runs_so_far(by_start, n, last, total),
    ensures
        -20_000_000_000_000 * n <= total <= 40_000_000_000_000_000,
        -20_000_000_000_000 * (n + 1) <= total + elapsed(last.start, last.end)
            <= 40_000_000_000_000_000,
{
    reveal(runs_so_far);
    lemma_elapsed_bounds(last.start, last.end);
}

/// The whole seconds that spans cover together: what overlaps counts once.
pub fn compute_union(spans: &Vec<Span>) -> (r: u64)
    ensures
        r == union_secs(spans@),
{
    let mut v: Vec<Span> = spans.clone();
    assert(v@ =~= spans@);
    stable_sort(&mut v);
    let ghost by_start = v@;
    proof {
        lemma_starts_ascend(spans@, by_start);
    }
    let mut total: i128 = 0;
    let mut cur: Option<Span> = None;
    for i in 0..v.len()
        invariant
            v@ == by_start,
            starts_ascend(by_start),
            i == 0 <==> cur is None,
            i == 0 ==> total == 0,
            cur matches Some(c) ==> runs_so_far(by_start, i as int, c, total as int),
    {
        let s = v[i];
        proof {
            use_type_invariant(&s.start);
            use_type_invariant(&s.end);
        }
        cur = Some(
            match cur {
                None => {
                    proof {
                        lemma_first_run(by_start);
                    }
                    s
                },
                Some(c) => {
                    proof {
                        lemma_total_is_bounded(by_start, i as int, c, total as int);
                    }
                    if s.start.not_after(&c.end) {
                        let end = if c.end.not_after(&s.end) {
                            s.end
                        } else {
                            c.end
                        };
                        let joined = Span { start: c.start, end };
                        proof {
                            lemma_joined_run(by_start, i as int, c, total as int, joined);
                        }
                        joined
                    } else {
                        proof {
                            lemma_new_run(by_start, i as int, c, total as int);
                        }
                        total = total + seconds_between(&c.start, &c.end) as i128;
                        s
                    }
                },
            },
        );
    }
    if let Some(c) = cur {
        proof {
            lemma_all_runs(by_start, c, total as int);
            lemma_total_is_bounded(by_start, by_start.len() as int, c, total as int);
        }
        total = total + seconds_between(&c.start, &c.end) as i128;
    }
    if total < 0 {
        0
    } else {
        total as u64
    }
}

/// Spans sorted by start follow each other by start.
proof fn lemma_starts_ascend(before: Seq<Span>, by_start: Seq<Span>)
    requires
        stably_sorted(before, by_start),
    ensures
        starts_ascend(by_start),
{
    let places = choose|places: Seq<int>| sorted_by_places(before, by_start, places);
    assert forall|j: int, k: int| 0 <= j <= k < by_start.len() implies #[trigger]
        by_start[j].start.rank() <= #[trigger] by_start[k].start.rank() by {
        if j < k {
            assert(by_start[j].rank() <= by_start[k].rank());
        }
    }
}

/// A span of instants that does not run backwards.
pub open spec fn is_forward(s: Span) -> bool {
    s.start.valid() && s.end.valid() && s.start.rank() <= s.end.rank()
}

/// A way to measure time: a number for each instant.
pub type Clock = spec_fn(Instant) -> int;

/// Instants by their rank.
pub open spec fn by_rank() -> Clock {
    |t: Instant| t.rank()
}

/// Instants by nanoseconds, leap seconds left aside.
pub open spec fn by_nanos() -> Clock {
    |t: Instant| t.secs() * 1_000_000_000 + t.nanos()
}

/// The measure keeps the order of the ends of the spans.
spec fn keeps_order(clock: Clock, spans: Seq<Span>) -> bool {
    forall|i: int, j: int|
        0 <= i < spans.len() && 0 <= j < spans.len() ==> {
            let a = #[trigger] spans[i];
            let b = #[trigger] spans[j];
            &&& a.start.rank() <= b.start.rank() <==> clock(a.start) <= clock(b.start)
            &&& a.start.rank() <= b.end.rank() <==> clock(a.start) <= clock(b.end)
            &&& a.end.rank() <= b.start.rank() <==> clock(a.end) <= clock(b.start)
            &&& a.end.rank() <= b.end.rank() <==> clock(a.end) <= clock(b.end)
        }
}

/// The moments that a span covers, from its start up to its end.
pub open spec fn moments_in(clock: Clock, s: Span) -> Set<int> {
    set_int_range(clock(s.start), clock(s.end))
}

/// The moments that at least one of the spans covers.
pub open spec fn moments_covered(clock: Clock, spans: Seq<Span>) -> Set<int> {
    Set::new(
        |t: int|
            exists|i: int|
                0 <= i < spans.len() && #[trigger] moments_in(clock, spans[i]).contains(t),
    )
}

/// Spans follow each other with a gap.
pub open spec fn apart(clock: Clock, runs: Seq<Span>) -> bool {
    forall|i: int, j: int|
        0 <= i < j < runs.len() ==> clock((#[trigger] runs[i]).end) < clock(
            (#[trigger] runs[j]).start,
        )
}

/// Both ends of each run are ends of spans.
spec fn made_of_ends(runs: Seq<Span>, spans: Seq<Span>) -> bool {
    forall|i: int| 0 <= i < runs.len() ==> {
        let r = #[trigger] runs[i];
        &&& exists|j: int| 0 <= j < spans.len() && (#[trigger] spans[j]).start == r.start
        &&& exists|j: int| 0 <= j < spans.len() && (#[trigger] spans[j]).end == r.end
    }
}

proof fn lemma_runs_step(runs: Seq<Span>, spans: Seq<Span>, s: Span)
    requires
        made_of_ends(runs, spans),
    ensures
        made_of_ends(run_with(runs, s), spans.push(s)),
{
    let grown = run_with(runs, s);
    let all = spans.push(s);
    assert(all[spans.len() as int] == s);
    assert forall|i: int| 0 <= i < grown.len() implies {
        let r = #[trigger] grown[i];
        &&& exists|j: int| 0 <= j < all.len() && (#[trigger] all[j]).start == r.start
        &&& exists|j: int| 0 <= j < all.len() && (#[trigger] all[j]).end == r.end
    } by {
        if i < runs.len() {
            let r = runs[i];
            let j = choose|j: int| 0 <= j < spans.len() && (#[trigger] spans[j]).start == r.start;
            let k = choose|k: int| 0 <= k < spans.len() && (#[trigger] spans[k]).end == r.end;
            assert(all[j].start == r.start);
            assert(all[k].end == r.end);
        }
    }
}

/// What spans cover is what all but the last cover, and what the last covers.
pub(crate) proof fn lemma_covered_last(clock: Clock, spans: Seq<Span>)
    requires
        spans.len() > 0,
    ensures
        moments_covered(clock, spans) == moments_covered(clock, spans.drop_last()).union(
            moments_in(clock, spans.last()),
        ),
{
    let first = spans.drop_last();
    let a = moments_covered(clock, first);
    let b = moments_in(clock, spans.last());
    assert forall|t: int| moments_covered(clock, spans).contains(t) == a.union(b).contains(t) by {
        if a.contains(t) {
            let i = choose|i: int|
                0 <= i < first.len() && #[trigger] moments_in(clock, first[i]).contains(t);
            assert(moments_in(clock, spans[i]).contains(t));
        }
        if b.contains(t) {
            assert(moments_in(clock, spans[spans.len() - 1]).contains(t));
        }
        if moments_covered(clock, spans).contains(t) {
            let i = choose|i: int|
                0 <= i < spans.len() && #[trigger] moments_in(clock, spans[i]).contains(t);
            if i < first.len() {
                assert(moments_in(clock, first[i]).contains(t));
            }
        }
    }
    assert(moments_covered(clock, spans) =~= a.union(b));
}

proof fn lemma_run_with(clock: Clock, runs: Seq<Span>, s: Span)
    requires
        forall|i: int| 0 <= i < runs.len() ==> is_forward(#[trigger] runs[i]),
        is_forward(s),
        clock(s.start) <= clock(s.end),
        apart(clock, runs),
        runs.len() > 0 ==> {
            let last = runs.last();
            &&& clock(last.start) <= clock(s.start)
            &&& clock(last.start) <= clock(last.end)
            &&& last.start.rank() <= s.start.rank()
            &&& s.start.rank() <= last.end.rank() <==> clock(s.start) <= clock(last.end)
            &&& last.end.rank() <= s.end.rank() <==> clock(last.end) <= clock(s.end)
        },
    ensures
        run_with(runs, s).len() > 0,
        forall|i: int|
            0 <= i < run_with(runs, s).len() ==> is_forward(#[trigger] run_with(runs, s)[i]),
        apart(clock, run_with(runs, s)),
        clock(run_with(runs, s).last().start) <= clock(s.start),
        moments_covered(clock, run_with(runs, s)) == moments_covered(clock, runs).union(
            moments_in(clock, s),
        ),
{
    let grown = run_with(runs, s);
    lemma_covered_last(clock, grown);
    if runs.len() > 0 && s.start.rank() <= runs.last().end.rank() {
        let first = runs.drop_last();
        let last = runs.last();
        assert(runs[runs.len() - 1] == last);
        assert(is_forward(last));
        lemma_covered_last(clock, runs);
        assert(grown.drop_last() =~= first);
        assert(moments_in(clock, grown.last()) =~= moments_in(clock, last).union(
            moments_in(clock, s),
        ));
        assert(moments_covered(clock, grown) =~= moments_covered(clock, runs).union(
            moments_in(clock, s),
        ));
    } else {
        assert(grown.drop_last() =~= runs);
        if runs.len() > 0 {
            assert(runs[runs.len() - 1] == runs.last());
            assert forall|i: int, j: int| 0 <= i < j < grown.len() implies clock(
                (#[trigger] grown[i]).end,
            ) < clock((#[trigger] grown[j]).start) by {
                if j == runs.len() && i < runs.len() - 1 {
                    assert(clock(runs[i].end) < clock(runs[runs.len() - 1].start));
                }
            }
        }
    }
}

proof fn lemma_runs(clock: Clock, by_start: Seq<Span>)
    requires
        forall|i: int| 0 <= i < by_start.len() ==> is_forward(#[trigger] by_start[i]),
        keeps_order(clock, by_start),
        forall|j: int, k: int|
            0 <= j <= k < by_start.len() ==> #[trigger] by_start[j].start.rank()
                <= #[trigger] by_start[k].start.rank(),
    ensures
        forall|i: int|
            0 <= i < runs_of(by_start).len() ==> is_forward(#[trigger] runs_of(by_start)[i]),
        made_of_ends(runs_of(by_start), by_start),
        apart(clock, runs_of(by_start)),
        by_start.len() > 0 ==> runs_of(by_start).len() > 0 && clock(runs_of(by_start).last().start)
            <= clock(by_start.last().start),
        moments_covered(clock, runs_of(by_start)) == moments_covered(clock, by_start),
    decreases by_start.len(),
{
    if by_start.len() == 0 {
        assert(moments_covered(clock, runs_of(by_start)) =~= moments_covered(clock, by_start));
    } else {
        let first = by_start.drop_last();
        let s = by_start.last();
        assert(forall|i: int| 0 <= i < first.len() ==> first[i] == by_start[i]);
        lemma_runs(clock, first);
        let old_runs = runs_of(first);
        let runs = runs_of(by_start);
        assert(by_start =~= first.push(s));
        lemma_runs_step(old_runs, first, s);
        assert(by_start[by_start.len() - 1] == s);
        assert(is_forward(s));
        if first.len() > 0 {
            let last = old_runs.last();
            assert(old_runs[old_runs.len() - 1] == last);
            assert(is_forward(last));
            assert(first.last() == by_start[by_start.len() - 2]);
            let j = choose|j: int|
                0 <= j < first.len() && (#[trigger] first[j]).start == last.start;
            let k = choose|k: int| 0 <= k < first.len() && (#[trigger] first[k]).end == last.end;
            assert(by_start[j].start == last.start && by_start[k].end == last.end);
            assert(clock(last.start) <= clock(s.start));
            assert(s.start.rank() <= last.end.rank() <==> clock(s.start) <= clock(last.end));
            assert(last.end.rank() <= s.end.rank() <==> clock(last.end) <= clock(s.end));
            assert(clock(s.start) <= clock(s.end));
            assert(clock(last.start) <= clock(last.end));
        }
        lemma_run_with(clock, old_runs, s);
        lemma_covered_last(clock, by_start);
        assert(moments_covered(clock, runs) =~= moments_covered(clock, by_start));
    }
}

/// The lengths of spans, one by one.
pub open spec fn total_length(clock: Clock, spans: Seq<Span>) -> int
    decreases spans.len(),
{
    if spans.len() == 0 {
        0
    } else {
        total_length(clock, spans.drop_last()) + (clock(spans.last().end) - clock(
            spans.last().start,
        ))
    }
}

proof fn lemma_covered(clock: Clock, spans: Seq<Span>)
    requires
        forall|i: int|
            0 <= i < spans.len() ==> clock((#[trigger] spans[i]).start) <= clock(spans[i].end),
    ensures
        moments_covered(clock, spans).finite(),
        moments_covered(clock, spans).len() <= total_length(clock, spans),
        apart(clock, spans) ==> moments_covered(clock, spans).len() == total_length(clock, spans),
    decreases spans.len(),
{
    if spans.len() == 0 {
        assert(moments_covered(clock, spans) =~= Set::<int>::empty());
    } else {
        let first = spans.drop_last();
        let s = spans.last();
        assert(spans[spans.len() - 1] == s);
        assert(forall|i: int| 0 <= i < first.len() ==> first[i] == spans[i]);
        lemma_covered(clock, first);
        lemma_int_range(clock(s.start), clock(s.end));
        let a = moments_covered(clock, first);
        let b = moments_in(clock, s);
        lemma_covered_last(clock, spans);
        lemma_len_union(a, b);
        if apart(clock, spans) {
            assert(apart(clock, first));
            assert forall|t: int| #[trigger] a.contains(t) implies !b.contains(t) by {
                let i = choose|i: int|
                    0 <= i < first.len() && #[trigger] moments_in(clock, first[i]).contains(t);
                assert(clock(spans[i].end) < clock(spans[spans.len() - 1].start));
            }
            assert(a.disjoint(b));
            lemma_set_disjoint_lens(a, b);
        }
    }
}

/// Sorting leaves the covered moments as they are.
proof fn lemma_sorted_covers_the_same(clock: Clock, spans: Seq<Span>)
    ensures
        stably_sorted(spans, sorted(spans)),
        moments_covered(clock, sorted(spans)) == moments_covered(clock, spans),
        (forall|i: int| 0 <= i < spans.len() ==> is_forward(#[trigger] spans[i])) ==> (forall|
            i: int,
        |
            0 <= i < spans.len() ==> is_forward(#[trigger] sorted(spans)[i])),
        keeps_order(clock, spans) ==> keeps_order(clock, sorted(spans)),
        sorted(spans).len() == spans.len(),
{
    law_everything_can_be_sorted(spans);
    let by_start = sorted(spans);
    let places = choose|places: Seq<int>| sorted_by_places(spans, by_start, places);
    assert forall|t: int| moments_covered(clock, by_start).contains(t) == moments_covered(
        clock,
        spans,
    ).contains(t) by {
        if moments_covered(clock, by_start).contains(t) {
            let i = choose|i: int|
                0 <= i < by_start.len() && #[trigger] moments_in(clock, by_start[i]).contains(t);
            assert(moments_in(clock, spans[places[i]]).contains(t));
        }
        if moments_covered(clock, spans).contains(t) {
            let i = choose|i: int|
                0 <= i < spans.len() && #[trigger] moments_in(clock, spans[i]).contains(t);
            lemma_every_place_is_named(places, spans.len(), i);
            let k = choose|k: int| 0 <= k < places.len() && places[k] == i;
            assert(by_start[k] == spans[places[k]]);
            assert(moments_in(clock, by_start[k]).contains(t));
        }
    }
    assert(moments_covered(clock, by_start) =~= moments_covered(clock, spans));
    if forall|i: int| 0 <= i < spans.len() ==> is_forward(#[trigger] spans[i]) {
        assert forall|i: int| 0 <= i < spans.len() implies is_forward(#[trigger] by_start[i]) by {
            assert(by_start[i] == spans[places[i]]);
        }
    }
    if keeps_order(clock, spans) {
        assert forall|i: int, j: int|
            0 <= i < by_start.len() && 0 <= j < by_start.len() implies {
            let a = #[trigger] by_start[i];
            let b = #[trigger] by_start[j];
            &&& a.start.rank() <= b.start.rank() <==> clock(a.start) <= clock(b.start)
            &&& a.start.rank() <= b.end.rank() <==> clock(a.start) <= clock(b.end)
            &&& a.end.rank() <= b.start.rank() <==> clock(a.end) <= clock(b.start)
            &&& a.end.rank() <= b.end.rank() <==> clock(a.end) <= clock(b.end)
        } by {
            assert(by_start[i] == spans[places[i]]);
            assert(by_start[j] == spans[places[j]]);
        }
    }
}

/// The runs of spans cover exactly the moments that the spans cover, and there
/// is a gap between any two of them.
pub proof fn law_runs_cover_what_spans_cover(spans: Seq<Span>)
    requires
        forall|i: int| 0 <= i < spans.len() ==> is_forward(#[trigger] spans[i]),
    ensures
        moments_covered(by_rank(), runs_of(sorted(spans))) == moments_covered(by_rank(), spans),
        apart(by_rank(), runs_of(sorted(spans))),
        forall|i: int|
            0 <= i < runs_of(sorted(spans)).len() ==> is_forward(
                #[trigger] runs_of(sorted(spans))[i],
            ),
{
    lemma_sorted_covers_the_same(by_rank(), spans);
    lemma_starts_ascend(spans, sorted(spans));
    lemma_runs(by_rank(), sorted(spans));
}

/// A run without length covers nothing.
proof fn lemma_empty_run(runs: Seq<Span>)
    requires
        runs.len() > 0,
        runs.last().start.rank() >= runs.last().end.rank(),
    ensures
        moments_covered(by_rank(), runs) == moments_covered(by_rank(), runs.drop_last()),
{
    lemma_covered_last(by_rank(), runs);
    assert(moments_covered(by_rank(), runs) =~= moments_covered(by_rank(), runs.drop_last()));
}

/// Of runs that are apart, the last covers everything from its start on, and
/// nothing is covered just before it or from its end on.
proof fn lemma_last_run(runs: Seq<Span>, t: int)
    requires
        runs.len() > 0,
        apart(by_rank(), runs),
        forall|i: int| 0 <= i < runs.len() ==> is_forward(#[trigger] runs[i]),
        runs.last().start.rank() < runs.last().end.rank(),
    ensures
        runs.last().start.rank() <= t < runs.last().end.rank() ==> moments_covered(
            by_rank(),
            runs,
        ).contains(t),
        t >= runs.last().end.rank() ==> !moments_covered(by_rank(), runs).contains(t),
        t == runs.last().start.rank() - 1 ==> !moments_covered(by_rank(), runs).contains(t),
        moments_covered(by_rank(), runs.drop_last()).contains(t) <==> moments_covered(
            by_rank(),
            runs,
        ).contains(t) && t < runs.last().start.rank(),
{
    let n = runs.len() - 1;
    let first = runs.drop_last();
    if runs.last().start.rank() <= t < runs.last().end.rank() {
        assert(moments_in(by_rank(), runs[n]).contains(t));
    }
    if moments_covered(by_rank(), runs).contains(t) {
        let i = choose|i: int|
            0 <= i < runs.len() && #[trigger] moments_in(by_rank(), runs[i]).contains(t);
        if i < n {
            assert(by_rank()(runs[i].end) < by_rank()(runs[n].start));
            assert(moments_in(by_rank(), first[i]).contains(t));
        }
    }
    if moments_covered(by_rank(), first).contains(t) {
        let i = choose|i: int|
            0 <= i < first.len() && #[trigger] moments_in(by_rank(), first[i]).contains(t);
        assert(moments_in(by_rank(), runs[i]).contains(t));
        assert(by_rank()(runs[i].end) < by_rank()(runs[n].start));
    }
}

proof fn lemma_no_runs(runs: Seq<Span>, other: Seq<Span>)
    requires
        other.len() == 0,
        runs.len() > 0,
        runs.last().start.rank() < runs.last().end.rank(),
    ensures
        moments_covered(by_rank(), runs) != moments_covered(by_rank(), other),
{
    let t = runs.last().start.rank();
    assert(moments_in(by_rank(), runs[runs.len() - 1]).contains(t));
    assert(moments_covered(by_rank(), runs).contains(t));
    assert(!moments_covered(by_rank(), other).contains(t));
}

/// Runs that are apart and cover the same moments have the same seconds.
proof fn lemma_same_cover_same_secs(a: Seq<Span>, b: Seq<Span>)
    requires
        apart(by_rank(), a),
        apart(by_rank(), b),
        forall|i: int| 0 <= i < a.len() ==> is_forward(#[trigger] a[i]),
        forall|i: int| 0 <= i < b.len() ==> is_forward(#[trigger] b[i]),
        moments_covered(by_rank(), a) == moments_covered(by_rank(), b),
    ensures
        total_secs(a) == total_secs(b),
    decreases a.len() + b.len(),
{
    let p = a.drop_last();
    let q = b.drop_last();
    if a.len() > 0 {
        assert(forall|i: int| 0 <= i < p.len() ==> p[i] == a[i]);
        assert(is_forward(a[a.len() - 1]));
    }
    if b.len() > 0 {
        assert(forall|i: int| 0 <= i < q.len() ==> q[i] == b[i]);
        assert(is_forward(b[b.len() - 1]));
    }
    if a.len() > 0 && a.last().start.rank() == a.last().end.rank() {
        law_rank_tells_instants_apart(a.last().start, a.last().end);
        lemma_empty_run(a);
        lemma_same_cover_same_secs(p, b);
    } else if b.len() > 0 && b.last().start.rank() == b.last().end.rank() {
        law_rank_tells_instants_apart(b.last().start, b.last().end);
        lemma_empty_run(b);
        lemma_same_cover_same_secs(a, q);
    } else if a.len() == 0 && b.len() == 0 {
    } else if a.len() == 0 {
        lemma_no_runs(b, a);
    } else if b.len() == 0 {
        lemma_no_runs(a, b);
    } else {
        let x = a.last();
        let y = b.last();
        // each end is just after the last covered moment, and each start just
        // after the last moment before it that is not covered
        lemma_last_run(a, x.end.rank() - 1);
        lemma_last_run(a, y.end.rank() - 1);
        lemma_last_run(b, x.end.rank() - 1);
        lemma_last_run(b, y.end.rank() - 1);
        assert(x.end.rank() == y.end.rank());
        lemma_last_run(a, x.start.rank() - 1);
        lemma_last_run(a, y.start.rank() - 1);
        lemma_last_run(b, x.start.rank() - 1);
        lemma_last_run(b, y.start.rank() - 1);
        assert(x.start.rank() == y.start.rank());
        law_rank_tells_instants_apart(x.start, y.start);
        law_rank_tells_instants_apart(x.end, y.end);
        assert forall|t: int| moments_covered(by_rank(), p).contains(t) == moments_covered(
            by_rank(),
            q,
        ).contains(t) by {
            lemma_last_run(a, t);
            lemma_last_run(b, t);
        }
        assert(moments_covered(by_rank(), p) =~= moments_covered(by_rank(), q));
        lemma_same_cover_same_secs(p, q);
    }
}

/// Only the covered moments matter, not how spans overlap nor their order:
/// spans that cover the same moments cover as many seconds.
pub proof fn law_union_goes_by_what_is_covered(a: Seq<Span>, b: Seq<Span>)
    requires
        forall|i: int| 0 <= i < a.len() ==> is_forward(#[trigger] a[i]),
        forall|i: int| 0 <= i < b.len() ==> is_forward(#[trigger] b[i]),
        moments_covered(by_rank(), a) == moments_covered(by_rank(), b),
    ensures
        union_secs(a) == union_secs(b),
{
    law_runs_cover_what_spans_cover(a);
    law_runs_cover_what_spans_cover(b);
    lemma_same_cover_same_secs(runs_of(sorted(a)), runs_of(sorted(b)));
}

/// A span without leap seconds at its ends that does not run backwards.
pub open spec fn is_plain(s: Span) -> bool {
    is_forward(s) && s.start.nanos() < 1_000_000_000 && s.end.nanos() < 1_000_000_000
}

proof fn lemma_plain_secs(spans: Seq<Span>)
    requires
        forall|i: int| 0 <= i < spans.len() ==> is_plain(#[trigger] spans[i]),
    ensures
        0 <= total_secs(spans),
        total_secs(spans) * 1_000_000_000 <= total_length(by_nanos(), spans),
        total_length(by_nanos(), spans) <= (total_secs(spans) + spans.len()) * 1_000_000_000,
    decreases spans.len(),
{
    if spans.len() > 0 {
        assert(forall|i: int|
            0 <= i < spans.drop_last().len() ==> spans.drop_last()[i] == spans[i]);
        lemma_plain_secs(spans.drop_last());
        assert(is_plain(spans[spans.len() - 1]));
    }
}

proof fn lemma_plain_ends(runs: Seq<Span>, spans: Seq<Span>)
    requires
        made_of_ends(runs, spans),
        forall|i: int| 0 <= i < spans.len() ==> is_plain(#[trigger] spans[i]),
        forall|i: int| 0 <= i < runs.len() ==> is_forward(#[trigger] runs[i]),
    ensures
        forall|i: int| 0 <= i < runs.len() ==> is_plain(#[trigger] runs[i]),
{
    assert forall|i: int| 0 <= i < runs.len() implies is_plain(#[trigger] runs[i]) by {
        let r = runs[i];
        let j = choose|j: int| 0 <= j < spans.len() && (#[trigger] spans[j]).start == r.start;
        let k = choose|k: int| 0 <= k < spans.len() && (#[trigger] spans[k]).end == r.end;
        assert(is_plain(spans[j]) && is_plain(spans[k]));
    }
}

/// The runs of plain spans: they are plain, they cover what the spans cover,
/// and their lengths are the covered time.
proof fn lemma_plain_runs(spans: Seq<Span>)
    requires
        forall|i: int| 0 <= i < spans.len() ==> is_plain(#[trigger] spans[i]),
    ensures
        stably_sorted(spans, sorted(spans)),
        made_of_ends(runs_of(sorted(spans)), sorted(spans)),
        forall|i: int|
            0 <= i < runs_of(sorted(spans)).len() ==> is_plain(
                #[trigger] runs_of(sorted(spans))[i],
            ),
        0 <= total_secs(runs_of(sorted(spans))),
        moments_covered(by_nanos(), spans).finite(),
        moments_covered(by_nanos(), spans).len() == total_length(
            by_nanos(),
            runs_of(sorted(spans)),
        ),
{
    let clock = by_nanos();
    assert forall|i: int| 0 <= i < spans.len() implies is_forward(#[trigger] spans[i]) by {
        assert(is_plain(spans[i]));
    }
    assert(keeps_order(clock, spans)) by {
        assert forall|i: int, j: int| 0 <= i < spans.len() && 0 <= j < spans.len() implies {
            let a = #[trigger] spans[i];
            let b = #[trigger] spans[j];
            &&& a.start.rank() <= b.start.rank() <==> clock(a.start) <= clock(b.start)
            &&& a.start.rank() <= b.end.rank() <==> clock(a.start) <= clock(b.end)
            &&& a.end.rank() <= b.start.rank() <==> clock(a.end) <= clock(b.start)
            &&& a.end.rank() <= b.end.rank() <==> clock(a.end) <= clock(b.end)
        } by {
            assert(is_plain(spans[i]) && is_plain(spans[j]));
        }
    }
    let by_start = sorted(spans);
    let runs = runs_of(by_start);
    lemma_sorted_covers_the_same(clock, spans);
    lemma_starts_ascend(spans, by_start);
    lemma_runs(clock, by_start);
    let places = choose|places: Seq<int>| sorted_by_places(spans, by_start, places);
    assert forall|i: int| 0 <= i < by_start.len() implies is_plain(#[trigger] by_start[i]) by {
        assert(by_start[i] == spans[places[i]]);
    }
    lemma_plain_ends(runs, by_start);
    lemma_plain_secs(runs);
    assert forall|i: int| 0 <= i < runs.len() implies clock((#[trigger] runs[i]).start) <= clock(
        runs[i].end,
    ) by {
        assert(is_plain(runs[i]));
    }
    lemma_covered(clock, runs);
}

/// Leap seconds aside, the seconds of a union are the covered time, each
/// nanosecond of it counted once, less what is lost by taking whole seconds of
/// each run.
pub proof fn law_union_measures_the_covered_time(spans: Seq<Span>)
    requires
        forall|i: int| 0 <= i < spans.len() ==> is_plain(#[trigger] spans[i]),
    ensures
        moments_covered(by_nanos(), spans).finite(),
        union_secs(spans) * 1_000_000_000 <= moments_covered(by_nanos(), spans).len(),
        moments_covered(by_nanos(), spans).len() <= (union_secs(spans) + runs_of(
            sorted(spans),
        ).len()) * 1_000_000_000,
{
    lemma_plain_runs(spans);
    lemma_plain_secs(runs_of(sorted(spans)));
}

/// A span between whole seconds that does not run backwards.
pub open spec fn is_whole(s: Span) -> bool {
    is_forward(s) && s.start.nanos() == 0 && s.end.nanos() == 0
}

proof fn lemma_whole_secs(spans: Seq<Span>)
    requires
        forall|i: int| 0 <= i < spans.len() ==> is_whole(#[trigger] spans[i]),
    ensures
        0 <= total_secs(spans),
        total_secs(spans) * 1_000_000_000 == total_length(by_nanos(), spans),
    decreases spans.len(),
{
    if spans.len() > 0 {
        assert(forall|i: int|
            0 <= i < spans.drop_last().len() ==> spans.drop_last()[i] == spans[i]);
        lemma_whole_secs(spans.drop_last());
        assert(is_whole(spans[spans.len() - 1]));
    }
}

/// For spans between whole seconds the seconds of the union are exactly the
/// covered time, each nanosecond of it counted once.
pub proof fn law_whole_union_is_the_covered_time(spans: Seq<Span>)
    requires
        forall|i: int| 0 <= i < spans.len() ==> is_whole(#[trigger] spans[i]),
    ensures
        moments_covered(by_nanos(), spans).finite(),
        union_secs(spans) * 1_000_000_000 == moments_covered(by_nanos(), spans).len(),
{
    assert forall|i: int| 0 <= i < spans.len() implies is_plain(#[trigger] spans[i]) by {
        assert(is_whole(spans[i]));
    }
    lemma_plain_runs(spans);
    let by_start = sorted(spans);
    let runs = runs_of(by_start);
    let places = choose|places: Seq<int>| sorted_by_places(spans, by_start, places);
    assert forall|i: int| 0 <= i < runs.len() implies is_whole(#[trigger] runs[i]) by {
        let r = runs[i];
        assert(is_plain(r));
        let j = choose|j: int| 0 <= j < by_start.len() && (#[trigger] by_start[j]).start == r.start;
        let k = choose|k: int| 0 <= k < by_start.len() && (#[trigger] by_start[k]).end == r.end;
        assert(by_start[j] == spans[places[j]] && by_start[k] == spans[places[k]]);
    }
    lemma_whole_secs(runs);
}

/// The span from the earlier start to the later end.
spec fn hull(a: Span, b: Span) -> Span {
    Span {
        start: if a.start.rank() <= b.start.rank() {
            a.start
        } else {
            b.start
        },
        end: later(a.end, b.end),
    }
}

/// Runs with one more span, which joins those that it touches.
spec fn run_put(runs: Seq<Span>, s: Span) -> Seq<Span>
    decreases runs.len(),
{
    if runs.len() == 0 {
        seq![s]
    } else {
        let last = runs.last();
        if last.end.rank() < s.start.rank() {
            runs.push(s)
        } else if s.end.rank() < last.start.rank() {
            run_put(runs.drop_last(), s).push(last)
        } else {
            run_put(runs.drop_last(), hull(last, s))
        }
    }
}

/// Runs that are plain and apart.
spec fn plain_runs(runs: Seq<Span>) -> bool {
    &&& forall|i: int| 0 <= i < runs.len() ==> is_plain(#[trigger] runs[i])
    &&& apart(by_rank(), runs)
}

proof fn lemma_fewer_runs(runs: Seq<Span>)
    requires
        plain_runs(runs),
        runs.len() > 0,
    ensures
        plain_runs(runs.drop_last()),
        is_plain(runs.last()),
        forall|i: int|
            0 <= i < runs.len() - 1 ==> (#[trigger] runs.drop_last()[i]).end.rank()
                < runs.last().start.rank(),
{
    let first = runs.drop_last();
    assert(runs[runs.len() - 1] == runs.last());
    assert forall|i: int| 0 <= i < first.len() implies is_plain(#[trigger] first[i]) by {
        assert(is_plain(runs[i]));
    }
    assert forall|i: int| 0 <= i < runs.len() - 1 implies (#[trigger] first[i]).end.rank()
        < runs.last().start.rank() by {
        assert(by_rank()(runs[i].end) < by_rank()(runs[runs.len() - 1].start));
    }
    assert forall|i: int, j: int| 0 <= i < j < first.len() implies by_rank()(
        (#[trigger] first[i]).end,
    ) < by_rank()((#[trigger] first[j]).start) by {
        assert(by_rank()(runs[i].end) < by_rank()(runs[j].start));
    }
}

proof fn lemma_run_put(runs: Seq<Span>, s: Span, bound: int)
    requires
        plain_runs(runs),
        is_plain(s),
    ensures
        plain_runs(run_put(runs, s)),
        moments_covered(by_rank(), run_put(runs, s)) == moments_covered(by_rank(), runs).union(
            moments_in(by_rank(), s),
        ),
        (s.end.rank() < bound && forall|i: int|
            0 <= i < runs.len() ==> (#[trigger] runs[i]).end.rank() < bound) ==> (forall|i: int|
            0 <= i < run_put(runs, s).len() ==> (#[trigger] run_put(runs, s)[i]).end.rank()
                < bound),
    decreases runs.len(),
{
    let put = run_put(runs, s);
    let clock = by_rank();
    if runs.len() == 0 {
        lemma_covered_last(clock, put);
        assert(put.drop_last() =~= runs);
    } else {
        let first = runs.drop_last();
        let last = runs.last();
        lemma_fewer_runs(runs);
        lemma_covered_last(clock, runs);
        assert(runs[runs.len() - 1] == last);
        assert(forall|i: int| 0 <= i < first.len() ==> first[i] == runs[i]);
        if last.end.rank() < s.start.rank() {
            lemma_covered_last(clock, put);
            assert(put.drop_last() =~= runs);
            assert forall|i: int, j: int| 0 <= i < j < put.len() implies clock(
                (#[trigger] put[i]).end,
            ) < clock((#[trigger] put[j]).start) by {
                if j == runs.len() && i < runs.len() - 1 {
                    assert(first[i].end.rank() < last.start.rank());
                }
            }
        } else if s.end.rank() < last.start.rank() {
            lemma_run_put(first, s, last.start.rank());
            lemma_run_put(first, s, bound);
            let some = run_put(first, s);
            lemma_covered_last(clock, put);
            assert(put.drop_last() =~= some);
            assert(moments_covered(clock, put) =~= moments_covered(clock, runs).union(
                moments_in(clock, s),
            ));
            assert forall|i: int| 0 <= i < some.len() implies (#[trigger] some[i]).end.rank()
                < last.start.rank() by {}
            assert forall|i: int, j: int| 0 <= i < j < put.len() implies clock(
                (#[trigger] put[i]).end,
            ) < clock((#[trigger] put[j]).start) by {
                if j < some.len() {
                    assert(clock(some[i].end) < clock(some[j].start));
                } else {
                    assert(some[i].end.rank() < last.start.rank());
                }
            }
        } else {
            let both = hull(last, s);
            lemma_run_put(first, both, bound);
            assert(moments_in(clock, both) =~= moments_in(clock, last).union(
                moments_in(clock, s),
            ));
            assert(moments_covered(clock, put) =~= moments_covered(clock, runs).union(
                moments_in(clock, s),
            ));
        }
    }
}

/// The seconds of a plain span are the whole seconds of its nanoseconds.
proof fn lemma_plain_span(s: Span)
    requires
        is_plain(s),
    ensures
        by_nanos()(s.start) <= by_nanos()(s.end),
        s.secs() == (by_nanos()(s.end) - by_nanos()(s.start)) / 1_000_000_000,
{
}

/// A plain instant is not after another by rank if and only if it is not by
/// nanoseconds.
proof fn lemma_plain_order(a: Instant, b: Instant)
    requires
        a.valid() && a.nanos() < 1_000_000_000,
        b.valid() && b.nanos() < 1_000_000_000,
    ensures
        a.rank() <= b.rank() <==> by_nanos()(a) <= by_nanos()(b),
{
}

/// A span that holds two that are apart has no fewer seconds than both.
proof fn lemma_longer(outer: Span, a: Span, b: Span)
    requires
        is_plain(outer) && is_plain(a) && is_plain(b),
        outer.start.rank() <= a.start.rank(),
        a.end.rank() < b.start.rank(),
        b.end.rank() <= outer.end.rank(),
    ensures
        outer.secs() >= a.secs() + b.secs(),
{
    lemma_plain_span(outer);
    lemma_plain_span(a);
    lemma_plain_span(b);
    lemma_plain_order(outer.start, a.start);
    lemma_plain_order(a.end, b.start);
    lemma_plain_order(b.end, outer.end);
    let x = by_nanos()(a.end) - by_nanos()(a.start);
    let y = by_nanos()(b.end) - by_nanos()(b.start);
    let z = by_nanos()(outer.end) - by_nanos()(outer.start);
    assert(z >= x + y);
    assert(z / 1_000_000_000 >= x / 1_000_000_000 + y / 1_000_000_000);
}

/// A span that holds another has no fewer seconds.
proof fn lemma_no_shorter(outer: Span, a: Span)
    requires
        is_plain(outer) && is_plain(a),
        outer.start.rank() <= a.start.rank(),
        a.end.rank() <= outer.end.rank(),
    ensures
        outer.secs() >= a.secs() >= 0,
{
    lemma_plain_span(outer);
    lemma_plain_span(a);
    lemma_plain_order(outer.start, a.start);
    lemma_plain_order(a.end, outer.end);
}

/// A span that is put among runs and holds one after them keeps the seconds of
/// all of these.
proof fn lemma_put_keeps(runs: Seq<Span>, s: Span, x: Span)
    requires
        plain_runs(runs),
        is_plain(s),
        is_plain(x),
        s.start.rank() <= x.start.rank(),
        x.end.rank() <= s.end.rank(),
        runs.len() > 0 ==> runs.last().end.rank() < x.start.rank(),
    ensures
        total_secs(run_put(runs, s)) >= total_secs(runs) + x.secs(),
    decreases runs.len(),
{
    lemma_no_shorter(s, x);
    if runs.len() == 0 {
        assert(seq![s].drop_last() =~= Seq::<Span>::empty());
        assert(total_secs(Seq::<Span>::empty()) == 0);
    } else {
        let first = runs.drop_last();
        let last = runs.last();
        lemma_fewer_runs(runs);
        if last.end.rank() < s.start.rank() {
            assert(runs.push(s).drop_last() =~= runs);
        } else {
            let both = hull(last, s);
            let y = Span { start: last.start, end: x.end };
            if first.len() > 0 {
                assert(first[first.len() - 1].end.rank() < last.start.rank());
            }
            lemma_put_keeps(first, both, y);
            lemma_longer(y, last, x);
        }
    }
}

proof fn lemma_put_never_less(runs: Seq<Span>, s: Span)
    requires
        plain_runs(runs),
        is_plain(s),
    ensures
        total_secs(run_put(runs, s)) >= total_secs(runs),
    decreases runs.len(),
{
    lemma_no_shorter(s, s);
    if runs.len() == 0 {
        assert(seq![s].drop_last() =~= Seq::<Span>::empty());
        assert(total_secs(Seq::<Span>::empty()) == 0);
    } else {
        let first = runs.drop_last();
        let last = runs.last();
        lemma_fewer_runs(runs);
        if last.end.rank() < s.start.rank() {
            assert(runs.push(s).drop_last() =~= runs);
        } else if s.end.rank() < last.start.rank() {
            lemma_put_never_less(first, s);
            assert(run_put(first, s).push(last).drop_last() =~= run_put(first, s));
        } else {
            if first.len() > 0 {
                assert(first[first.len() - 1].end.rank() < last.start.rank());
            }
            lemma_put_keeps(first, hull(last, s), last);
        }
    }
}

/// One more span never makes a union smaller, leap seconds aside.
pub proof fn law_one_more_span_never_covers_less(spans: Seq<Span>, s: Span)
    requires
        forall|i: int| 0 <= i < spans.len() ==> is_plain(#[trigger] spans[i]),
        is_plain(s),
    ensures
        union_secs(spans.push(s)) >= union_secs(spans),
{
    let more = spans.push(s);
    let runs = runs_of(sorted(spans));
    assert forall|i: int| 0 <= i < more.len() implies is_plain(#[trigger] more[i]) by {
        if i < spans.len() {
            assert(is_plain(spans[i]));
        }
    }
    assert forall|i: int| 0 <= i < spans.len() implies is_forward(#[trigger] spans[i]) by {
        assert(is_plain(spans[i]));
    }
    assert forall|i: int| 0 <= i < more.len() implies is_forward(#[trigger] more[i]) by {
        assert(is_plain(more[i]));
    }
    lemma_plain_runs(spans);
    law_runs_cover_what_spans_cover(spans);
    law_runs_cover_what_spans_cover(more);
    lemma_run_put(runs, s, 0);
    lemma_covered_last(by_rank(), more);
    assert(more.drop_last() =~= spans);
    let put = run_put(runs, s);
    assert forall|i: int| 0 <= i < put.len() implies is_forward(#[trigger] put[i]) by {
        assert(is_plain(put[i]));
    }
    lemma_same_cover_same_secs(runs_of(sorted(more)), put);
    lemma_put_never_less(runs, s);
}

/// A span within another that is there already adds nothing to a union.
pub proof fn law_a_covered_span_adds_nothing(spans: Seq<Span>, s: Span, k: int)
    requires
        forall|i: int| 0 <= i < spans.len() ==> is_forward(#[trigger] spans[i]),
        is_forward(s),
        0 <= k < spans.len(),
        spans[k].start.rank() <= s.start.rank(),
        s.end.rank() <= spans[k].end.rank(),
    ensures
        union_secs(spans.push(s)) == union_secs(spans),
{
    let more = spans.push(s);
    assert forall|i: int| 0 <= i < more.len() implies is_forward(#[trigger] more[i]) by {
        if i < spans.len() {
            assert(is_forward(spans[i]));
        }
    }
    lemma_covered_last(by_rank(), more);
    assert(more.drop_last() =~= spans);
    assert forall|t: int| moments_in(by_rank(), s).contains(t) implies moments_covered(
        by_rank(),
        spans,
    ).contains(t) by {
        assert(moments_in(by_rank(), spans[k]).contains(t));
    }
    assert(moments_covered(by_rank(), more) =~= moments_covered(by_rank(), spans));
    law_union_goes_by_what_is_covered(more, spans);
}

/// Leap seconds aside, spans never cover more together than they last one by
/// one. Between whole seconds that holds of the seconds of each as well.
pub proof fn law_union_is_at_most_the_sum(spans: Seq<Span>)
    requires
        forall|i: int| 0 <= i < spans.len() ==> is_plain(#[trigger] spans[i]),
    ensures
        union_secs(spans) * 1_000_000_000 <= total_length(by_nanos(), spans),
        (forall|i: int| 0 <= i < spans.len() ==> is_whole(#[trigger] spans[i])) ==> union_secs(
            spans,
        ) <= total_secs(spans),
{
    law_union_measures_the_covered_time(spans);
    assert forall|i: int| 0 <= i < spans.len() implies by_nanos()((#[trigger] spans[i]).start)
        <= by_nanos()(spans[i].end) by {
        assert(is_plain(spans[i]));
    }
    lemma_covered(by_nanos(), spans);
    if forall|i: int| 0 <= i < spans.len() ==> is_whole(#[trigger] spans[i]) {
        lemma_whole_secs(spans);
    }
}

} // verus!
