//! Sorting that keeps the order of what ranks the same.
use vstd::prelude::*;
use vstd::set_lib::*;

verus! {

/// What has a rank by which it is sorted.
pub trait Ranked {
    spec fn rank(&self) -> int;

    /// Whether this ranks after the other.
    fn ranks_after(&self, other: &Self) -> (r: bool)
        ensures
            r == (self.rank() > other.rank()),
    ;
}

/// `places` names each place below `n` once.
pub open spec fn is_rearrangement(places: Seq<int>, n: nat) -> bool {
    &&& places.len() == n
    &&& forall|i: int| 0 <= i < n ==> 0 <= #[trigger] places[i] < n
    &&& forall|i: int, j: int| 0 <= i < j < n ==> places[i] != places[j]
}

/// `after` holds what stood in `before` at the given places, by rank, and what
/// ranks the same as it stood before.
pub open spec fn sorted_by_places<T: Ranked>(
    before: Seq<T>,
    after: Seq<T>,
    places: Seq<int>,
) -> bool {
    &&& after.len() == before.len()
    &&& is_rearrangement(places, before.len())
    &&& forall|i: int| 0 <= i < after.len() ==> #[trigger] after[i] == before[places[i]]
    &&& forall|i: int, j: int|
        0 <= i < j < after.len() ==> #[trigger] after[i].rank() < #[trigger] after[j].rank() || (
        after[i].rank() == after[j].rank() && places[i] < places[j])
}

/// `after` is `before` sorted by rank, with what ranks the same as it stood.
pub open spec fn stably_sorted<T: Ranked>(before: Seq<T>, after: Seq<T>) -> bool {
    exists|places: Seq<int>| sorted_by_places(before, after, places)
}

/// What is sorted by rank, with what ranks the same as it stood.
pub open spec fn sorted<T: Ranked>(before: Seq<T>) -> Seq<T> {
    choose|after: Seq<T>| stably_sorted(before, after)
}

/// A rearrangement names every place.
pub proof fn lemma_every_place_is_named(places: Seq<int>, n: nat, i: int)
    requires
        is_rearrangement(places, n),
        0 <= i < n,
    ensures
        exists|k: int| 0 <= k < places.len() && places[k] == i,
{
    let s = places.to_set();
    places.unique_seq_to_set();
    lemma_int_range(0, n as int);
    assert(s.subset_of(set_int_range(0, n as int)));
    lemma_subset_equality(s, set_int_range(0, n as int));
    assert(s.contains(i));
    assert(places.contains(i));
}

/// Up to a place, two ways of sorting the same agree.
proof fn lemma_sorting_agrees<T: Ranked>(
    before: Seq<T>,
    a: Seq<T>,
    p: Seq<int>,
    b: Seq<T>,
    q: Seq<int>,
    n: int,
)
    requires
        sorted_by_places(before, a, p),
        sorted_by_places(before, b, q),
        0 <= n <= before.len(),
    ensures
        forall|i: int| 0 <= i < n ==> #[trigger] p[i] == q[i],
    decreases n,
{
    if n > 0 {
        lemma_sorting_agrees(before, a, p, b, q, n - 1);
        let i = n - 1;
        if p[i] != q[i] {
            lemma_every_place_is_named(q, before.len(), p[i]);
            lemma_every_place_is_named(p, before.len(), q[i]);
            let k = choose|k: int| 0 <= k < q.len() && q[k] == p[i];
            let m = choose|m: int| 0 <= m < p.len() && p[m] == q[i];
            if k < i {
                assert(p[k] == q[k]);
            }
            if m < i {
                assert(p[m] == q[m]);
            }
            assert(a[i] == before[p[i]] && b[k] == before[q[k]]);
            assert(b[i] == before[q[i]] && a[m] == before[p[m]]);
            assert(b[i].rank() < b[k].rank() || (b[i].rank() == b[k].rank() && q[i] < q[k]));
            assert(a[i].rank() < a[m].rank() || (a[i].rank() == a[m].rank() && p[i] < p[m]));
        }
    }
}

/// There is one way only to sort by rank and keep the order of what ranks the
/// same.
pub proof fn law_sorting_is_unique<T: Ranked>(before: Seq<T>, after: Seq<T>)
    requires
        stably_sorted(before, after),
    ensures
        after == sorted(before),
{
    let other = sorted(before);
    assert(stably_sorted(before, other));
    let p = choose|p: Seq<int>| sorted_by_places(before, after, p);
    let q = choose|q: Seq<int>| sorted_by_places(before, other, q);
    lemma_sorting_agrees(before, after, p, other, q, before.len() as int);
    assert forall|i: int| 0 <= i < after.len() implies after[i] == other[i] by {
        assert(p[i] == q[i]);
        assert(after[i] == before[p[i]]);
        assert(other[i] == before[q[i]]);
    }
    assert(after =~= other);
}

/// The first `n` of `v` are sorted; the rest stand where they stood.
spec fn sorted_up_to<T: Ranked>(before: Seq<T>, v: Seq<T>, places: Seq<int>, n: int) -> bool {
    &&& v.len() == before.len()
    &&& 0 <= n <= v.len()
    &&& is_rearrangement(places, before.len())
    &&& forall|i: int| 0 <= i < v.len() ==> #[trigger] v[i] == before[places[i]]
    &&& forall|i: int| n <= i < v.len() ==> #[trigger] places[i] == i
    &&& forall|i: int| 0 <= i < n ==> #[trigger] places[i] < n
    &&& forall|i: int, j: int|
        0 <= i < j < n ==> #[trigger] v[i].rank() < #[trigger] v[j].rank() || (v[i].rank()
            == v[j].rank() && places[i] < places[j])
}

proof fn lemma_step<T: Ranked>(
    before: Seq<T>,
    v: Seq<T>,
    places: Seq<int>,
    n: int,
    to: int,
)
    requires
        sorted_up_to(before, v, places, n),
        n < v.len(),
        0 <= to <= n,
        forall|k: int| to <= k < n ==> #[trigger] v[k].rank() > v[n].rank(),
        to > 0 ==> v[to - 1].rank() <= v[n].rank(),
    ensures
        sorted_up_to(
            before,
            v.remove(n).insert(to, v[n]),
            places.remove(n).insert(to, n),
            n + 1,
        ),
{
    let w = v.remove(n).insert(to, v[n]);
    let q = places.remove(n).insert(to, n);
    let from = |k: int|
        if k < to || k > n {
            k
        } else if k == to {
            n
        } else {
            k - 1
        };
    assert forall|k: int| 0 <= k < w.len() implies #[trigger] w[k] == v[from(k)] && q[k]
        == places[from(k)] by {}
    assert forall|i: int| 0 <= i < w.len() implies #[trigger] w[i] == before[q[i]] by {
        assert(v[from(i)] == before[places[from(i)]]);
    }
    assert forall|i: int| 0 <= i < w.len() implies 0 <= #[trigger] q[i] < w.len() by {
        assert(w[i] == v[from(i)]);
        assert(0 <= places[from(i)] < w.len());
    }
    assert forall|i: int, j: int| 0 <= i < j < w.len() implies q[i] != q[j] by {
        assert(w[i] == v[from(i)] && w[j] == v[from(j)]);
        assert(from(i) != from(j));
        assert(places[from(i)] != places[from(j)]);
    }
    assert forall|i: int| n + 1 <= i < w.len() implies #[trigger] q[i] == i by {
        assert(w[i] == v[from(i)]);
    }
    assert forall|i: int| 0 <= i < n + 1 implies #[trigger] q[i] < n + 1 by {
        assert(w[i] == v[from(i)]);
        if i != to {
            assert(places[from(i)] < n);
        }
    }
    assert forall|i: int, j: int| 0 <= i < j < n + 1 implies #[trigger] w[i].rank()
        < #[trigger] w[j].rank() || (w[i].rank() == w[j].rank() && q[i] < q[j]) by {
        assert(w[i] == v[from(i)] && w[j] == v[from(j)]);
        if i == to {
            assert(v[j - 1].rank() > v[n].rank());
        } else if j == to {
            if i < to - 1 {
                assert(v[i].rank() < v[to - 1].rank() || (v[i].rank() == v[to - 1].rank()
                    && places[i] < places[to - 1]));
            }
            assert(places[i] < n);
        } else {
            assert(v[from(i)].rank() < v[from(j)].rank() || (v[from(i)].rank() == v[from(j)].rank()
                && places[from(i)] < places[from(j)]));
        }
    }
}

/// The place before which nothing ranks after what stands at `n`, and from
/// which everything does.
proof fn lemma_place_to_insert<T: Ranked>(v: Seq<T>, n: int, from: int) -> (to: int)
    requires
        0 <= from <= n < v.len(),
        forall|k: int| from <= k < n ==> #[trigger] v[k].rank() > v[n].rank(),
    ensures
        0 <= to <= n,
        forall|k: int| to <= k < n ==> #[trigger] v[k].rank() > v[n].rank(),
        to > 0 ==> v[to - 1].rank() <= v[n].rank(),
    decreases from,
{
    if from > 0 && v[from - 1].rank() > v[n].rank() {
        lemma_place_to_insert(v, n, from - 1)
    } else {
        from
    }
}

proof fn lemma_sort_some<T: Ranked>(before: Seq<T>, n: int) -> (r: (Seq<T>, Seq<int>))
    requires
        0 <= n <= before.len(),
    ensures
        sorted_up_to(before, r.0, r.1, n),
    decreases n,
{
    if n == 0 {
        (before, Seq::new(before.len(), |i: int| i))
    } else {
        let (v, places) = lemma_sort_some(before, n - 1);
        let to = lemma_place_to_insert(v, n - 1, n - 1);
        lemma_step(before, v, places, n - 1, to);
        (v.remove(n - 1).insert(to, v[n - 1]), places.remove(n - 1).insert(to, n - 1))
    }
}

/// Everything can be sorted.
pub proof fn law_everything_can_be_sorted<T: Ranked>(before: Seq<T>)
    ensures
        stably_sorted(before, sorted(before)),
{
    let (v, places) = lemma_sort_some(before, before.len() as int);
    assert(sorted_by_places(before, v, places));
    assert(stably_sorted(before, v));
}

/// What is sorted is all there, lower ranks first.
pub proof fn law_sorting_keeps_everything<T: Ranked>(before: Seq<T>)
    ensures
        sorted(before).len() == before.len(),
        forall|x: T| #[trigger] sorted(before).contains(x) <==> before.contains(x),
        forall|i: int, j: int|
            0 <= i <= j < before.len() ==> #[trigger] sorted(before)[i].rank()
                <= #[trigger] sorted(before)[j].rank(),
{
    law_everything_can_be_sorted(before);
    let after = sorted(before);
    let places = choose|places: Seq<int>| sorted_by_places(before, after, places);
    assert forall|x: T| #[trigger] after.contains(x) <==> before.contains(x) by {
        if after.contains(x) {
            let i = after.index_of(x);
            assert(after[i] == before[places[i]]);
        }
        if before.contains(x) {
            let i = before.index_of(x);
            lemma_every_place_is_named(places, before.len(), i);
            let k = choose|k: int| 0 <= k < places.len() && places[k] == i;
            assert(after[k] == x);
        }
    }
}

/// What is in order already stays as it is, however much of it ranks the same.
pub proof fn law_sorting_leaves_order_alone<T: Ranked>(before: Seq<T>)
    requires
        forall|i: int, j: int|
            0 <= i <= j < before.len() ==> #[trigger] before[i].rank()
                <= #[trigger] before[j].rank(),
    ensures
        sorted(before) == before,
{
    let places = Seq::new(before.len(), |i: int| i);
    assert(sorted_by_places(before, before, places));
    law_sorting_is_unique(before, before);
}

/// Sorts by rank; what ranks the same stays in its order.
pub fn stable_sort<T: Ranked>(v: &mut Vec<T>)
    ensures
        stably_sorted(old(v)@, final(v)@),
        final(v)@ == sorted(old(v)@),
{
    let ghost before = v@;
    let ghost mut places = Seq::new(v@.len(), |i: int| i);
    let mut n: usize = 0;
    while n < v.len()
        invariant
            sorted_up_to(before, v@, places, n as int),
        decreases v.len() - n,
    {
        let mut to: usize = n;
        while to > 0 && v[to - 1].ranks_after(&v[n])
            invariant
                to <= n < v.len(),
                forall|k: int| to <= k < n ==> #[trigger] v@[k].rank() > v@[n as int].rank(),
            ensures
                to <= n,
                forall|k: int| to <= k < n ==> #[trigger] v@[k].rank() > v@[n as int].rank(),
                to > 0 ==> v@[to - 1].rank() <= v@[n as int].rank(),
            decreases to,
        {
            to -= 1;
        }
        proof {
            lemma_step(before, v@, places, n as int, to as int);
            places = places.remove(n as int).insert(to as int, n as int);
        }
        if to < n {
            let x = v.remove(n);
            v.insert(to, x);
        } else {
            assert(v@.remove(n as int).insert(n as int, v@[n as int]) =~= v@);
        }
        n += 1;
    }
    proof {
        assert(sorted_by_places(before, v@, places));
        law_sorting_is_unique(before, v@);
    }
}

} // verus!
