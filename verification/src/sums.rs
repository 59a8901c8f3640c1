//! Sums over whole tables and rows, and how grouping, joining and updating
//! keep them.
use vstd::prelude::*;
use vstd::seq_lib::*;
use crate::names::{at_or, law_names_are_ordered, lists_names, name_before};
use crate::usage::{
    lemma_table_push, rows_joined, table_of, tables_joined, total_at, total_of, UsageV,
};

verus! {

/// The sum of an amount of each value in a table.
pub open spec fn sum_by<T>(m: Map<Seq<char>, T>, f: spec_fn(T) -> UsageV) -> UsageV
    decreases m.dom().len(),
{
    if !m.dom().finite() || m.dom().len() == 0 {
        UsageV::zero()
    } else {
        let k = m.dom().choose();
        sum_by(m.remove(k), f).plus(f(m[k]))
    }
}

/// The amount itself.
pub open spec fn whole() -> spec_fn(UsageV) -> UsageV {
    |u: UsageV| u
}

/// The sum of a table of amounts.
pub open spec fn table_sum(m: Map<Seq<char>, UsageV>) -> UsageV {
    sum_by(m, whole())
}

/// The sum of a row of amounts.
pub open spec fn row_sum(row: Seq<UsageV>) -> UsageV
    decreases row.len(),
{
    if row.len() == 0 {
        UsageV::zero()
    } else {
        row_sum(row.drop_last()).plus(row.last())
    }
}

/// A sum is what one name has and the sum of the rest.
pub proof fn lemma_sum_remove<T>(m: Map<Seq<char>, T>, f: spec_fn(T) -> UsageV, k: Seq<char>)
    requires
        m.dom().finite(),
        m.contains_key(k),
    ensures
        sum_by(m, f) == sum_by(m.remove(k), f).plus(f(m[k])),
    decreases m.dom().len(),
{
    let c = m.dom().choose();
    assert(m.dom().contains(k));
    assert(m.dom().len() > 0);
    assert(m.dom().contains(c));
    if c != k {
        let a = m.remove(c);
        let b = m.remove(k);
        lemma_sum_remove(a, f, k);
        lemma_sum_remove(b, f, c);
        assert(a.remove(k) =~= b.remove(c));
    }
}

/// What grows under one name grows the sum.
pub proof fn lemma_sum_grows<T>(
    m: Map<Seq<char>, T>,
    f: spec_fn(T) -> UsageV,
    k: Seq<char>,
    first: T,
    v: T,
    more: UsageV,
)
    requires
        m.dom().finite(),
        f(first) == UsageV::zero(),
        f(v) == f(at_or(m, k, first)).plus(more),
    ensures
        m.insert(k, v).dom().finite(),
        sum_by(m.insert(k, v), f) == sum_by(m, f).plus(more),
{
    let grown = m.insert(k, v);
    lemma_sum_remove(grown, f, k);
    if m.contains_key(k) {
        lemma_sum_remove(m, f, k);
        assert(grown.remove(k) =~= m.remove(k));
    } else {
        assert(grown.remove(k) =~= m);
    }
}

/// The sum of a table that groups amounts is the sum of the amounts.
pub proof fn law_table_keeps_the_sum(items: Seq<(Seq<char>, UsageV)>)
    ensures
        table_of(items).dom().finite(),
        table_sum(table_of(items)) == total_of(items),
    decreases items.len(),
{
    if items.len() == 0 {
        assert(table_of(items) =~= Map::empty());
    } else {
        let first = items.drop_last();
        let x = items.last();
        law_table_keeps_the_sum(first);
        assert(items =~= first.push(x));
        lemma_table_push(first, x);
        lemma_sum_grows(
            table_of(first),
            whole(),
            x.0,
            UsageV::zero(),
            at_or(table_of(first), x.0, UsageV::zero()).plus(x.1),
            x.1,
        );
    }
}

/// The sum of joined tables is the sum of both.
pub proof fn law_joined_tables_keep_the_sum(a: Map<Seq<char>, UsageV>, b: Map<Seq<char>, UsageV>)
    requires
        a.dom().finite(),
        b.dom().finite(),
    ensures
        tables_joined(a, b).dom().finite(),
        table_sum(tables_joined(a, b)) == table_sum(a).plus(table_sum(b)),
    decreases b.dom().len(),
{
    if b.dom().len() == 0 {
        assert forall|k: Seq<char>| !b.contains_key(k) by {
            if b.contains_key(k) {
                assert(b.dom().contains(k));
            }
        }
        assert(tables_joined(a, b) =~= a) by {
            assert forall|k: Seq<char>| #[trigger] a.contains_key(k) implies a[k].plus(
                UsageV::zero(),
            ) == a[k] by {}
        }
    } else {
        let k = b.dom().choose();
        let rest = b.remove(k);
        assert(b.contains_key(k));
        law_joined_tables_keep_the_sum(a, rest);
        let j = tables_joined(a, rest);
        lemma_sum_remove(b, whole(), k);
        let v = at_or(j, k, UsageV::zero()).plus(b[k]);
        assert(tables_joined(a, b) =~= j.insert(k, v)) by {
            assert forall|n: Seq<char>| #[trigger]
                tables_joined(a, b).contains_key(n) implies tables_joined(a, b)[n] == j.insert(
                k,
                v,
            )[n] by {
                if n == k {
                    assert(at_or(a, k, UsageV::zero()).plus(UsageV::zero()) == at_or(
                        a,
                        k,
                        UsageV::zero(),
                    ));
                }
            }
        }
        lemma_sum_grows(j, whole(), k, UsageV::zero(), v, b[k]);
    }
}

proof fn lemma_row_grows(row: Seq<UsageV>, i: int, more: UsageV)
    requires
        0 <= i < row.len(),
    ensures
        row_sum(row.update(i, row[i].plus(more))) == row_sum(row).plus(more),
    decreases row.len(),
{
    let grown = row.update(i, row[i].plus(more));
    if i == row.len() - 1 {
        assert(grown.drop_last() =~= row.drop_last());
    } else {
        lemma_row_grows(row.drop_last(), i, more);
        assert(grown.drop_last() =~= row.drop_last().update(i, row[i].plus(more)));
        assert(grown.last() == row.last());
    }
}

proof fn lemma_zero_row(n: nat)
    ensures
        row_sum(Seq::new(n, |i: int| UsageV::zero())) == UsageV::zero(),
    decreases n,
{
    if n > 0 {
        lemma_zero_row((n - 1) as nat);
        assert(Seq::new(n, |i: int| UsageV::zero()).drop_last() =~= Seq::new(
            (n - 1) as nat,
            |i: int| UsageV::zero(),
        ));
    }
}

/// The sum of a row that groups amounts by place is the sum of the amounts,
/// where every place is in the row.
pub proof fn law_row_keeps_the_sum(items: Seq<(int, UsageV)>, n: nat)
    requires
        forall|i: int| 0 <= i < items.len() ==> 0 <= (#[trigger] items[i]).0 < n,
    ensures
        row_sum(Seq::new(n, |s: int| total_at(items, s))) == total_of(items),
    decreases items.len(),
{
    let row = Seq::new(n, |s: int| total_at(items, s));
    if items.len() == 0 {
        assert(row =~= Seq::new(n, |i: int| UsageV::zero()));
        lemma_zero_row(n);
    } else {
        let first = items.drop_last();
        let x = items[items.len() - 1];
        assert forall|i: int| 0 <= i < first.len() implies 0 <= (#[trigger] first[i]).0 < n by {
            assert(0 <= items[i].0 < n);
        }
        law_row_keeps_the_sum(first, n);
        let before = Seq::new(n, |s: int| total_at(first, s));
        assert(row =~= before.update(x.0, before[x.0].plus(x.1)));
        lemma_row_grows(before, x.0, x.1);
    }
}

/// The sum of joined rows is the sum of both.
pub proof fn law_joined_rows_keep_the_sum(a: Seq<UsageV>, b: Seq<UsageV>)
    requires
        a.len() == b.len(),
    ensures
        row_sum(rows_joined(a, b)) == row_sum(a).plus(row_sum(b)),
    decreases a.len(),
{
    let j = rows_joined(a, b);
    if a.len() > 0 {
        law_joined_rows_keep_the_sum(a.drop_last(), b.drop_last());
        assert(j.drop_last() =~= rows_joined(a.drop_last(), b.drop_last()));
        assert(j.last() == a.last().plus(b.last()));
    }
}

/// The sum of an amount of each of some values in a table.
pub open spec fn sum_over<T>(
    m: Map<Seq<char>, T>,
    f: spec_fn(T) -> UsageV,
    names: Seq<Seq<char>>,
) -> UsageV
    decreases names.len(),
{
    if names.len() == 0 {
        UsageV::zero()
    } else {
        sum_over(m, f, names.drop_last()).plus(f(m[names.last()]))
    }
}

pub(crate) proof fn lemma_sum_over_others<T>(
    m: Map<Seq<char>, T>,
    f: spec_fn(T) -> UsageV,
    names: Seq<Seq<char>>,
    k: Seq<char>,
)
    requires
        !names.contains(k),
    ensures
        sum_over(m.remove(k), f, names) == sum_over(m, f, names),
    decreases names.len(),
{
    if names.len() > 0 {
        let first = names.drop_last();
        assert(names[names.len() - 1] != k);
        if first.contains(k) {
            let i = first.index_of(k);
            assert(names[i] == k);
        }
        lemma_sum_over_others(m, f, first, k);
    }
}

/// A sum can be taken name by name, in the order of the names.
pub proof fn lemma_sum_name_by_name<T>(
    m: Map<Seq<char>, T>,
    f: spec_fn(T) -> UsageV,
    names: Seq<Seq<char>>,
)
    requires
        lists_names(names, m),
    ensures
        m.dom().finite(),
        sum_by(m, f) == sum_over(m, f, names),
    decreases names.len(),
{
    seq_to_set_is_finite(names);
    assert(m.dom() =~= names.to_set());
    if names.len() == 0 {
        assert(m.dom() =~= Set::empty());
    } else {
        let first = names.drop_last();
        let k = names.last();
        assert(names[names.len() - 1] == k);
        assert(names.contains(k));
        assert(!first.contains(k)) by {
            if first.contains(k) {
                let i = first.index_of(k);
                assert(name_before(names[i], names[names.len() - 1]));
                law_names_are_ordered(k, k, k);
            }
        }
        let rest = m.remove(k);
        assert forall|n: Seq<char>| #[trigger] first.contains(n) <==> rest.contains_key(n) by {
            if first.contains(n) {
                let i = first.index_of(n);
                assert(names[i] == n);
                assert(names.contains(n));
            }
            if rest.contains_key(n) {
                assert(names.contains(n));
                let i = names.index_of(n);
                assert(first[i] == n);
            }
        }
        lemma_sum_name_by_name(rest, f, first);
        lemma_sum_remove(m, f, k);
        lemma_sum_over_others(m, f, first, k);
    }
}

/// No value has more than the sum, where none is below zero.
pub proof fn lemma_part_of_sum<T>(m: Map<Seq<char>, T>, f: spec_fn(T) -> UsageV, k: Seq<char>)
    requires
        m.dom().finite(),
        m.contains_key(k),
        forall|n: Seq<char>| #[trigger] m.contains_key(n) ==> UsageV::zero().le(f(m[n])),
    ensures
        f(m[k]).le(sum_by(m, f)),
        UsageV::zero().le(sum_by(m, f)),
    decreases m.dom().len(),
{
    lemma_sum_remove(m, f, k);
    let rest = m.remove(k);
    if rest.dom().len() > 0 {
        let c = rest.dom().choose();
        assert(rest.contains_key(c));
        assert forall|n: Seq<char>| #[trigger] rest.contains_key(n) implies UsageV::zero().le(
            f(rest[n]),
        ) by {
            assert(m.contains_key(n));
        }
        lemma_part_of_sum(rest, f, c);
    }
}

} // verus!
