use cc_stats::names::{compare_names, names_of, NameMap, Standing};
use cc_stats::sorting::stable_sort;
use cc_stats::report::NamedCount;
use cc_stats::usage::{group, group_slots, join_tables, Usage};

fn messages(n: u64) -> Usage {
    Usage { messages: n, ..Usage::zero() }
}

fn items(v: &[(&str, u64)]) -> Vec<(String, Usage)> {
    v.iter().map(|(k, n)| (k.to_string(), messages(*n))).collect()
}

#[test]
fn names_are_ordered_as_texts_are() {
    let all = ["", "A", "Z", "a", "aa", "ab", "b", "é", "→", "\u{10000}"];
    for (i, a) in all.iter().enumerate() {
        for (j, b) in all.iter().enumerate() {
            let expected = if i < j {
                Standing::Before
            } else if i == j {
                Standing::Same
            } else {
                Standing::After
            };
            assert!(compare_names(a, b) == expected);
            assert_eq!(a < b, i < j);
        }
    }
}

#[test]
fn a_table_keeps_its_names_in_order() {
    let mut m: NameMap<Usage> = NameMap::new();
    for k in ["m", "a", "z", "m", "b", "a"] {
        m.entry(k, Usage::zero()).messages += 1;
    }
    assert_eq!(names_of(&m), vec!["a", "b", "m", "z"]);
    assert_eq!(m.get("m").unwrap().messages, 2);
    assert!(m.get("c").is_none());
    assert_eq!(m.value_at(3).messages, 1);
}

#[test]
fn grouping_keeps_the_sum() {
    let v = items(&[("x", 1), ("y", 2), ("x", 4)]);
    let t = group(&v);
    assert_eq!(t.get("x").unwrap().messages, 5);
    assert_eq!(t.get("y").unwrap().messages, 2);
    assert_eq!((0..t.len()).map(|i| t.value_at(i).messages).sum::<u64>(), 7);
}

#[test]
fn grouping_together_joins_tables() {
    let a = items(&[("x", 1), ("y", 2)]);
    let b = items(&[("y", 3), ("z", 4)]);
    let mut both = a.clone();
    both.extend(b.clone());
    let mut joined = group(&a);
    join_tables(&mut joined, &group(&b));
    let together = group(&both);
    assert_eq!(names_of(&joined), names_of(&together));
    for i in 0..joined.len() {
        assert_eq!(joined.value_at(i), together.value_at(i));
    }
    assert_eq!(joined.get("y").unwrap().messages, 5);
}

#[test]
fn places_are_grouped_in_a_row() {
    let row = group_slots(&vec![(2, messages(1)), (0, messages(2)), (2, messages(3))], 4);
    let counts: Vec<u64> = row.iter().map(|u| u.messages).collect();
    assert_eq!(counts, vec![2, 0, 4, 0]);
}

#[test]
fn sorting_keeps_the_order_of_equals() {
    let mut v: Vec<NamedCount> = [("a", 1), ("b", 3), ("c", 1), ("d", 3), ("e", 2)]
        .iter()
        .map(|(k, n)| NamedCount { name: k.to_string(), count: *n })
        .collect();
    stable_sort(&mut v);
    let order: Vec<&str> = v.iter().map(|c| c.name.as_str()).collect();
    assert_eq!(order, vec!["b", "d", "e", "a", "c"]);
}
