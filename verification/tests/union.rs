use cc_stats::time::Instant;
use cc_stats::union::{compute_union, Span};

fn span(a_ms: i64, b_ms: i64) -> Span {
    let at = |ms: i64| {
        Instant::new(ms.div_euclid(1000), ms.rem_euclid(1000) as u32 * 1_000_000).unwrap()
    };
    Span { start: at(a_ms), end: at(b_ms) }
}

#[test]
fn no_spans_cover_nothing() {
    assert_eq!(compute_union(&vec![]), 0);
    assert_eq!(compute_union(&vec![span(5000, 5000)]), 0);
}

#[test]
fn what_overlaps_counts_once() {
    assert_eq!(compute_union(&vec![span(0, 10_000), span(5_000, 15_000)]), 15);
    assert_eq!(compute_union(&vec![span(0, 10_000), span(2_000, 3_000)]), 10);
    assert_eq!(compute_union(&vec![span(0, 10_000), span(10_000, 11_000)]), 11);
    assert_eq!(compute_union(&vec![span(0, 10_000), span(11_000, 12_000)]), 11);
    assert_eq!(compute_union(&vec![span(0, 10_000), span(0, 10_000), span(0, 4_000)]), 10);
}

#[test]
fn order_does_not_matter() {
    let a = vec![span(0, 1_500), span(1_000, 2_700), span(9_000, 9_900), span(20_000, 21_000)];
    let b = vec![span(20_000, 21_000), span(1_000, 2_700), span(9_000, 9_900), span(0, 1_500)];
    assert_eq!(compute_union(&a), 2 + 0 + 1);
    assert_eq!(compute_union(&b), compute_union(&a));
    // only what is covered matters
    let c = vec![span(0, 2_700), span(9_000, 9_400), span(9_400, 9_900), span(20_000, 21_000)];
    assert_eq!(compute_union(&c), compute_union(&a));
}

#[test]
fn whole_seconds_are_taken_of_each_run() {
    // 1.5 s and 1.5 s that meet are a run of 3 s
    assert_eq!(compute_union(&vec![span(0, 1_500), span(1_500, 3_000)]), 3);
    // apart they are 1 s each
    assert_eq!(compute_union(&vec![span(0, 1_500), span(1_501, 3_001)]), 2);
}

#[test]
fn whole_spans_cover_no_more_than_their_sum() {
    let v = vec![span(0, 4_000), span(2_000, 6_000), span(10_000, 11_000)];
    assert_eq!(compute_union(&v), 7);
    let sum: i64 = v.iter().map(|s| s.end.get_secs() - s.start.get_secs()).sum();
    assert!(compute_union(&v) as i64 <= sum);
}

#[test]
fn spans_that_run_backwards_never_count_below_zero() {
    assert_eq!(compute_union(&vec![span(10_000, 0)]), 0);
}

#[test]
fn one_more_span_never_covers_less() {
    let base = vec![span(0, 1_500), span(3_000, 4_700), span(9_000, 9_900)];
    let before = compute_union(&base);
    for a in 0..24i64 {
        for b in a..24 {
            let mut more = base.clone();
            more.push(span(a * 450, b * 450));
            assert!(compute_union(&more) >= before);
        }
    }
}

#[test]
fn a_covered_span_adds_nothing() {
    let base = vec![span(0, 1_500), span(3_000, 4_700)];
    for extra in [span(3_000, 4_700), span(3_100, 3_200), span(0, 0), span(4_700, 4_700)] {
        let mut more = base.clone();
        more.push(extra);
        assert_eq!(compute_union(&more), compute_union(&base));
    }
}

#[test]
fn whole_spans_cover_their_seconds_exactly() {
    let v = vec![span(0, 4_000), span(2_000, 6_000), span(10_000, 11_000), span(5_000, 6_000)];
    let covered = (0..20).filter(|t| {
        v.iter().any(|s| s.start.get_secs() <= *t && *t < s.end.get_secs())
    });
    assert_eq!(compute_union(&v) as usize, covered.count());
}

#[test]
fn a_leap_second_can_make_a_longer_run_shorter() {
    let at = |s: i64, n: u32| Instant::new(s, n).unwrap();
    let long = Span { start: at(60, 0), end: at(86459, 0) };
    let leap = Span { start: at(59, 1_500_000_000), end: at(60, 0) };
    assert_eq!(compute_union(&vec![long]), 86399);
    assert_eq!(compute_union(&vec![long, leap]), 86398);
}
