use cc_stats::tokens::{cost_for, cost_usd, pricing, rates_for, Rates, Tokens};

fn tokens(input: u64, output: u64, w5: u64, w1: u64, read: u64) -> Tokens {
    Tokens {
        input,
        output,
        cache_create_5m: w5,
        cache_create_1h: w1,
        cache_read: read,
        iterations: 1,
    }
}

const OPUS: Rates = Rates {
    input: 1500,
    output: 7500,
    cache_write_5m: 1875,
    cache_write_1h: 3000,
    cache_read: 150,
};
const HAIKU: Rates =
    Rates { input: 100, output: 500, cache_write_5m: 125, cache_write_1h: 200, cache_read: 10 };
const SONNET: Rates =
    Rates { input: 300, output: 1500, cache_write_5m: 375, cache_write_1h: 600, cache_read: 30 };

#[test]
fn prices_go_by_family() {
    assert_eq!(pricing("vendor-OPUS-4"), OPUS);
    assert_eq!(pricing("Vendor-Haiku"), HAIKU);
    assert_eq!(pricing("vendor-sonnet-4"), SONNET);
    assert_eq!(pricing("<synthetic>"), SONNET);
    assert_eq!(pricing(""), SONNET);
    assert_eq!(pricing("haiku-or-opus"), OPUS);
    assert_eq!(rates_for("OPUS"), SONNET);
}

#[test]
fn tokens_cost_by_kind() {
    // 1M input, 2M output, 3M and 4M written, 5M read, at the dearest prices:
    // 15 + 150 + 56.25 + 120 + 7.5 = 348.75 dollars
    let t = tokens(1_000_000, 2_000_000, 3_000_000, 4_000_000, 5_000_000);
    assert_eq!(cost_usd(&t, "opus"), 34_875_000_000);
    assert_eq!(cost_usd(&tokens(1, 0, 0, 0, 0), "haiku"), 100);
    assert_eq!(cost_usd(&tokens(0, 1, 1, 1, 1), ""), 1500 + 375 + 600 + 30);
    assert_eq!(cost_for(&tokens(2, 0, 0, 0, 0), "opus"), 3000);
}

#[test]
fn the_most_tokens_can_be_priced() {
    let m = u64::MAX;
    assert_eq!(
        cost_usd(&tokens(m, m, m, m, m), "opus"),
        m as u128 * (1500 + 7500 + 1875 + 3000 + 150)
    );
}

#[test]
fn totals_and_costs_add_up() {
    let a = tokens(1, 2, 3, 4, 5);
    let mut b = tokens(10, 20, 30, 40, 50);
    assert_eq!(a.total(), 15);
    let (ca, cb) = (cost_usd(&a, "opus"), cost_usd(&b, "opus"));
    b.add(&a);
    assert_eq!(b, Tokens { iterations: 2, ..tokens(11, 22, 33, 44, 55) });
    assert_eq!(b.total(), 165);
    assert_eq!(cost_usd(&b, "opus"), ca + cb);
    assert_eq!(Tokens::default().total(), 0);
}
