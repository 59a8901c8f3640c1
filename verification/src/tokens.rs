//! Token counts and what they cost.
use vstd::prelude::*;
use vstd::string::*;
use crate::text::{
    contains_text, law_a_part_occurs, law_what_occurs_stands_between, lowercase, occurs,
    to_lowercase,
};

verus! {

/// Token counts of one or more assistant turns.
#[derive(Clone, Copy, Debug, PartialEq, Eq, Structural)]
pub struct Tokens {
    pub input: u64,
    pub output: u64,
    pub cache_create_5m: u64,
    pub cache_create_1h: u64,
    pub cache_read: u64,
    /// Model calls within the turns.
    pub iterations: u64,
}

/// Token counts without a limit.
pub struct TokensV {
    pub input: int,
    pub output: int,
    pub cache_create_5m: int,
    pub cache_create_1h: int,
    pub cache_read: int,
    pub iterations: int,
}

impl TokensV {
    pub open spec fn zero() -> TokensV {
        TokensV {
            input: 0,
            output: 0,
            cache_create_5m: 0,
            cache_create_1h: 0,
            cache_read: 0,
            iterations: 0,
        }
    }

    /// The sums, count by count.
    pub open spec fn plus(self, o: TokensV) -> TokensV {
        TokensV {
            input: self.input + o.input,
            output: self.output + o.output,
            cache_create_5m: self.cache_create_5m + o.cache_create_5m,
            cache_create_1h: self.cache_create_1h + o.cache_create_1h,
            cache_read: self.cache_read + o.cache_read,
            iterations: self.iterations + o.iterations,
        }
    }

    /// No count is more than the other's.
    pub open spec fn le(self, o: TokensV) -> bool {
        &&& self.input <= o.input
        &&& self.output <= o.output
        &&& self.cache_create_5m <= o.cache_create_5m
        &&& self.cache_create_1h <= o.cache_create_1h
        &&& self.cache_read <= o.cache_read
        &&& self.iterations <= o.iterations
    }

    /// Every count can be held in a `u64`.
    pub open spec fn fits(self) -> bool {
        &&& 0 <= self.input <= u64::MAX
        &&& 0 <= self.output <= u64::MAX
        &&& 0 <= self.cache_create_5m <= u64::MAX
        &&& 0 <= self.cache_create_1h <= u64::MAX
        &&& 0 <= self.cache_read <= u64::MAX
        &&& 0 <= self.iterations <= u64::MAX
    }

    /// All tokens, model calls not counted.
    pub open spec fn total(self) -> int {
        self.input + self.output + self.cache_create_5m + self.cache_create_1h + self.cache_read
    }
}

impl View for Tokens {
    type V = TokensV;

    open spec fn view(&self) -> TokensV {
        TokensV {
            input: self.input as int,
            output: self.output as int,
            cache_create_5m: self.cache_create_5m as int,
            cache_create_1h: self.cache_create_1h as int,
            cache_read: self.cache_read as int,
            iterations: self.iterations as int,
        }
    }
}

impl Default for Tokens {
    fn default() -> (r: Tokens)
        ensures
            r@ == TokensV::zero(),
    {
        Tokens {
            input: 0,
            output: 0,
            cache_create_5m: 0,
            cache_create_1h: 0,
            cache_read: 0,
            iterations: 0,
        }
    }
}

impl Tokens {
    /// All tokens, model calls not counted.
    pub fn total(&self) -> (r: u64)
        requires
            self@.total() <= u64::MAX,
        ensures
            r == self@.total(),
    {
        self.input + self.output + self.cache_create_5m + self.cache_create_1h + self.cache_read
    }

    /// Adds the other counts to these.
    pub fn add(&mut self, o: &Tokens)
        requires
            old(self)@.plus(o@).fits(),
        ensures
            final(self)@ == old(self)@.plus(o@),
    {
        self.input = self.input + o.input;
        self.output = self.output + o.output;
        self.cache_create_5m = self.cache_create_5m + o.cache_create_5m;
        self.cache_create_1h = self.cache_create_1h + o.cache_create_1h;
        self.cache_read = self.cache_read + o.cache_read;
        self.iterations = self.iterations + o.iterations;
    }
}

/// Tokens together are as many as one by one.
pub proof fn law_totals_add_up(a: TokensV, b: TokensV)
    ensures
        a.plus(b).total() == a.total() + b.total(),
{
}

/// A token more of any kind makes the total one larger, calls make no
/// difference, and no tokens are none.
pub proof fn law_every_kind_counts_in_the_total(t: TokensV, n: int)
    ensures
        TokensV::zero().total() == 0,
        (TokensV { input: t.input + n, ..t }).total() == t.total() + n,
        (TokensV { output: t.output + n, ..t }).total() == t.total() + n,
        (TokensV { cache_create_5m: t.cache_create_5m + n, ..t }).total() == t.total() + n,
        (TokensV { cache_create_1h: t.cache_create_1h + n, ..t }).total() == t.total() + n,
        (TokensV { cache_read: t.cache_read + n, ..t }).total() == t.total() + n,
        (TokensV { iterations: n, ..t }).total() == t.total(),
{
}

/// Together there are as many tokens of each kind, and as many calls, as one by
/// one.
pub proof fn law_kinds_are_kept_apart(a: TokensV, b: TokensV)
    ensures
        a.plus(b).input == a.input + b.input,
        a.plus(b).output == a.output + b.output,
        a.plus(b).cache_create_5m == a.cache_create_5m + b.cache_create_5m,
        a.plus(b).cache_create_1h == a.cache_create_1h + b.cache_create_1h,
        a.plus(b).cache_read == a.cache_read + b.cache_read,
        a.plus(b).iterations == a.iterations + b.iterations,
{
}

/// Prices of a model, in hundredths of a US dollar for a million tokens.
#[derive(Clone, Copy, Debug, PartialEq, Eq, Structural)]
pub struct Rates {
    pub input: u64,
    pub output: u64,
    pub cache_write_5m: u64,
    pub cache_write_1h: u64,
    pub cache_read: u64,
}

/// The prices for a model name in lower case: those of the family that the
/// name holds, `opus` before `haiku`, and those of `sonnet` for any other.
pub open spec fn rates_of(lower: Seq<char>) -> Rates {
    if occurs(lower, "opus"@) {
        Rates {
            input: 1500,
            output: 7500,
            cache_write_5m: 1875,
            cache_write_1h: 3000,
            cache_read: 150,
        }
    } else if occurs(lower, "haiku"@) {
        Rates {
            input: 100,
            output: 500,
            cache_write_5m: 125,
            cache_write_1h: 200,
            cache_read: 10,
        }
    } else {
        Rates {
            input: 300,
            output: 1500,
            cache_write_5m: 375,
            cache_write_1h: 600,
            cache_read: 30,
        }
    }
}

/// The prices for a model name in lower case.
pub fn rates_for(lower: &str) -> (r: Rates)
    ensures
        r == rates_of(lower@),
{
    if contains_text(lower, "opus") {
        Rates {
            input: 1500,
            output: 7500,
            cache_write_5m: 1875,
            cache_write_1h: 3000,
            cache_read: 150,
        }
    } else if contains_text(lower, "haiku") {
        Rates {
            input: 100,
            output: 500,
            cache_write_5m: 125,
            cache_write_1h: 200,
            cache_read: 10,
        }
    } else {
        Rates {
            input: 300,
            output: 1500,
            cache_write_5m: 375,
            cache_write_1h: 600,
            cache_read: 30,
        }
    }
}

/// The prices of a model.
pub fn pricing(model: &str) -> (r: Rates)
    ensures
        r == rates_of(lowercase(model@)),
{
    rates_for(to_lowercase(model).as_str())
}

/// What tokens cost at given prices, in hundred-millionths of a US dollar.
pub open spec fn cost_at(t: TokensV, r: Rates) -> int {
    t.input * r.input + t.output * r.output + t.cache_create_5m * r.cache_write_5m
        + t.cache_create_1h * r.cache_write_1h + t.cache_read * r.cache_read
}

/// What tokens of a model cost, in hundred-millionths of a US dollar.
pub open spec fn cost_of(t: TokensV, model: Seq<char>) -> int {
    cost_at(t, rates_of(lowercase(model)))
}

/// The most that tokens can cost.
pub open spec fn cost_bound(t: TokensV) -> int {
    t.input * 1500 + t.output * 7500 + t.cache_create_5m * 1875 + t.cache_create_1h * 3000
        + t.cache_read * 150
}

/// No tokens cost less than nothing, nor more than at the dearest prices.
pub proof fn law_cost_is_bounded(t: TokensV, lower: Seq<char>)
    requires
        0 <= t.input,
        0 <= t.output,
        0 <= t.cache_create_5m,
        0 <= t.cache_create_1h,
        0 <= t.cache_read,
    ensures
        0 <= cost_at(t, rates_of(lower)) <= cost_bound(t),
{
    let r = rates_of(lower);
    assert(0 <= t.input * r.input <= t.input * 1500) by (nonlinear_arith)
        requires
            0 <= t.input,
            0 <= r.input <= 1500,
    ;
    assert(0 <= t.output * r.output <= t.output * 7500) by (nonlinear_arith)
        requires
            0 <= t.output,
            0 <= r.output <= 7500,
    ;
    assert(0 <= t.cache_create_5m * r.cache_write_5m <= t.cache_create_5m * 1875)
        by (nonlinear_arith)
        requires
            0 <= t.cache_create_5m,
            0 <= r.cache_write_5m <= 1875,
    ;
    assert(0 <= t.cache_create_1h * r.cache_write_1h <= t.cache_create_1h * 3000)
        by (nonlinear_arith)
        requires
            0 <= t.cache_create_1h,
            0 <= r.cache_write_1h <= 3000,
    ;
    assert(0 <= t.cache_read * r.cache_read <= t.cache_read * 150) by (nonlinear_arith)
        requires
            0 <= t.cache_read,
            0 <= r.cache_read <= 150,
    ;
}

/// At given prices, tokens together cost what they cost one by one.
pub proof fn law_cost_adds_up(a: TokensV, b: TokensV, r: Rates)
    ensures
        cost_at(a.plus(b), r) == cost_at(a, r) + cost_at(b, r),
{
    assert((a.input + b.input) * r.input == a.input * r.input + b.input * r.input)
        by (nonlinear_arith);
    assert((a.output + b.output) * r.output == a.output * r.output + b.output * r.output)
        by (nonlinear_arith);
    assert((a.cache_create_5m + b.cache_create_5m) * r.cache_write_5m == a.cache_create_5m
        * r.cache_write_5m + b.cache_create_5m * r.cache_write_5m) by (nonlinear_arith);
    assert((a.cache_create_1h + b.cache_create_1h) * r.cache_write_1h == a.cache_create_1h
        * r.cache_write_1h + b.cache_create_1h * r.cache_write_1h) by (nonlinear_arith);
    assert((a.cache_read + b.cache_read) * r.cache_read == a.cache_read * r.cache_read
        + b.cache_read * r.cache_read) by (nonlinear_arith);
}

/// What tokens cost at the prices of a model name in lower case.
pub fn cost_for(t: &Tokens, lower: &str) -> (r: u128)
    ensures
        r == cost_at(t@, rates_of(lower@)),
        r <= cost_bound(t@),
{
    let p = rates_for(lower);
    proof {
        law_cost_is_bounded(t@, lower@);
    }
    assert(0 <= t.input * p.input <= 18446744073709551615 * 7500) by (nonlinear_arith)
        requires
            0 <= t.input <= 18446744073709551615,
            0 <= p.input <= 7500,
    ;
    assert(0 <= t.output * p.output <= 18446744073709551615 * 7500) by (nonlinear_arith)
        requires
            0 <= t.output <= 18446744073709551615,
            0 <= p.output <= 7500,
    ;
    assert(0 <= t.cache_create_5m * p.cache_write_5m <= 18446744073709551615 * 7500)
        by (nonlinear_arith)
        requires
            0 <= t.cache_create_5m <= 18446744073709551615,
            0 <= p.cache_write_5m <= 7500,
    ;
    assert(0 <= t.cache_create_1h * p.cache_write_1h <= 18446744073709551615 * 7500)
        by (nonlinear_arith)
        requires
            0 <= t.cache_create_1h <= 18446744073709551615,
            0 <= p.cache_write_1h <= 7500,
    ;
    assert(0 <= t.cache_read * p.cache_read <= 18446744073709551615 * 7500) by (nonlinear_arith)
        requires
            0 <= t.cache_read <= 18446744073709551615,
            0 <= p.cache_read <= 7500,
    ;
    t.input as u128 * p.input as u128 + t.output as u128 * p.output as u128 + t.cache_create_5m
        as u128 * p.cache_write_5m as u128 + t.cache_create_1h as u128 * p.cache_write_1h as u128
        + t.cache_read as u128 * p.cache_read as u128
}

/// The family in a model's name decides the prices, whatever stands around it:
/// 15, 75, 18.75, 30 and 1.50 dollars for a million tokens where the name holds
/// `opus`; 1, 5, 1.25, 2 and 0.10 where it holds `haiku` and no `opus`; and 3,
/// 15, 3.75, 6 and 0.30 for any other.
pub proof fn law_the_family_decides_the_prices(a: Seq<char>, b: Seq<char>, other: Seq<char>)
    requires
        !occurs(other, "opus"@),
        !occurs(other, "haiku"@),
    ensures
        rates_of(a + "opus"@ + b) == (Rates {
            input: 1500,
            output: 7500,
            cache_write_5m: 1875,
            cache_write_1h: 3000,
            cache_read: 150,
        }),
        !occurs(a + "haiku"@ + b, "opus"@) ==> rates_of(a + "haiku"@ + b) == (Rates {
            input: 100,
            output: 500,
            cache_write_5m: 125,
            cache_write_1h: 200,
            cache_read: 10,
        }),
        rates_of(other) == (Rates {
            input: 300,
            output: 1500,
            cache_write_5m: 375,
            cache_write_1h: 600,
            cache_read: 30,
        }),
{
    law_a_part_occurs(a, "opus"@, b);
    law_a_part_occurs(a, "haiku"@, b);
}

/// What tokens of a model cost, by the family that its name holds in any case:
/// each kind of tokens at its own price.
pub proof fn law_tokens_are_priced_by_family(t: TokensV, model: Seq<char>)
    ensures
        (exists|a: Seq<char>, b: Seq<char>| lowercase(model) == #[trigger] (a + "opus"@ + b))
            ==> cost_of(t, model) == 1500 * t.input + 7500 * t.output + 1875 * t.cache_create_5m
            + 3000 * t.cache_create_1h + 150 * t.cache_read,
        !occurs(lowercase(model), "opus"@) && (exists|a: Seq<char>, b: Seq<char>|
            lowercase(model) == #[trigger] (a + "haiku"@ + b)) ==> cost_of(t, model) == 100
            * t.input + 500 * t.output + 125 * t.cache_create_5m + 200 * t.cache_create_1h + 10
            * t.cache_read,
        !occurs(lowercase(model), "opus"@) && !occurs(lowercase(model), "haiku"@) ==> cost_of(
            t,
            model,
        ) == 300 * t.input + 1500 * t.output + 375 * t.cache_create_5m + 600 * t.cache_create_1h
            + 30 * t.cache_read,
{
    law_what_occurs_stands_between(lowercase(model), "opus"@);
    law_what_occurs_stands_between(lowercase(model), "haiku"@);
    let r = rates_of(lowercase(model));
    if occurs(lowercase(model), "opus"@) {
        assert(r.input == 1500 && r.output == 7500 && r.cache_write_5m == 1875 && r.cache_write_1h
            == 3000 && r.cache_read == 150);
        assert(t.input * r.input == 1500 * t.input);
    } else if occurs(lowercase(model), "haiku"@) {
        assert(r.input == 100 && r.output == 500 && r.cache_write_5m == 125 && r.cache_write_1h
            == 200 && r.cache_read == 10);
        assert(t.input * r.input == 100 * t.input);
    } else {
        assert(r.input == 300 && r.output == 1500 && r.cache_write_5m == 375 && r.cache_write_1h
            == 600 && r.cache_read == 30);
        assert(t.input * r.input == 300 * t.input);
    }
}

/// The most that tokens can cost is what they cost where the name holds `opus`.
pub proof fn law_opus_is_the_dearest(t: TokensV)
    ensures
        cost_bound(t) == cost_at(t, rates_of("opus"@)),
{
    let none = Seq::<char>::empty();
    law_a_part_occurs(none, "opus"@, none);
    assert(none + "opus"@ + none =~= "opus"@);
    let r = rates_of("opus"@);
    assert(r.input == 1500 && r.output == 7500 && r.cache_write_5m == 1875 && r.cache_write_1h
        == 3000 && r.cache_read == 150);
    assert(t.input * r.input == 1500 * t.input);
}

/// What tokens of a model cost, in hundred-millionths of a US dollar.
pub fn cost_usd(t: &Tokens, model: &str) -> (r: u128)
    ensures
        r == cost_of(t@, model@),
        r <= cost_bound(t@),
{
    cost_for(t, to_lowercase(model).as_str())
}

} // verus!
