//! What recorded usage would have cost at the list prices of the API.
//!
//! Rates are whole thousandths of a dollar per million tokens, so the price of a
//! number of tokens is a whole number of billionths of a dollar, and every cost
//! here is exact. Shown is the double nearest to it.
//!
//! The token classes are priced differently, cache writes again by how long they
//! live, so they are never summed before they are priced.

use vstd::arithmetic::div_mod::*;
use vstd::arithmetic::power2::*;
use vstd::prelude::*;
use vstd::string::*;

use crate::double;
use crate::double::{push_fixed, quotient, Double, CENT, SIGN};
use crate::text;
use crate::text::{chars_of, has_prefix, push_groups, same_text, string_of};

verus! {

/// Thousandths of a dollar per million tokens.
#[derive(Debug, Clone, Copy, PartialEq, Eq, Structural)]
pub struct Rates {
    pub input: u64,
    pub cache_write_5m: u64,
    pub cache_write_1h: u64,
    pub cache_read: u64,
    pub output: u64,
}

/// What some tokens would have cost, in billionths of a dollar.
#[derive(Debug, Clone, Copy, PartialEq, Eq, Structural)]
pub struct Cost {
    pub input: i128,
    pub output: i128,
    pub cache_write: i128,
    pub cache_read: i128,
}

impl Default for Cost {
    fn default() -> (r: Self)
        ensures
            r == (Cost { input: 0, output: 0, cache_write: 0, cache_read: 0 }),
    {
        Cost { input: 0, output: 0, cache_write: 0, cache_read: 0 }
    }
}

impl Cost {
    /// Everything together.
    pub open spec fn sum(self) -> int {
        self.input + self.output + self.cache_write + self.cache_read
    }

    /// Small enough that two of them can be added and summed up.
    pub open spec fn moderate(self) -> bool {
        &&& -0x0fff_ffff_ffff_ffff_ffff_ffff_ffff_ffff <= self.input
            <= 0x0fff_ffff_ffff_ffff_ffff_ffff_ffff_ffff
        &&& -0x0fff_ffff_ffff_ffff_ffff_ffff_ffff_ffff <= self.output
            <= 0x0fff_ffff_ffff_ffff_ffff_ffff_ffff_ffff
        &&& -0x0fff_ffff_ffff_ffff_ffff_ffff_ffff_ffff <= self.cache_write
            <= 0x0fff_ffff_ffff_ffff_ffff_ffff_ffff_ffff
        &&& -0x0fff_ffff_ffff_ffff_ffff_ffff_ffff_ffff <= self.cache_read
            <= 0x0fff_ffff_ffff_ffff_ffff_ffff_ffff_ffff
    }

    /// Everything together.
    pub fn total(&self) -> (r: i128)
        requires
            self.moderate(),
        ensures
            r == self.sum(),
    {
        self.input + self.output + self.cache_write + self.cache_read
    }

    /// Adds another cost, class by class.
    pub fn add(&mut self, other: Cost)
        requires
            old(self).moderate(),
            other.moderate(),
        ensures
            final(self).input == old(self).input + other.input,
            final(self).output == old(self).output + other.output,
            final(self).cache_write == old(self).cache_write + other.cache_write,
            final(self).cache_read == old(self).cache_read + other.cache_read,
            final(self).sum() == old(self).sum() + other.sum(),
    {
        self.input = self.input + other.input;
        self.output = self.output + other.output;
        self.cache_write = self.cache_write + other.cache_write;
        self.cache_read = self.cache_read + other.cache_read;
    }
}

/// The date that some ids carry at their end.
pub const DATE_SUFFIX: &'static str = "-20251001";

/// The id without the date at its end.
pub open spec fn undated(model: Seq<char>) -> Seq<char> {
    let n = model.len() - DATE_SUFFIX@.len();
    if n >= 0 && model.skip(n) == DATE_SUFFIX@ {
        model.take(n)
    } else {
        model
    }
}

/// Cache writes cost 1.25 times the input where they live five minutes, and
/// twice the input where they live an hour.
pub open spec fn rates(input: nat, cache_read: nat, output: nat) -> Rates {
    Rates {
        input: input as u64,
        cache_write_5m: (input * 5 / 4) as u64,
        cache_write_1h: (input * 2) as u64,
        cache_read: cache_read as u64,
        output: output as u64,
    }
}

/// The list prices, by what follows the vendor in an id.
pub open spec fn listed_name(id: Seq<char>) -> Option<Rates> {
    if id == "fable-5-1"@ || id == "mythos-5-1"@ {
        Some(rates(10_000, 250, 50_000))
    } else if id == "fable-5"@ || id == "mythos-5"@ {
        Some(rates(10_000, 1_000, 50_000))
    } else if id == "opus-5"@ || id == "opus-4-8"@ || id == "opus-4-7"@ || id
        == "opus-4-6"@ || id == "opus-4-5"@ {
        Some(rates(5_000, 500, 25_000))
    } else if id == "opus-4-1"@ || id == "opus-4"@ {
        Some(rates(15_000, 1_500, 75_000))
    } else if id == "sonnet-5"@ {
        Some(rates(2_000, 200, 10_000))
    } else if id == "sonnet-4-6"@ || id == "sonnet-4-5"@ || id
        == "sonnet-4"@ {
        Some(rates(3_000, 300, 15_000))
    } else if id == "haiku-4-5"@ {
        Some(rates(1_000, 100, 5_000))
    } else if id == "haiku-3-5"@ {
        Some(rates(800, 80, 4_000))
    } else {
        None
    }
}

/// The list prices of a vendor's models. `vendor` is what each of its ids begins
/// with.
pub open spec fn listed(id: Seq<char>, vendor: Seq<char>) -> Option<Rates> {
    if text::begins_with(id, vendor) {
        listed_name(id.skip(vendor.len() as int))
    } else {
        None
    }
}

fn rates_from(input: u64, cache_read: u64, output: u64) -> (r: Rates)
    requires
        input <= 1_000_000,
    ensures
        r == rates(input as nat, cache_read as nat, output as nat),
{
    Rates {
        input,
        cache_write_5m: input * 5 / 4,
        cache_write_1h: input * 2,
        cache_read,
        output,
    }
}

fn without_date(model: &str) -> (r: String)
    ensures
        r@ == undated(model@),
{
    let chars = chars_of(model);
    let suffix = chars_of(DATE_SUFFIX);
    if chars.len() < suffix.len() {
        return model.to_owned();
    }
    let n = chars.len() - suffix.len();
    let end = string_of(&chars, n, chars.len());
    assert(end@ =~= model@.skip(n as int));
    if same_text(end.as_str(), DATE_SUFFIX) {
        let id = string_of(&chars, 0, n);
        assert(id@ =~= model@.take(n as int));
        id
    } else {
        model.to_owned()
    }
}

/// The rates of a model id as a transcript records it. An id that is not listed
/// has none: its tokens are to be reported as unpriced, not valued at nothing.
pub fn rates_for(model: &str, vendor: &str) -> (r: Option<Rates>)
    ensures
        r == listed(undated(model@), vendor@),
{
    let id = chars_of(without_date(model).as_str());
    let prefix = chars_of(vendor);
    if !has_prefix(&id, &prefix) {
        return None;
    }
    let name = string_of(&id, prefix.len(), id.len());
    assert(name@ =~= undated(model@).skip(vendor@.len() as int));
    let id = name.as_str();
    if same_text(id, "fable-5-1") || same_text(id, "mythos-5-1") {
        Some(rates_from(10_000, 250, 50_000))
    } else if same_text(id, "fable-5") || same_text(id, "mythos-5") {
        Some(rates_from(10_000, 1_000, 50_000))
    } else if same_text(id, "opus-5") || same_text(id, "opus-4-8") || same_text(
        id,
        "opus-4-7",
    ) || same_text(id, "opus-4-6") || same_text(id, "opus-4-5") {
        Some(rates_from(5_000, 500, 25_000))
    } else if same_text(id, "opus-4-1") || same_text(id, "opus-4") {
        Some(rates_from(15_000, 1_500, 75_000))
    } else if same_text(id, "sonnet-5") {
        Some(rates_from(2_000, 200, 10_000))
    } else if same_text(id, "sonnet-4-6") || same_text(id, "sonnet-4-5")
        || same_text(id, "sonnet-4") {
        Some(rates_from(3_000, 300, 15_000))
    } else if same_text(id, "haiku-4-5") {
        Some(rates_from(1_000, 100, 5_000))
    } else if same_text(id, "haiku-3-5") {
        Some(rates_from(800, 80, 4_000))
    } else {
        None
    }
}

/// The tokens of one request, by class.
pub ghost struct Counts {
    pub input: int,
    pub output: int,
    pub cache_1h: int,
    pub cache_5m: int,
    pub cache_read: int,
}

/// What the tokens cost at some rates: tokens times thousandths of a dollar per
/// million are billionths of a dollar.
pub open spec fn priced(c: Counts, r: Rates) -> (int, int, int, int) {
    (
        c.input * r.input,
        c.output * r.output,
        c.cache_1h * r.cache_write_1h + c.cache_5m * r.cache_write_5m,
        c.cache_read * r.cache_read,
    )
}

fn times(tokens: i64, rate: u64) -> (r: i128)
    requires
        rate <= 1_000_000,
    ensures
        r == tokens * rate,
        -0x1_0000_0000_0000_0000_0000_0000 <= r <= 0x1_0000_0000_0000_0000_0000_0000,
{
    proof {
        assert(-0x1_0000_0000_0000_0000_0000_0000 <= tokens * rate
            <= 0x1_0000_0000_0000_0000_0000_0000) by (nonlinear_arith)
            requires
                -0x8000_0000_0000_0000 <= tokens <= 0x8000_0000_0000_0000,
                0 <= rate <= 1_000_000,
        ;
    }
    tokens as i128 * rate as i128
}

/// What the tokens of a request would have cost, if the model is listed.
pub fn cost_of(
    model: &str,
    vendor: &str,
    input: i64,
    output: i64,
    cache_1h: i64,
    cache_5m: i64,
    cache_read: i64,
) -> (r: Option<Cost>)
    ensures
        r is Some <==> listed(undated(model@), vendor@) is Some,
        r matches Some(c) ==> c.moderate() && (
            c.input as int,
            c.output as int,
            c.cache_write as int,
            c.cache_read as int,
        ) == priced(
            Counts {
                input: input as int,
                output: output as int,
                cache_1h: cache_1h as int,
                cache_5m: cache_5m as int,
                cache_read: cache_read as int,
            },
            listed(undated(model@), vendor@)->0,
        ),
{
    match rates_for(model, vendor) {
        Some(r) => Some(
            Cost {
                input: times(input, r.input),
                output: times(output, r.output),
                cache_write: times(cache_1h, r.cache_write_1h) + times(cache_5m, r.cache_write_5m),
                cache_read: times(cache_read, r.cache_read),
            },
        ),
        None => None,
    }
}

/// The size of an amount.
pub open spec fn size(amount: int) -> nat {
    if amount < 0 {
        (-amount) as nat
    } else {
        amount as nat
    }
}

/// An amount of billionths of a dollar in dollars: the nearest double.
pub fn dollars(amount: i128) -> (r: Double)
    ensures
        r.exponent() < double::SPECIAL,
        r.units() == double::nearest(size(amount as int) * double::one(), 1_000_000_000),
        r.negative() <==> amount < 0,
        r.is_zero() <==> amount == 0,
{
    let size: u128 = if amount < 0 {
        (-(amount + 1)) as u128 + 1
    } else {
        amount as u128
    };
    let r = quotient(size, 1_000_000_000);
    if amount < 0 {
        let signed = Double { bits: r.bits + SIGN };
        proof {
            assert(signed.magnitude() == r);
            double::magnitude_keeps_the_size(signed);
            assert((signed.bits / double::FRACTION) % 2048 == (r.bits / double::FRACTION) % 2048);
        }
        signed
    } else {
        r
    }
}

/// A number with two digits behind the point and commas between its thousands. A
/// tie goes to the even digit.
pub open spec fn with_commas(x: Double) -> Seq<char> {
    if x.is_nan() {
        "NaN"@
    } else {
        (if x.negative() {
            seq!['-']
        } else {
            Seq::empty()
        }) + (if x.is_infinite() {
            "inf"@
        } else {
            cents_text(double::half_even(x.units() * 100, double::one()))
        })
    }
}

/// So many hundredths, with commas.
pub open spec fn cents_text(cents: nat) -> Seq<char> {
    text::grouped(text::dec(cents / 100), ',') + seq!['.'] + text::dec_padded(cents % 100, 2)
}

/// An amount of dollars: with four digits behind the point below a cent, and with
/// two, and commas, from there on.
pub open spec fn usd_text(amount: Double) -> Seq<char> {
    if amount.is_zero() {
        "$0.00"@
    } else if amount.magnitude().less_than(Double { bits: CENT }) {
        seq!['$'] + double::fixed(amount, 4)
    } else {
        seq!['$'] + with_commas(amount)
    }
}

fn push_with_commas(out: &mut String, x: Double)
    ensures
        final(out)@ == old(out)@ + with_commas(x),
{
    if x.nan() {
        out.append("NaN");
        return;
    }
    if x.below_zero() {
        out.push('-');
    }
    if x.infinite() {
        out.append("inf");
        assert(out@ =~= old(out)@ + with_commas(x));
        return;
    }
    let mut plain = String::new();
    push_fixed(&mut plain, x.abs(), 2);
    let v = chars_of(plain.as_str());
    let ghost cents = double::half_even(x.units() * 100, double::one());
    proof {
        double::magnitude_keeps_the_size(x);
        reveal_with_fuel(double::ten_to, 3);
        reveal_with_fuel(text::fits, 3);
        text::padded_steps(cents % 100, 2);
        text::padded_steps(cents % 100 / 10, 1);
        assert(v@ =~= text::dec(cents / 100) + seq!['.'] + text::dec_padded(cents % 100, 2));
        assert(text::dec_padded(cents % 100, 2).len() == 2);
    }
    let n: usize = v.len() - 3;
    assert(v@.take(n as int) =~= text::dec(cents / 100));
    push_groups(out, &v, n, ',');
    out.push(v[n]);
    out.push(v[n + 1]);
    out.push(v[n + 2]);
    assert(out@ =~= old(out)@ + with_commas(x));
}

/// An amount as dollars: `$1,234.56`, or `$0.0012` where it would otherwise round
/// to nothing.
pub fn format_usd(amount: Double) -> (r: String)
    ensures
        r@ == usd_text(amount),
{
    let mut out = String::new();
    if amount.zero() {
        out.append("$0.00");
        assert(out@ =~= usd_text(amount));
        return out;
    }
    out.push('$');
    if amount.abs().below(Double { bits: CENT }) {
        push_fixed(&mut out, amount, 4);
    } else {
        push_with_commas(&mut out, amount);
    }
    assert(out@ =~= usd_text(amount));
    out
}

// ---------------------------------------------------------------------------
// Laws
// ---------------------------------------------------------------------------

/// An id with a date has the rates of the id without it. An id that ends in the
/// date already does not count: only one date is taken off.
pub proof fn law_dated_ids_have_the_same_rates(id: Seq<char>, vendor: Seq<char>)
    requires
        undated(id) == id,
    ensures
        listed(undated(id + DATE_SUFFIX@), vendor) == listed(undated(id), vendor),
{
    let dated = id + DATE_SUFFIX@;
    assert(dated.skip(id.len() as int) =~= DATE_SUFFIX@);
    assert(dated.take(id.len() as int) =~= id);
}

/// The models whose cache reads are discounted further.
pub open spec fn discounted(id: Seq<char>, vendor: Seq<char>) -> bool {
    let name = id.skip(vendor.len() as int);
    name == "fable-5-1"@ || name == "mythos-5-1"@
}

/// Of every listed model a cache write costs 1.25 times the input for five
/// minutes and twice the input for an hour, and a read a tenth of the input, or a
/// fortieth where it is discounted.
pub proof fn law_cache_rates_follow_the_input_rate(id: Seq<char>, vendor: Seq<char>)
    requires
        listed(id, vendor) is Some,
    ensures
        4 * listed(id, vendor)->0.cache_write_5m == 5 * listed(id, vendor)->0.input,
        listed(id, vendor)->0.cache_write_1h == 2 * listed(id, vendor)->0.input,
        listed(id, vendor)->0.input == (if discounted(id, vendor) {
            40 * listed(id, vendor)->0.cache_read
        } else {
            10 * listed(id, vendor)->0.cache_read
        }),
        listed(id, vendor)->0.input < listed(id, vendor)->0.output,
{
}

/// Pricing two requests apart or together comes to the same, class by class.
pub proof fn law_costs_add_up(a: Counts, b: Counts, r: Rates)
    ensures
        ({
            let both = Counts {
                input: a.input + b.input,
                output: a.output + b.output,
                cache_1h: a.cache_1h + b.cache_1h,
                cache_5m: a.cache_5m + b.cache_5m,
                cache_read: a.cache_read + b.cache_read,
            };
            &&& priced(both, r).0 == priced(a, r).0 + priced(b, r).0
            &&& priced(both, r).1 == priced(a, r).1 + priced(b, r).1
            &&& priced(both, r).2 == priced(a, r).2 + priced(b, r).2
            &&& priced(both, r).3 == priced(a, r).3 + priced(b, r).3
        }),
{
    assert((a.input + b.input) * r.input == a.input * r.input + b.input * r.input)
        by (nonlinear_arith);
    assert((a.output + b.output) * r.output == a.output * r.output + b.output * r.output)
        by (nonlinear_arith);
    assert((a.cache_1h + b.cache_1h) * r.cache_write_1h == a.cache_1h * r.cache_write_1h
        + b.cache_1h * r.cache_write_1h) by (nonlinear_arith);
    assert((a.cache_5m + b.cache_5m) * r.cache_write_5m == a.cache_5m * r.cache_write_5m
        + b.cache_5m * r.cache_write_5m) by (nonlinear_arith);
    assert((a.cache_read + b.cache_read) * r.cache_read == a.cache_read * r.cache_read
        + b.cache_read * r.cache_read) by (nonlinear_arith);
}

/// So many tokens of one class alone cost their count times the rate of that very
/// class, and nothing stands under the other classes. With the law that costs add
/// up this says what any counts cost.
pub proof fn law_a_class_costs_its_own_rate(n: int, r: Rates)
    ensures
        ({
            let none = Counts { input: 0, output: 0, cache_1h: 0, cache_5m: 0, cache_read: 0 };
            &&& priced(none, r) == (0int, 0int, 0int, 0int)
            &&& priced(Counts { input: n, ..none }, r) == (n * r.input, 0int, 0int, 0int)
            &&& priced(Counts { output: n, ..none }, r) == (0int, n * r.output, 0int, 0int)
            &&& priced(Counts { cache_1h: n, ..none }, r) == (
                0int,
                0int,
                n * r.cache_write_1h,
                0int,
            )
            &&& priced(Counts { cache_5m: n, ..none }, r) == (
                0int,
                0int,
                n * r.cache_write_5m,
                0int,
            )
            &&& priced(Counts { cache_read: n, ..none }, r) == (
                0int,
                0int,
                0int,
                n * r.cache_read,
            )
        }),
{
    assert(0 * r.input == 0 && 0 * r.output == 0 && 0 * r.cache_write_1h == 0 && 0
        * r.cache_write_5m == 0 && 0 * r.cache_read == 0);
}

/// A listed model's tokens cost what they are listed at: so many of one class
/// alone cost their count times that class's rate, and the other classes nothing.
/// The rates are those of the id, with or without its date.
#[verifier::rlimit(50)]
pub proof fn law_tokens_cost_the_listed_rates(
    model: &str,
    vendor: &str,
    n: i64,
    input: Option<Cost>,
    output: Option<Cost>,
    hour: Option<Cost>,
    five: Option<Cost>,
    read: Option<Cost>,
)
    requires
        call_ensures(cost_of, (model, vendor, n, 0i64, 0i64, 0i64, 0i64), input),
        call_ensures(cost_of, (model, vendor, 0i64, n, 0i64, 0i64, 0i64), output),
        call_ensures(cost_of, (model, vendor, 0i64, 0i64, n, 0i64, 0i64), hour),
        call_ensures(cost_of, (model, vendor, 0i64, 0i64, 0i64, n, 0i64), five),
        call_ensures(cost_of, (model, vendor, 0i64, 0i64, 0i64, 0i64, n), read),
    ensures
        ({
            let listing = listed(undated(model@), vendor@);
            let r = listing->0;
            &&& (listing is Some <==> input is Some) && (listing is Some <==> output is Some)
            &&& (listing is Some <==> hour is Some) && (listing is Some <==> five is Some)
            &&& listing is Some <==> read is Some
            &&& listing is Some ==> {
                &&& input->0.input == n * r.input && input->0.sum() == n * r.input
                &&& output->0.output == n * r.output && output->0.sum() == n * r.output
                &&& hour->0.cache_write == n * r.cache_write_1h && hour->0.sum() == n
                    * r.cache_write_1h
                &&& five->0.cache_write == n * r.cache_write_5m && five->0.sum() == n
                    * r.cache_write_5m
                &&& read->0.cache_read == n * r.cache_read && read->0.sum() == n * r.cache_read
                &&& 2 * input->0.input == hour->0.cache_write
                &&& 5 * input->0.input == 4 * five->0.cache_write
                &&& 5 * input->0.input == output->0.output
                &&& input->0.input == (if discounted(undated(model@), vendor@) {
                    40int
                } else {
                    10
                }) * read->0.cache_read
            }
        }),
{
    let id = undated(model@);
    if listed(id, vendor@) is Some {
        law_a_class_costs_its_own_rate(n as int, listed(id, vendor@)->0);
        law_what_classes_cost_against_input(id, vendor@, n as int);
    }
}

/// The same number of tokens, in one class or another, of a listed model: against
/// input, output costs five times as much, a write for an hour twice, a write for
/// five minutes five fourths, and a read a fortieth of a discounted model and a
/// tenth of any other.
#[verifier::rlimit(50)]
pub proof fn law_what_classes_cost_against_input(id: Seq<char>, vendor: Seq<char>, n: int)
    requires
        listed(id, vendor) is Some,
    ensures
        ({
            let r = listed(id, vendor)->0;
            let none = Counts { input: 0, output: 0, cache_1h: 0, cache_5m: 0, cache_read: 0 };
            let input = priced(Counts { input: n, ..none }, r).0;
            &&& n > 0 ==> input > 0
            &&& priced(Counts { output: n, ..none }, r).1 == 5 * input
            &&& priced(Counts { cache_1h: n, ..none }, r).2 == 2 * input
            &&& 4 * priced(Counts { cache_5m: n, ..none }, r).2 == 5 * input
            &&& discounted(id, vendor) ==> 40 * priced(Counts { cache_read: n, ..none }, r).3
                == input
            &&& !discounted(id, vendor) ==> 10 * priced(Counts { cache_read: n, ..none }, r).3
                == input
        }),
{
    let r = listed(id, vendor)->0;
    law_a_class_costs_its_own_rate(n, r);
    law_cache_rates_follow_the_input_rate(id, vendor);
    assert(r.output == 5 * r.input);
    let a = r.input as int;
    let w5 = r.cache_write_5m as int;
    let read = r.cache_read as int;
    assert(n * (5 * a) == 5 * (n * a)) by (nonlinear_arith);
    assert(n * (2 * a) == 2 * (n * a)) by (nonlinear_arith);
    assert(4 * (n * w5) == 5 * (n * a)) by (nonlinear_arith)
        requires
            4 * w5 == 5 * a,
    ;
    assert(a == 40 * read ==> 40 * (n * read) == n * a) by (nonlinear_arith);
    assert(a == 10 * read ==> 10 * (n * read) == n * a) by (nonlinear_arith);
    assert(n > 0 ==> n * a > 0) by (nonlinear_arith)
        requires
            a > 0,
    ;
}

/// What a million input tokens cost, in dollars and by family: ten for the two
/// largest; five for `opus`, and fifteen before the fifth minor version of its
/// fourth; three for `sonnet`, and two in its fifth; one for `haiku`, and eighty
/// cents before its fourth.
#[verifier::rlimit(50)]
pub proof fn law_what_a_million_input_tokens_cost(id: Seq<char>)
    requires
        listed_name(id) is Some,
    ensures
        ({
            let none = Counts { input: 0, output: 0, cache_1h: 0, cache_5m: 0, cache_read: 0 };
            let cost = priced(Counts { input: 1_000_000, ..none }, listed_name(id)->0).0;
            &&& cost == 10 * 1_000_000_000 <==> id[0] == 'f' || id[0] == 'm'
            &&& id[0] == 'o' ==> cost == (if id == "opus-4"@ || id == "opus-4-1"@ {
                15 * 1_000_000_000
            } else {
                5 * 1_000_000_000
            })
            &&& id[0] == 's' ==> cost == (if id == "sonnet-5"@ {
                2 * 1_000_000_000
            } else {
                3 * 1_000_000_000
            })
            &&& id[0] == 'h' ==> cost == (if id == "haiku-3-5"@ {
                800_000_000int
            } else {
                1_000_000_000int
            })
        }),
{
    the_listed_names_are_told_apart();
}

/// Which names are listed: these and no others.
#[verifier::rlimit(50)]
pub proof fn law_which_names_are_listed(id: Seq<char>)
    ensures
        listed_name(id) is Some <==> seq![
            "fable-5-1"@,
            "mythos-5-1"@,
            "fable-5"@,
            "mythos-5"@,
            "opus-5"@,
            "opus-4-8"@,
            "opus-4-7"@,
            "opus-4-6"@,
            "opus-4-5"@,
            "opus-4-1"@,
            "opus-4"@,
            "sonnet-5"@,
            "sonnet-4-6"@,
            "sonnet-4-5"@,
            "sonnet-4"@,
            "haiku-4-5"@,
            "haiku-3-5"@,
        ].contains(id),
{
    let names = seq![
        "fable-5-1"@,
        "mythos-5-1"@,
        "fable-5"@,
        "mythos-5"@,
        "opus-5"@,
        "opus-4-8"@,
        "opus-4-7"@,
        "opus-4-6"@,
        "opus-4-5"@,
        "opus-4-1"@,
        "opus-4"@,
        "sonnet-5"@,
        "sonnet-4-6"@,
        "sonnet-4-5"@,
        "sonnet-4"@,
        "haiku-4-5"@,
        "haiku-3-5"@,
    ];
    if listed_name(id) is Some {
        assert(names[0] == "fable-5-1"@ && names[1] == "mythos-5-1"@ && names[2] == "fable-5"@
            && names[3] == "mythos-5"@ && names[4] == "opus-5"@ && names[5] == "opus-4-8"@
            && names[6] == "opus-4-7"@ && names[7] == "opus-4-6"@ && names[8] == "opus-4-5"@
            && names[9] == "opus-4-1"@ && names[10] == "opus-4"@ && names[11] == "sonnet-5"@
            && names[12] == "sonnet-4-6"@ && names[13] == "sonnet-4-5"@ && names[14]
            == "sonnet-4"@ && names[15] == "haiku-4-5"@ && names[16] == "haiku-3-5"@);
    }
}

/// An id is listed exactly if it is the vendor's prefix and a listed name, and has
/// the rates of the name.
pub proof fn law_an_id_is_a_vendor_and_a_name(id: Seq<char>, name: Seq<char>, vendor: Seq<char>)
    ensures
        listed(vendor + name, vendor) == listed_name(name),
        listed(id, vendor) is Some ==> id.len() >= vendor.len() && vendor + id.skip(
            vendor.len() as int,
        ) == id,
{
    assert((vendor + name).skip(vendor.len() as int) =~= name);
    assert((vendor + name).take(vendor.len() as int) =~= vendor);
    if listed(id, vendor) is Some {
        assert(vendor + id.skip(vendor.len() as int) =~= id);
    }
}

#[verifier::rlimit(50)]
proof fn the_listed_names_are_told_apart()
    ensures
        "fable-5-1"@[0] == 'f' && "mythos-5-1"@[0] == 'm' && "fable-5"@[0] == 'f'
            && "mythos-5"@[0] == 'm',
        "opus-5"@[0] == 'o' && "opus-4-8"@[0] == 'o' && "opus-4-7"@[0] == 'o' && "opus-4-6"@[0]
            == 'o' && "opus-4-5"@[0] == 'o' && "opus-4-1"@[0] == 'o' && "opus-4"@[0] == 'o',
        "sonnet-5"@[0] == 's' && "sonnet-4-6"@[0] == 's' && "sonnet-4-5"@[0] == 's'
            && "sonnet-4"@[0] == 's',
        "haiku-4-5"@[0] == 'h' && "haiku-3-5"@[0] == 'h',
        "opus-4-1"@[5] == '4' && "opus-4"@[5] == '4' && "opus-5"@[5] == '5',
        "opus-4"@.len() == 6 && "opus-4-1"@.len() == 8 && "opus-4-1"@[7] == '1',
        "opus-4-8"@[7] == '8' && "opus-4-7"@[7] == '7' && "opus-4-6"@[7] == '6'
            && "opus-4-5"@[7] == '5',
        "opus-4-8"@.len() == 8 && "opus-4-7"@.len() == 8 && "opus-4-6"@.len() == 8
            && "opus-4-5"@.len() == 8,
        "sonnet-5"@[7] == '5' && "sonnet-4-6"@[7] == '4' && "sonnet-4-5"@[7] == '4'
            && "sonnet-4"@[7] == '4',
        "haiku-4-5"@[6] == '4' && "haiku-3-5"@[6] == '3',
{
    reveal_strlit("fable-5-1");
    reveal_strlit("mythos-5-1");
    reveal_strlit("fable-5");
    reveal_strlit("mythos-5");
    reveal_strlit("opus-5");
    reveal_strlit("opus-4-8");
    reveal_strlit("opus-4-7");
    reveal_strlit("opus-4-6");
    reveal_strlit("opus-4-5");
    reveal_strlit("opus-4-1");
    reveal_strlit("opus-4");
    reveal_strlit("sonnet-5");
    reveal_strlit("sonnet-4-6");
    reveal_strlit("sonnet-4-5");
    reveal_strlit("sonnet-4");
    reveal_strlit("haiku-4-5");
    reveal_strlit("haiku-3-5");
}

/// Taking the date off an id takes off exactly one date at its end, and leaves
/// every other id alone.
pub proof fn law_only_the_date_is_taken_off(id: Seq<char>)
    ensures
        undated(id + "-20251001"@) == id,
        undated(id) == id || undated(id) + "-20251001"@ == id,
        undated(id) == id ==> forall|stem: Seq<char>| #[trigger] (stem + "-20251001"@) != id,
{
    reveal_strlit("-20251001");
    let dated = id + "-20251001"@;
    assert(dated.skip(id.len() as int) =~= "-20251001"@);
    assert(dated.take(id.len() as int) =~= id);
    if undated(id) != id {
        assert(undated(id) + "-20251001"@ =~= id);
    } else {
        assert forall|stem: Seq<char>| #[trigger] (stem + "-20251001"@) != id by {
            if stem + "-20251001"@ == id {
                assert(id.skip(stem.len() as int) =~= "-20251001"@);
                assert(id.take(stem.len() as int).len() != id.len());
            }
        }
    }
}

/// The classes of a cost are all of it: its sum less three of them is the fourth.
pub proof fn law_a_cost_is_its_classes(c: Cost)
    ensures
        c.sum() - c.input - c.output - c.cache_write == c.cache_read,
{
}

/// An amount reads back, to the cent: with the sign of money and the commas taken
/// out it is the number with two digits behind the point, or with four below a
/// cent.
#[verifier::rlimit(50)]
pub proof fn law_an_amount_reads_back(amount: Double)
    requires
        !amount.is_zero(),
    ensures
        usd_text(amount)[0] == '$',
        text::without(usd_text(amount).skip(1), ',') == double::fixed(
            amount,
            if amount.magnitude().less_than(Double { bits: CENT }) {
                4
            } else {
                2
            },
        ),
{
    reveal_strlit("NaN");
    reveal_strlit("inf");
    let t = usd_text(amount);
    if amount.magnitude().less_than(Double { bits: CENT }) {
        let shown = double::fixed(amount, 4);
        assert(t.skip(1) =~= shown);
        no_commas_in_a_number(amount, 4);
        text::nothing_to_leave_out(shown, ',');
    } else {
        let shown = with_commas(amount);
        assert(t.skip(1) =~= shown);
        if amount.is_nan() {
            text::nothing_to_leave_out(shown, ',');
        } else {
            let sign: Seq<char> = if amount.negative() {
                seq!['-']
            } else {
                Seq::empty()
            };
            text::nothing_to_leave_out(sign, ',');
            if amount.is_infinite() {
                text::nothing_to_leave_out(shown, ',');
            } else {
                let cents = double::half_even(amount.units() * 100, double::one());
                text::leaving_out_distributes(sign, cents_text(cents), ',');
                the_cents_without_commas(cents);
                reveal_with_fuel(double::ten_to, 3);
                assert(double::ten_to(2) == 100);
            }
        }
    }
}

proof fn the_cents_without_commas(cents: nat)
    ensures
        text::without(cents_text(cents), ',') == double::pointed(cents, 2),
{
    let whole = text::dec(cents / 100);
    let part = text::dec_padded(cents % 100, 2);
    text::dec_digits(cents / 100);
    text::dec_digits(cents % 100);
    assert(!whole.contains(','));
    text::grouping_only_separates(whole, ',', whole.len());
    assert(whole.take(whole.len() as int) =~= whole);
    text::leaving_out_distributes(text::grouped(whole, ',') + seq!['.'], part, ',');
    text::leaving_out_distributes(text::grouped(whole, ','), seq!['.'], ',');
    text::nothing_to_leave_out(seq!['.'], ',');
    assert forall|i: int| 0 <= i < part.len() implies part[i] != ',' by {
        let d = text::dec(cents % 100);
        if d.len() < 2 && i >= 2 - d.len() {
            assert(part[i] == d[i - (2 - d.len())]);
        }
    }
    assert(!part.contains(','));
    text::nothing_to_leave_out(part, ',');
    reveal_with_fuel(double::ten_to, 3);
    assert(double::ten_to(2) == 100);
}

proof fn no_commas_in_a_number(x: Double, places: nat)
    ensures
        !double::fixed(x, places).contains(','),
{
    reveal_strlit("NaN");
    reveal_strlit("inf");
    let t = double::fixed(x, places);
    if !x.is_nan() && !x.is_infinite() {
        let sign: Seq<char> = if x.negative() {
            seq!['-']
        } else {
            Seq::empty()
        };
        let q = double::half_even(x.units() * double::ten_to(places), double::one());
        let number = double::pointed(q, places);
        double::a_number_is_digits_and_a_point(q, places);
        assert(t =~= sign + number);
        assert forall|i: int| 0 <= i < t.len() implies t[i] != ',' by {
            if i >= sign.len() {
                assert(t[i] == number[i - sign.len()]);
            }
        }
    }
}

/// An amount that is not nothing is never shown as `$0.00`.
pub proof fn law_small_amounts_stay_visible(amount: Double)
    requires
        !amount.is_zero(),
    ensures
        usd_text(amount) != "$0.00"@,
{
    reveal_strlit("$0.00");
    reveal_strlit("NaN");
    reveal_strlit("inf");
    let t = usd_text(amount);
    double::magnitude_keeps_the_size(amount);
    if t == "$0.00"@ {
        assert(t[1] == '0');
        if amount.magnitude().less_than(Double { bits: CENT }) {
            let shown = double::fixed(amount, 4);
            assert(t[1] == shown[0]);
            if !amount.negative() {
                let q = double::half_even(amount.units() * double::ten_to(4), double::one());
                text::dec_nonempty(q / double::ten_to(4));
                reveal_with_fuel(double::ten_to, 5);
                assert(t.len() >= 1 + 1 + 1 + 4);
            }
        } else if amount.is_nan() || amount.negative() || amount.is_infinite() {
            assert(t[1] == with_commas(amount)[0]);
        } else {
            a_cent_counts(amount);
            let cents = double::half_even(amount.units() * 100, double::one());
            assert(t =~= seq!['$'] + cents_text(cents));
            cents_are_shown(cents);
        }
    }
}

proof fn a_cent_counts(amount: Double)
    requires
        amount.units() >= (Double { bits: CENT }).units(),
    ensures
        double::half_even(amount.units() * 100, double::one()) >= 1,
{
    let cent = Double { bits: CENT };
    assert(cent.exponent() == 1016);
    assert(cent.fraction() == 0x4_7ae1_47ae_147b);
    lemma_pow2_adds(59, 1015);
    lemma_pow2_pos(1015);
    lemma2_to64();
    lemma2_to64_rest();
    let p = pow2(1015) as int;
    let o = double::one() as int;
    let m = cent.mantissa() as int;
    assert(o == 0x800_0000_0000_0000 * p);
    assert(m == 0x14_7ae1_47ae_147b);
    let n = amount.units() as int * 100;
    assert(2 * n > o) by {
        assert(200 * (m * p) > o) by (nonlinear_arith)
            requires
                o == 0x800_0000_0000_0000 * p,
                m == 0x14_7ae1_47ae_147b,
                p > 0,
        ;
    }
    if n < o {
        lemma_fundamental_div_mod_converse(n, o, 0, n);
    } else {
        lemma_div_is_ordered(o, n, o);
        lemma_fundamental_div_mod_converse(o, o, 1, 0);
    }
}

proof fn cents_are_shown(cents: nat)
    requires
        cents >= 1,
    ensures
        seq!['$'] + cents_text(cents) != "$0.00"@,
{
    reveal_strlit("$0.00");
    let t = seq!['$'] + cents_text(cents);
    let whole = text::dec(cents / 100);
    text::dec_nonempty(cents / 100);
    let shown = text::grouped(whole, ',');
    reveal_with_fuel(text::fits, 3);
    text::padded_steps(cents % 100, 2);
    text::padded_steps(cents % 100 / 10, 1);
    if t == "$0.00"@ {
        assert(t.len() == 1 + shown.len() + 1 + 2);
        assert(shown.len() == 1);
        assert(t[1] == shown[0]);
        assert(t[3] == text::digit(cents % 100 / 10 % 10));
        assert(t[4] == text::digit(cents % 100 % 10));
        assert(cents % 100 == 0);
        grouped_len(whole, ',', whole.len());
        assert(whole.len() == 1);
        assert(text::grouped_upto(whole, ',', 0) =~= Seq::<char>::empty());
        assert(shown =~= whole);
        assert(whole[0] == '0');
        text::dec_nonempty(cents / 100 / 10);
        assert(cents / 100 == 0);
    }
}

proof fn grouped_len(d: Seq<char>, sep: char, n: nat)
    ensures
        text::grouped_upto(d, sep, n).len() >= n,
    decreases n,
{
    if n > 0 {
        grouped_len(d, sep, (n - 1) as nat);
    }
}

/// The rates of a model are those listed for its id without its date.
pub proof fn law_which_rates_a_model_has(
    model: &str,
    vendor: &str,
    name: Seq<char>,
    r: Option<Rates>,
)
    requires
        call_ensures(rates_for, (model, vendor), r),
    ensures
        model@ == vendor@ + name + "-20251001"@ ==> r == listed_name(name),
        !vendor@.is_prefix_of(undated(model@)) ==> r is None,
        r == listed(undated(model@), vendor@),
{
    if model@ == vendor@ + name + "-20251001"@ {
        law_only_the_date_is_taken_off(vendor@ + name);
        law_an_id_is_a_vendor_and_a_name(model@, name, vendor@);
    }
    let id = undated(model@);
    if text::begins_with(id, vendor@) {
        assert(vendor@ =~= id.subrange(0, vendor@.len() as int));
    }
}

/// Costs add up class by class, and their total is all four classes.
pub proof fn law_how_costs_add_up(a: &mut Cost, b: Cost, total: i128)
    requires
        old(a).moderate() && b.moderate(),
        call_ensures(Cost::add, (a, b), ()),
        call_ensures(Cost::total, (&b,), total),
    ensures
        final(a).input - old(a).input == b.input,
        final(a).output - old(a).output == b.output,
        final(a).cache_write - old(a).cache_write == b.cache_write,
        final(a).cache_read - old(a).cache_read == b.cache_read,
        total - b.input - b.output - b.cache_write - b.cache_read == 0,
{
}

/// An amount in dollars is the double nearest to its billionths, with its sign.
pub proof fn law_what_an_amount_is_in_dollars(amount: i128, r: Double)
    requires
        call_ensures(dollars, (amount,), r),
    ensures
        !r.is_nan() && !r.is_infinite(),
        r.negative() <==> amount < 0,
        r.is_zero() <==> amount == 0,
        ({
            let n: nat = (if amount < 0 {
                -(amount as int)
            } else {
                amount as int
            }) as nat * double::one();
            let p = pow2(double::excess(n / 1_000_000_000)) as int;
            let off = n - r.units() * 1_000_000_000;
            -(1_000_000_000 * p) <= 2 * off <= 1_000_000_000 * p && (p == 1 || n / 1_000_000_000
                >= 0x10_0000_0000_0000 * p)
        }),
{
    let n = size(amount as int) * double::one();
    double::law_nearest_is_nearest(n, 1_000_000_000);
}

/// What is shown of an amount is a dollar sign and the number, which reads back
/// without its commas: four digits behind the point below a cent, else two.
pub proof fn law_what_is_shown_of_an_amount(amount: Double, r: String)
    requires
        call_ensures(format_usd, (amount,), r),
    ensures
        amount.is_zero() ==> r@ == "$0.00"@,
        !amount.is_zero() ==> r@[0] == '$',
        !amount.is_zero() && !amount.is_nan() && !amount.is_infinite() && amount.units() < (
        Double { bits: CENT }).units() ==> text::without(r@.skip(1), ',') == double::fixed(
            amount,
            4,
        ),
        !amount.is_zero() && !amount.is_nan() && !amount.is_infinite() && amount.units() >= (
        Double { bits: CENT }).units() ==> text::without(r@.skip(1), ',') == double::fixed(
            amount,
            2,
        ),
{
    if !amount.is_zero() {
        law_an_amount_reads_back(amount);
        double::magnitude_keeps_the_size(amount);
    }
}

} // verus!
