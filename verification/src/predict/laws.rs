//! What a prediction promises.

use vstd::prelude::*;
use crate::double::error::{
    differences_are_near, hardly_above, lemma_above_chain, lemma_above_scaled, lemma_above_widens, near, nearness_cancels,
    nearness_carries_over, nearness_scales, nearness_widens, ordinary, products_are_near, quotients_are_near, sums_are_near, SLACK,
};
use crate::double::laws::{a_double_rounds_to_itself, lemma_one, small_counts_are_exact, units_follow_magnitudes};
use crate::double::{lemma_pow2_adds, lemma_pow2_grows, pow2, Double, BILLION_BITS, ONE_BITS, TWO_BITS};
use crate::fit::{under, Coefficient, Confidence, Fit};
use crate::kv::KvPrecision;
use crate::predict::inversion::{lemma_between, lemma_count_is_ordinary, lemma_positive};
use crate::predict::speed::{lemma_apart, lemma_nothing, lemma_powers_of_two, lemma_turned, one};
use crate::predict::{
    decode_speed, prior_of, range_around, trusted, Hardware, MemoryPlan, Prediction, Verdict, DECODE_EFFICIENCY_BITS, MILLIONTH_BITS,
};
use crate::spec::{ModelView, QuantFamily, QuantView};

verus! {

// ------------------------------------------------------------------ constants

/// A number that is near to so many hundredths.
proof fn lemma_hundredths(c: Double, m: nat, e: nat, hundredths: nat)
    requires
        c.significand() == m,
        c.exponent() == -e,
        c.finite(),
        e <= 60,
        near(m * 100, hundredths * pow2(e), 1),
    ensures
        near(c.units() * 100, hundredths * one(), 1),
{
    let k = pow2((1074 - e) as nat);
    lemma_pow2_adds(e, (1074 - e) as nat);
    nearness_scales(m * 100, hundredths * pow2(e), k, 1);
    assert((m * k) * 100 == (m * 100) * k) by (nonlinear_arith);
    assert((hundredths * pow2(e)) * k == hundredths * (pow2(e) * k)) by (nonlinear_arith);
}

/// A small whole number, to the unit.
pub proof fn lemma_exactly(c: Double, m: nat, e: nat, n: nat)
    requires
        c.significand() == m,
        c.exponent() == -e,
        e <= 60,
        m == n * pow2(e),
    ensures
        c.units() == n * one(),
{
    let k = pow2((1074 - e) as nat);
    lemma_pow2_adds(e, (1074 - e) as nat);
    assert((n * pow2(e)) * k == n * (pow2(e) * k)) by (nonlinear_arith);
}

/// The least half-width of a range in percent: eight where the evidence is
/// good, fifteen where it is fair, a quarter where it is poor and forty where
/// there is none.
pub open spec fn least_percent(c: Confidence) -> nat {
    match c {
        Confidence::High => 8,
        Confidence::Medium => 15,
        Confidence::Low => 25,
        Confidence::Prior => 40,
    }
}

/// A confidence stands for so many runs: thirty are good, eight are fair, and
/// one is more than none.
pub proof fn confidence_is_earned_by_runs(n: nat)
    ensures
        Confidence::of_count(n) == Confidence::High <==> n >= 30,
        Confidence::of_count(n) == Confidence::Medium <==> 8 <= n < 30,
        Confidence::of_count(n) == Confidence::Low <==> 1 <= n < 8,
        Confidence::of_count(n) == Confidence::Prior <==> n == 0,
{
}

/// The least half-widths are what they are said to be.
pub proof fn least_widths_are_in_percent(c: Confidence)
    ensures
        near((Double { bits: c.min_spread_bits() }).units() * 100, least_percent(c) * one(), 1),
        ordinary(Double { bits: c.min_spread_bits() }, 5),
{
    let s = Double { bits: c.min_spread_bits() };
    lemma_powers_of_two();
    match c {
        Confidence::High => {
            assert(s.significand() == 0x14_7AE1_47AE_147B && s.exponent() == -56);
            lemma_hundredths(s, 0x14_7AE1_47AE_147B, 56, 8);
            lemma_between(s, 0x3FB, 5);
        },
        Confidence::Medium => {
            assert(s.significand() == 0x13_3333_3333_3333 && s.exponent() == -55);
            lemma_hundredths(s, 0x13_3333_3333_3333, 55, 15);
            lemma_between(s, 0x3FC, 5);
        },
        Confidence::Low => {
            assert(s.significand() == 0x10_0000_0000_0000 && s.exponent() == -54);
            lemma_hundredths(s, 0x10_0000_0000_0000, 54, 25);
            lemma_between(s, 0x3FD, 5);
        },
        Confidence::Prior => {
            assert(s.significand() == 0x19_9999_9999_999A && s.exponent() == -54);
            lemma_hundredths(s, 0x19_9999_9999_999A, 54, 40);
            lemma_between(s, 0x3FD, 5);
        },
    }
}

/// How much of the bandwidth a family is taken to use, in percent of what
/// unquantised weights do.
pub open spec fn family_percent(f: QuantFamily) -> nat {
    match f {
        QuantFamily::Float => 100,
        QuantFamily::Legacy => 95,
        QuantFamily::BlockFloat => 92,
        QuantFamily::KQuant => 88,
        QuantFamily::IQuant => 72,
    }
}

pub proof fn family_efficiencies_are_in_percent(f: QuantFamily)
    ensures
        near((Double { bits: f.efficiency_bits() }).units() * 100, family_percent(f) * one(), 1),
        ordinary(Double { bits: f.efficiency_bits() }, 2),
{
    let s = Double { bits: f.efficiency_bits() };
    lemma_powers_of_two();
    match f {
        QuantFamily::Float => {
            assert(s.significand() == 0x10_0000_0000_0000 && s.exponent() == -52);
            lemma_hundredths(s, 0x10_0000_0000_0000, 52, 100);
            lemma_between(s, 0x3FF, 2);
        },
        QuantFamily::Legacy => {
            assert(s.significand() == 0x1E_6666_6666_6666 && s.exponent() == -53);
            lemma_hundredths(s, 0x1E_6666_6666_6666, 53, 95);
            lemma_between(s, 0x3FE, 2);
        },
        QuantFamily::BlockFloat => {
            assert(s.significand() == 0x1D_70A3_D70A_3D71 && s.exponent() == -53);
            lemma_hundredths(s, 0x1D_70A3_D70A_3D71, 53, 92);
            lemma_between(s, 0x3FE, 2);
        },
        QuantFamily::KQuant => {
            assert(s.significand() == 0x1C_28F5_C28F_5C29 && s.exponent() == -53);
            lemma_hundredths(s, 0x1C_28F5_C28F_5C29, 53, 88);
            lemma_between(s, 0x3FE, 2);
        },
        QuantFamily::IQuant => {
            assert(s.significand() == 0x17_0A3D_70A3_D70A && s.exponent() == -53);
            lemma_hundredths(s, 0x17_0A3D_70A3_D70A, 53, 72);
            lemma_between(s, 0x3FE, 2);
        },
    }
}

/// Before anything was measured, seven tenths of the bandwidth are taken to be
/// used by unquantised weights, and a family's share of that by its own.
pub proof fn the_shipped_prior_is_seven_tenths(f: QuantFamily)
    ensures
        near(prior_of(f).units() * 10_000, 70 * family_percent(f) * one(), 6),
        ordinary(prior_of(f), 4),
{
    let a = Double { bits: DECODE_EFFICIENCY_BITS };
    let b = Double { bits: f.efficiency_bits() };
    let t = one();
    let q = family_percent(f);
    lemma_powers_of_two();
    lemma_nothing();
    assert(a.significand() == 0x16_6666_6666_6666 && a.exponent() == -53);
    lemma_hundredths(a, 0x16_6666_6666_6666, 53, 70);
    lemma_between(a, 0x3FE, 2);
    family_efficiencies_are_in_percent(f);
    products_are_near(a, b, 2, 2);
    let (x, y, z) = (a.units(), b.units(), a.product(b).units());
    nearness_scales(z * t, x * y, 10_000, 1);
    assert((x * y) * 10_000 == (x * 100) * (y * 100)) by (nonlinear_arith);
    nearness_scales(x * 100, 70 * t, y * 100, 1);
    nearness_scales(y * 100, q * t, 70 * t, 1);
    assert((70 * t) * (y * 100) == (y * 100) * (70 * t)) by (nonlinear_arith);
    nearness_carries_over((x * 100) * (y * 100), (y * 100) * (70 * t), (q * t) * (70 * t), 1, 1);
    nearness_carries_over((z * t) * 10_000, (x * 100) * (y * 100), (q * t) * (70 * t), 1, 3);
    assert((z * t) * 10_000 == (z * 10_000) * t && (q * t) * (70 * t) == (70 * q * t) * t) by (nonlinear_arith);
    nearness_cancels(z * 10_000, 70 * q * t, t, 5);
    nearness_widens(z * 10_000, 70 * q * t, 5, 6);
}

// --------------------------------------------------------------------- ranges

/// Numbers that are not negative are ordered as what they stand for.
pub proof fn order_is_that_of_the_numbers(a: Double, b: Double)
    requires
        a.finite() && b.finite(),
        !a.negative() && !b.negative(),
    ensures
        a.at_most(b) <==> a.units() <= b.units(),
        a.below(b) <==> a.units() < b.units(),
{
    if a.magnitude() <= b.magnitude() {
        units_follow_magnitudes(a, b);
        if a.units() == b.units() {
            a_double_rounds_to_itself(a);
            a_double_rounds_to_itself(b);
        }
    } else {
        units_follow_magnitudes(b, a);
        if a.units() == b.units() {
            a_double_rounds_to_itself(a);
            a_double_rounds_to_itself(b);
        }
    }
}

/// A range reaches as far up and down from its speed as its spread says, and
/// down to nothing where that is more than all of it.
pub proof fn a_range_is_as_wide_as_its_spread(decode: Double, spread: Double)
    requires
        ordinary(decode, 400),
        spread.finite() && !spread.negative(),
        spread.units() <= pow2(1174),
    ensures
        ({
            let (low, high) = range_around(decode, spread);
            let (x, s) = (decode.units(), spread.units());
            &&& low.finite() && !low.negative()
            &&& high.finite() && !high.negative()
            &&& near(high.units() * one(), x * (one() + s), 3)
            &&& s < one() ==> near(low.units() * one(), x * (one() - s) as nat, 3)
            &&& s >= one() ==> low.units() == 0
        }),
{
    let unit = Double { bits: ONE_BITS };
    let zero = Double { bits: 0 };
    let t = one();
    let (x, s) = (decode.units(), spread.units());
    lemma_one();
    lemma_nothing();
    lemma_pow2_grows(1074, 1174);
    lemma_pow2_grows(1175, 1974);
    assert(pow2(1175) == 2 * pow2(1174));
    sums_are_near(unit, spread);
    let more = unit.sum(spread);
    lemma_pow2_grows(973, 1074);
    lemma_near_is_ordinary(more, t + s, 101);
    products_are_near(decode, more, 400, 102);
    let high = decode.product(more);
    nearness_scales(more.units(), t + s, x, 1);
    assert(more.units() * x == x * more.units() && (t + s) * x == x * (t + s)) by (nonlinear_arith);
    nearness_carries_over(high.units() * t, x * more.units(), x * (t + s), 1, 1);
    let rest = unit.difference(spread);
    let low = decode.product(rest).larger(zero);
    if s < t {
        differences_are_near(unit, spread);
        let n = (t - s) as nat;
        small_counts_are_exact(1);
        assert(1 * t == t);
        lemma_apart(1, spread);
        lemma_pow2_grows(1074, 1127);
        lemma_pow2_grows(1074, 1974);
        lemma_near_is_ordinary(rest, n, 53);
        products_are_near(decode, rest, 400, 54);
        nearness_scales(rest.units(), n, x, 1);
        assert(rest.units() * x == x * rest.units() && n * x == x * n) by (nonlinear_arith);
        nearness_carries_over(decode.product(rest).units() * t, x * rest.units(), x * n, 1, 1);
        lemma_positive(decode.product(rest), 454);
    } else {
        lemma_positive(decode, 400);
        if s == t {
            lemma_pow2_grows(1074, 1974);
            differences_are_near(unit, spread);
            if !rest.zero() {
                crate::double::laws::lemma_nonzero_units(rest);
            }
            assert(rest == zero);
            crate::double::laws::nothing_times_anything(decode);
        } else {
            lemma_below_nothing(decode, spread);
            assert(low == zero);
        }
        if low.zero() {
            assert(low.significand() == 0);
            assert(0 * pow2((low.exponent() + 1074) as nat) == 0) by (nonlinear_arith);
        }
    }
}

/// A spread of more than all leaves less than nothing.
proof fn lemma_below_nothing(decode: Double, spread: Double)
    requires
        ordinary(decode, 400),
        spread.finite() && !spread.negative(),
        one() < spread.units() <= pow2(1174),
    ensures
        decode.product((Double { bits: ONE_BITS }).difference(spread)).below(Double { bits: 0 }),
{
    let unit = Double { bits: ONE_BITS };
    let t = one();
    lemma_one();
    lemma_nothing();
    lemma_pow2_grows(1174, 1974);
    differences_are_near(spread, unit);
    let b = spread.difference(unit);
    let n = (spread.units() - t) as nat;
    lemma_pow2_grows(1073, 1074);
    let (m, k) = crate::double::error::pieces_of_a_half(spread);
    let u = pow2(1021);
    lemma_pow2_grows(0, 1021);
    lemma_pow2_adds(1021, (k - 1021) as nat);
    lemma_pow2_adds(1021, 53);
    let (e, f) = (pow2((k - 1021) as nat), pow2(53));
    assert(n == (m * e - f) * u) by (nonlinear_arith)
        requires
            n == m * pow2(k) - t,
            t == u * f,
            pow2(k) == u * e,
    ;
    let c = m * e - f;
    assert(c * u >= u) by (nonlinear_arith)
        requires
            c * u > 0,
            u > 0,
    ;
    lemma_pow2_grows(974, 1021);
    lemma_near_is_ordinary(b, n, 100);
    products_are_near(decode, b, 400, 101);
    lemma_positive(decode.product(b), 501);
    lemma_turned(unit, spread);
    lemma_times_turned(decode, b, unit.difference(spread));
}

proof fn lemma_times_turned(x: Double, b: Double, c: Double)
    requires
        x.finite() && !x.negative(),
        b.finite() && !b.negative(),
        c.negative() && c.magnitude() == b.magnitude(),
        x.product(b).finite() && !x.product(b).zero(),
    ensures
        x.product(c).below(Double { bits: 0 }),
{
    assert(c.units() == b.units());
    reveal(Double::product);
}

/// What is near to a number between two powers is, too, with one to spare.
proof fn lemma_near_is_ordinary(x: Double, y: nat, i: nat)
    requires
        x.finite() && !x.negative(),
        near(x.units(), y, 1),
        i <= 900,
        pow2((1074 - i) as nat) <= y <= pow2(1074 + i),
    ensures
        ordinary(x, i + 1),
{
    let m = SLACK as int;
    let (a, b) = (x.units() as int, y as int);
    assert(a <= 2 * b && b <= 2 * a) by (nonlinear_arith)
        requires
            a * m <= b * (m + 1),
            b * m <= a * (m + 1),
            m >= 1,
            a >= 0,
            b >= 0,
    ;
    assert(pow2((1074 - i) as nat) == 2 * pow2((1074 - (i + 1)) as nat));
    assert(pow2(1074 + (i + 1)) == 2 * pow2(1074 + i));
}

/// The speed that a prediction is drawn around is `x`: the assumed share of the
/// bandwidth by the seconds per token. The verdict is by that speed, ten tokens
/// per second being good and three usable, and by whether a context of 512
/// tokens fits at all. The range holds the speed, and is no narrower than its
/// confidence allows.
pub open spec fn tells(r: Prediction, x: Double) -> bool {
    let (low, high) = r.decode_tok_s;
    let percent = least_percent(r.confidence);
    &&& x.finite() && !x.negative()
    &&& near(x.units() * r.raw_seconds_per_token.units(), r.assumed_eta.units() * one(), 1)
    &&& r.verdict == Verdict::WontFit <==> r.max_context < 512
    &&& r.verdict == Verdict::Good <==> r.max_context >= 512 && x.units() >= 10 * one()
    &&& r.verdict == Verdict::Usable <==> r.max_context >= 512 && 3 * one() <= x.units() < 10 * one()
    &&& r.verdict == Verdict::Slow <==> r.max_context >= 512 && x.units() < 3 * one()
    &&& !low.negative() && low.finite() && !high.negative() && high.finite()
    &&& hardly_above(low.units() * 100, x.units() * (100 - percent) as nat, 10)
    &&& hardly_above(x.units() * (100 + percent) as nat, high.units() * 100, 10)
}

/// A number that is a small whole number.
proof fn lemma_thresholds()
    ensures
        (Double { bits: 0x4024_0000_0000_0000 }).units() == 10 * one(),
        (Double { bits: 0x4008_0000_0000_0000 }).units() == 3 * one(),
        (Double { bits: 0x4024_0000_0000_0000 }).finite(),
        (Double { bits: 0x4008_0000_0000_0000 }).finite(),
{
    lemma_powers_of_two();
    let (a, b) = (Double { bits: 0x4024_0000_0000_0000 }, Double { bits: 0x4008_0000_0000_0000 });
    assert(a.significand() == 0x14_0000_0000_0000 && a.exponent() == -49);
    assert(b.significand() == 0x18_0000_0000_0000 && b.exponent() == -51);
    lemma_exactly(a, 0x14_0000_0000_0000, 49, 10);
    lemma_exactly(b, 0x18_0000_0000_0000, 51, 3);
}

/// A spread of at least so many percent widens by at least as much.
proof fn lemma_wide(low: nat, high: nat, x: nat, s: nat, percent: nat)
    requires
        hardly_above(percent * one(), s * 100, 1),
        percent <= 40,
        near(high * one(), x * (one() + s), 3),
        s < one() ==> near(low * one(), x * (one() - s) as nat, 3),
        s >= one() ==> low == 0,
        one() > 0,
    ensures
        hardly_above(low * 100, x * (100 - percent) as nat, 10),
        hardly_above(x * (100 + percent) as nat, high * 100, 10),
{
    let t = one();
    let m = SLACK as int;
    let (l, h, y, e) = (low as int, high as int, x as int, s as int);
    let p = percent as int;
    // Up: x * (100 + p) * t is hardly above x * (t + s) * 100.
    assert((p * t) * m <= (e * 100) * (m + 1)) by (nonlinear_arith)
        requires
            (percent * one()) * m <= (s * 100) * (m + 1),
            p == percent,
            e == s,
            t == one(),
    ;
    let up = x * (100 + percent);
    let wide = (x * (t + s)) * 100;
    assert(hardly_above(up * t, wide, 1)) by {
        assert((up * t) * m <= wide * (m + 1)) by (nonlinear_arith)
            requires
                (p * t) * m <= (e * 100) * (m + 1),
                up == x * (100 + percent),
                wide == (x * (t + s)) * 100,
                p == percent,
                e == s,
                m > 0,
        ;
    }
    lemma_above_scaled(x * (t + s), high * t, 100, 3);
    lemma_above_chain(up * t, wide, (high * t) * 100, 1, 3);
    assert((high * t) * 100 == (high * 100) * t) by (nonlinear_arith);
    crate::double::error::lemma_above_cancelled(up, high * 100, t, 5);
    lemma_above_widens(up, high * 100, 5, 10);
    let down = x * (100 - percent) as nat;
    if s < t {
        let narrow = (x * (t - s) as nat) * 100;
        assert(hardly_above(narrow, down * t, 1)) by {
            let n = (t - s) as int;
            assert(narrow * m <= (down * t) * (m + 1)) by (nonlinear_arith)
                requires
                    (p * t) * m <= (e * 100) * (m + 1),
                    narrow == (y * n) * 100,
                    n == t - e,
                    down == y * (100 - p),
                    0 <= p <= 40,
                    0 <= e < t,
                    y >= 0,
                    m > 0,
            ;
        }
        lemma_above_scaled(low * t, x * (t - s) as nat, 100, 3);
        lemma_above_chain((low * t) * 100, narrow, down * t, 3, 1);
        assert((low * t) * 100 == (low * 100) * t) by (nonlinear_arith);
        crate::double::error::lemma_above_cancelled(low * 100, down, t, 5);
        lemma_above_widens(low * 100, down, 5, 10);
    } else {
        assert(0 * m <= down * (m + 10)) by (nonlinear_arith)
            requires
                m >= 0,
        ;
    }
}

/// Every prediction tells the speed that its plan and its evidence give.
pub proof fn a_prediction_tells_its_speed(
    r: Prediction,
    m: ModelView,
    q: QuantView,
    hw: Hardware,
    prec: KvPrecision,
    prompt: nat,
    ubatch: nat,
    fit: Fit,
)
    requires
        r.is_for(m, q, hw, prec, prompt, ubatch, fit),
        ordinary(r.raw_seconds_per_token, 300),
        ordinary(r.assumed_eta, 100),
        ({
            let c = fit.coefficient(hw.backend.name_text(), q.family, prior_of(q.family));
            &&& c.spread.finite() && c.spread.units() <= pow2(1174)
            &&& (Double { bits: c.confidence.min_spread_bits() }).at_most(c.spread)
        }),
    ensures
        exists|x: Double| #[trigger] tells(r, x),
{
    let p = choose|p: MemoryPlan| p.is_for(m, q.bytes, hw, prec, ubatch) && #[trigger] r.is_by(m, q.family, p, hw, prompt, fit);
    let c0 = fit.coefficient(hw.backend.name_text(), q.family, prior_of(q.family));
    let c = trusted(c0, p, hw.vram_bw_measured);
    let x = decode_speed(c.eta, r.raw_seconds_per_token);
    let floor = Double { bits: c.confidence.min_spread_bits() };
    lemma_positive(r.raw_seconds_per_token, 300);
    quotients_are_near(r.assumed_eta, r.raw_seconds_per_token, 100, 300);
    lemma_nothing();
    least_widths_are_in_percent(c.confidence);
    least_widths_are_in_percent(c0.confidence);
    lemma_pow2_grows(1079, 1174);
    assert(floor.at_most(c.spread));
    assert(!c.spread.negative() && c.spread.finite() && c.spread.units() <= pow2(1174)) by {
        lemma_positive(floor, 5);
    }
    order_is_that_of_the_numbers(floor, c.spread);
    a_range_is_as_wide_as_its_spread(x, c.spread);
    let percent = least_percent(c.confidence);
    assert(hardly_above(percent * one(), c.spread.units() * 100, 1)) by {
        let (a, b, n) = (floor.units() * 100, c.spread.units() * 100, SLACK as nat + 1);
        assert(a * n <= b * n) by (nonlinear_arith)
            requires
                a <= b,
        ;
    }
    let (low, high) = r.decode_tok_s;
    lemma_wide(low.units(), high.units(), x.units(), c.spread.units(), percent);
    lemma_thresholds();
    order_is_that_of_the_numbers(Double { bits: 0x4024_0000_0000_0000 }, x);
    order_is_that_of_the_numbers(Double { bits: 0x4008_0000_0000_0000 }, x);
    assert(tells(r, x));
}

/// Without any evidence a prediction rests on the shipped prior, says so, and
/// reaches forty percent either way.
pub proof fn without_evidence_only_the_prior_speaks(
    r: Prediction,
    m: ModelView,
    q: QuantView,
    hw: Hardware,
    prec: KvPrecision,
    prompt: nat,
    ubatch: nat,
    fit: Fit,
)
    requires
        r.is_for(m, q, hw, prec, prompt, ubatch, fit),
        fit.buckets@.len() == 0 && fit.parents@.len() == 0 && fit.prefill@.len() == 0,
        ordinary(r.raw_seconds_per_token, 300),
    ensures
        r.confidence == Confidence::Prior,
        near(r.assumed_eta.units() * 10_000, 70 * family_percent(q.family) * one(), 6),
        near(r.decode_tok_s.0.units() * 140, r.decode_tok_s.1.units() * 60, 20),
        r.prefill_tok_s is None && r.ttft_s is None,
        exists|x: Double| #[trigger] tells(r, x) && near(r.decode_tok_s.0.units() * 100, x.units() * 60, 10),
{
    let p = choose|p: MemoryPlan| p.is_for(m, q.bytes, hw, prec, ubatch) && #[trigger] r.is_by(m, q.family, p, hw, prompt, fit);
    let name = hw.backend.name_text();
    let c0 = fit.coefficient(name, q.family, prior_of(q.family));
    let c = trusted(c0, p, hw.vram_bw_measured);
    let s = Double { bits: Confidence::Prior.min_spread_bits() };
    assert(c0 == Coefficient::prior_only(prior_of(q.family)));
    assert(c.spread == s && c.eta == prior_of(q.family));
    the_shipped_prior_is_seven_tenths(q.family);
    lemma_wider(r.assumed_eta, 4, 100);
    least_widths_are_in_percent(Confidence::Prior);
    lemma_pow2_grows(1079, 1174);
    a_prediction_tells_its_speed(r, m, q, hw, prec, prompt, ubatch, fit);
    let x = decode_speed(c.eta, r.raw_seconds_per_token);
    lemma_positive(r.raw_seconds_per_token, 300);
    lemma_nothing();
    quotients_are_near(r.assumed_eta, r.raw_seconds_per_token, 100, 300);
    a_range_is_as_wide_as_its_spread(x, s);
    let w = choose|x: Double| #[trigger] tells(r, x);
    lemma_same_speed(x.units(), w.units(), r.raw_seconds_per_token.units(), r.assumed_eta.units());
    let (low, high) = r.decode_tok_s;
    lemma_forty(low.units(), high.units(), x.units(), s.units());
    nearness_scales(x.units(), w.units(), 60, 3);
    nearness_carries_over(low.units() * 100, x.units() * 60, w.units() * 60, 5, 3);
    nearness_widens(low.units() * 100, w.units() * 60, 9, 10);
}

proof fn lemma_wider(x: Double, i: nat, j: nat)
    requires
        ordinary(x, i),
        i <= j <= 1000,
    ensures
        ordinary(x, j),
{
    lemma_pow2_grows((1074 - j) as nat, (1074 - i) as nat);
    lemma_pow2_grows(1074 + i, 1074 + j);
}

proof fn lemma_same_speed(x: nat, w: nat, s: nat, e: nat)
    requires
        near(x * s, e * one(), 1),
        near(w * s, e * one(), 1),
        s > 0,
    ensures
        near(x, w, 3),
{
    nearness_carries_over(x * s, e * one(), w * s, 1, 1);
    nearness_cancels(x, w, s, 3);
}

/// A spread of four tenths, up and down.
proof fn lemma_forty(low: nat, high: nat, x: nat, s: nat)
    requires
        near(s * 100, 40 * one(), 1),
        near(high * one(), x * (one() + s), 3),
        s < one() ==> near(low * one(), x * (one() - s) as nat, 3),
        s >= one() ==> low == 0,
        one() > 0,
    ensures
        near(low * 100, x * 60, 5),
        near(high * 100, x * 140, 5),
        near(low * 140, high * 60, 20),
{
    let t = one();
    let m = SLACK as int;
    let e = s as int;
    assert(e < t) by (nonlinear_arith)
        requires
            (e * 100) * m <= (40 * t) * (m + 1),
            t > 0,
            m >= 100,
    ;
    let n = (t - s) as nat;
    let (y, z) = ((t + s) * 100, n * 100);
    assert(near(y, 140 * t, 1)) by {
        assert(((t + e) * 100) * m <= (140 * t) * (m + 1) && (140 * t) * m <= ((t + e) * 100) * (m + 1)) by (nonlinear_arith)
            requires
                (e * 100) * m <= (40 * t) * (m + 1),
                (40 * t) * m <= (e * 100) * (m + 1),
                t > 0,
                e >= 0,
                m > 0,
        ;
    }
    assert(near(z, 60 * t, 1)) by {
        assert(((t - e) * 100) * m <= (60 * t) * (m + 1) && (60 * t) * m <= ((t - e) * 100) * (m + 1)) by (nonlinear_arith)
            requires
                (e * 100) * m <= (40 * t) * (m + 1),
                (40 * t) * m <= (e * 100) * (m + 1),
                t > 0,
                0 <= e < t,
                m > 100,
        ;
    }
    nearness_scales(high * t, x * (t + s), 100, 3);
    nearness_scales(y, 140 * t, x, 1);
    assert((x * (t + s)) * 100 == y * x) by (nonlinear_arith)
        requires
            y == (t + s) * 100,
    ;
    nearness_carries_over((high * t) * 100, y * x, (140 * t) * x, 3, 1);
    assert((high * t) * 100 == (high * 100) * t && (140 * t) * x == (x * 140) * t) by (nonlinear_arith);
    nearness_cancels(high * 100, x * 140, t, 5);
    nearness_scales(low * t, x * n, 100, 3);
    nearness_scales(z, 60 * t, x, 1);
    assert((x * n) * 100 == z * x) by (nonlinear_arith)
        requires
            z == n * 100,
    ;
    nearness_carries_over((low * t) * 100, z * x, (60 * t) * x, 3, 1);
    assert((low * t) * 100 == (low * 100) * t && (60 * t) * x == (x * 60) * t) by (nonlinear_arith);
    nearness_cancels(low * 100, x * 60, t, 5);
    nearness_scales(low * 100, x * 60, 140, 5);
    nearness_scales(high * 100, x * 140, 60, 5);
    nearness_carries_over((low * 100) * 140, (x * 60) * 140, (high * 100) * 60, 5, 5);
    assert((low * 100) * 140 == (low * 140) * 100 && (high * 100) * 60 == (high * 60) * 100);
    nearness_cancels(low * 140, high * 60, 100, 11);
    nearness_widens(low * 140, high * 60, 11, 20);
}

// ---------------------------------------------------------------------- prompts

/// A prompt is processed at two operations per active parameter and token, at
/// the scale that was measured of the machine's peak; the wait for the first
/// token is the prompt at that speed.
pub proof fn prompts_are_processed_at_the_measured_scale(
    r: Prediction,
    m: ModelView,
    q: QuantView,
    hw: Hardware,
    prec: KvPrecision,
    prompt: nat,
    ubatch: nat,
    fit: Fit,
    scale: Coefficient,
)
    requires
        r.is_for(m, q, hw, prec, prompt, ubatch, fit),
        under(fit.prefill@, hw.backend.name_text()) == Some(scale),
        0 < m.active() <= 0x20_0000_0000_0000,
        0 < prompt <= 0x20_0000_0000_0000,
        ordinary(hw.gflops, 100),
        ordinary(scale.eta, 100),
    ensures
        r.prefill_tok_s matches Some(v) && r.ttft_s matches Some(w) && {
            &&& near(v.units() * (2 * m.active()) * one(), hw.gflops.units() * 1_000_000_000 * scale.eta.units(), 8)
            &&& v.units() * 1_000_000 >= 2 * one() ==> near(w.units() * v.units(), prompt * one() * one(), 1)
        },
        r.prefill_confidence == scale.confidence,
{
    let p = choose|p: MemoryPlan| p.is_for(m, q.bytes, hw, prec, ubatch) && #[trigger] r.is_by(m, q.family, p, hw, prompt, fit);
    let (g, two, a) = (Double { bits: BILLION_BITS }, Double { bits: TWO_BITS }, Double::count(m.active()));
    let t = one();
    lemma_nothing();
    lemma_powers_of_two();
    assert(two.significand() == 0x10_0000_0000_0000 && two.exponent() == -51);
    lemma_exactly(two, 0x10_0000_0000_0000, 51, 2);
    lemma_between(two, 0x400, 3);
    small_counts_are_exact(m.active());
    lemma_count_is_ordinary(m.active());
    let (x, e) = (hw.gflops, scale.eta);
    products_are_near(x, g, 100, 30);
    let y = x.product(g);
    products_are_near(y, e, 130, 100);
    let z = y.product(e);
    products_are_near(two, a, 3, 53);
    let d = two.product(a);
    quotients_are_near(z, d, 230, 56);
    let v = z.quotient(d);
    lemma_prefill(x.units(), y.units(), e.units(), z.units(), d.units(), v.units(), m.active());
    small_counts_are_exact(prompt);
    lemma_count_is_ordinary(prompt);
    let least = Double { bits: MILLIONTH_BITS };
    if v.units() * 1_000_000 >= 2 * t {
        lemma_millionth();
        order_is_that_of_the_numbers(v, least);
        lemma_positive(v, 286);
        assert(v.larger(least) == v);
        quotients_are_near(Double::count(prompt), v, 53, 286);
    }
}

proof fn lemma_millionth()
    ensures
        (Double { bits: MILLIONTH_BITS }).units() * 1_000_000 < 2 * one(),
        (Double { bits: MILLIONTH_BITS }).finite(),
        !(Double { bits: MILLIONTH_BITS }).negative(),
{
    let c = Double { bits: MILLIONTH_BITS };
    assert(c.significand() == 0x10_C6F7_A0B5_ED8D && c.exponent() == -72);
    let k = pow2(1002);
    lemma_pow2_adds(72, 1002);
    lemma_pow2_grows(0, 1002);
    lemma_powers_of_two();
    assert((0x10_C6F7_A0B5_ED8D * k) * 1_000_000 < 2 * (0x100_0000_0000_0000_0000 * k)) by (nonlinear_arith)
        requires
            k >= 1,
    ;
}

/// The steps from the peak to the speed of a prompt.
proof fn lemma_prefill(x: nat, y: nat, e: nat, z: nat, d: nat, v: nat, active: nat)
    requires
        near(y * one(), x * (1_000_000_000 * one()), 1),
        near(z * one(), y * e, 1),
        near(d * one(), (2 * one()) * (active * one()), 1),
        near(v * d, z * one(), 1),
        one() > 0,
    ensures
        near(v * (2 * active) * one(), x * 1_000_000_000 * e, 8),
{
    let t = one();
    assert(x * (1_000_000_000 * t) == (x * 1_000_000_000) * t) by (nonlinear_arith);
    nearness_cancels(y, x * 1_000_000_000, t, 1);
    assert((2 * t) * (active * t) == ((2 * active) * t) * t) by (nonlinear_arith);
    nearness_cancels(d, (2 * active) * t, t, 1);
    nearness_scales(d, (2 * active) * t, v, 1);
    assert(d * v == v * d && ((2 * active) * t) * v == v * (2 * active) * t) by (nonlinear_arith);
    nearness_carries_over(v * (2 * active) * t, v * d, z * t, 1, 1);
    nearness_carries_over(v * (2 * active) * t, z * t, y * e, 3, 1);
    nearness_scales(y, x * 1_000_000_000, e, 1);
    nearness_carries_over(v * (2 * active) * t, y * e, x * 1_000_000_000 * e, 5, 1);
    nearness_widens(v * (2 * active) * t, x * 1_000_000_000 * e, 7, 8);
}

// ---------------------------------------------------------------------- weights

/// What a token reads of a file is the share of the parameters that are active,
/// in whole bytes.
pub proof fn a_token_reads_its_share_of_the_file(m: ModelView, bytes: nat)
    requires
        0 < m.params <= 0x20_0000_0000_0000,
        m.active() <= m.params,
        bytes <= 0x20_0000_0000_0000,
    ensures
        hardly_above(m.active_bytes(bytes) * m.params, bytes * m.active(), 4),
        hardly_above(bytes * m.active(), (m.active_bytes(bytes) + 1) * m.params, 4),
{
    lemma_share(m, bytes, m.active());
}

/// The core that every token reads is the share of the shared parameters, and a
/// dense model has none.
pub proof fn the_hot_core_is_the_shared_part(m: ModelView, bytes: nat)
    requires
        0 < m.params <= 0x20_0000_0000_0000,
        m.active() <= m.params,
        bytes <= 0x20_0000_0000_0000,
    ensures
        m.moe is None ==> m.hot_core(bytes) == 0,
        m.moe matches Some(x) ==> hardly_above(m.hot_core(bytes) * m.params, bytes * x.shared_params as nat, 4) && hardly_above(
            bytes * x.shared_params as nat,
            (m.hot_core(bytes) + 1) * m.params,
            4,
        ),
{
    if let Some(x) = m.moe {
        let routed = x.expert_params as nat * x.n_active as nat * m.n_layers;
        assert(routed >= 0) by (nonlinear_arith)
            requires
                routed == x.expert_params as nat * x.n_active as nat * m.n_layers,
        ;
        lemma_share(m, bytes, x.shared_params as nat);
    }
}

proof fn lemma_share(m: ModelView, bytes: nat, part: nat)
    requires
        0 < m.params <= 0x20_0000_0000_0000,
        part <= m.params,
        bytes <= 0x20_0000_0000_0000,
    ensures
        hardly_above(m.share(bytes, part) * m.params, bytes * part, 4),
        hardly_above(bytes * part, (m.share(bytes, part) + 1) * m.params, 4),
{
    let t = one();
    let (b, a, n) = (Double::count(bytes), Double::count(part), Double::count(m.params));
    let x = b.product(a.quotient(n));
    let u = x.units();
    lemma_nothing();
    crate::double::laws::a_share_is_at_most_the_whole(part, m.params);
    crate::double::laws::a_part_is_at_most_the_count(bytes, a.quotient(n));
    crate::predict::speed::lemma_part(part, bytes, m.params);
    assert(x.finite() && !x.negative()) by {
        crate::predict::speed::lemma_bounded(x, 160);
    }
    let w = x.whole();
    vstd::arithmetic::div_mod::lemma_fundamental_div_mod(u as int, t as int);
    vstd::arithmetic::div_mod::lemma_mod_bound(u as int, t as int);
    assert(m.share(bytes, part) == w) by {
        reveal(Double::to_count);
        if w > u64::MAX {
            assert(x.to_count() <= bytes);
        }
    }
    assert(w * t <= u < (w + 1) * t) by (nonlinear_arith)
        requires
            u == t * w + u % t,
            0 <= u % t < t,
    ;
    let (p, s) = (m.params, SLACK as nat);
    let y = bytes * part;
    assert((w * p) * s <= y * (s + 3)) by (nonlinear_arith)
        requires
            (u * p) * s <= (y * t) * (s + 3),
            w * t <= u,
            t > 0,
    ;
    assert(y * s <= ((w + 1) * p) * (s + 3)) by (nonlinear_arith)
        requires
            (y * t) * s <= (u * p) * (s + 3),
            u < (w + 1) * t,
            t > 0,
    ;
    lemma_above_widens(w * p, y, 3, 4);
    lemma_above_widens(y, (w + 1) * p, 3, 4);
}

/// A dense model reads all of its parameters. Of a mixture every token reads
/// the shared ones, and each further expert it is routed to adds that expert in
/// every layer.
pub proof fn experts_add_up(m: ModelView, more: ModelView, x: crate::spec::Moe, y: crate::spec::Moe)
    requires
        m.moe == Some(x),
        more == (ModelView { moe: Some(y), ..m }),
        y == (crate::spec::Moe { n_active: y.n_active, ..x }),
        y.n_active == x.n_active + 1,
    ensures
        more.active() == m.active() + x.expert_params * m.n_layers,
        x.n_active == 0 ==> m.active() == x.shared_params,
        (ModelView { moe: None, ..m }).active() == m.params,
{
    let (e, n, l) = (x.expert_params as nat, x.n_active as nat, m.n_layers);
    assert(e * (n + 1) * l == e * n * l + e * l) by (nonlinear_arith);
    assert(n == 0 ==> e * n * l == 0) by (nonlinear_arith);
}

// ------------------------------------------------------------------------ plans

/// A plan leaves no memory idle. Weights that stay on the disk do so because
/// memory is full up to the room for a minimal conversation; weights that stay
/// out of VRAM because VRAM is full up to the buffers and the cache of an
/// ordinary one; and a context that is not the longest the model knows is the
/// longest that fits.
pub proof fn a_plan_leaves_no_memory_idle(p: MemoryPlan, m: ModelView, bytes: nat, hw: Hardware, prec: KvPrecision, ubatch: nat)
    requires
        p.is_for(m, bytes, hw, prec, ubatch),
        hw.usable_bytes + hw.vram_bytes <= u64::MAX,
    ensures
        p.weights_cached <= bytes,
        p.weights_cached < bytes ==> p.weights_cached == 0 || p.weights_cached + m.kv_bytes(2048, prec) + m.buffer_bytes(ubatch)
            == hw.usable_bytes + hw.vram_bytes,
        p.weights_cached == 0 && bytes > 0 ==> m.kv_bytes(2048, prec) + m.buffer_bytes(ubatch) >= hw.usable_bytes + hw.vram_bytes,
        p.vram_for_weights <= hw.vram_bytes,
        p.vram_for_weights <= p.weights_cached,
        p.vram_for_weights < p.weights_cached ==> p.vram_for_weights + m.buffer_bytes(ubatch) + m.kv_bytes(p.reserve_ctx as nat, prec)
            >= hw.vram_bytes,
        p.vram_for_weights > 0 ==> p.vram_for_weights + m.buffer_bytes(ubatch) + m.kv_bytes(p.reserve_ctx as nat, prec)
            <= hw.vram_bytes,
        512 <= p.reserve_ctx <= 4096,
        512 <= p.max_context <= 4096 ==> p.reserve_ctx == p.max_context,
        m.n_ctx_train matches Some(t) ==> p.max_context <= t,
        p.max_context < crate::kv::CONTEXT_LIMIT && (m.n_ctx_train matches Some(t) ==> p.max_context < t) ==> p.weights_cached
            + m.kv_bytes((p.max_context + 1) as nat, prec) + m.buffer_bytes(ubatch) > hw.usable_bytes + hw.vram_bytes,
{
    crate::predict::lemma_largest_context(m, crate::kv::CONTEXT_LIMIT as nat, p.for_kv as nat, prec);
}

/// The working buffers: eighty bytes for each element of each token of a batch,
/// four for each word of the vocabulary, and 64 MiB besides.
pub proof fn buffers_grow_with_the_batch(m: ModelView, wider: ModelView, ubatch: nat)
    requires
        wider == (ModelView { n_vocab: m.n_vocab + 1, ..m }),
    ensures
        m.buffer_bytes(ubatch + 1) == m.buffer_bytes(ubatch) + 80 * m.n_embd,
        wider.buffer_bytes(ubatch) == m.buffer_bytes(ubatch) + 4,
        m.n_vocab == 0 && ubatch == 0 ==> m.buffer_bytes(ubatch) == 64 * 1024 * 1024,
{
    let e = m.n_embd;
    assert((ubatch + 1) * e * 80 == ubatch * e * 80 + 80 * e) by (nonlinear_arith);
    assert(ubatch == 0 ==> ubatch * e * 80 == 0) by (nonlinear_arith);
}

} // verus!
