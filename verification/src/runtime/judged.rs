//! What a run says of its prediction.

use vstd::prelude::*;
use crate::double::error::{
    differences_are_near, near, nearness_cancels, nearness_carries_over, nearness_scales, nearness_widens, ordinary, products_are_near,
    quotients_are_near, sums_are_near, SLACK,
};
use crate::double::laws::{lemma_nonzero_units, small_counts_are_exact};
use crate::double::{lemma_pow2_adds, lemma_pow2_grows, pow2, Double, BILLION_BITS, HUNDRED_BITS, TWO_BITS};
use crate::predict::inversion::{lemma_between, lemma_count_is_ordinary, lemma_positive};
use crate::predict::laws::{lemma_exactly, order_is_that_of_the_numbers};
use crate::predict::speed::{lemma_nothing, lemma_powers_of_two, lemma_turned, one};
use crate::predict::Prediction;
use crate::runtime::calibrate::{prefill_scale_of, Calibration};
use crate::runtime::RunStats;

verus! {

/// Finite numbers are ordered as what they stand for, above and below nothing.
pub proof fn finite_numbers_are_ordered(a: Double, b: Double)
    requires
        a.finite() && b.finite(),
    ensures
        a.at_most(b) <==> a.signed_units() <= b.signed_units(),
        a.below(b) <==> a.signed_units() < b.signed_units(),
{
    let (x, y) = (a.absolute(), b.absolute());
    assert(x.magnitude() == a.magnitude() && y.magnitude() == b.magnitude());
    assert(x.units() == a.units() && y.units() == b.units());
    order_is_that_of_the_numbers(x, y);
    order_is_that_of_the_numbers(y, x);
    lemma_zero_has_no_units(a);
    lemma_zero_has_no_units(b);
}

pub proof fn lemma_zero_has_no_units(x: Double)
    requires
        x.finite(),
    ensures
        x.zero() <==> x.units() == 0,
{
    if x.zero() {
        assert(x.significand() == 0);
        assert(0 * pow2((x.exponent() + 1074) as nat) == 0) by (nonlinear_arith);
    } else {
        lemma_nonzero_units(x);
    }
}

/// A run is in range exactly where it is neither slower than the lower end nor
/// faster than the upper end.
pub proof fn a_run_is_in_range_only_between_the_ends(c: Calibration, pred: Prediction, run: RunStats, active: nat, gflops: Double)
    requires
        c.is_of(pred, run, active, gflops),
    ensures
        c.within_range ==> !run.decode_tok_s.nan() && !pred.decode_tok_s.0.nan() && !pred.decode_tok_s.1.nan(),
        run.decode_tok_s.finite() && pred.decode_tok_s.0.finite() && pred.decode_tok_s.1.finite() ==> (c.within_range
            <==> pred.decode_tok_s.0.signed_units() <= run.decode_tok_s.signed_units() <= pred.decode_tok_s.1.signed_units()),
        run.decode_tok_s.below(pred.decode_tok_s.0) ==> !c.within_range,
        pred.decode_tok_s.1.below(run.decode_tok_s) ==> !c.within_range,
        c.actual == run.decode_tok_s,
        c.predicted == pred.decode_tok_s,
{
    let (low, high) = pred.decode_tok_s;
    let x = run.decode_tok_s;
    if x.finite() && low.finite() && high.finite() {
        finite_numbers_are_ordered(low, x);
        finite_numbers_are_ordered(x, high);
    }
}

/// The middle of a range, and how far off it is in percent of what was
/// measured: above where the prediction was too fast, below where it was too
/// slow.
pub open spec fn is_off_by(error: Double, middle: Double, actual: Double) -> bool {
    let (e, m, a) = (error.units(), middle.units(), actual.units());
    &&& error.finite()
    &&& m >= a ==> !error.negative() && near(e * a, ((m - a) as nat) * 100 * one(), 5)
    &&& m < a ==> error.negative() && near(e * a, ((a - m) as nat) * 100 * one(), 5)
}

/// The error of a prediction is the distance of its middle from the
/// measurement, in percent of the measurement.
pub proof fn an_error_is_the_distance_in_percent(c: Calibration, pred: Prediction, run: RunStats, active: nat, gflops: Double)
    requires
        c.is_of(pred, run, active, gflops),
        ordinary(run.decode_tok_s, 100),
        pred.decode_tok_s.0.finite() && !pred.decode_tok_s.0.negative(),
        ordinary(pred.decode_tok_s.1, 100),
        pred.decode_tok_s.0.units() <= pred.decode_tok_s.1.units(),
    ensures
        exists|middle: Double|
            near(middle.units() * 2, pred.decode_tok_s.0.units() + pred.decode_tok_s.1.units(), 3) && #[trigger] is_off_by(
                c.error_pct,
                middle,
                run.decode_tok_s,
            ),
{
    let (low, high) = pred.decode_tok_s;
    let a = run.decode_tok_s;
    let two = Double { bits: TWO_BITS };
    let t = one();
    lemma_nothing();
    lemma_known();
    lemma_pow2_grows(1175, 1974);
    assert(pow2(1175) == 2 * pow2(1174));
    sums_are_near(low, high);
    let s = low.sum(high);
    let y = low.units() + high.units();
    lemma_pow2_grows(973, 974);
    lemma_stays_ordinary(s, y, 101);
    quotients_are_near(s, two, 102, 3);
    let middle = s.quotient(two);
    assert(middle.units() * (2 * t) == (middle.units() * 2) * t) by (nonlinear_arith);
    nearness_cancels(middle.units() * 2, s.units(), t, 1);
    nearness_carries_over(middle.units() * 2, s.units(), y, 1, 1);
    lemma_positive(a, 100);
    lemma_distance(middle, a);
    assert(c.error_pct == middle.difference(a).quotient(a).in_percent());
    assert(is_off_by(c.error_pct, middle, a));
}

proof fn lemma_known()
    ensures
        (Double { bits: TWO_BITS }).units() == 2 * one(),
        ordinary(Double { bits: TWO_BITS }, 3),
        (Double { bits: HUNDRED_BITS }).units() == 100 * one(),
        ordinary(Double { bits: HUNDRED_BITS }, 10),
{
    let (two, hundred) = (Double { bits: TWO_BITS }, Double { bits: HUNDRED_BITS });
    lemma_powers_of_two();
    assert(two.significand() == 0x10_0000_0000_0000 && two.exponent() == -51);
    assert(hundred.significand() == 0x19_0000_0000_0000 && hundred.exponent() == -46);
    lemma_exactly(two, 0x10_0000_0000_0000, 51, 2);
    lemma_exactly(hundred, 0x19_0000_0000_0000, 46, 100);
    lemma_between(two, 0x400, 3);
    lemma_between(hundred, 0x405, 10);
}

/// What is near to a number between two powers is, too, with one to spare.
proof fn lemma_stays_ordinary(x: Double, y: nat, i: nat)
    requires
        x.finite() && !x.negative(),
        near(x.units(), y, 1),
        i <= 900,
        pow2((1074 - i) as nat) <= y <= pow2(1074 + i),
    ensures
        ordinary(x, i + 1),
{
    let m = SLACK as int;
    let (a, b) = (x.units() as int, y as int);
    assert(a <= 2 * b && b <= 2 * a) by (nonlinear_arith)
        requires
            a * m <= b * (m + 1),
            b * m <= a * (m + 1),
            m >= 1,
            a >= 0,
            b >= 0,
    ;
    assert(pow2((1074 - i) as nat) == 2 * pow2((1074 - (i + 1)) as nat));
    assert(pow2(1074 + (i + 1)) == 2 * pow2(1074 + i));
}

/// How far two numbers are apart is nothing, or no mere trace.
proof fn lemma_apart_by(a: Double, b: Double, i: nat)
    requires
        ordinary(a, i) && ordinary(b, i),
        i <= 110,
        a.units() > b.units(),
    ensures
        a.units() - b.units() >= pow2((1021 - i) as nat),
{
    let (m, k) = crate::double::laws::lemma_parts(a);
    let (n, l) = crate::double::laws::lemma_parts(b);
    let e = (1021 - i) as nat;
    lemma_coarse(a, m, k, i);
    lemma_coarse(b, n, l, i);
    lemma_pow2_adds(e, (k - e) as nat);
    lemma_pow2_adds(e, (l - e) as nat);
    lemma_pow2_grows(0, e);
    let (u, f, g) = (pow2(e), pow2((k - e) as nat), pow2((l - e) as nat));
    assert(m * pow2(k) - n * pow2(l) == (m * f - n * g) * u) by (nonlinear_arith)
        requires
            pow2(k) == u * f,
            pow2(l) == u * g,
    ;
    let c = m * f - n * g;
    assert(c * u >= u) by (nonlinear_arith)
        requires
            c * u > 0,
            u > 0,
    ;
}

proof fn lemma_coarse(x: Double, m: nat, k: nat, i: nat)
    requires
        ordinary(x, i),
        i <= 110,
        x.units() == m * pow2(k),
        m < 0x20_0000_0000_0000,
    ensures
        k >= 1021 - i,
{
    if k < 1021 - i {
        crate::double::arith::lemma_pow2_53();
        lemma_pow2_adds(53, k);
        lemma_pow2_grows(53 + k, (1073 - i) as nat);
        lemma_pow2_grows(0, k);
        assert(pow2((1074 - i) as nat) == 2 * pow2((1073 - i) as nat));
        assert(m * pow2(k) < pow2(53) * pow2(k)) by (nonlinear_arith)
            requires
                m < pow2(53),
                pow2(k) >= 1,
        ;
    }
}

/// The distance of two numbers, in percent of the second.
proof fn lemma_distance(middle: Double, a: Double)
    requires
        ordinary(middle, 105),
        ordinary(a, 100),
    ensures
        is_off_by(middle.difference(a).quotient(a).in_percent(), middle, a),
{
    let t = one();
    let zero = Double { bits: 0 };
    lemma_nothing();
    lemma_known();
    lemma_positive(a, 100);
    lemma_pow2_grows(969, 974);
    lemma_pow2_grows(1174, 1179);
    lemma_pow2_grows(1179, 1974);
    assert(ordinary(a, 105));
    let d = middle.difference(a);
    if middle.units() == a.units() {
        differences_are_near(middle, a);
        lemma_zero_has_no_units(d);
        assert(d == zero);
        lemma_nothing_in_percent(a);
        crate::double::error::anything_is_near_itself(0, 5);
        assert(0 * a.units() == 0 && 0 * 100 * t == 0) by (nonlinear_arith);
    } else if middle.units() > a.units() {
        lemma_apart_by(middle, a, 105);
        differences_are_near(middle, a);
        lemma_percent_of(d, (middle.units() - a.units()) as nat, a);
    } else {
        lemma_apart_by(a, middle, 105);
        differences_are_near(a, middle);
        let e = a.difference(middle);
        lemma_percent_of(e, (a.units() - middle.units()) as nat, a);
        lemma_turned(middle, a);
        lemma_turned_percent(d, e, a);
    }
}

pub proof fn lemma_nothing_in_percent(a: Double)
    requires
        ordinary(a, 100),
    ensures
        (Double { bits: 0 }).quotient(a).in_percent() == (Double { bits: 0 }),
{
    let t = one();
    lemma_nothing();
    lemma_known();
    lemma_positive(a, 100);
    reveal(Double::quotient);
    assert(0 * t == 0) by (nonlinear_arith);
    crate::predict::inversion::lemma_zero_rounds_to_zero(a);
    crate::double::laws::nothing_times_anything(Double { bits: HUNDRED_BITS });
}

pub proof fn lemma_percent_of(d: Double, n: nat, a: Double)
    requires
        d.finite() && !d.negative(),
        near(d.units(), n, 1),
        pow2(916) <= n <= pow2(1179),
        ordinary(a, 100),
    ensures
        ({
            let e = d.quotient(a).in_percent();
            &&& e.finite() && !e.negative() && !e.zero()
            &&& near(e.units() * a.units(), n * 100 * one(), 5)
        }),
{
    let t = one();
    lemma_nothing();
    lemma_known();
    lemma_pow2_grows(1179, 1232);
    lemma_stays_ordinary(d, n, 158);
    quotients_are_near(d, a, 159, 100);
    let q = d.quotient(a);
    let hundred = Double { bits: HUNDRED_BITS };
    products_are_near(q, hundred, 259, 10);
    let e = q.product(hundred);
    lemma_positive(e, 269);
    assert(q.units() * (100 * t) == (q.units() * 100) * t) by (nonlinear_arith);
    nearness_cancels(e.units(), q.units() * 100, t, 1);
    nearness_scales(e.units(), q.units() * 100, a.units(), 1);
    nearness_scales(q.units() * a.units(), d.units() * t, 100, 1);
    assert((q.units() * 100) * a.units() == (q.units() * a.units()) * 100) by (nonlinear_arith);
    nearness_carries_over(e.units() * a.units(), (q.units() * a.units()) * 100, (d.units() * t) * 100, 1, 1);
    nearness_scales(d.units(), n, t * 100, 1);
    assert(d.units() * (t * 100) == (d.units() * t) * 100 && n * (t * 100) == n * 100 * t) by (nonlinear_arith);
    nearness_carries_over(e.units() * a.units(), (d.units() * t) * 100, n * 100 * t, 3, 1);
}

proof fn lemma_turned_percent(d: Double, e: Double, a: Double)
    requires
        d.negative() && d.magnitude() == e.magnitude(),
        e.finite() && !e.negative(),
        a.finite() && !a.negative() && !a.zero(),
        e.quotient(a).in_percent().finite(),
    ensures
        d.quotient(a).in_percent().negative(),
        d.quotient(a).in_percent().magnitude() == e.quotient(a).in_percent().magnitude(),
        d.quotient(a).in_percent().units() == e.quotient(a).in_percent().units(),
{
    assert(d.units() == e.units());
    assert(d.quotient(a).negative() && d.quotient(a).magnitude() == e.quotient(a).magnitude() && !e.quotient(a).negative()) by {
        reveal(Double::quotient);
    }
    assert(d.quotient(a).units() == e.quotient(a).units());
    reveal(Double::product);
}

/// The efficiency that a run implies is the one that predicts it: the measured
/// speed times the seconds per token at full bandwidth. The scale that its
/// prompt implies is two operations per parameter and token, of the machine's
/// peak.
pub proof fn a_run_implies_what_would_have_predicted_it(c: Calibration, pred: Prediction, run: RunStats, active: nat, gflops: Double)
    requires
        c.is_of(pred, run, active, gflops),
    ensures
        ordinary(run.decode_tok_s, 100) && ordinary(pred.raw_seconds_per_token, 300) ==> near(
            c.implied_eta.units() * one(),
            run.decode_tok_s.units() * pred.raw_seconds_per_token.units(),
            1,
        ),
        ordinary(run.prefill_tok_s, 100) && ordinary(gflops, 100) && 0 < active <= 0x20_0000_0000_0000 ==> near(
            c.implied_prefill_scale.units() * gflops.units() * 1_000_000_000,
            run.prefill_tok_s.units() * (2 * active) * one(),
            8,
        ),
        c.assumed_eta == pred.assumed_eta,
{
    if ordinary(run.decode_tok_s, 100) && ordinary(pred.raw_seconds_per_token, 300) {
        products_are_near(run.decode_tok_s, pred.raw_seconds_per_token, 100, 300);
    }
    if ordinary(run.prefill_tok_s, 100) && ordinary(gflops, 100) && 0 < active <= 0x20_0000_0000_0000 {
        lemma_scale(run.prefill_tok_s, active, gflops);
    }
}

proof fn lemma_scale(prefill: Double, active: nat, gflops: Double)
    requires
        ordinary(prefill, 100),
        ordinary(gflops, 100),
        0 < active <= 0x20_0000_0000_0000,
    ensures
        near(
            prefill_scale_of(prefill, active, gflops).units() * gflops.units() * 1_000_000_000,
            prefill.units() * (2 * active) * one(),
            8,
        ),
{
    let (two, g, n) = (Double { bits: TWO_BITS }, Double { bits: BILLION_BITS }, Double::count(active));
    let t = one();
    lemma_nothing();
    lemma_known();
    small_counts_are_exact(active);
    lemma_count_is_ordinary(active);
    products_are_near(gflops, g, 100, 30);
    let f = gflops.product(g);
    lemma_positive(f, 130);
    products_are_near(prefill, two, 100, 3);
    let p = prefill.product(two);
    products_are_near(p, n, 103, 53);
    let q = p.product(n);
    quotients_are_near(q, f, 156, 130);
    let s = q.quotient(f);
    let (x, y, z, w, k) = (prefill.units(), p.units(), q.units(), f.units(), gflops.units());
    // The steps without their ones.
    assert(k * (1_000_000_000 * t) == (k * 1_000_000_000) * t) by (nonlinear_arith);
    nearness_cancels(w, k * 1_000_000_000, t, 1);
    assert(x * (2 * t) == (x * 2) * t) by (nonlinear_arith);
    nearness_cancels(y, x * 2, t, 1);
    assert(y * (active * t) == (y * active) * t) by (nonlinear_arith);
    nearness_cancels(z, y * active, t, 1);
    nearness_scales(y, x * 2, active, 1);
    nearness_carries_over(z, y * active, (x * 2) * active, 1, 1);
    nearness_scales(z, (x * 2) * active, t, 3);
    nearness_carries_over(s.units() * w, z * t, ((x * 2) * active) * t, 1, 3);
    nearness_scales(w, k * 1_000_000_000, s.units(), 1);
    assert(w * s.units() == s.units() * w && (k * 1_000_000_000) * s.units() == s.units() * k * 1_000_000_000) by (nonlinear_arith);
    nearness_carries_over(s.units() * k * 1_000_000_000, s.units() * w, ((x * 2) * active) * t, 1, 5);
    assert(((x * 2) * active) * t == x * (2 * active) * t) by (nonlinear_arith);
    nearness_widens(s.units() * k * 1_000_000_000, x * (2 * active) * t, 7, 8);
}

} // verus!
