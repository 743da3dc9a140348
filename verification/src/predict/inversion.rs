//! The bandwidth that a plan asks for is the one that a prediction was made
//! with.

use vstd::prelude::*;
use crate::double::arith::{distance, magnitude_of};
use crate::double::error::{near, nearness_cancels, nearness_carries_over, nearness_scales, ordinary, products_are_near, quotients_are_near};
use crate::double::laws::{
    a_double_rounds_to_itself, a_factor_of_one_or_less_never_grows, a_factor_of_one_or_more_never_shrinks, a_share_is_at_most_the_whole,
    counts_are_finite, products_keep_order, small_counts_add_exactly, small_counts_are_exact, small_counts_are_taken_exactly,
};
use crate::double::{lemma_pow2_adds, lemma_pow2_grows, pow2, Double, BILLION_BITS, HIDDEN_BIT};
use crate::kv::KvPrecision;
use crate::predict::{
    a_tier_is_filled_exactly, beyond, needed_bandwidth, reading_time, served, Hardware, MemoryPlan, Tier, SLOWEST_DISK_BITS,
};
use crate::spec::{active_bytes_are_part_of_the_file, the_hot_core_is_read_every_time, ModelView};

verus! {

/// The steps of a prediction and its inversion, each near to what it stands
/// for, come back to where they started.
proof fn lemma_round_trip(a: nat, u: nat, w: nat, g: nat, b: nat, s: nat, e: nat, t: nat, p: nat, q: nat, r: nat)
    requires
        near(b * u, w * g, 1),
        near(s * b, a * u, 1),
        near(t * s, e * u, 1),
        near(p * u, a * t, 1),
        near(q * e, p * u, 1),
        near(r * g, q * u, 1),
        e > 0,
        s > 0,
        g > 0,
    ensures
        near(r, w, 11),
{
    nearness_scales(r * g, q * u, e, 1);
    nearness_scales(q * e, p * u, u, 1);
    assert((q * u) * e == (q * e) * u) by (nonlinear_arith);
    nearness_carries_over((r * g) * e, (q * e) * u, (p * u) * u, 1, 1);
    nearness_scales(p * u, a * t, u, 1);
    nearness_carries_over((r * g) * e, (p * u) * u, (a * t) * u, 3, 1);
    nearness_scales((r * g) * e, (a * t) * u, s, 5);
    nearness_scales(t * s, e * u, a * u, 1);
    assert(((a * t) * u) * s == (t * s) * (a * u)) by (nonlinear_arith);
    nearness_carries_over(((r * g) * e) * s, (t * s) * (a * u), (e * u) * (a * u), 5, 1);
    assert(((r * g) * e) * s == ((r * g) * s) * e) by (nonlinear_arith);
    assert((e * u) * (a * u) == ((a * u) * u) * e) by (nonlinear_arith);
    nearness_cancels((r * g) * s, (a * u) * u, e, 7);
    nearness_scales(s * b, a * u, u, 1);
    nearness_carries_over((r * g) * s, (a * u) * u, (s * b) * u, 7, 1);
    assert((s * b) * u == (b * u) * s) by (nonlinear_arith);
    nearness_cancels(r * g, b * u, s, 9);
    nearness_carries_over(r * g, b * u, w * g, 9, 1);
    nearness_cancels(r, w, g, 11);
}

/// As far apart as a millionth of the second, or less.
pub open spec fn within_a_millionth(x: Double, y: Double) -> bool {
    x.finite() && y.finite() && distance(x.signed_units() - y.signed_units()) * 1_000_000 <= y.units()
}

pub proof fn lemma_positive(x: Double, i: nat)
    requires
        ordinary(x, i),
    ensures
        x.units() > 0,
        (Double { bits: 0 }).below(x),
        !x.at_most(Double { bits: 0 }),
        !x.zero(),
{
    lemma_pow2_grows(0, (1074 - i) as nat);
    if x.zero() {
        assert(x.significand() == 0);
        assert(0 * pow2((x.exponent() + 1074) as nat) == 0) by (nonlinear_arith);
    }
}

/// A number between two powers of two by its exponent's bits.
pub proof fn lemma_between(x: Double, f: nat, i: nat)
    requires
        x.magnitude() / (HIDDEN_BIT as nat) == f,
        1 <= f <= 2046,
        !x.negative(),
        i <= 900,
        1074 - i <= f + 51,
        f + 52 <= 1074 + i,
    ensures
        ordinary(x, i),
{
    let m = x.significand();
    let k = (f - 1) as nat;
    crate::double::arith::lemma_pow2_53();
    vstd::arithmetic::div_mod::lemma_fundamental_div_mod(x.magnitude() as int, HIDDEN_BIT as int);
    vstd::arithmetic::div_mod::lemma_mod_bound(x.magnitude() as int, HIDDEN_BIT as int);
    assert(HIDDEN_BIT <= m < 0x20_0000_0000_0000);
    assert(x.units() == m * pow2(k));
    lemma_pow2_adds(52, k);
    lemma_pow2_adds(53, k);
    lemma_pow2_grows((1074 - i) as nat, 52 + k);
    lemma_pow2_grows(53 + k, 1074 + i);
    assert(pow2(52) * pow2(k) <= m * pow2(k) <= pow2(53) * pow2(k)) by (nonlinear_arith)
        requires
            pow2(52) <= m <= pow2(53),
    ;
}

proof fn lemma_constants()
    ensures
        ordinary(Double { bits: BILLION_BITS }, 30),
        ordinary(Double { bits: SLOWEST_DISK_BITS }, 7),
{
    lemma_between(Double { bits: BILLION_BITS }, 0x41C, 30);
    lemma_between(Double { bits: SLOWEST_DISK_BITS }, 0x3F8, 7);
}

pub proof fn lemma_count_is_ordinary(n: nat)
    requires
        0 < n <= 0x20_0000_0000_0000,
    ensures
        ordinary(Double::count(n), 53),
{
    small_counts_are_exact(n);
    crate::double::arith::lemma_pow2_53();
    lemma_pow2_adds(53, 1074);
    lemma_pow2_grows(1021, 1074);
    lemma_pow2_grows(0, 1074);
    let t = pow2(1074);
    assert(t <= n * t <= 0x20_0000_0000_0000 * t) by (nonlinear_arith)
        requires
            1 <= n <= 0x20_0000_0000_0000,
    ;
}

/// A prediction bound by memory bandwidth alone, inverted.
proof fn lemma_inverts(active: nat, bw: Double, eta: Double)
    requires
        0 < active <= 0x20_0000_0000_0000,
        ordinary(bw, 100),
        ordinary(eta, 100),
    ensures
        ({
            let s = reading_time(Double::count(active), bw);
            &&& ordinary(s, 183)
            &&& within_a_millionth(needed_bandwidth(active, eta.quotient(s), eta), bw)
        }),
{
    let a = Double::count(active);
    let g = Double { bits: BILLION_BITS };
    let t = pow2(1074);
    lemma_constants();
    lemma_count_is_ordinary(active);
    products_are_near(bw, g, 100, 30);
    let b = bw.product(g);
    quotients_are_near(a, b, 53, 130);
    let s = a.quotient(b);
    quotients_are_near(eta, s, 100, 183);
    let v = eta.quotient(s);
    products_are_near(a, v, 53, 283);
    let p = a.product(v);
    quotients_are_near(p, eta, 336, 100);
    let q = p.quotient(eta);
    quotients_are_near(q, g, 436, 30);
    let r = q.quotient(g);
    lemma_positive(eta, 100);
    lemma_positive(s, 183);
    lemma_positive(v, 283);
    lemma_positive(g, 30);
    lemma_round_trip(a.units(), t, bw.units(), g.units(), b.units(), s.units(), eta.units(), v.units(), p.units(), q.units(), r.units());
    assert(needed_bandwidth(active, v, eta) == r);
    let (x, y) = (r.units() as int, bw.units() as int);
    let m = crate::double::error::SLACK as int;
    assert(distance(x - y) * 1_000_000 <= y) by (nonlinear_arith)
        requires
            x * m <= y * (m + 11),
            y * m <= x * (m + 11),
            m == 0x4_0000_0000_0000,
            x >= 0,
            y >= 0,
            distance(x - y) == (if x >= y { x - y } else { y - x }),
    ;
}

// ------------------------------------------------------------------ residence

pub proof fn lemma_zero_adds_nothing(x: Double)
    requires
        x.finite(),
        !x.negative(),
    ensures
        x.sum(Double { bits: 0 }) == x,
        (Double { bits: 0 }).sum(x) == x,
{
    let zero = Double { bits: 0 };
    reveal(Double::sum);
    a_double_rounds_to_itself(x);
    assert(zero.significand() == 0);
    assert(0 * pow2((zero.exponent() + 1074) as nat) == 0) by (nonlinear_arith);
    if x.units() == 0 {
        a_double_rounds_to_itself(zero);
        assert(magnitude_of(0, 1) == 0);
    }
}

pub proof fn lemma_beyond(all: nat, part: nat)
    requires
        part <= all <= 0x20_0000_0000_0000,
    ensures
        beyond(all, part) == Double::count((all - part) as nat),
{
    small_counts_are_taken_exactly(all, part);
    small_counts_are_exact((all - part) as nat);
}

proof fn lemma_whole_share(n: nat, of: nat)
    requires
        0 < of <= 0x20_0000_0000_0000,
        n <= 0x20_0000_0000_0000,
    ensures
        Double::count(n).product(Double::count(of).quotient(Double::count(of))) == Double::count(n),
{
    let c = Double::count(n);
    let f = Double::count(of).quotient(Double::count(of));
    a_share_is_at_most_the_whole(of, of);
    small_counts_are_exact(n);
    a_factor_of_one_or_more_never_shrinks(c, f);
    a_factor_of_one_or_less_never_grows(c, f);
    let p = c.product(f);
    assert(p.magnitude() == c.magnitude());
    assert(p.bits == c.bits);
}

/// Where everything lies in host memory, memory serves all that a token reads,
/// and reading it is all there is to a token.
proof fn lemma_resident(p: MemoryPlan, m: ModelView, bytes: nat, hw: Hardware, prec: KvPrecision, ubatch: nat)
    requires
        p.is_for(m, bytes, hw, prec, ubatch),
        0 < m.params <= u64::MAX,
        m.active() <= m.params,
        0 < bytes <= 0x20_0000_0000_0000,
        m.active_bytes(bytes) > 0,
        hw.vram_bytes == 0,
        p.weights_cached == bytes,
        ordinary(hw.ram_bw_gbs, 100),
        hw.disk_gbs.finite(),
    ensures
        p.from_fast(hw) == Double::count(m.active_bytes(bytes)),
        p.active == Double::count(m.active_bytes(bytes)),
        p.seconds(hw) == reading_time(p.active, hw.ram_bw_gbs),
{
    let act = m.active_bytes(bytes);
    let hot = m.hot_core(bytes);
    let bw = hw.ram_bw_gbs;
    let zero = Double { bits: 0 };
    the_hot_core_is_read_every_time(m, bytes);
    active_bytes_are_part_of_the_file(m, bytes);
    small_counts_are_exact(0);
    lemma_positive(bw, 100);
    lemma_beyond(bytes, hot);
    lemma_beyond(act, hot);
    small_counts_are_taken_exactly(hot, 0);
    small_counts_are_taken_exactly((bytes - hot) as nat, 0);
    assert(p.vram == (Tier { pinned: zero, cached: zero }));
    a_tier_is_filled_exactly(bytes, bw, hot, (bytes - hot) as nat);
    assert(p.ram == (Tier { pinned: Double::count(hot), cached: Double::count((bytes - hot) as nat) }));
    small_counts_are_exact((bytes - hot) as nat);
    let cold = (bytes - hot) as nat;
    if cold > 0 {
        lemma_whole_share((act - hot) as nat, cold);
        counts_are_finite(cold);
        assert(zero.below(p.cold_total));
    } else {
        assert(!zero.below(p.cold_total));
        small_counts_add_exactly(hot, 0);
    }
    small_counts_add_exactly(hot, (act - hot) as nat);
    assert(served(p, p.ram) == Double::count(act));
    small_counts_are_exact(act);
    lemma_zero_adds_nothing(Double::count(act));
    assert(p.from_fast(hw) == Double::count(act));
    small_counts_are_taken_exactly(act, act);
    assert(p.from_disk(hw) == zero);
    lemma_count_is_ordinary(act);
    lemma_constants();
    products_are_near(bw, Double { bits: BILLION_BITS }, 100, 30);
    quotients_are_near(Double::count(act), bw.product(Double { bits: BILLION_BITS }), 53, 130);
    let s = reading_time(p.active, bw);
    lemma_zero_adds_nothing(s);
    lemma_nothing_to_read(hw.disk_gbs);
}

/// Nothing is read in no time.
proof fn lemma_nothing_to_read(disk: Double)
    requires
        disk.finite(),
    ensures
        reading_time(Double { bits: 0 }, disk.larger(Double { bits: SLOWEST_DISK_BITS })) == (Double { bits: 0 }),
{
    let zero = Double { bits: 0 };
    let slow = Double { bits: SLOWEST_DISK_BITS };
    let g = Double { bits: BILLION_BITS };
    let d = disk.larger(slow);
    lemma_constants();
    lemma_positive(slow, 7);
    products_are_near(slow, g, 7, 30);
    lemma_positive(slow.product(g), 37);
    assert(!d.negative() && d.finite() && slow.magnitude() <= d.magnitude());
    products_keep_order(slow, d, g);
    let x = d.product(g);
    assert(!x.zero() && !x.nan() && !x.negative());
    reveal(Double::quotient);
    if x.finite() {
        assert(zero.significand() == 0);
        assert(0 * pow2((zero.exponent() + 1074) as nat) == 0) by (nonlinear_arith);
        assert(zero.units() == 0);
        assert(0 * pow2(1074) == 0) by (nonlinear_arith);
        lemma_zero_rounds_to_zero(x);
    }
}

pub proof fn lemma_zero_rounds_to_zero(x: Double)
    requires
        x.finite(),
        !x.zero(),
    ensures
        magnitude_of(0, x.units()) == 0,
{
    crate::double::laws::lemma_nonzero_units(x);
    let d = x.units();
    assert(crate::double::arith::halvings(0, d) == 0);
    assert(pow2(0) == 1);
    assert(d * pow2(0) == d) by (nonlinear_arith)
        requires
            pow2(0) == 1,
    ;
    vstd::arithmetic::div_mod::lemma_small_mod(0, d);
    vstd::arithmetic::div_mod::lemma_basic_div(0, d as int);
}

/// What a plan asks for is what a prediction was made with: where all weights
/// lie in host memory, the bandwidth needed for the predicted speed is the
/// machine's, to a millionth. Bandwidth and efficiency are taken to be between
/// 2^-100 and 2^100, which no machine leaves.
pub proof fn the_inversion_agrees_with_the_prediction(
    p: MemoryPlan,
    m: ModelView,
    bytes: nat,
    hw: Hardware,
    prec: KvPrecision,
    ubatch: nat,
    eta: Double,
)
    requires
        p.is_for(m, bytes, hw, prec, ubatch),
        0 < m.params <= u64::MAX,
        m.active() <= m.params,
        0 < bytes <= 0x20_0000_0000_0000,
        m.active_bytes(bytes) > 0,
        hw.vram_bytes == 0,
        p.weights_cached == bytes,
        ordinary(hw.ram_bw_gbs, 100),
        hw.disk_gbs.finite(),
        ordinary(eta, 100),
    ensures
        p.from_fast(hw) == p.active,
        within_a_millionth(
            needed_bandwidth(m.active_bytes(bytes), eta.quotient(p.seconds(hw)), eta),
            hw.ram_bw_gbs,
        ),
{
    lemma_resident(p, m, bytes, hw, prec, ubatch);
    active_bytes_are_part_of_the_file(m, bytes);
    lemma_inverts(m.active_bytes(bytes), hw.ram_bw_gbs, eta);
}

} // verus!
