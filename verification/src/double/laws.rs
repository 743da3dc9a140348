//! What holds of the arithmetic whatever the numbers are.

use vstd::prelude::*;
use vstd::arithmetic::div_mod::{lemma_div_is_ordered, lemma_fundamental_div_mod, lemma_fundamental_div_mod_converse, lemma_mod_bound};
use crate::double::arith::{distance, halvings, lemma_halvings_bounds, lemma_halvings_is, lemma_magnitude_scale, lemma_pow2_53, magnitude_of, signed};
use crate::double::{lemma_pow2_adds, lemma_pow2_grows, nearest, pow2, Double, HIDDEN_BIT, INFINITY_BITS};

verus! {

proof fn lemma_nearest_grows(n: nat, m: nat, d: nat)
    requires
        d > 0,
        n <= m,
    ensures
        nearest(n, d) <= nearest(m, d),
{
    lemma_div_is_ordered(n as int, m as int, d as int);
    lemma_fundamental_div_mod(n as int, d as int);
    lemma_fundamental_div_mod(m as int, d as int);
}

proof fn lemma_nearest_at_least(n: nat, d: nat, x: nat)
    requires
        d > 0,
        n >= d * x,
    ensures
        nearest(n, d) >= x,
{
    lemma_div_is_ordered((d * x) as int, n as int, d as int);
    vstd::arithmetic::div_mod::lemma_div_multiples_vanish(x as int, d as int);
}

proof fn lemma_nearest_at_most(n: nat, d: nat, x: nat)
    requires
        d > 0,
        n < d * x,
    ensures
        nearest(n, d) <= x,
{
    let q = n as int / d as int;
    lemma_fundamental_div_mod(n as int, d as int);
    lemma_mod_bound(n as int, d as int);
    assert(q < x) by (nonlinear_arith)
        requires
            n as int == d as int * q + n as int % d as int,
            n as int % d as int >= 0,
            n < d * x,
            d > 0,
    ;
}

/// Rounding keeps order: of two exact results over one divisor, the larger is
/// never rounded below the smaller.
pub proof fn rounding_keeps_order(n: nat, m: nat, d: nat)
    requires
        d > 0,
        n <= m,
    ensures
        magnitude_of(n, d) <= magnitude_of(m, d),
{
    lemma_halvings_bounds(n, d);
    lemma_halvings_bounds(m, d);
    let k = halvings(n, d);
    let j = halvings(m, d);
    let c = d * 0x20_0000_0000_0000;
    lemma_pow2_grows(0, k);
    lemma_pow2_grows(0, j);
    let dk = d * pow2(k);
    let dj = d * pow2(j);
    assert(dk > 0 && dj > 0) by (nonlinear_arith)
        requires
            dk == d * pow2(k),
            dj == d * pow2(j),
            d > 0,
            pow2(k) >= 1,
            pow2(j) >= 1,
    ;
    if j < k {
        lemma_pow2_grows(j, (k - 1) as nat);
        assert(c * pow2(j) <= c * pow2((k - 1) as nat)) by (nonlinear_arith)
            requires
                pow2(j) <= pow2((k - 1) as nat),
        ;
    }
    assert(k <= j);
    if k == j {
        lemma_nearest_grows(n, m, dk);
    } else {
        assert(c * pow2(k) == dk * 0x20_0000_0000_0000) by (nonlinear_arith)
            requires
                c == d * 0x20_0000_0000_0000,
                dk == d * pow2(k),
        ;
        lemma_nearest_at_most(n, dk, 0x20_0000_0000_0000);
        let h = (j - 1) as nat;
        assert(pow2(j) == 2 * pow2(h));
        assert(c * pow2(h) == dj * 0x10_0000_0000_0000) by (nonlinear_arith)
            requires
                c == d * 0x20_0000_0000_0000,
                dj == d * pow2(j),
                pow2(j) == 2 * pow2(h),
        ;
        lemma_nearest_at_least(m, dj, 0x10_0000_0000_0000);
    }
}

/// What `m` times 2^k units round to, where that is a double: itself.
pub proof fn lemma_exact_units(m: nat, k: nat)
    requires
        m < 0x20_0000_0000_0000,
        k > 0 ==> m >= HIDDEN_BIT,
        k <= 2045,
    ensures
        magnitude_of(m * pow2(k), 1) == k * HIDDEN_BIT + m,
        k * HIDDEN_BIT + m < INFINITY_BITS,
{
    let n = m * pow2(k);
    lemma_pow2_grows(0, k);
    let c: nat = 1 * 0x20_0000_0000_0000;
    assert(n < c * pow2(k)) by (nonlinear_arith)
        requires
            n == m * pow2(k),
            m < 0x20_0000_0000_0000,
            c == 0x20_0000_0000_0000,
            pow2(k) >= 1,
    ;
    if k > 0 {
        let h = (k - 1) as nat;
        assert(pow2(k) == 2 * pow2(h));
        assert(n >= c * pow2(h)) by (nonlinear_arith)
            requires
                n == m * pow2(k),
                pow2(k) == 2 * pow2(h),
                m >= 0x10_0000_0000_0000,
                c == 0x20_0000_0000_0000,
        ;
    }
    lemma_halvings_is(n, 1, k);
    assert(1 * pow2(k) == pow2(k));
    lemma_fundamental_div_mod_converse(n as int, pow2(k) as int, m as int, 0);
}

/// The units of a number by its bits.
pub proof fn lemma_units_of(m: nat, k: nat)
    requires
        m < 0x20_0000_0000_0000,
        k > 0 ==> m >= HIDDEN_BIT,
        k <= 2045,
    ensures
        signed(false, k * HIDDEN_BIT as nat + m).units() == m * pow2(k),
        signed(false, k * HIDDEN_BIT as nat + m).finite(),
        signed(false, k * HIDDEN_BIT as nat + m).magnitude() == k * HIDDEN_BIT + m,
        !signed(false, k * HIDDEN_BIT as nat + m).negative(),
{
    let b = k * HIDDEN_BIT as nat + m;
    let h = HIDDEN_BIT as int;
    assert(b < INFINITY_BITS);
    if m < HIDDEN_BIT {
        assert(b == m);
        vstd::arithmetic::div_mod::lemma_small_mod(m, HIDDEN_BIT as nat);
    } else {
        lemma_fundamental_div_mod_converse(b as int, h, (k + 1) as int, m - h);
    }
}

/// Every finite number is `m` times 2^k units, and so are its bits.
pub proof fn lemma_parts(x: Double) -> (r: (nat, nat))
    requires
        x.finite(),
    ensures
        r.0 < 0x20_0000_0000_0000,
        r.1 > 0 ==> r.0 >= HIDDEN_BIT,
        r.1 <= 2045,
        x.units() == r.0 * pow2(r.1),
        x.magnitude() == r.1 * HIDDEN_BIT + r.0,
{
    let mag = x.magnitude();
    lemma_fundamental_div_mod(mag as int, HIDDEN_BIT as int);
    lemma_mod_bound(mag as int, HIDDEN_BIT as int);
    if mag < HIDDEN_BIT {
        vstd::arithmetic::div_mod::lemma_small_mod(mag, HIDDEN_BIT as nat);
        (mag, 0)
    } else {
        let e = mag / (HIDDEN_BIT as nat);
        (mag % (HIDDEN_BIT as nat) + HIDDEN_BIT as nat, (e - 1) as nat)
    }
}

/// A number that needs no rounding is not rounded.
pub proof fn a_double_rounds_to_itself(x: Double)
    requires
        x.finite(),
    ensures
        magnitude_of(x.units(), 1) == x.magnitude(),
{
    let (m, k) = lemma_parts(x);
    lemma_exact_units(m, k);
}

/// A larger magnitude is more units.
pub proof fn units_follow_magnitudes(x: Double, y: Double)
    requires
        x.finite(),
        y.finite(),
        x.magnitude() <= y.magnitude(),
    ensures
        x.units() <= y.units(),
{
    if x.units() > y.units() {
        a_double_rounds_to_itself(x);
        a_double_rounds_to_itself(y);
        rounding_keeps_order(y.units(), x.units(), 1);
        assert(x.magnitude() == y.magnitude());
    }
}

/// Counts up to 2^53 are exact.
pub proof fn small_counts_are_exact(n: nat)
    requires
        n <= 0x20_0000_0000_0000,
    ensures
        Double::count(n).units() == n * pow2(1074),
        Double::count(n).finite(),
        !Double::count(n).negative(),
        Double::count(n).whole() == n,
        Double::count(n).zero() == (n == 0),
{
    reveal(Double::count);
    let z = lemma_top(n);
    let k = (1074 - z) as nat;
    let m = n * pow2(z);
    lemma_pow2_adds(z, k);
    assert(n * pow2(1074) == m * pow2(k)) by (nonlinear_arith)
        requires
            m == n * pow2(z),
            pow2(1074) == pow2(z) * pow2(k),
    ;
    if n == 0x20_0000_0000_0000 {
        // The one count with a digit more: half as many of twice the size.
        lemma_pow2_53();
        lemma_pow2_adds(1, 1074);
        assert(pow2(1) == 2) by {
            assert(pow2(0) == 1);
        }
        assert(n * pow2(1074) == 0x10_0000_0000_0000 * pow2(1075)) by (nonlinear_arith)
            requires
                n == 0x20_0000_0000_0000,
                pow2(1075) == 2 * pow2(1074),
        ;
        lemma_exact_units(0x10_0000_0000_0000, 1075);
        lemma_units_of(0x10_0000_0000_0000, 1075);
    } else if n == 0 {
        assert(0 * pow2(1074) == 0 && 0 * pow2(0) == 0) by (nonlinear_arith);
        lemma_exact_units(0, 0);
        lemma_units_of(0, 0);
    } else {
        lemma_exact_units(m, k);
        lemma_units_of(m, k);
    }
    lemma_pow2_grows(0, 1074);
    vstd::arithmetic::div_mod::lemma_div_by_multiple(n as int, pow2(1074) as int);
    let u = Double::count(n).units();
    assert(n > 0 ==> u > 0) by (nonlinear_arith)
        requires
            u == n * pow2(1074),
            pow2(1074) >= 1,
    ;
    let (p, q) = lemma_parts(Double::count(n));
    if Double::count(n).zero() {
        assert(p == 0 && q == 0);
        assert(0 * pow2(0) == 0) by (nonlinear_arith);
    }
}

/// How far a count below 2^53 moves up to its top place.
proof fn lemma_top(n: nat) -> (z: nat)
    requires
        n <= 0x20_0000_0000_0000,
    ensures
        z <= 52,
        0 < n < 0x20_0000_0000_0000 ==> 0x10_0000_0000_0000 <= n * pow2(z) < 0x20_0000_0000_0000,
    decreases 0x20_0000_0000_0000 - n,
{
    if n == 0 || n >= 0x10_0000_0000_0000 {
        assert(n * pow2(0) == n) by (nonlinear_arith)
            requires
                pow2(0) == 1,
        ;
        0
    } else {
        let y = lemma_top(2 * n);
        lemma_top_steps(n, y);
        y + 1
    }
}

proof fn lemma_top_steps(n: nat, y: nat)
    requires
        0 < n < 0x10_0000_0000_0000,
        y <= 52,
        0x10_0000_0000_0000 <= 2 * n * pow2(y) < 0x20_0000_0000_0000,
    ensures
        y + 1 <= 52,
        n * pow2(y + 1) == 2 * n * pow2(y),
{
    assert(pow2(y + 1) == 2 * pow2(y));
    assert(n * pow2(y + 1) == 2 * n * pow2(y)) by (nonlinear_arith)
        requires
            pow2(y + 1) == 2 * pow2(y),
    ;
    if y == 52 {
        lemma_pow2_53();
        assert(2 * n * pow2(52) >= 0x20_0000_0000_0000) by (nonlinear_arith)
            requires
                n >= 1,
                pow2(52) == 0x10_0000_0000_0000,
        ;
    }
}

/// A count is finite, and no more than 2^64.
pub proof fn counts_are_finite(n: nat)
    requires
        n <= u64::MAX,
    ensures
        Double::count(n).finite(),
        !Double::count(n).negative(),
        n > 0 ==> !Double::count(n).zero(),
{
    reveal(Double::count);
    lemma_pow2_64_units();
    lemma_pow2_grows(0, 1074);
    assert(n * pow2(1074) <= 0x10_0000_0000_0000 * pow2(1086)) by (nonlinear_arith)
        requires
            n <= 0xFFFF_FFFF_FFFF_FFFF,
            pow2(1086) == 4096 * pow2(1074),
    ;
    rounding_keeps_order(n * pow2(1074), 0x10_0000_0000_0000 * pow2(1086), 1);
    lemma_exact_units(0x10_0000_0000_0000, 1086);
    let b = magnitude_of(n * pow2(1074), 1);
    assert(b < INFINITY_BITS);
    if n > 0 {
        small_counts_are_exact(1);
        assert(1 * pow2(1074) <= n * pow2(1074)) by (nonlinear_arith)
            requires
                n >= 1,
        ;
        rounding_keeps_order(1 * pow2(1074), n * pow2(1074), 1);
    }
}

proof fn lemma_pow2_64_units()
    ensures
        pow2(1086) == 4096 * pow2(1074),
{
    lemma_pow2_adds(12, 1074);
    lemma_pow2_12();
}

proof fn lemma_pow2_12()
    ensures
        pow2(12) == 4096,
{
    reveal_with_fuel(pow2, 13);
}

/// A count divided by itself is one, by no less is at most one.
pub proof fn a_share_is_at_most_the_whole(part: nat, whole: nat)
    requires
        part <= whole <= u64::MAX,
        whole > 0,
    ensures
        ({
            let f = Double::count(part).quotient(Double::count(whole));
            &&& f.finite() && !f.negative()
            &&& f.units() <= pow2(1074)
            &&& part == whole ==> f.units() == pow2(1074)
        }),
{
    let a = Double::count(part);
    let b = Double::count(whole);
    counts_are_finite(part);
    counts_are_finite(whole);
    assert(a.magnitude() <= b.magnitude()) by {
        reveal(Double::count);
        assert(part * pow2(1074) <= whole * pow2(1074)) by (nonlinear_arith)
            requires
                part <= whole,
        ;
        rounding_keeps_order(part * pow2(1074), whole * pow2(1074), 1);
    }
    units_follow_magnitudes(a, b);
    assert(b.units() > 0) by {
        lemma_nonzero_units(b);
    }
    reveal(Double::quotient);
    let u = a.units();
    let w = b.units();
    lemma_pow2_grows(0, 1074);
    assert(u * pow2(1074) <= w * pow2(1074)) by (nonlinear_arith)
        requires
            u <= w,
    ;
    rounding_keeps_order(u * pow2(1074), w * pow2(1074), w);
    assert(w * pow2(1074) == pow2(1074) * w && 1 * w == w) by (nonlinear_arith);
    lemma_magnitude_scale(pow2(1074), 1, w);
    lemma_one();
    let one = Double { bits: 0x3FF0_0000_0000_0000 };
    assert(magnitude_of(u * pow2(1074), w) <= one.magnitude());
    let f = a.quotient(b);
    assert(f.finite());
    units_follow_magnitudes(f, one);
}

pub proof fn lemma_nonzero_units(x: Double)
    requires
        x.finite(),
        !x.zero(),
    ensures
        x.units() > 0,
{
    let (m, k) = lemma_parts(x);
    lemma_pow2_grows(0, k);
    assert(m * pow2(k) > 0) by (nonlinear_arith)
        requires
            m > 0,
            pow2(k) >= 1,
    ;
}

pub proof fn lemma_one()
    ensures
        magnitude_of(pow2(1074), 1) == 0x3FF0_0000_0000_0000,
        (Double { bits: 0x3FF0_0000_0000_0000 }).units() == pow2(1074),
        (Double { bits: 0x3FF0_0000_0000_0000 }).finite(),
        (Double { bits: 0x3FF0_0000_0000_0000 }).magnitude() == 0x3FF0_0000_0000_0000,
{
    lemma_pow2_53();
    lemma_pow2_adds(52, 1022);
    lemma_exact_units(0x10_0000_0000_0000, 1022);
    lemma_units_of(0x10_0000_0000_0000, 1022);
}

/// A part of a count, by a fraction of at most one, is at most the count as a
/// double has it, which up to 2^53 is the count; by one it is that count.
pub proof fn a_part_is_at_most_the_count(n: nat, f: Double)
    requires
        n <= u64::MAX,
        f.finite(),
        !f.negative(),
        f.units() <= pow2(1074),
    ensures
        Double::count(n).product(f).to_count() <= Double::count(n).to_count(),
        f.units() == pow2(1074) ==> Double::count(n).product(f).to_count() == Double::count(n).to_count(),
        n <= 0x20_0000_0000_0000 ==> Double::count(n).to_count() == n,
{
    let c = Double::count(n);
    counts_are_finite(n);
    if n <= 0x20_0000_0000_0000 {
        small_counts_are_exact(n);
    }
    reveal(Double::product);
    reveal(Double::to_count);
    let u = c.units();
    lemma_pow2_grows(0, 1074);
    let x = u * f.units();
    let w = u * pow2(1074);
    assert(x <= w) by (nonlinear_arith)
        requires
            x == u * f.units(),
            w == u * pow2(1074),
            f.units() <= pow2(1074),
    ;
    rounding_keeps_order(x, w, pow2(1074));
    assert(1 * pow2(1074) == pow2(1074));
    lemma_magnitude_scale(u, 1, pow2(1074));
    a_double_rounds_to_itself(c);
    let p = c.product(f);
    assert(p.magnitude() <= c.magnitude());
    units_follow_magnitudes(p, c);
    lemma_div_is_ordered(p.units() as int, u as int, pow2(1074) as int);
}

/// A number times at least one is no less than the number.
pub proof fn a_factor_of_one_or_more_never_shrinks(x: Double, f: Double)
    requires
        x.finite(),
        f.finite(),
        !x.negative(),
        !f.negative(),
        f.units() >= pow2(1074),
    ensures
        x.at_most(x.product(f)),
        !x.product(f).negative(),
{
    reveal(Double::product);
    lemma_pow2_grows(0, 1074);
    let u = x.units();
    assert(u * pow2(1074) <= u * f.units()) by (nonlinear_arith)
        requires
            f.units() >= pow2(1074),
    ;
    rounding_keeps_order(u * pow2(1074), u * f.units(), pow2(1074));
    assert(1 * pow2(1074) == pow2(1074));
    lemma_magnitude_scale(u, 1, pow2(1074));
    a_double_rounds_to_itself(x);
}

/// A number times at most one is no more than the number.
pub proof fn a_factor_of_one_or_less_never_grows(x: Double, f: Double)
    requires
        x.finite(),
        f.finite(),
        !x.negative(),
        !f.negative(),
        f.units() <= pow2(1074),
    ensures
        x.product(f).at_most(x),
        !x.product(f).negative(),
{
    reveal(Double::product);
    lemma_pow2_grows(0, 1074);
    let u = x.units();
    assert(u * f.units() <= u * pow2(1074)) by (nonlinear_arith)
        requires
            f.units() <= pow2(1074),
    ;
    rounding_keeps_order(u * f.units(), u * pow2(1074), pow2(1074));
    assert(1 * pow2(1074) == pow2(1074));
    lemma_magnitude_scale(u, 1, pow2(1074));
    a_double_rounds_to_itself(x);
}

/// A number and something more is no less than the number.
pub proof fn adding_never_shrinks(x: Double, y: Double)
    requires
        x.finite(),
        y.finite(),
        !x.negative(),
        !y.negative(),
    ensures
        x.at_most(x.sum(y)),
        !x.sum(y).negative(),
{
    reveal(Double::sum);
    rounding_keeps_order(x.units(), x.units() + y.units(), 1);
    a_double_rounds_to_itself(x);
}

/// What is left of a number after something was taken is no more than it was,
/// or less than nothing.
pub proof fn taking_never_grows(x: Double, y: Double)
    requires
        x.finite(),
        y.finite(),
        !x.negative(),
        !y.negative(),
    ensures
        x.difference(y).finite(),
        !x.difference(y).negative() ==> x.difference(y).at_most(x),
{
    let o = y.opposite();
    let d = x.difference(y);
    let s = x.units() - y.units();
    assert(o.magnitude() == y.magnitude() && o.negative() && o.units() == y.units());
    assert(d == (if s == 0 {
        signed(false, 0)
    } else {
        signed(s < 0, magnitude_of(distance(s), 1))
    })) by {
        reveal(Double::sum);
    }
    a_double_rounds_to_itself(x);
    a_double_rounds_to_itself(y);
    if s >= 0 {
        rounding_keeps_order(s as nat, x.units(), 1);
        assert(d.magnitude() <= x.magnitude() && !d.negative());
    } else {
        rounding_keeps_order((-s) as nat, y.units(), 1);
        assert(magnitude_of((-s) as nat, 1) < INFINITY_BITS);
        assert(d.magnitude() <= y.magnitude() && d.negative());
    }
}

/// Twice a number is read as more than the number.
pub proof fn twice_is_more(x: Double)
    requires
        x.finite(),
        !x.zero(),
    ensures
        magnitude_of(2 * x.units(), 1) > x.magnitude(),
{
    let (m, k) = lemma_parts(x);
    let n = 2 * x.units();
    assert(pow2(k + 1) == 2 * pow2(k));
    assert(n == m * pow2(k + 1)) by (nonlinear_arith)
        requires
            n == 2 * (m * pow2(k)),
            pow2(k + 1) == 2 * pow2(k),
    ;
    if m < HIDDEN_BIT {
        assert(pow2(0) == 1);
        assert(n == (2 * m) * pow2(0)) by (nonlinear_arith)
            requires
                n == 2 * (m * pow2(0)),
        ;
        lemma_exact_units(2 * m, 0);
    } else if k < 2045 {
        lemma_exact_units(m, k + 1);
    } else {
        let c: nat = 1 * 0x20_0000_0000_0000;
        lemma_pow2_grows(0, 2046);
        assert(n < c * pow2(2046)) by (nonlinear_arith)
            requires
                n == m * pow2(2046),
                m < 0x20_0000_0000_0000,
                c == 0x20_0000_0000_0000,
                pow2(2046) >= 1,
        ;
        assert(n >= c * pow2(2045)) by (nonlinear_arith)
            requires
                n == m * pow2(2046),
                pow2(2046) == 2 * pow2(2045),
                m >= 0x10_0000_0000_0000,
                c == 0x20_0000_0000_0000,
        ;
        lemma_halvings_is(n, 1, 2046);
        assert(1 * pow2(2046) == pow2(2046));
        lemma_fundamental_div_mod_converse(n as int, pow2(2046) as int, m as int, 0);
    }
}

// ---------------------------------------------------------------------- order

/// What counts more is no smaller a number.
pub proof fn counts_keep_order(a: nat, b: nat)
    requires
        a <= b,
    ensures
        Double::count(a).magnitude() <= Double::count(b).magnitude(),
{
    reveal(Double::count);
    assert(a * pow2(1074) <= b * pow2(1074)) by (nonlinear_arith)
        requires
            a <= b,
    ;
    rounding_keeps_order(a * pow2(1074), b * pow2(1074), 1);
}

/// More of something, times the same, is no less.
pub proof fn products_keep_order(a: Double, b: Double, c: Double)
    requires
        a.finite() && b.finite() && c.finite(),
        !a.negative() && !b.negative() && !c.negative(),
        a.magnitude() <= b.magnitude(),
    ensures
        a.product(c).magnitude() <= b.product(c).magnitude(),
        !a.product(c).negative() && !b.product(c).negative(),
        !a.product(c).nan() && !b.product(c).nan(),
        c.product(a) == a.product(c),
        c.product(b) == b.product(c),
{
    reveal(Double::product);
    units_follow_magnitudes(a, b);
    lemma_pow2_grows(0, 1074);
    let (x, y, z) = (a.units(), b.units(), c.units());
    assert(x * z <= y * z && x * z == z * x && y * z == z * y) by (nonlinear_arith)
        requires
            x <= y,
    ;
    rounding_keeps_order(x * z, y * z, pow2(1074));
}

/// Rounding keeps the order of what has a sign.
proof fn lemma_signed_order(s: int, t: int)
    requires
        s <= t,
    ensures
        signed(s < 0, magnitude_of(distance(s), 1)).rank() <= signed(t < 0, magnitude_of(distance(t), 1)).rank(),
        magnitude_of(0, 1) == 0,
        !signed(s < 0, magnitude_of(distance(s), 1)).nan(),
{
    assert(magnitude_of(0, 1) == 0) by {
        assert(pow2(0) == 1);
        assert(0 * pow2(0) == 0) by (nonlinear_arith);
        lemma_exact_units(0, 0);
    }
    if s >= 0 {
        rounding_keeps_order(s as nat, t as nat, 1);
    } else if t < 0 {
        rounding_keeps_order((-t) as nat, (-s) as nat, 1);
    }
}

/// More of something, and the same added to both, is no less.
pub proof fn sums_keep_order(a: Double, b: Double, c: Double)
    requires
        a.finite() && b.finite() && c.finite(),
        a.rank() <= b.rank(),
    ensures
        a.sum(c).rank() <= b.sum(c).rank(),
        !a.sum(c).nan() && !b.sum(c).nan(),
        c.sum(a) == a.sum(c),
        c.sum(b) == b.sum(c),
{
    reveal(Double::sum);
    lemma_signed_units(a, b);
    let s = a.signed_units() + c.signed_units();
    let t = b.signed_units() + c.signed_units();
    lemma_signed_order(s, t);
    lemma_signed_order(t, t);
}

proof fn lemma_signed_units(a: Double, b: Double)
    requires
        a.finite() && b.finite(),
        a.rank() <= b.rank(),
    ensures
        a.signed_units() <= b.signed_units(),
{
    if a.negative() && b.negative() {
        units_follow_magnitudes(b, a);
    } else if !a.negative() && !b.negative() {
        units_follow_magnitudes(a, b);
    } else if b.negative() {
        assert(a.magnitude() == 0 && b.magnitude() == 0);
        units_follow_magnitudes(a, b);
        units_follow_magnitudes(b, a);
        let (m, k) = lemma_parts(a);
        assert(0 * pow2(0) == 0) by (nonlinear_arith);
    }
}

/// The whole part of more is no less.
pub proof fn whole_parts_keep_order(a: Double, b: Double)
    requires
        !a.nan() && !b.nan(),
        a.rank() <= b.rank(),
    ensures
        a.to_count() <= b.to_count(),
{
    reveal(Double::to_count);
    lemma_pow2_grows(0, 1074);
    if a.finite() && b.finite() && !a.negative() && !b.negative() {
        units_follow_magnitudes(a, b);
        lemma_div_is_ordered(a.units() as int, b.units() as int, pow2(1074) as int);
    } else if a.finite() && !a.negative() && b.negative() {
        assert(a.magnitude() == 0);
        let (m, k) = lemma_parts(a);
        assert(0 * pow2(0) == 0) by (nonlinear_arith);
        assert(a.units() == 0);
        vstd::arithmetic::div_mod::lemma_basic_div(0, pow2(1074) as int);
    }
}

// --------------------------------------------------------------------- bounds

/// At most 2^i.
pub open spec fn within(x: Double, i: nat) -> bool {
    x.finite() && x.units() <= pow2(1074 + i)
}

proof fn lemma_power(i: nat)
    requires
        i <= 900,
    ensures
        magnitude_of(pow2(1074 + i), 1) == (1022 + i) * HIDDEN_BIT + HIDDEN_BIT,
        signed(false, magnitude_of(pow2(1074 + i), 1)).units() == pow2(1074 + i),
        signed(false, magnitude_of(pow2(1074 + i), 1)).finite(),
        magnitude_of(pow2(1074 + i), 1) < INFINITY_BITS,
{
    lemma_pow2_53();
    lemma_pow2_adds(52, 1022 + i);
    lemma_exact_units(0x10_0000_0000_0000, 1022 + i);
    lemma_units_of(0x10_0000_0000_0000, 1022 + i);
}

/// A number of at most 2^i units over `d`, rounded, is at most that.
proof fn lemma_rounds_within(n: nat, d: nat, i: nat, negative: bool)
    requires
        i <= 900,
        d > 0,
        n <= pow2(1074 + i) * d,
    ensures
        within(signed(negative, magnitude_of(n, d)), i),
{
    let top = signed(false, magnitude_of(pow2(1074 + i), 1));
    lemma_power(i);
    rounding_keeps_order(n, pow2(1074 + i) * d, d);
    assert(1 * d == d);
    lemma_magnitude_scale(pow2(1074 + i), 1, d);
    let x = signed(negative, magnitude_of(n, d));
    assert(x.magnitude() == magnitude_of(n, d));
    units_follow_magnitudes(x, top);
}

pub proof fn a_count_is_within(n: nat, i: nat)
    requires
        n <= pow2(i),
        i <= 900,
    ensures
        within(Double::count(n), i),
        !Double::count(n).negative(),
{
    reveal(Double::count);
    lemma_pow2_adds(i, 1074);
    assert(n * pow2(1074) <= pow2(1074 + i) * 1) by (nonlinear_arith)
        requires
            n <= pow2(i),
            pow2(1074 + i) == pow2(i) * pow2(1074),
    ;
    lemma_rounds_within(n * pow2(1074), 1, i, false);
    lemma_power(i);
    rounding_keeps_order(n * pow2(1074), pow2(1074 + i), 1);
}

pub proof fn a_product_is_within(a: Double, b: Double, i: nat, j: nat)
    requires
        within(a, i),
        within(b, j),
        i + j <= 900,
    ensures
        within(a.product(b), i + j),
        a.product(b).negative() == (a.negative() != b.negative()),
{
    reveal(Double::product);
    let (x, y) = (a.units(), b.units());
    lemma_pow2_grows(0, 1074);
    lemma_pow2_adds(1074 + i, 1074 + j);
    lemma_pow2_adds(1074 + i + j, 1074);
    assert(x * y <= pow2(1074 + i) * pow2(1074 + j)) by (nonlinear_arith)
        requires
            x <= pow2(1074 + i),
            y <= pow2(1074 + j),
    ;
    let negative = a.negative() != b.negative();
    lemma_rounds_within(x * y, pow2(1074), i + j, negative);
}

pub proof fn a_sum_is_within(a: Double, b: Double, i: nat)
    requires
        within(a, i),
        within(b, i),
        i < 900,
    ensures
        within(a.sum(b), i + 1),
        !a.negative() && !b.negative() ==> !a.sum(b).negative(),
{
    reveal(Double::sum);
    let s = a.signed_units() + b.signed_units();
    assert(pow2(1074 + i + 1) == 2 * pow2(1074 + i));
    lemma_rounds_within(distance(s), 1, i + 1, s < 0);
    lemma_rounds_within(0, 1, i + 1, a.negative() && b.negative());
    lemma_signed_order(0, 0);
}

/// The difference of small counts is the count of the difference.
pub proof fn small_counts_are_taken_exactly(a: nat, b: nat)
    requires
        b <= a <= 0x20_0000_0000_0000,
    ensures
        Double::count(a).difference(Double::count(b)) == Double::count((a - b) as nat),
{
    small_counts_are_exact(a);
    small_counts_are_exact(b);
    reveal(Double::sum);
    let c = Double::count(b);
    let o = c.opposite();
    assert(o.magnitude() == c.magnitude() && o.negative() && o.units() == c.units());
    reveal(Double::count);
    assert(a * pow2(1074) - b * pow2(1074) == (a - b) * pow2(1074)) by (nonlinear_arith);
    lemma_pow2_grows(0, 1074);
    if a == b {
        assert(0 * pow2(1074) == 0) by (nonlinear_arith);
        lemma_signed_order(0, 0);
    } else {
        assert((a - b) * pow2(1074) > 0) by (nonlinear_arith)
            requires
                a > b,
                pow2(1074) >= 1,
        ;
    }
}

/// The product of small counts is the count of the product.
pub proof fn small_counts_multiply_exactly(a: nat, b: nat)
    requires
        a <= 0x20_0000_0000_0000,
        b <= 0x20_0000_0000_0000,
    ensures
        Double::count(a).product(Double::count(b)) == Double::count(a * b),
{
    small_counts_are_exact(a);
    small_counts_are_exact(b);
    reveal(Double::product);
    let t = pow2(1074);
    lemma_pow2_grows(0, 1074);
    assert((a * t) * (b * t) == (a * b * t) * t) by (nonlinear_arith);
    assert(1 * t == t);
    lemma_magnitude_scale(a * b * t, 1, t);
    reveal(Double::count);
}

/// What has at most 53 binary digits is exact wherever it stands.
pub proof fn short_numbers_are_exact(m: nat, k: nat)
    requires
        0 < m < 0x20_0000_0000_0000,
        52 <= k <= 1074,
    ensures
        signed(false, magnitude_of(m * pow2(k), 1)).units() == m * pow2(k),
        signed(false, magnitude_of(m * pow2(k), 1)).finite(),
        !signed(false, magnitude_of(m * pow2(k), 1)).negative(),
{
    let z = lemma_top(m);
    let j = (k - z) as nat;
    lemma_pow2_adds(z, j);
    assert(m * pow2(k) == m * pow2(z) * pow2(j)) by (nonlinear_arith)
        requires
            pow2(k) == pow2(z) * pow2(j),
    ;
    lemma_exact_units(m * pow2(z), j);
    lemma_units_of(m * pow2(z), j);
}

/// More of something, divided by the same, is no less.
pub proof fn quotients_keep_order(a: Double, b: Double, c: Double)
    requires
        a.finite() && b.finite() && c.finite(),
        !a.negative() && !b.negative() && !c.negative(),
        !c.zero(),
        a.magnitude() <= b.magnitude(),
    ensures
        a.quotient(c).magnitude() <= b.quotient(c).magnitude(),
        !a.quotient(c).negative() && !b.quotient(c).negative(),
        !a.quotient(c).nan() && !b.quotient(c).nan(),
{
    reveal(Double::quotient);
    units_follow_magnitudes(a, b);
    lemma_nonzero_units(c);
    let (x, y, t) = (a.units(), b.units(), pow2(1074));
    assert(x * t <= y * t) by (nonlinear_arith)
        requires
            x <= y,
    ;
    rounding_keeps_order(x * t, y * t, c.units());
}

/// What is divided by one or more stays within its bound.
pub proof fn a_quotient_is_within(a: Double, c: Double, i: nat)
    requires
        within(a, i),
        i <= 900,
        c.finite(),
        c.units() >= pow2(1074),
        !c.zero(),
    ensures
        within(a.quotient(c), i),
{
    reveal(Double::quotient);
    let (x, d, t) = (a.units(), c.units(), pow2(1074));
    lemma_pow2_grows(0, 1074);
    assert(x * t <= pow2(1074 + i) * d) by (nonlinear_arith)
        requires
            x <= pow2(1074 + i),
            t <= d,
    ;
    lemma_rounds_within(x * t, d, i, a.negative() != c.negative());
}

/// Small counts add up exactly.
pub proof fn small_counts_add_exactly(a: nat, b: nat)
    requires
        a + b <= 0x20_0000_0000_0000,
    ensures
        Double::count(a).sum(Double::count(b)) == Double::count(a + b),
{
    small_counts_are_exact(a);
    small_counts_are_exact(b);
    small_counts_are_exact(0);
    reveal(Double::sum);
    let t = pow2(1074);
    lemma_pow2_grows(0, 1074);
    assert(a * t + b * t == (a + b) * t) by (nonlinear_arith);
    if a + b > 0 {
        assert((a + b) * t > 0) by (nonlinear_arith)
            requires
                a + b > 0,
                t >= 1,
        ;
        assert(Double::count(a).sum(Double::count(b)) == signed(false, magnitude_of((a + b) * t, 1)));
        assert(Double::count(a + b) == signed(false, magnitude_of((a + b) * t, 1))) by {
            reveal(Double::count);
        }
    } else {
        assert(0 * t == 0) by (nonlinear_arith);
    }
}

/// The difference of small counts where more is taken than there is.
pub proof fn small_counts_are_overdrawn_exactly(a: nat, b: nat)
    requires
        a < b <= 0x20_0000_0000_0000,
    ensures
        Double::count(a).difference(Double::count(b)) == Double::count((b - a) as nat).opposite(),
{
    small_counts_are_exact(a);
    small_counts_are_exact(b);
    let t = pow2(1074);
    let n = (b - a) as nat;
    let (x, c) = (Double::count(a), Double::count(b));
    let o = c.opposite();
    lemma_pow2_grows(0, 1074);
    assert(a * t - b * t == -((b - a) * t) && (b - a) * t > 0) by (nonlinear_arith)
        requires
            b > a,
            t >= 1,
    ;
    assert(o.magnitude() == c.magnitude() && o.negative() && o.units() == c.units());
    assert(x.sum(o) == signed(true, magnitude_of(n * t, 1))) by {
        reveal(Double::sum);
    }
    assert(Double::count(n) == signed(false, magnitude_of(n * t, 1))) by {
        reveal(Double::count);
    }
    lemma_sides(magnitude_of(n * t, 1));
}

proof fn lemma_sides(m: nat)
    requires
        m <= INFINITY_BITS,
    ensures
        signed(false, m).opposite() == signed(true, m),
{
}

/// Nothing, times any finite number, is nothing.
pub proof fn nothing_times_anything(x: Double)
    requires
        x.finite(),
        !x.negative(),
    ensures
        (Double { bits: 0 }).product(x) == (Double { bits: 0 }),
        x.product(Double { bits: 0 }) == (Double { bits: 0 }),
{
    let zero = Double { bits: 0 };
    let (u, t) = (x.units(), pow2(1074));
    assert(zero.significand() == 0);
    assert(0 * pow2((zero.exponent() + 1074) as nat) == 0) by (nonlinear_arith);
    a_double_rounds_to_itself(zero);
    lemma_pow2_grows(0, 1074);
    assert(0 * u == 0 && u * 0 == 0 && 0 * t == 0 && 1 * t == t) by (nonlinear_arith);
    lemma_magnitude_scale(0, 1, t);
    reveal(Double::product);
}

/// One more than a finite number is finite: next to the largest one vanishes.
pub proof fn one_more_is_finite(x: Double)
    requires
        x.finite(),
        !x.negative(),
    ensures
        (Double { bits: 0x3FF0_0000_0000_0000 }).sum(x).finite(),
{
    let one = Double { bits: 0x3FF0_0000_0000_0000 };
    let (m, k) = lemma_parts(x);
    let d = pow2(2045);
    let q: nat = 0x1F_FFFF_FFFF_FFFF;
    let most = q * d + pow2(1074);
    lemma_one();
    lemma_pow2_grows(k, 2045);
    assert(m * pow2(k) <= q * d) by (nonlinear_arith)
        requires
            m <= q,
            pow2(k) <= d,
    ;
    lemma_pow2_grows(0, 1074);
    lemma_pow2_grows(1074, 2044);
    lemma_pow2_grows(1075, 2044);
    assert(pow2(1075) == 2 * pow2(1074));
    assert(pow2(2045) == 2 * pow2(2044));
    rounding_keeps_order(one.units() + x.units(), most, 1);
    lemma_halvings_is(most, 1, 2045);
    lemma_fundamental_div_mod_converse(most as int, d as int, q as int, pow2(1074) as int);
    assert(nearest(most, d) == q);
    assert(magnitude_of(most, 1) < INFINITY_BITS);
    reveal(Double::sum);
}

} // verus!
