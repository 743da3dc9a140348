//! How far rounding can take a number from what it stands for.

use vstd::prelude::*;
use vstd::arithmetic::div_mod::{lemma_fundamental_div_mod, lemma_mod_bound};
use crate::double::arith::{halvings, lemma_halvings_bounds, lemma_magnitude_scale, lemma_pow2_53, magnitude_of, signed};
use crate::double::laws::{lemma_exact_units, lemma_units_of, rounding_keeps_order, units_follow_magnitudes};
use crate::double::{lemma_pow2_adds, lemma_pow2_grows, nearest, pow2, Double, HIDDEN_BIT};

verus! {

/// Two to the fiftieth: a rounding takes or adds less than one part in so many.
pub const SLACK: u64 = 0x4_0000_0000_0000;

/// `x` is at most `y` and `k` such parts of it.
pub open spec fn hardly_above(x: nat, y: nat, k: nat) -> bool {
    x * SLACK <= y * (SLACK + k)
}

/// Each is at most the other and `k` parts of it.
pub open spec fn near(x: nat, y: nat, k: nat) -> bool {
    hardly_above(x, y, k) && hardly_above(y, x, k)
}

pub proof fn lemma_above_chain(x: nat, y: nat, z: nat, j: nat, k: nat)
    requires
        hardly_above(x, y, j),
        hardly_above(y, z, k),
        j <= 100,
        k <= 100,
    ensures
        hardly_above(x, z, j + k + 1),
{
    let m = SLACK as int;
    let (a, b, c) = (m + j, m + k, m + (j + k + 1));
    let (x, y, z, j, k) = (x as int, y as int, z as int, j as int, k as int);
    assert((x * m) * m <= (y * a) * m) by (nonlinear_arith)
        requires
            x * m <= y * a,
            m > 0,
    ;
    assert((y * a) * m == (y * m) * a) by (nonlinear_arith);
    assert((y * m) * a <= (z * b) * a) by (nonlinear_arith)
        requires
            y * m <= z * b,
            a > 0,
    ;
    assert((z * b) * a == z * (b * a)) by (nonlinear_arith);
    assert(j * k <= 10_000) by (nonlinear_arith)
        requires
            0 <= j <= 100,
            0 <= k <= 100,
    ;
    assert(b * a == m * m + m * (j + k) + j * k) by (nonlinear_arith)
        requires
            a == m + j,
            b == m + k,
    ;
    assert(m * c == m * m + m * (j + k) + m) by (nonlinear_arith)
        requires
            c == m + (j + k + 1),
    ;
    assert(z * (b * a) <= z * (m * c)) by (nonlinear_arith)
        requires
            b * a <= m * c,
            z >= 0,
    ;
    assert(z * (m * c) == (z * c) * m) by (nonlinear_arith);
    assert(x * m <= z * c) by (nonlinear_arith)
        requires
            (x * m) * m <= (z * c) * m,
            m > 0,
    ;
}

pub proof fn lemma_above_scaled(x: nat, y: nat, c: nat, k: nat)
    requires
        hardly_above(x, y, k),
    ensures
        hardly_above(x * c, y * c, k),
{
    let (m, n) = (SLACK as nat, SLACK as nat + k);
    assert((x * c) * m <= (y * c) * n) by (nonlinear_arith)
        requires
            x * m <= y * n,
    ;
}

pub proof fn lemma_above_cancelled(x: nat, y: nat, c: nat, k: nat)
    requires
        hardly_above(x * c, y * c, k),
        c > 0,
    ensures
        hardly_above(x, y, k),
{
    let (m, n) = (SLACK as nat, SLACK as nat + k);
    assert(x * m <= y * n) by (nonlinear_arith)
        requires
            (x * c) * m <= (y * c) * n,
            c > 0,
    ;
}

/// What is near stays near through a third that is near to it.
pub proof fn nearness_carries_over(x: nat, y: nat, z: nat, j: nat, k: nat)
    requires
        near(x, y, j),
        near(y, z, k),
        j <= 100,
        k <= 100,
    ensures
        near(x, z, j + k + 1),
{
    lemma_above_chain(x, y, z, j, k);
    lemma_above_chain(z, y, x, k, j);
}

pub proof fn nearness_scales(x: nat, y: nat, c: nat, k: nat)
    requires
        near(x, y, k),
    ensures
        near(x * c, y * c, k),
{
    lemma_above_scaled(x, y, c, k);
    lemma_above_scaled(y, x, c, k);
}

pub proof fn nearness_cancels(x: nat, y: nat, c: nat, k: nat)
    requires
        near(x * c, y * c, k),
        c > 0,
    ensures
        near(x, y, k),
{
    lemma_above_cancelled(x, y, c, k);
    lemma_above_cancelled(y, x, c, k);
}

/// Half of the last place is a small part of a number of 53 binary digits.
proof fn lemma_nearest_is_near(n: nat, d: nat)
    requires
        d > 0,
        n >= d * 0x10_0000_0000_0000,
    ensures
        near(nearest(n, d) * d, n, 1),
        nearest(n, d) >= 0x10_0000_0000_0000,
{
    let q = n / d;
    let r = n % d;
    let x = nearest(n, d) * d;
    lemma_fundamental_div_mod(n as int, d as int);
    lemma_mod_bound(n as int, d as int);
    assert(q >= 0x10_0000_0000_0000) by (nonlinear_arith)
        requires
            n == d * q + r,
            r < d,
            n >= d * 0x10_0000_0000_0000,
            d > 0,
    ;
    assert(q * d == d * q && (q + 1) * d == d * q + d) by (nonlinear_arith);
    assert(2 * (x - n) <= d && 2 * (n - x) <= d);
    let m = SLACK as int;
    assert(n >= d * m * 4) by (nonlinear_arith)
        requires
            n >= d * 0x10_0000_0000_0000,
            m == 0x4_0000_0000_0000,
    ;
    assert(x * m <= n * (m + 1)) by (nonlinear_arith)
        requires
            2 * (x - n) <= d,
            n >= d * m * 4,
            d > 0,
            m > 0,
    ;
    assert(n * m <= x * (m + 1)) by (nonlinear_arith)
        requires
            2 * (n - x) <= d,
            n >= d * m * 4,
            d > 0,
            m == 0x4_0000_0000_0000,
    ;
}

/// An ordinary number: between 2^-i and 2^i.
pub open spec fn ordinary(x: Double, i: nat) -> bool {
    &&& x.finite()
    &&& !x.negative()
    &&& i <= 1000
    &&& pow2((1074 - i) as nat) <= x.units() <= pow2(1074 + i)
}

proof fn lemma_power_units(j: nat)
    requires
        52 <= j <= 2000,
    ensures
        magnitude_of(pow2(j), 1) == (j - 52) * HIDDEN_BIT + HIDDEN_BIT,
        signed(false, magnitude_of(pow2(j), 1)).units() == pow2(j),
        signed(false, magnitude_of(pow2(j), 1)).finite(),
        signed(false, magnitude_of(pow2(j), 1)).magnitude() == magnitude_of(pow2(j), 1),
{
    lemma_pow2_53();
    lemma_pow2_adds(52, (j - 52) as nat);
    lemma_exact_units(0x10_0000_0000_0000, (j - 52) as nat);
    lemma_units_of(0x10_0000_0000_0000, (j - 52) as nat);
}

/// How often an ordinary number is halved.
proof fn lemma_few_halvings(n: nat, d: nat)
    requires
        d > 0,
        n <= d * pow2(1974),
    ensures
        halvings(n, d) <= 1922,
{
    let k = halvings(n, d);
    lemma_halvings_bounds(n, d);
    if k > 1922 {
        let h = (k - 1) as nat;
        lemma_pow2_53();
        lemma_pow2_adds(53, h);
        lemma_pow2_grows(1975, 53 + h);
        lemma_pow2_grows(0, 1974);
        assert(pow2(1975) == 2 * pow2(1974));
        assert(d * 0x20_0000_0000_0000 * pow2(h) == d * pow2(53 + h)) by (nonlinear_arith)
            requires
                pow2(53 + h) == 0x20_0000_0000_0000 * pow2(h),
        ;
        assert(d * pow2(53 + h) > d * pow2(1974)) by (nonlinear_arith)
            requires
                pow2(53 + h) >= 2 * pow2(1974),
                pow2(1974) >= 1,
                d > 0,
        ;
    }
}

/// What rounding an ordinary number gives is near to it.
proof fn lemma_rounding_is_near(n: nat, d: nat)
    requires
        d > 0,
        d * 0x10_0000_0000_0000 <= n <= d * pow2(1974),
    ensures
        near(signed(false, magnitude_of(n, d)).units() * d, n, 1),
{
    let k = halvings(n, d);
    lemma_halvings_bounds(n, d);
    lemma_few_halvings(n, d);
    lemma_pow2_grows(0, k);
    let e = d * pow2(k);
    let q = nearest(n, e);
    assert(e > 0) by (nonlinear_arith)
        requires
            e == d * pow2(k),
            d > 0,
            pow2(k) >= 1,
    ;
    if k > 0 {
        let h = (k - 1) as nat;
        assert(pow2(k) == 2 * pow2(h));
        assert(d * 0x20_0000_0000_0000 * pow2(h) == e * 0x10_0000_0000_0000) by (nonlinear_arith)
            requires
                e == d * pow2(k),
                pow2(k) == 2 * pow2(h),
        ;
    } else {
        assert(d * pow2(0) == d) by (nonlinear_arith)
            requires
                pow2(0) == 1,
        ;
    }
    assert(n < e * 0x20_0000_0000_0000) by (nonlinear_arith)
        requires
            n < d * 0x20_0000_0000_0000 * pow2(k),
            e == d * pow2(k),
    ;
    lemma_nearest_is_near(n, e);
    lemma_nearest_bound(n, e);
    let x = signed(false, magnitude_of(n, d));
    assert(k * HIDDEN_BIT + q <= 0x7FF0_0000_0000_0000);
    if q < 0x20_0000_0000_0000 {
        lemma_units_of(q, k);
    } else {
        lemma_units_of(0x10_0000_0000_0000, k + 1);
        assert(pow2(k + 1) == 2 * pow2(k));
        assert(0x10_0000_0000_0000 * pow2(k + 1) == q * pow2(k)) by (nonlinear_arith)
            requires
                pow2(k + 1) == 2 * pow2(k),
                q == 0x20_0000_0000_0000,
        ;
    }
    assert(x.units() == q * pow2(k));
    assert(q * pow2(k) * d == q * e) by (nonlinear_arith)
        requires
            e == d * pow2(k),
    ;
}

proof fn lemma_nearest_bound(n: nat, e: nat)
    requires
        e > 0,
        n < e * 0x20_0000_0000_0000,
    ensures
        nearest(n, e) <= 0x20_0000_0000_0000,
{
    lemma_fundamental_div_mod(n as int, e as int);
    lemma_mod_bound(n as int, e as int);
    let q = n / e;
    assert(q < 0x20_0000_0000_0000) by (nonlinear_arith)
        requires
            n == e * q + n % e,
            n < e * 0x20_0000_0000_0000,
            n % e >= 0,
            e > 0,
    ;
}

/// Rounding leaves an ordinary number in its bounds.
proof fn lemma_rounds_ordinary(n: nat, d: nat, i: nat)
    requires
        d > 0,
        i <= 900,
        d * pow2((1074 - i) as nat) <= n <= d * pow2(1074 + i),
    ensures
        ordinary(signed(false, magnitude_of(n, d)), i),
        near(signed(false, magnitude_of(n, d)).units() * d, n, 1),
{
    let (l, h) = ((1074 - i) as nat, 1074 + i);
    lemma_power_units(l);
    lemma_power_units(h);
    assert(1 * d == d && pow2(l) * d == d * pow2(l) && pow2(h) * d == d * pow2(h)) by (nonlinear_arith);
    rounding_keeps_order(d * pow2(l), n, d);
    rounding_keeps_order(n, d * pow2(h), d);
    lemma_magnitude_scale(pow2(l), 1, d);
    lemma_magnitude_scale(pow2(h), 1, d);
    let x = signed(false, magnitude_of(n, d));
    units_follow_magnitudes(signed(false, magnitude_of(pow2(l), 1)), x);
    units_follow_magnitudes(x, signed(false, magnitude_of(pow2(h), 1)));
    lemma_pow2_53();
    lemma_pow2_grows(52, l);
    lemma_pow2_grows(h, 1974);
    assert(d * 0x10_0000_0000_0000 <= d * pow2(l) && d * pow2(h) <= d * pow2(1974)) by (nonlinear_arith)
        requires
            0x10_0000_0000_0000 <= pow2(l),
            pow2(h) <= pow2(1974),
    ;
    lemma_rounding_is_near(n, d);
}

/// A product of ordinary numbers is ordinary, and near to what it stands for.
pub proof fn products_are_near(a: Double, b: Double, i: nat, j: nat)
    requires
        ordinary(a, i),
        ordinary(b, j),
        i + j <= 900,
    ensures
        ordinary(a.product(b), i + j),
        near(a.product(b).units() * pow2(1074), a.units() * b.units(), 1),
{
    reveal(Double::product);
    let (x, y, t) = (a.units(), b.units(), pow2(1074));
    let k = i + j;
    lemma_pow2_grows(0, 1074);
    lemma_pow2_adds((1074 - i) as nat, (1074 - j) as nat);
    lemma_pow2_adds(1074, (1074 - k) as nat);
    lemma_pow2_adds(1074 + i, 1074 + j);
    lemma_pow2_adds(1074, 1074 + k);
    assert(t * pow2((1074 - k) as nat) <= x * y) by (nonlinear_arith)
        requires
            pow2((1074 - i) as nat) <= x,
            pow2((1074 - j) as nat) <= y,
            t * pow2((1074 - k) as nat) == pow2((1074 - i) as nat) * pow2((1074 - j) as nat),
    ;
    assert(x * y <= t * pow2(1074 + k)) by (nonlinear_arith)
        requires
            x <= pow2(1074 + i),
            y <= pow2(1074 + j),
            t * pow2(1074 + k) == pow2(1074 + i) * pow2(1074 + j),
    ;
    lemma_rounds_ordinary(x * y, t, k);
}

/// A quotient of ordinary numbers is, too.
pub proof fn quotients_are_near(a: Double, c: Double, i: nat, j: nat)
    requires
        ordinary(a, i),
        ordinary(c, j),
        i + j <= 900,
    ensures
        ordinary(a.quotient(c), i + j),
        near(a.quotient(c).units() * c.units(), a.units() * pow2(1074), 1),
        !c.zero(),
{
    reveal(Double::quotient);
    let (x, y, t) = (a.units(), c.units(), pow2(1074));
    let k = i + j;
    lemma_pow2_grows(0, (1074 - j) as nat);
    lemma_pow2_grows(0, (1074 - i) as nat);
    lemma_zero_units(c);
    lemma_zero_units(a);
    lemma_pow2_adds(1074 + j, (1074 - k) as nat);
    lemma_pow2_adds((1074 - i) as nat, 1074);
    lemma_pow2_adds((1074 - j) as nat, 1074 + k);
    lemma_pow2_adds(1074 + i, 1074);
    assert(y * pow2((1074 - k) as nat) <= x * t) by (nonlinear_arith)
        requires
            y <= pow2(1074 + j),
            pow2((1074 - i) as nat) <= x,
            pow2(1074 + j) * pow2((1074 - k) as nat) == pow2((1074 - i) as nat) * t,
    ;
    assert(x * t <= y * pow2(1074 + k)) by (nonlinear_arith)
        requires
            x <= pow2(1074 + i),
            pow2((1074 - j) as nat) <= y,
            pow2((1074 - j) as nat) * pow2(1074 + k) == pow2(1074 + i) * t,
    ;
    lemma_rounds_ordinary(x * t, y, k);
}

proof fn lemma_zero_units(x: Double)
    requires
        x.finite(),
        x.units() > 0,
    ensures
        !x.zero(),
{
    if x.zero() {
        assert(x.significand() == 0);
        assert(0 * pow2((x.exponent() + 1074) as nat) == 0) by (nonlinear_arith);
    }
}

// ------------------------------------------------------------------ the rest

/// What is near by less is near by more.
pub proof fn nearness_widens(x: nat, y: nat, j: nat, k: nat)
    requires
        near(x, y, j),
        j <= k,
    ensures
        near(x, y, k),
{
    let (m, a, b) = (SLACK as int, SLACK + j, SLACK + k);
    assert(y * a <= y * b && x * a <= x * b) by (nonlinear_arith)
        requires
            a <= b,
    ;
}

pub proof fn anything_is_near_itself(x: nat, k: nat)
    ensures
        near(x, x, k),
{
    nearness_widens(x, x, 0, k);
}

/// What is near piece by piece is near as a whole.
pub proof fn nearness_adds(a: nat, b: nat, c: nat, d: nat, k: nat)
    requires
        near(a, b, k),
        near(c, d, k),
    ensures
        near(a + c, b + d, k),
{
    let (m, n) = (SLACK as nat, SLACK as nat + k);
    assert((a + c) * m == a * m + c * m && (b + d) * n == b * n + d * n) by (nonlinear_arith);
    assert((b + d) * m == b * m + d * m && (a + c) * n == a * n + c * n) by (nonlinear_arith);
}

/// A sum of what is not negative is near to what it stands for.
pub proof fn sums_are_near(a: Double, b: Double)
    requires
        a.finite() && b.finite(),
        !a.negative() && !b.negative(),
        a.units() + b.units() <= pow2(1974),
    ensures
        a.sum(b).finite(),
        !a.sum(b).negative(),
        near(a.sum(b).units(), a.units() + b.units(), 1),
        a.units() + b.units() == 0 ==> a.sum(b).units() == 0,
{
    let n = a.units() + b.units();
    assert(a.sum(b) == (if n == 0 {
        signed(false, 0)
    } else {
        signed(false, magnitude_of(n, 1))
    })) by {
        reveal(Double::sum);
    }
    lemma_rounded(n);
}

/// A difference that is not negative is near to what it stands for.
pub proof fn differences_are_near(a: Double, b: Double)
    requires
        a.finite() && b.finite(),
        !a.negative() && !b.negative(),
        b.units() <= a.units() <= pow2(1974),
    ensures
        a.difference(b).finite(),
        !a.difference(b).negative(),
        near(a.difference(b).units(), (a.units() - b.units()) as nat, 1),
        a.units() == b.units() ==> a.difference(b).units() == 0,
{
    let n = (a.units() - b.units()) as nat;
    let o = b.opposite();
    assert(o.magnitude() == b.magnitude() && o.negative() && o.units() == b.units());
    assert(a.difference(b) == (if n == 0 {
        signed(false, 0)
    } else {
        signed(false, magnitude_of(n, 1))
    })) by {
        reveal(Double::sum);
    }
    lemma_rounded(n);
}

proof fn lemma_rounded(n: nat)
    requires
        n <= pow2(1974),
    ensures
        ({
            let r = if n == 0 {
                signed(false, 0)
            } else {
                signed(false, magnitude_of(n, 1))
            };
            &&& r.finite() && !r.negative()
            &&& near(r.units(), n, 1)
            &&& n == 0 ==> r.units() == 0
        }),
{
    assert(pow2(0) == 1);
    assert(n * pow2(0) == n) by (nonlinear_arith)
        requires
            pow2(0) == 1,
    ;
    if n < 0x20_0000_0000_0000 {
        lemma_exact_units(n, 0);
        lemma_units_of(n, 0);
        anything_is_near_itself(n, 1);
    } else {
        let r = signed(false, magnitude_of(n, 1));
        assert(1 * pow2(1974) == pow2(1974) && r.units() * 1 == r.units()) by (nonlinear_arith);
        lemma_rounding_is_near(n, 1);
        lemma_power_units(1974);
        rounding_keeps_order(n, pow2(1974), 1);
    }
}

/// A double that is at least a half is made of pieces that are not too small.
pub proof fn pieces_of_a_half(x: Double) -> (r: (nat, nat))
    requires
        x.finite(),
        x.units() >= pow2(1073),
    ensures
        x.units() == r.0 * pow2(r.1),
        r.1 >= 1021,
{
    let (m, k) = crate::double::laws::lemma_parts(x);
    if k < 1021 {
        lemma_pow2_53();
        lemma_pow2_adds(53, k);
        lemma_pow2_grows(53 + k, 1073);
        lemma_pow2_grows(0, k);
        assert(m * pow2(k) < pow2(53) * pow2(k)) by (nonlinear_arith)
            requires
                m < pow2(53),
                pow2(k) >= 1,
        ;
    }
    (m, k)
}

pub proof fn lemma_above_widens(x: nat, y: nat, j: nat, k: nat)
    requires
        hardly_above(x, y, j),
        j <= k,
    ensures
        hardly_above(x, y, k),
{
    let (a, b) = (SLACK + j, SLACK + k);
    assert(y * a <= y * b) by (nonlinear_arith)
        requires
            a <= b,
    ;
}

pub proof fn lemma_above_adds(a: nat, b: nat, c: nat, d: nat, k: nat)
    requires
        hardly_above(a, b, k),
        hardly_above(c, d, k),
    ensures
        hardly_above(a + c, b + d, k),
{
    let (m, n) = (SLACK as nat, SLACK as nat + k);
    assert((a + c) * m == a * m + c * m && (b + d) * n == b * n + d * n) by (nonlinear_arith);
}

} // verus!
