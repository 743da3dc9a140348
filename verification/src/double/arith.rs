//! Arithmetic on doubles: every result is the double nearest to the exact one.
//!
//! Exact values are counted in units of the smallest positive double, so that
//! every finite double is a whole number of units, and a sum, a product or a
//! quotient is a fraction of whole numbers.

use vstd::prelude::*;
use vstd::arithmetic::div_mod::{
    lemma_div_multiples_vanish_quotient, lemma_fundamental_div_mod, lemma_fundamental_div_mod_converse, lemma_truncate_middle,
};
use crate::double::{
    lemma_pow2_120, lemma_pow2_adds, lemma_pow2_grows, nearest, nearest_shifted, pow2, Double, BILLION_BITS, HIDDEN_BIT, HUNDRED_BITS, INFINITY_BITS,
    SIGN_BIT,
};

verus! {

/// How often `n` units must be halved to be below `d` times 2^53: the place of
/// the last digit that a double keeps of `n / d`.
pub open spec fn halvings(n: nat, d: nat) -> nat
    decreases n,
{
    if d == 0 || n < d * 0x20_0000_0000_0000 {
        0
    } else {
        1 + halvings(n / 2, d)
    }
}

/// The magnitude bits of the double nearest to `n / d` units, a tie to the even
/// one; what is too large is infinite.
pub open spec fn magnitude_of(n: nat, d: nat) -> nat {
    let k = halvings(n, d);
    let b = k * HIDDEN_BIT as nat + nearest(n, d * pow2(k));
    if b <= INFINITY_BITS {
        b
    } else {
        INFINITY_BITS as nat
    }
}

/// The same of `n / d` times 2^t units.
pub open spec fn scaled_magnitude(n: nat, d: nat, t: int) -> nat {
    if t >= 0 {
        magnitude_of(n * pow2(t as nat), d)
    } else {
        magnitude_of(n, d * pow2((-t) as nat))
    }
}

// ------------------------------------------------------------------- rounding

pub proof fn lemma_halvings_bounds(n: nat, d: nat)
    requires
        d > 0,
    ensures
        n < d * 0x20_0000_0000_0000 * pow2(halvings(n, d)),
        halvings(n, d) > 0 ==> n >= d * 0x20_0000_0000_0000 * pow2((halvings(n, d) - 1) as nat),
    decreases n,
{
    let c = d * 0x20_0000_0000_0000;
    if n < c {
        assert(pow2(0) == 1);
        assert(c * pow2(0) == c) by (nonlinear_arith)
            requires
                pow2(0) == 1,
        ;
    } else {
        lemma_halvings_bounds(n / 2, d);
        let k = halvings(n / 2, d);
        assert(pow2(k + 1) == 2 * pow2(k));
        assert(c * pow2(k + 1) == 2 * (c * pow2(k))) by (nonlinear_arith)
            requires
                pow2(k + 1) == 2 * pow2(k),
        ;
        if k > 0 {
            let h = (k - 1) as nat;
            assert(pow2(k) == 2 * pow2(h));
            assert(c * pow2(k) == 2 * (c * pow2(h))) by (nonlinear_arith)
                requires
                    pow2(k) == 2 * pow2(h),
            ;
        } else {
            assert(pow2(0) == 1);
            assert(c * pow2(0) == c) by (nonlinear_arith)
                requires
                    pow2(0) == 1,
            ;
        }
    }
}

pub proof fn lemma_halvings_is(n: nat, d: nat, k: nat)
    requires
        d > 0,
        n < d * 0x20_0000_0000_0000 * pow2(k),
        k > 0 ==> n >= d * 0x20_0000_0000_0000 * pow2((k - 1) as nat),
    ensures
        halvings(n, d) == k,
{
    let c = d * 0x20_0000_0000_0000;
    let h = halvings(n, d);
    lemma_halvings_bounds(n, d);
    if h < k {
        lemma_pow2_grows(h, (k - 1) as nat);
        assert(c * pow2(h) <= c * pow2((k - 1) as nat)) by (nonlinear_arith)
            requires
                pow2(h) <= pow2((k - 1) as nat),
        ;
    } else if k < h {
        lemma_pow2_grows(k, (h - 1) as nat);
        assert(c * pow2(k) <= c * pow2((h - 1) as nat)) by (nonlinear_arith)
            requires
                pow2(k) <= pow2((h - 1) as nat),
        ;
    }
}

proof fn lemma_nearest_scale(n: nat, d: nat, c: nat)
    requires
        d > 0,
        c > 0,
    ensures
        nearest(n * c, d * c) == nearest(n, d),
{
    lemma_div_multiples_vanish_quotient(c as int, n as int, d as int);
    lemma_truncate_middle(n as int, c as int, d as int);
    assert(c * n == n * c && c * d == d * c) by (nonlinear_arith);
    let r = n % d;
    assert((n * c) % (d * c) == c * r);
    assert((2 * (c * r) > d * c) == (2 * r > d)) by (nonlinear_arith)
        requires
            c > 0,
    ;
    assert((2 * (c * r) == d * c) == (2 * r == d)) by (nonlinear_arith)
        requires
            c > 0,
    ;
}

pub proof fn lemma_magnitude_scale(n: nat, d: nat, c: nat)
    requires
        d > 0,
        c > 0,
    ensures
        magnitude_of(n * c, d * c) == magnitude_of(n, d),
{
    let k = halvings(n, d);
    lemma_halvings_bounds(n, d);
    assert(d * c > 0) by (nonlinear_arith)
        requires
            d > 0,
            c > 0,
    ;
    let x = d * 0x20_0000_0000_0000 * pow2(k);
    assert(d * c * 0x20_0000_0000_0000 * pow2(k) == x * c) by (nonlinear_arith)
        requires
            x == d * 0x20_0000_0000_0000 * pow2(k),
    ;
    assert(n * c < x * c) by (nonlinear_arith)
        requires
            n < x,
            c > 0,
    ;
    if k > 0 {
        let y = d * 0x20_0000_0000_0000 * pow2((k - 1) as nat);
        assert(d * c * 0x20_0000_0000_0000 * pow2((k - 1) as nat) == y * c) by (nonlinear_arith)
            requires
                y == d * 0x20_0000_0000_0000 * pow2((k - 1) as nat),
        ;
        assert(n * c >= y * c) by (nonlinear_arith)
            requires
                n >= y,
        ;
    }
    lemma_halvings_is(n * c, d * c, k);
    lemma_pow2_grows(0, k);
    assert(d * pow2(k) > 0) by (nonlinear_arith)
        requires
            d > 0,
            pow2(k) >= 1,
    ;
    assert(d * c * pow2(k) == d * pow2(k) * c) by (nonlinear_arith);
    lemma_nearest_scale(n, d * pow2(k), c);
}

/// Powers of two move freely between the two sides of a fraction.
proof fn lemma_scaled(n: nat, d: nat, a: nat, b: nat)
    requires
        d > 0,
    ensures
        magnitude_of(n * pow2(a), d * pow2(b)) == scaled_magnitude(n, d, a - b),
{
    lemma_pow2_grows(0, a);
    lemma_pow2_grows(0, b);
    if a >= b {
        let t = (a - b) as nat;
        lemma_pow2_adds(t, b);
        assert(n * pow2(a) == n * pow2(t) * pow2(b)) by (nonlinear_arith)
            requires
                pow2(a) == pow2(t) * pow2(b),
        ;
        lemma_magnitude_scale(n * pow2(t), d, pow2(b));
    } else {
        let t = (b - a) as nat;
        lemma_pow2_adds(t, a);
        lemma_pow2_grows(0, t);
        assert(d * pow2(b) == d * pow2(t) * pow2(a)) by (nonlinear_arith)
            requires
                pow2(b) == pow2(t) * pow2(a),
        ;
        assert(d * pow2(t) > 0) by (nonlinear_arith)
            requires
                d > 0,
                pow2(t) >= 1,
        ;
        lemma_magnitude_scale(n, d * pow2(t), pow2(a));
    }
}

proof fn lemma_scaled_up(n: nat, d: nat, k: nat, t: int)
    requires
        d > 0,
    ensures
        scaled_magnitude(n * pow2(k), d, t) == scaled_magnitude(n, d, t + k),
{
    let a: nat = if t >= 0 { t as nat } else { 0 };
    let b: nat = if t >= 0 { 0 } else { (-t) as nat };
    assert(pow2(0) == 1);
    lemma_pow2_adds(k, a);
    assert(n * pow2(k) * pow2(a) == n * pow2(k + a)) by (nonlinear_arith)
        requires
            pow2(k + a) == pow2(k) * pow2(a),
    ;
    lemma_scaled(n * pow2(k), d, a, b);
    lemma_scaled(n, d, k + a, b);
}

proof fn lemma_scaled_down(n: nat, d: nat, k: nat, t: int)
    requires
        d > 0,
    ensures
        scaled_magnitude(n, d * pow2(k), t) == scaled_magnitude(n, d, t - k),
{
    let a: nat = if t >= 0 { t as nat } else { 0 };
    let b: nat = if t >= 0 { 0 } else { (-t) as nat };
    assert(pow2(0) == 1);
    lemma_pow2_adds(k, b);
    lemma_pow2_grows(0, k);
    assert(d * pow2(k) * pow2(b) == d * pow2(k + b)) by (nonlinear_arith)
        requires
            pow2(k + b) == pow2(k) * pow2(b),
    ;
    assert(d * pow2(k) > 0) by (nonlinear_arith)
        requires
            d > 0,
            pow2(k) >= 1,
    ;
    lemma_scaled(n, d * pow2(k), a, b);
    lemma_scaled(n, d, a, k + b);
}

// --------------------------------------------------------------------- sticky

/// Any part of a unit far below the last digit rounds as a half does.
proof fn lemma_sticky_nearest(q: nat, r: nat, d: nat, j: nat)
    requires
        0 < r < d,
        j >= 1,
    ensures
        nearest(q * d + r, d * pow2(j)) == nearest(2 * q + 1, 2 * pow2(j)),
{
    let m = pow2(j) as int;
    let h = pow2((j - 1) as nat) as int;
    assert(m == 2 * h);
    lemma_pow2_grows(0, (j - 1) as nat);
    let a = q as int / m;
    let b = q as int % m;
    lemma_fundamental_div_mod(q as int, m);
    assert(0 <= b < m) by {
        vstd::arithmetic::div_mod::lemma_mod_bound(q as int, m);
    }
    let dd = d as int;
    let rest = b * dd + r;
    assert(q * d + r == a * (dd * m) + rest) by (nonlinear_arith)
        requires
            q as int == m * a + b,
            rest == b * dd + r,
            dd == d as int,
    ;
    assert(0 <= rest < dd * m) by (nonlinear_arith)
        requires
            rest == b * dd + r,
            0 <= b,
            b <= m - 1,
            0 < r < dd,
            dd > 0,
    ;
    lemma_fundamental_div_mod_converse((q * d + r) as int, dd * m, a, rest);
    assert(2 * q + 1 == a * (2 * m) + (2 * b + 1)) by (nonlinear_arith)
        requires
            q as int == m * a + b,
    ;
    lemma_fundamental_div_mod_converse((2 * q + 1) as int, 2 * m, a, 2 * b + 1);
    if b >= h {
        assert(2 * rest > dd * m) by (nonlinear_arith)
            requires
                rest == b * dd + r,
                b >= h,
                m == 2 * h,
                r > 0,
                dd > 0,
        ;
    } else {
        assert(2 * rest < dd * m) by (nonlinear_arith)
            requires
                rest == b * dd + r,
                b <= h - 1,
                m == 2 * h,
                0 < r < dd,
        ;
    }
}

/// `q d + r` is below `d 2^y` exactly where `2 q + 1` is below `2 2^y`.
proof fn lemma_sticky_below(q: nat, r: nat, d: nat, p: nat)
    requires
        0 < r < d,
    ensures
        (q * d + r < d * p) == (2 * q + 1 < 2 * p),
{
    if q < p {
        assert(q * d + r < d * p) by (nonlinear_arith)
            requires
                q + 1 <= p,
                r < d,
        ;
    } else {
        assert(q * d + r >= d * p) by (nonlinear_arith)
            requires
                q >= p,
        ;
    }
}

proof fn lemma_sticky(q: nat, r: nat, d: nat, t: int)
    requires
        0 < r < d,
        q >= 0x20_0000_0000_0000,
    ensures
        scaled_magnitude(q * d + r, d, t) == scaled_magnitude(2 * q + 1, 2, t),
{
    let n = q * d + r;
    let s = 2 * q + 1;
    let a: nat = if t >= 0 { t as nat } else { 0 };
    let b: nat = if t >= 0 { 0 } else { (-t) as nat };
    assert(pow2(0) == 1);
    lemma_pow2_grows(0, a);
    lemma_pow2_grows(0, b);
    let na = n * pow2(a);
    let db = d * pow2(b);
    let sa = s * pow2(a);
    let tb = 2 * pow2(b);
    assert(db > 0) by (nonlinear_arith)
        requires
            db == d * pow2(b),
            d > 0,
            pow2(b) >= 1,
    ;
    assert(t >= 0 ==> na == n * pow2(t as nat) && db == d) by {
        assert(d * 1 == d) by (nonlinear_arith);
    }
    assert(t < 0 ==> na == n && db == d * pow2((-t) as nat)) by {
        assert(n * 1 == n) by (nonlinear_arith);
    }
    assert(t < 0 ==> sa == s) by {
        assert(s * 1 == s) by (nonlinear_arith);
    }
    let k = halvings(na, db);
    lemma_halvings_bounds(na, db);
    // The last digit kept is above the unit of `q`.
    let j = k + b - a;
    lemma_far(n, d, a, b, k, q, r);
    let jj = j as nat;
    lemma_pow2_53();
    lemma_same_place(n, d, a, b, k);
    lemma_sticky_below(q, r, d, pow2((jj + 53) as nat));
    if k > 0 {
        lemma_same_place(n, d, a, b, (k - 1) as nat);
        lemma_same_place(s, 2, a, b, (k - 1) as nat);
        lemma_sticky_below(q, r, d, pow2((jj + 52) as nat));
    }
    lemma_same_place(s, 2, a, b, k);
    lemma_halvings_is(sa, tb, k);
    lemma_place_of_nearest(n, d, a, b, k);
    lemma_place_of_nearest(s, 2, a, b, k);
    lemma_sticky_nearest(q, r, d, jj);
}

pub proof fn lemma_pow2_53()
    ensures
        pow2(53) == 0x20_0000_0000_0000,
        pow2(52) == 0x10_0000_0000_0000,
{
    reveal_with_fuel(pow2, 54);
}

/// `n 2^a < d 2^b 2^53 2^k` exactly where `n < d 2^(k + b - a + 53)`.
proof fn lemma_same_place(n: nat, d: nat, a: nat, b: nat, k: nat)
    requires
        k + b + 53 >= a,
    ensures
        (n * pow2(a) < d * pow2(b) * 0x20_0000_0000_0000 * pow2(k)) == (n < d * pow2((k + b + 53 - a) as nat)),
{
    let y = (k + b + 53 - a) as nat;
    lemma_pow2_53();
    lemma_pow2_adds(b, 53);
    lemma_pow2_adds(b + 53, k);
    lemma_pow2_adds(y, a);
    lemma_pow2_grows(0, a);
    let w = pow2(b + 53 + k);
    assert(y + a == b + 53 + k);
    assert(d * pow2(b) * 0x20_0000_0000_0000 * pow2(k) == d * w) by (nonlinear_arith)
        requires
            w == pow2(b) * 0x20_0000_0000_0000 * pow2(k),
    ;
    assert(d * w == d * pow2(y) * pow2(a)) by (nonlinear_arith)
        requires
            w == pow2(y) * pow2(a),
    ;
    let x = d * pow2(y);
    assert((n * pow2(a) < x * pow2(a)) == (n < x)) by (nonlinear_arith)
        requires
            pow2(a) >= 1,
    ;
}

/// The last digit kept of a quotient of 53 digits or more is above its unit.
proof fn lemma_far(n: nat, d: nat, a: nat, b: nat, k: nat, q: nat, r: nat)
    requires
        n == q * d + r,
        0 < r < d,
        q >= 0x20_0000_0000_0000,
        n * pow2(a) < d * pow2(b) * 0x20_0000_0000_0000 * pow2(k),
    ensures
        k + b > a,
{
    lemma_pow2_53();
    assert(n >= d * 0x20_0000_0000_0000) by (nonlinear_arith)
        requires
            n == q * d + r,
            q >= 0x20_0000_0000_0000,
    ;
    lemma_pow2_adds(b, k);
    let x = d * 0x20_0000_0000_0000;
    assert(d * pow2(b) * 0x20_0000_0000_0000 * pow2(k) == x * pow2(b + k)) by (nonlinear_arith)
        requires
            pow2(b + k) == pow2(b) * pow2(k),
            x == d * 0x20_0000_0000_0000,
    ;
    if b + k <= a {
        lemma_pow2_grows(b + k, a);
        assert(x * pow2(b + k) <= n * pow2(a)) by (nonlinear_arith)
            requires
                x <= n,
                pow2(b + k) <= pow2(a),
        ;
    }
}

/// `nearest(n 2^a, d 2^b 2^k)` is `nearest(n, d 2^(k + b - a))`.
proof fn lemma_place_of_nearest(n: nat, d: nat, a: nat, b: nat, k: nat)
    requires
        d > 0,
        k + b >= a,
    ensures
        nearest(n * pow2(a), d * pow2(b) * pow2(k)) == nearest(n, d * pow2((k + b - a) as nat)),
{
    let j = (k + b - a) as nat;
    lemma_pow2_adds(b, k);
    lemma_pow2_adds(j, a);
    lemma_pow2_grows(0, a);
    lemma_pow2_grows(0, j);
    assert(j + a == b + k);
    assert(d * pow2(b) * pow2(k) == d * pow2(j) * pow2(a)) by (nonlinear_arith)
        requires
            pow2(b) * pow2(k) == pow2(j) * pow2(a),
    ;
    assert(d * pow2(j) > 0) by (nonlinear_arith)
        requires
            d > 0,
            pow2(j) >= 1,
    ;
    lemma_nearest_scale(n, d * pow2(j), pow2(a));
}

// -------------------------------------------------------------------- packing

proof fn lemma_nearest_bound(n: nat, d: nat, x: nat)
    requires
        d > 0,
        n < d * x,
    ensures
        nearest(n, d) <= x,
{
    let q = n as int / d as int;
    lemma_fundamental_div_mod(n as int, d as int);
    vstd::arithmetic::div_mod::lemma_mod_bound(n as int, d as int);
    assert(q < x) by (nonlinear_arith)
        requires
            n as int == d as int * q + n as int % d as int,
            n as int % d as int >= 0,
            n < d * x,
            d > 0,
    ;
}

proof fn lemma_pack(p: nat, l: nat, t: int, k: nat)
    requires
        l > 0,
        pow2((l - 1) as nat) <= p < pow2(l),
        k == (if l + t >= 53 { (l + t - 53) as nat } else { 0 }),
    ensures
        ({
            let m = if k >= t { nearest(p, pow2((k - t) as nat)) } else { p * pow2((t - k) as nat) };
            let b = k * HIDDEN_BIT as nat + m;
            &&& m <= 0x20_0000_0000_0000
            &&& scaled_magnitude(p, 1, t) == (if b <= INFINITY_BITS {
                b
            } else {
                INFINITY_BITS as nat
            })
        }),
{
    let a: nat = if t >= 0 { t as nat } else { 0 };
    let b: nat = if t >= 0 { 0 } else { (-t) as nat };
    assert(pow2(0) == 1);
    lemma_pow2_grows(0, a);
    lemma_pow2_grows(0, b);
    lemma_pow2_grows(0, k);
    lemma_scaled(p, 1, a, b);
    let na = p * pow2(a);
    let db = 1 * pow2(b);
    lemma_same_place(p, 1, a, b, k);
    lemma_pow2_grows(l, (k + b + 53 - a) as nat);
    if k > 0 {
        lemma_same_place(p, 1, a, b, (k - 1) as nat);
        assert(k - 1 + b + 53 - a == l - 1);
    }
    lemma_halvings_is(na, db, k);
    let place = db * pow2(k);
    assert(place > 0) by (nonlinear_arith)
        requires
            place == db * pow2(k),
            db >= 1,
            pow2(k) >= 1,
    ;
    assert(db * 0x20_0000_0000_0000 * pow2(k) == place * 0x20_0000_0000_0000) by (nonlinear_arith)
        requires
            place == db * pow2(k),
    ;
    lemma_nearest_bound(na, place, 0x20_0000_0000_0000);
    if k >= t {
        lemma_place_of_nearest(p, 1, a, b, k);
        assert(k + b - a == k - t);
    } else {
        let z = (t - k) as nat;
        lemma_pow2_adds(z, k);
        let x = p * pow2(z);
        assert(na == x * pow2(k)) by (nonlinear_arith)
            requires
                na == p * pow2(a),
                pow2(a) == pow2(z) * pow2(k),
                x == p * pow2(z),
        ;
        assert(place == 1 * pow2(k));
        lemma_nearest_scale(x, 1, pow2(k));
        assert(x / 1 == x && x % 1 == 0);
    }
}

proof fn lemma_nothing(t: int)
    ensures
        scaled_magnitude(0, 1, t) == 0,
{
    let a: nat = if t >= 0 { t as nat } else { 0 };
    let b: nat = if t >= 0 { 0 } else { (-t) as nat };
    assert(pow2(0) == 1);
    lemma_pow2_grows(0, b);
    lemma_scaled(0, 1, a, b);
    assert(0 * pow2(a) == 0) by (nonlinear_arith);
    assert(halvings(0, pow2(b)) == 0);
    vstd::arithmetic::div_mod::lemma_small_mod(0, pow2(b) * pow2(0));
    vstd::arithmetic::div_mod::lemma_basic_div(0, (pow2(b) * pow2(0)) as int);
    assert(pow2(b) * pow2(0) == pow2(b)) by (nonlinear_arith)
        requires
            pow2(0) == 1,
    ;
}

fn shift_up(p: u128, z: u64) -> (r: u128)
    requires
        p * pow2(z as nat) <= 0x20_0000_0000_0000,
        p > 0,
    ensures
        r as nat == p * pow2(z as nat),
{
    let mut r: u128 = p;
    let mut i: u64 = 0;
    assert(pow2(0) == 1);
    assert(p * pow2(0) == p) by (nonlinear_arith)
        requires
            pow2(0) == 1,
    ;
    while i < z
        invariant
            i <= z,
            p > 0,
            p * pow2(z as nat) <= 0x20_0000_0000_0000,
            r as nat == p * pow2(i as nat),
        decreases z - i,
    {
        proof {
            let n = (i + 1) as nat;
            lemma_pow2_grows(n, z as nat);
            assert(pow2(n) == 2 * pow2(i as nat));
            assert(p * pow2(n) == 2 * (p * pow2(i as nat))) by (nonlinear_arith)
                requires
                    pow2(n) == 2 * pow2(i as nat),
            ;
            assert(p * pow2(n) <= p * pow2(z as nat)) by (nonlinear_arith)
                requires
                    pow2(n) <= pow2(z as nat),
            ;
        }
        r = r * 2;
        i += 1;
    }
    r
}

/// The magnitude bits of the double nearest to `p` times 2^t units.
fn pack(p: u128, t: i64) -> (r: u64)
    requires
        p < 0x80_0000_0000_0000_0000_0000_0000_0000,
        -9000 <= t <= 9000,
    ensures
        r as nat == scaled_magnitude(p as nat, 1, t as int),
        r <= INFINITY_BITS,
{
    if p == 0 {
        proof {
            lemma_nothing(t as int);
        }
        return 0;
    }
    let mut l: u64 = 0;
    let mut top: u128 = 1;
    proof {
        lemma_pow2_120();
        assert(pow2(120) == 2 * pow2(119));
        assert(pow2(0) == 1);
    }
    while top <= p
        invariant
            p < 0x80_0000_0000_0000_0000_0000_0000_0000,
            p > 0,
            pow2(119) == 0x80_0000_0000_0000_0000_0000_0000_0000,
            l <= 119,
            top as nat == pow2(l as nat),
            l > 0 ==> pow2((l - 1) as nat) <= p,
            l == 0 ==> top == 1,
        decreases 120 - l,
    {
        proof {
            if l == 119 {
                assert(top > p);
            }
            lemma_pow2_grows((l + 1) as nat, 119);
            assert(pow2((l + 1) as nat) == 2 * pow2(l as nat));
        }
        top = top * 2;
        l += 1;
    }
    assert(l > 0);
    let raised: i64 = l as i64 + t - 53;
    let k: i64 = if raised >= 0 { raised } else { 0 };
    proof {
        lemma_pack(p as nat, l as nat, t as int, k as nat);
    }
    let m: u128 = if k >= t {
        nearest_shifted(p, (k - t) as u64)
    } else {
        shift_up(p, (t - k) as u64)
    };
    if k >= 2047 {
        return INFINITY_BITS;
    }
    let b: u64 = k as u64 * HIDDEN_BIT + m as u64;
    if b <= INFINITY_BITS {
        b
    } else {
        INFINITY_BITS
    }
}

// ----------------------------------------------------------------- arithmetic

/// The bits of the number that is none.
pub const NAN_BITS: u64 = 0x7FF8_0000_0000_0000;

/// A number by its sign and the bits of its magnitude.
pub open spec fn signed(negative: bool, magnitude: nat) -> Double {
    Double { bits: (if negative { magnitude + SIGN_BIT } else { magnitude as int }) as u64 }
}

pub open spec fn distance(s: int) -> nat {
    if s >= 0 {
        s as nat
    } else {
        (-s) as nat
    }
}

impl Double {
    /// A finite number's magnitude in units of the smallest double.
    pub open spec fn units(self) -> nat {
        self.significand() * pow2((self.exponent() + 1074) as nat)
    }

    pub open spec fn signed_units(self) -> int {
        if self.negative() {
            -(self.units() as int)
        } else {
            self.units() as int
        }
    }

    pub open spec fn infinite(self) -> bool {
        self.magnitude() == INFINITY_BITS
    }

    pub open spec fn zero(self) -> bool {
        self.magnitude() == 0
    }

    /// The sum. Opposite infinities have none, and a sum that vanishes is
    /// negative only where both numbers are.
    #[verifier::opaque]
    pub open spec fn sum(self, other: Double) -> Double {
        let s = self.signed_units() + other.signed_units();
        if self.nan() || other.nan() || (self.infinite() && other.infinite() && self.negative() != other.negative()) {
            Double { bits: NAN_BITS }
        } else if self.infinite() {
            self
        } else if other.infinite() {
            other
        } else if s == 0 {
            signed(self.negative() && other.negative(), 0)
        } else {
            signed(s < 0, magnitude_of(distance(s), 1))
        }
    }

    pub open spec fn opposite(self) -> Double {
        signed(!self.negative(), self.magnitude())
    }

    pub open spec fn difference(self, other: Double) -> Double {
        self.sum(other.opposite())
    }

    /// The product. Nothing times infinity is no number.
    #[verifier::opaque]
    pub open spec fn product(self, other: Double) -> Double {
        let negative = self.negative() != other.negative();
        if self.nan() || other.nan() || (self.infinite() && other.zero()) || (self.zero() && other.infinite()) {
            Double { bits: NAN_BITS }
        } else if self.infinite() || other.infinite() {
            signed(negative, INFINITY_BITS as nat)
        } else {
            signed(negative, magnitude_of(self.units() * other.units(), pow2(1074)))
        }
    }

    /// The quotient. Infinity by infinity and nothing by nothing are no
    /// numbers; anything else by nothing is infinite.
    #[verifier::opaque]
    pub open spec fn quotient(self, other: Double) -> Double {
        let negative = self.negative() != other.negative();
        if self.nan() || other.nan() || (self.infinite() && other.infinite()) || (self.zero() && other.zero()) {
            Double { bits: NAN_BITS }
        } else if self.infinite() || other.zero() {
            signed(negative, INFINITY_BITS as nat)
        } else if other.infinite() {
            signed(negative, 0)
        } else {
            signed(negative, magnitude_of(self.units() * pow2(1074), other.units()))
        }
    }

    /// The double nearest to a count.
    #[verifier::opaque]
    pub open spec fn count(n: nat) -> Double {
        signed(false, magnitude_of(n * pow2(1074), 1))
    }

    /// The whole part of a finite number's magnitude.
    pub open spec fn whole(self) -> nat {
        self.units() / pow2(1074)
    }

    /// The whole part as an unsigned count: nothing for what is negative or no
    /// number, the largest for what is too large.
    #[verifier::opaque]
    pub open spec fn to_count(self) -> nat {
        if self.nan() || self.negative() {
            0
        } else if self.infinite() || self.whole() > u64::MAX {
            u64::MAX as nat
        } else {
            self.whole()
        }
    }

    /// The whole part with its sign, held within 64 bits.
    #[verifier::opaque]
    pub open spec fn to_integer(self) -> int {
        if self.nan() {
            0
        } else if self.negative() {
            if self.infinite() || self.whole() > 0x8000_0000_0000_0000 {
                i64::MIN as int
            } else {
                -(self.whole() as int)
            }
        } else {
            if self.infinite() || self.whole() > i64::MAX {
                i64::MAX as int
            } else {
                self.whole() as int
            }
        }
    }
}

pub fn with_sign(negative: bool, magnitude: u64) -> (r: Double)
    requires
        magnitude <= INFINITY_BITS,
    ensures
        r == signed(negative, magnitude as nat),
{
    if negative {
        Double { bits: magnitude + SIGN_BIT }
    } else {
        Double { bits: magnitude }
    }
}

fn power(d: u64) -> (r: u128)
    requires
        d <= 64,
    ensures
        r as nat == pow2(d as nat),
        1 <= r <= 0x1_0000_0000_0000_0000,
{
    proof {
        lemma_pow2_64();
    }
    let mut r: u128 = 1;
    let mut i: u64 = 0;
    assert(pow2(0) == 1);
    while i < d
        invariant
            i <= d <= 64,
            r as nat == pow2(i as nat),
            pow2(64) == 0x1_0000_0000_0000_0000,
            1 <= r <= 0x1_0000_0000_0000_0000,
        decreases d - i,
    {
        proof {
            lemma_pow2_grows((i + 1) as nat, 64);
            assert(pow2((i + 1) as nat) == 2 * pow2(i as nat));
        }
        r = r * 2;
        i += 1;
    }
    r
}

proof fn lemma_pow2_64()
    ensures
        pow2(64) == 0x1_0000_0000_0000_0000,
{
    reveal_with_fuel(pow2, 33);
    assert(pow2(32) == 0x1_0000_0000);
    lemma_pow2_adds(32, 32);
    assert(pow2(32) * pow2(32) == 0x1_0000_0000_0000_0000) by (nonlinear_arith)
        requires
            pow2(32) == 0x1_0000_0000,
    ;
}

proof fn lemma_product(m: nat, n: nat, e: int, f: int)
    requires
        e >= -1074,
        f >= -1074,
    ensures
        magnitude_of(m * pow2((e + 1074) as nat) * (n * pow2((f + 1074) as nat)), pow2(1074)) == scaled_magnitude(
            m * n,
            1,
            e + f + 1074,
        ),
{
    let a = (e + 1074) as nat;
    let b = (f + 1074) as nat;
    lemma_pow2_adds(a, b);
    assert(m * pow2(a) * (n * pow2(b)) == m * n * pow2(a + b)) by (nonlinear_arith)
        requires
            pow2(a + b) == pow2(a) * pow2(b),
    ;
    assert(1 * pow2(1074) == pow2(1074)) by (nonlinear_arith);
    lemma_scaled(m * n, 1, a + b, 1074);
}

/// A quotient whose dividend was moved up by `z` and 64 places.
proof fn lemma_quotient(m: nat, n: nat, z: nat, e: int, f: int, q: nat, r: nat)
    requires
        e >= -1074,
        f >= -1074,
        n > 0,
        m * pow2(z) * pow2(64) == q * n + r,
        r < n,
        q >= 0x20_0000_0000_0000,
    ensures
        magnitude_of(m * pow2((e + 1074) as nat) * pow2(1074), n * pow2((f + 1074) as nat)) == scaled_magnitude(
            2 * q + (if r > 0 { 1nat } else { 0 }),
            1,
            e - z - f + 1009,
        ),
{
    let a = (e + 1074) as nat;
    let b = (f + 1074) as nat;
    lemma_pow2_adds(a, 1074);
    assert(m * pow2(a) * pow2(1074) == m * pow2(a + 1074)) by (nonlinear_arith)
        requires
            pow2(a + 1074) == pow2(a) * pow2(1074),
    ;
    lemma_scaled(m, n, a + 1074, b);
    let t = e - f + 1074;
    let k = z + 64;
    lemma_pow2_adds(z, 64);
    assert(m * pow2(k) == m * pow2(z) * pow2(64)) by (nonlinear_arith)
        requires
            pow2(k) == pow2(z) * pow2(64),
    ;
    lemma_scaled_up(m, n, k, t - k);
    let x = q * n + r;
    assert(scaled_magnitude(x, n, t - k) == scaled_magnitude(m, n, t));
    assert(pow2(1) == 2) by {
        assert(pow2(0) == 1);
    }
    if r > 0 {
        lemma_sticky(q, r, n, t - k);
        lemma_scaled_down(2 * q + 1, 1, 1, t - k);
    } else {
        // An exact quotient: the divisor cancels.
        lemma_exact(q, n, t - k);
        lemma_scaled_up(q, 1, 1, t - k - 1);
        assert(q * pow2(1) == 2 * q) by (nonlinear_arith)
            requires
                pow2(1) == 2,
        ;
    }
}

proof fn lemma_exact(q: nat, n: nat, t: int)
    requires
        n > 0,
    ensures
        scaled_magnitude(q * n, n, t) == scaled_magnitude(q, 1, t),
{
    let a: nat = if t >= 0 { t as nat } else { 0 };
    let b: nat = if t >= 0 { 0 } else { (-t) as nat };
    assert(pow2(0) == 1);
    lemma_pow2_grows(0, b);
    lemma_scaled(q * n, n, a, b);
    lemma_scaled(q, 1, a, b);
    assert(q * n * pow2(a) == q * pow2(a) * n) by (nonlinear_arith);
    assert(n * pow2(b) == 1 * pow2(b) * n) by (nonlinear_arith);
    lemma_magnitude_scale(q * pow2(a), 1 * pow2(b), n);
}

/// A number of small magnitude, far below another, moves it by part of a unit.
proof fn lemma_far_sum(m: nat, n: nat, e: int, f: int, minus: bool)
    requires
        f >= -1074,
        e - f > 64,
        m >= HIDDEN_BIT,
        0 < n < 0x20_0000_0000_0000,
    ensures
        ({
            let x = m * pow2((e + 1074) as nat);
            let y = n * pow2((f + 1074) as nat);
            &&& x > y
            &&& magnitude_of((if minus { x - y } else { (x + y) as int }) as nat, 1) == scaled_magnitude(
                (if minus { 2048 * m - 1 } else { (2048 * m + 1) as int }) as nat,
                1,
                e + 1063,
            )
        }),
{
    let w = (f + 1074) as nat;
    let g = (e - f - 10) as nat;
    let d = pow2(g);
    lemma_pow2_53();
    lemma_pow2_grows(53, g);
    assert(n < d);
    let a = 1024 * m;
    // Both in units of 2^f.
    reveal_with_fuel(pow2, 11);
    assert(pow2(10) == 1024);
    lemma_pow2_adds(10, g);
    lemma_pow2_adds((e - f) as nat, w);
    let x = m * pow2((e + 1074) as nat);
    let y = n * pow2(w);
    let big = a * d;
    assert(x == big * pow2(w)) by (nonlinear_arith)
        requires
            x == m * pow2((e + 1074) as nat),
            pow2((e + 1074) as nat) == pow2((e - f) as nat) * pow2(w),
            pow2((e - f) as nat) == 1024 * d,
            big == 1024 * m * d,
    ;
    lemma_pow2_grows(0, w);
    assert(big > n) by (nonlinear_arith)
        requires
            big == a * d,
            a >= 1,
            d > n,
    ;
    assert(x > y) by (nonlinear_arith)
        requires
            x == big * pow2(w),
            y == n * pow2(w),
            big > n,
            pow2(w) >= 1,
    ;
    let q: nat = if minus { (a - 1) as nat } else { a };
    let r: nat = if minus { (d - n) as nat } else { n };
    let s = q * d + r;
    assert(s == (if minus { big - n } else { (big + n) as int })) by (nonlinear_arith)
        requires
            s == q * d + r,
            big == a * d,
            minus ==> q == a - 1 && r == d - n,
            !minus ==> q == a && r == n,
    ;
    assert((if minus { x - y } else { (x + y) as int }) == s * pow2(w)) by (nonlinear_arith)
        requires
            x == big * pow2(w),
            y == n * pow2(w),
            s == (if minus { big - n } else { (big + n) as int }),
    ;
    // n 2^w units are the same number of d-th parts of 2^(w + g).
    let t = w + g;
    assert(1 * d == d);
    lemma_scaled_down(s, 1, g, t as int);
    assert(t - g == w);
    assert(scaled_magnitude(s, 1, w as int) == magnitude_of(s * pow2(w), 1));
    lemma_sticky(q, r, d, t as int);
    assert(pow2(1) == 2) by {
        assert(pow2(0) == 1);
    }
    lemma_scaled_down(2 * q + 1, 1, 1, t as int);
    assert(t - 1 == e + 1063);
}

impl Double {
    /// The significand and the exponent of a finite number.
    fn parts(self) -> (r: (u64, i64))
        requires
            self.finite(),
        ensures
            r.0 as nat == self.significand(),
            r.1 as int == self.exponent(),
            r.0 < 0x20_0000_0000_0000,
            -1074 <= r.1 <= 971,
            r.1 > -1074 ==> r.0 >= HIDDEN_BIT,
            r.0 == 0 <==> self.zero(),
    {
        let mag: u64 = self.magnitude_bits();
        let fraction: u64 = mag % HIDDEN_BIT;
        if mag < HIDDEN_BIT {
            (fraction, -1074)
        } else {
            proof {
                lemma_fundamental_div_mod(mag as int, HIDDEN_BIT as int);
            }
            (fraction + HIDDEN_BIT, (mag / HIDDEN_BIT) as i64 - 1075)
        }
    }

    fn is_infinite(self) -> (r: bool)
        ensures
            r == self.infinite(),
    {
        self.magnitude_bits() == INFINITY_BITS
    }

    fn is_zero(self) -> (r: bool)
        ensures
            r == self.zero(),
    {
        self.magnitude_bits() == 0
    }

    pub fn negated(self) -> (r: Double)
        ensures
            r == self.opposite(),
    {
        let mag: u64 = self.magnitude_bits();
        if self.is_negative() {
            Double { bits: mag }
        } else {
            Double { bits: mag + SIGN_BIT }
        }
    }

    /// `self * other`.
    pub fn times(self, other: Double) -> (r: Double)
        ensures
            r == self.product(other),
    {
        proof {
            reveal(Double::product);
        }
        let negative = self.is_negative() != other.is_negative();
        if self.is_nan() || other.is_nan() || (self.is_infinite() && other.is_zero()) || (self.is_zero() && other.is_infinite()) {
            return Double { bits: NAN_BITS };
        }
        if self.is_infinite() || other.is_infinite() {
            return with_sign(negative, INFINITY_BITS);
        }
        let (m, e) = self.parts();
        let (n, f) = other.parts();
        proof {
            lemma_product(m as nat, n as nat, e as int, f as int);
        }
        assert(m as int * n as int <= 0x20_0000_0000_0000 * 0x20_0000_0000_0000 && 0 <= m as int * n as int) by (nonlinear_arith)
            requires
                0 <= m < 0x20_0000_0000_0000,
                0 <= n < 0x20_0000_0000_0000,
        ;
        with_sign(negative, pack(m as u128 * n as u128, e + f + 1074))
    }

    /// `self / other`.
    pub fn over(self, other: Double) -> (r: Double)
        ensures
            r == self.quotient(other),
    {
        proof {
            reveal(Double::quotient);
        }
        let negative = self.is_negative() != other.is_negative();
        if self.is_nan() || other.is_nan() || (self.is_infinite() && other.is_infinite()) || (self.is_zero() && other.is_zero()) {
            return Double { bits: NAN_BITS };
        }
        if self.is_infinite() || other.is_zero() {
            return with_sign(negative, INFINITY_BITS);
        }
        if other.is_infinite() {
            return with_sign(negative, 0);
        }
        let (m, e) = self.parts();
        let (n, f) = other.parts();
        if m == 0 {
            proof {
                lemma_none_by(n as nat, f as int, e as int);
            }
            return with_sign(negative, 0);
        }
        // Moved up until the leading digit stands where a normal number's does.
        let mut x: u64 = m;
        let mut z: u64 = 0;
        assert(pow2(0) == 1);
        assert(m * pow2(0) == m) by (nonlinear_arith)
            requires
                pow2(0) == 1,
        ;
        while x < HIDDEN_BIT
            invariant
                0 < m <= x < 2 * HIDDEN_BIT,
                x as nat == m as nat * pow2(z as nat),
                z <= 52,
            decreases 52 - z,
        {
            proof {
                crate::double::lemma_doublings(m as nat, z as nat, x as nat);
            }
            x = x * 2;
            z += 1;
        }
        proof {
            lemma_pow2_64();
        }
        let dividend: u128 = x as u128 * 0x1_0000_0000_0000_0000;
        let q: u128 = dividend / n as u128;
        let r: u128 = dividend % n as u128;
        proof {
            lemma_fundamental_div_mod(dividend as int, n as int);
            assert(dividend as int == q as int * n as int + r as int) by (nonlinear_arith)
                requires
                    dividend as int == n as int * q as int + r as int,
            ;
            assert(m as nat * pow2(z as nat) * pow2(64) == q as nat * n as nat + r as nat);
            assert(q >= 0x20_0000_0000_0000) by (nonlinear_arith)
                requires
                    dividend as int == q as int * n as int + r as int,
                    dividend >= 0x10_0000_0000_0000 * 0x1_0000_0000_0000_0000,
                    r < n,
                    0 < n < 0x20_0000_0000_0000,
            ;
            assert(q <= dividend) by (nonlinear_arith)
                requires
                    dividend as int == q as int * n as int + r as int,
                    n >= 1,
                    r >= 0,
                    q >= 0,
            ;
            lemma_quotient(m as nat, n as nat, z as nat, e as int, f as int, q as nat, r as nat);
        }
        let p: u128 = if r > 0 { 2 * q + 1 } else { 2 * q };
        with_sign(negative, pack(p, e - z as i64 - f + 1009))
    }

    /// `self + other`.
    pub fn plus(self, other: Double) -> (r: Double)
        ensures
            r == self.sum(other),
    {
        proof {
            reveal(Double::sum);
        }
        if self.is_nan() || other.is_nan() || (self.is_infinite() && other.is_infinite() && self.is_negative()
            != other.is_negative()) {
            return Double { bits: NAN_BITS };
        }
        if self.is_infinite() {
            return self;
        }
        if other.is_infinite() {
            return other;
        }
        let (m, e) = self.parts();
        let (n, f) = other.parts();
        if e >= f {
            sum_parts(self.is_negative(), m, e, other.is_negative(), n, f)
        } else {
            sum_parts(other.is_negative(), n, f, self.is_negative(), m, e)
        }
    }

    /// `self - other`.
    pub fn less(self, other: Double) -> (r: Double)
        ensures
            r == self.difference(other),
    {
        self.plus(other.negated())
    }

    /// The double nearest to a count.
    pub fn of_count(n: u64) -> (r: Double)
        ensures
            r == Double::count(n as nat),
    {
        proof {
            reveal(Double::count);
        }
        with_sign(false, pack(n as u128, 1074))
    }

    /// The whole part, and whether it is beyond 64 bits.
    fn whole_part(self) -> (r: (u64, bool))
        requires
            self.finite(),
        ensures
            r.1 == (self.whole() > u64::MAX),
            !r.1 ==> r.0 as nat == self.whole(),
    {
        let (m, e) = self.parts();
        let ghost c = pow2((e + 1074) as nat);
        if e >= 0 {
            proof {
                lemma_whole_up(m as nat, e as nat);
            }
            if e > 11 {
                proof {
                    lemma_pow2_53();
                    lemma_pow2_grows(12, e as nat);
                    reveal_with_fuel(pow2, 13);
                    assert(pow2(12) == 4096);
                    assert(m * pow2(e as nat) >= 0x10_0000_0000_0000 * 4096) by (nonlinear_arith)
                        requires
                            m >= 0x10_0000_0000_0000,
                            pow2(e as nat) >= 4096,
                    ;
                }
                return (0, true);
            }
            let x: u128 = power(e as u64);
            assert(0 <= m as int * x as int <= 0x20_0000_0000_0000 * 0x1_0000_0000_0000_0000) by (nonlinear_arith)
                requires
                    0 <= m < 0x20_0000_0000_0000,
                    0 <= x <= 0x1_0000_0000_0000_0000,
            ;
            let v: u128 = m as u128 * x;
            if v > u64::MAX as u128 {
                (0, true)
            } else {
                (v as u64, false)
            }
        } else {
            proof {
                lemma_whole_down(m as nat, (-e) as nat);
            }
            if e < -53 {
                proof {
                    lemma_pow2_53();
                    lemma_pow2_grows(53, (-e) as nat);
                    vstd::arithmetic::div_mod::lemma_basic_div(m as int, pow2((-e) as nat) as int);
                }
                return (0, false);
            }
            let x: u128 = power((-e) as u64);
            let v: u128 = m as u128 / x;
            proof {
                lemma_fundamental_div_mod(m as int, x as int);
                vstd::arithmetic::div_mod::lemma_mod_bound(m as int, x as int);
                assert(v <= m) by (nonlinear_arith)
                    requires
                        m as int == x as int * v as int + m as int % x as int,
                        m as int % x as int >= 0,
                        x >= 1,
                        v >= 0,
                ;
            }
            (v as u64, false)
        }
    }

    /// The whole part, held within 64 bits.
    pub fn as_count(self) -> (r: u64)
        ensures
            r as nat == self.to_count(),
    {
        proof {
            reveal(Double::to_count);
        }
        if self.is_nan() || self.is_negative() {
            return 0;
        }
        if self.is_infinite() {
            return u64::MAX;
        }
        let (v, beyond) = self.whole_part();
        if beyond {
            u64::MAX
        } else {
            v
        }
    }

    /// The whole part with its sign, held within 64 bits.
    pub fn as_integer(self) -> (r: i64)
        ensures
            r as int == self.to_integer(),
    {
        proof {
            reveal(Double::to_integer);
        }
        if self.is_nan() {
            return 0;
        }
        let negative = self.is_negative();
        if self.is_infinite() {
            return if negative { i64::MIN } else { i64::MAX };
        }
        let (v, beyond) = self.whole_part();
        if negative {
            if beyond || v >= 0x8000_0000_0000_0000 {
                i64::MIN
            } else {
                -(v as i64)
            }
        } else {
            if beyond || v > i64::MAX as u64 {
                i64::MAX
            } else {
                v as i64
            }
        }
    }
}

impl Double {
    /// A fraction in percent.
    pub open spec fn in_percent(self) -> Double {
        self.product(Double { bits: HUNDRED_BITS })
    }

    pub fn percent(self) -> (r: Double)
        ensures
            r == self.in_percent(),
    {
        self.times(Double { bits: HUNDRED_BITS })
    }

    /// A count in thousands of millions.
    pub open spec fn in_billions(n: nat) -> Double {
        Double::count(n).quotient(Double { bits: BILLION_BITS })
    }

    pub fn billions(n: u64) -> (r: Double)
        ensures
            r == Double::in_billions(n as nat),
    {
        Double::of_count(n).over(Double { bits: BILLION_BITS })
    }
}

proof fn lemma_none_by(n: nat, f: int, e: int)
    requires
        n > 0,
        f >= -1074,
        e >= -1074,
    ensures
        magnitude_of(0 * pow2((e + 1074) as nat) * pow2(1074), n * pow2((f + 1074) as nat)) == 0,
{
    let d = n * pow2((f + 1074) as nat);
    lemma_pow2_grows(0, (f + 1074) as nat);
    assert(d > 0) by (nonlinear_arith)
        requires
            d == n * pow2((f + 1074) as nat),
            n > 0,
            pow2((f + 1074) as nat) >= 1,
    ;
    assert(0 * pow2((e + 1074) as nat) * pow2(1074) == 0) by (nonlinear_arith);
    assert(halvings(0, d) == 0);
    assert(pow2(0) == 1);
    assert(d * pow2(0) == d) by (nonlinear_arith)
        requires
            pow2(0) == 1,
    ;
    vstd::arithmetic::div_mod::lemma_small_mod(0, d);
    vstd::arithmetic::div_mod::lemma_basic_div(0, d as int);
}

proof fn lemma_whole_up(m: nat, e: nat)
    ensures
        m * pow2(e + 1074) / pow2(1074) == m * pow2(e),
{
    lemma_pow2_adds(e, 1074);
    lemma_pow2_grows(0, 1074);
    let v = m * pow2(e);
    assert(m * pow2(e + 1074) == v * pow2(1074)) by (nonlinear_arith)
        requires
            v == m * pow2(e),
            pow2(e + 1074) == pow2(e) * pow2(1074),
    ;
    vstd::arithmetic::div_mod::lemma_div_by_multiple(v as int, pow2(1074) as int);
}

proof fn lemma_whole_down(m: nat, g: nat)
    requires
        g <= 1074,
    ensures
        m * pow2((1074 - g) as nat) / pow2(1074) == m / pow2(g),
{
    let c = pow2((1074 - g) as nat);
    lemma_pow2_adds(g, (1074 - g) as nat);
    lemma_pow2_grows(0, (1074 - g) as nat);
    lemma_pow2_grows(0, g);
    lemma_div_multiples_vanish_quotient(c as int, m as int, pow2(g) as int);
    assert(c * m == m * c && c * pow2(g) == pow2(g) * c) by (nonlinear_arith);
}

/// The sum of two numbers by their parts, the one with the larger exponent
/// first.
fn sum_parts(negative: bool, m: u64, e: i64, other_negative: bool, n: u64, f: i64) -> (r: Double)
    requires
        m < 0x20_0000_0000_0000,
        n < 0x20_0000_0000_0000,
        -1074 <= f <= e <= 971,
        e > -1074 ==> m >= HIDDEN_BIT,
    ensures
        ({
            let x = m * pow2((e + 1074) as nat);
            let y = n * pow2((f + 1074) as nat);
            let s = (if negative { -x } else { x }) + (if other_negative { -y } else { y });
            if s == 0 {
                r == signed(negative && other_negative, 0)
            } else {
                r == signed(s < 0, magnitude_of(distance(s), 1))
            }
        }),
{
    let ghost w = (f + 1074) as nat;
    let ghost x = m * pow2((e + 1074) as nat);
    let ghost y = n * pow2(w);
    let d: i64 = e - f;
    if d <= 64 {
        let up: u128 = power(d as u64);
        assert(0 <= m as int * up as int <= 0x20_0000_0000_0000 * 0x1_0000_0000_0000_0000) by (nonlinear_arith)
            requires
                0 <= m < 0x20_0000_0000_0000,
                0 <= up <= 0x1_0000_0000_0000_0000,
        ;
        let a: u128 = m as u128 * up;
        let b: u128 = n as u128;
        proof {
            lemma_pow2_adds(d as nat, w);
            lemma_pow2_grows(0, w);
            assert(x == a * pow2(w)) by (nonlinear_arith)
                requires
                    x == m * pow2((e + 1074) as nat),
                    pow2((e + 1074) as nat) == pow2(d as nat) * pow2(w),
                    a as int == m as int * up as int,
                    up as nat == pow2(d as nat),
            ;
        }
        let (sign, p): (bool, u128) = if negative == other_negative {
            (negative, a + b)
        } else if a >= b {
            (negative, (a - b) as u128)
        } else {
            (other_negative, (b - a) as u128)
        };
        let ghost s = (if negative { -x } else { x }) + (if other_negative { -y } else { y });
        proof {
            assert(distance(s) == p * pow2(w)) by (nonlinear_arith)
                requires
                    x == a * pow2(w),
                    y == b * pow2(w),
                    s == (if negative { -x } else { x }) + (if other_negative { -y } else { y }),
                    negative == other_negative ==> p == a + b,
                    negative != other_negative && a >= b ==> p == a - b,
                    negative != other_negative && a < b ==> p == b - a,
            ;
            assert((p == 0) == (s == 0)) by (nonlinear_arith)
                requires
                    distance(s) == p * pow2(w),
                    pow2(w) >= 1,
            ;
            assert(p > 0 ==> (s < 0) == sign) by (nonlinear_arith)
                requires
                    x == a * pow2(w),
                    y == b * pow2(w),
                    pow2(w) >= 1,
                    s == (if negative { -x } else { x }) + (if other_negative { -y } else { y }),
                    negative == other_negative ==> p == a + b && sign == negative,
                    negative != other_negative && a >= b ==> p == a - b && sign == negative,
                    negative != other_negative && a < b ==> p == b - a && sign == other_negative,
            ;
        }
        if p == 0 {
            return with_sign(negative && other_negative, 0);
        }
        with_sign(sign, pack(p, f + 1074))
    } else if n == 0 {
        proof {
            lemma_pow2_grows(0, (e + 1074) as nat);
            assert(y == 0) by (nonlinear_arith)
                requires
                    y == n * pow2(w),
                    n == 0,
            ;
            assert(x > 0) by (nonlinear_arith)
                requires
                    x == m * pow2((e + 1074) as nat),
                    m > 0,
                    pow2((e + 1074) as nat) >= 1,
            ;
        }
        with_sign(negative, pack(m as u128, e + 1074))
    } else {
        let minus = negative != other_negative;
        proof {
            lemma_far_sum(m as nat, n as nat, e as int, f as int, minus);
        }
        let p: u128 = if minus { m as u128 * 2048 - 1 } else { m as u128 * 2048 + 1 };
        with_sign(negative, pack(p, e + 1063))
    }
}

} // verus!
