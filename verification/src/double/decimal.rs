//! Reading a decimal number as the double nearest to it.

use vstd::prelude::*;
use vstd::arithmetic::div_mod::lemma_fundamental_div_mod_converse;
use crate::big::Natural;
use crate::chars::{digit_value, is_digit};
use crate::double::arith::{halvings, lemma_halvings_is, magnitude_of, signed, with_sign};
use crate::double::{lemma_pow2_adds, lemma_pow2_grows, nearest, pow2, Double, HIDDEN_BIT, INFINITY_BITS};
use crate::json::{decimal_of, digits_value, pow10, read_decimal, Decimal};

verus! {

/// The magnitude bits of `n` times 10^p.
pub open spec fn decimal_magnitude(n: nat, p: int) -> nat {
    if p >= 0 {
        magnitude_of(n * pow10(p as nat) * pow2(1074), 1)
    } else {
        magnitude_of(n * pow2(1074), pow10((-p) as nat))
    }
}

/// The double nearest to a decimal number.
#[verifier::opaque]
pub open spec fn double_of(d: Decimal) -> Double {
    signed(d.negative, decimal_magnitude(digits_value(d.digits), d.point - d.digits.len()))
}

// ------------------------------------------------------------------- fractions

/// `a` doubled `i` times.
spec fn doubled(a: nat, i: nat) -> nat {
    a * pow2(i)
}

proof fn lemma_doubled(a: nat, i: nat)
    ensures
        doubled(a, 0) == a,
        doubled(a, i + 1) == 2 * doubled(a, i),
{
    assert(pow2(0) == 1);
    assert(a * pow2(0) == a) by (nonlinear_arith)
        requires
            pow2(0) == 1,
    ;
    assert(pow2(i + 1) == 2 * pow2(i));
    assert(a * pow2(i + 1) == 2 * (a * pow2(i))) by (nonlinear_arith)
        requires
            pow2(i + 1) == 2 * pow2(i),
    ;
}

pub(crate) fn raise(n: &mut Natural, times: u32)
    ensures
        final(n)@ == old(n)@ * pow2(times as nat),
{
    let ghost start = n@;
    let mut i: u32 = 0;
    proof {
        lemma_doubled(start, 0);
    }
    while i < times
        invariant
            i <= times,
            n@ == doubled(start, i as nat),
        decreases times - i,
    {
        proof {
            lemma_doubled(start, i as nat);
        }
        if times - i >= 30 {
            proof {
                lemma_pow2_adds(i as nat, 30);
                reveal_with_fuel(pow2, 31);
                assert(pow2(30) == 0x4000_0000);
                assert(start * pow2((i + 30) as nat) == start * pow2(i as nat) * 0x4000_0000) by (nonlinear_arith)
                    requires
                        pow2((i + 30) as nat) == pow2(i as nat) * 0x4000_0000,
                ;
            }
            n.scale(0x4000_0000, 0);
            i += 30;
        } else {
            n.scale(2, 0);
            i += 1;
        }
    }
}

pub(crate) fn raise_ten(n: &mut Natural, times: u128)
    ensures
        final(n)@ == old(n)@ * pow10(times as nat),
{
    let ghost start = n@;
    let mut i: u128 = 0;
    assert(pow10(0) == 1);
    assert(start * pow10(0) == start) by (nonlinear_arith)
        requires
            pow10(0) == 1,
    ;
    while i < times
        invariant
            i <= times,
            n@ == start * pow10(i as nat),
        decreases times - i,
    {
        proof {
            let m = i as nat;
            assert(pow10(m + 1) == 10 * pow10(m));
            assert(start * pow10(m + 1) == start * pow10(m) * 10) by (nonlinear_arith)
                requires
                    pow10(m + 1) == 10 * pow10(m),
            ;
        }
        n.scale(10, 0);
        i += 1;
    }
}

/// The multiples of `a` by the powers of two up to the 53rd.
fn ladder(a: &Natural) -> (r: Vec<Natural>)
    ensures
        r@.len() == 54,
        forall|i: int| 0 <= i < 54 ==> (#[trigger] r@[i])@ == doubled(a@, i as nat),
{
    let mut v: Vec<Natural> = Vec::new();
    let mut cur = a.copy();
    let mut i: usize = 0;
    proof {
        lemma_doubled(a@, 0);
    }
    while i < 54
        invariant
            i <= 54,
            v@.len() == i,
            cur@ == doubled(a@, i as nat),
            forall|j: int| 0 <= j < i ==> (#[trigger] v@[j])@ == doubled(a@, j as nat),
        decreases 54 - i,
    {
        proof {
            lemma_doubled(a@, i as nat);
        }
        v.push(cur.copy());
        cur.scale(2, 0);
        i += 1;
    }
    v
}

/// `x / a`, to the nearest whole number, where it is below 2^53.
fn nearest_quotient(x: &Natural, a: &Natural) -> (r: u64)
    requires
        a@ > 0,
        x@ < a@ * pow2(53),
    ensures
        r as nat == nearest(x@, a@),
        r <= 0x20_0000_0000_0000,
{
    let steps = ladder(a);
    let mut rest = x.copy();
    let mut q: u64 = 0;
    let mut i: usize = 53;
    proof {
        lemma_53();
        lemma_doubled(a@, 53);
        assert(0 * a@ == 0) by (nonlinear_arith);
    }
    let mut unit: u64 = 0x20_0000_0000_0000;
    while i > 0
        invariant
            i <= 53,
            a@ > 0,
            steps@.len() == 54,
            forall|j: int| 0 <= j < 54 ==> (#[trigger] steps@[j])@ == doubled(a@, j as nat),
            unit as nat == pow2(i as nat),
            unit <= 0x20_0000_0000_0000,
            x@ == q * a@ + rest@,
            rest@ < doubled(a@, i as nat),
            q + unit <= 0x20_0000_0000_0000,
        decreases i,
    {
        i -= 1;
        proof {
            lemma_doubled(a@, i as nat);
            assert(pow2((i + 1) as nat) == 2 * pow2(i as nat));
            assert(steps@[i as int]@ == doubled(a@, i as nat));
        }
        unit = unit / 2;
        if !rest.below(&steps[i]) {
            let ghost before = rest@;
            rest.take(&steps[i]);
            proof {
                let t = doubled(a@, i as nat) as int;
                let aa = a@ as int;
                assert((q + unit) as int * aa == q as int * aa + t) by (nonlinear_arith)
                    requires
                        t == aa * unit as int,
                ;
            }
            q = q + unit;
        }
    }
    proof {
        lemma_doubled(a@, 0);
        assert(pow2(0) == 1);
        lemma_fundamental_div_mod_converse(x@ as int, a@ as int, q as int, rest@ as int);
        assert(q < 0x20_0000_0000_0000);
    }
    let mut twice = rest.copy();
    twice.scale(2, 0);
    if a.below(&twice) || (q % 2 == 1 && !twice.below(a)) {
        q + 1
    } else {
        q
    }
}

proof fn lemma_53()
    ensures
        pow2(53) == 0x20_0000_0000_0000,
{
    reveal_with_fuel(pow2, 54);
}

/// The magnitude bits of the double nearest to `x / a` units.
fn fraction(x: &Natural, a: &Natural) -> (r: u64)
    requires
        a@ > 0,
    ensures
        r as nat == magnitude_of(x@, a@),
        r <= INFINITY_BITS,
{
    let mut bound = a.copy();
    raise(&mut bound, 53);
    let mut unit = a.copy();
    let mut k: u64 = 0;
    proof {
        lemma_53();
        lemma_doubled(a@, 0);
        lemma_doubled(a@ * 0x20_0000_0000_0000, 0);
    }
    let ghost c = a@ * 0x20_0000_0000_0000;
    while !x.below(&bound)
        invariant
            a@ > 0,
            c == a@ * 0x20_0000_0000_0000,
            k <= 2046,
            bound@ == doubled(c, k as nat),
            unit@ == doubled(a@, k as nat),
            k > 0 ==> x@ >= doubled(c, (k - 1) as nat),
        decreases 2047 - k,
    {
        proof {
            lemma_doubled(c, k as nat);
            lemma_doubled(a@, k as nat);
        }
        if k == 2046 {
            proof {
                lemma_infinite(x@, a@);
            }
            return INFINITY_BITS;
        }
        bound.scale(2, 0);
        unit.scale(2, 0);
        k += 1;
    }
    proof {
        lemma_halvings_is(x@, a@, k as nat);
        lemma_pow2_grows(0, k as nat);
        assert(unit@ > 0) by (nonlinear_arith)
            requires
                unit@ == a@ * pow2(k as nat),
                a@ > 0,
                pow2(k as nat) >= 1,
        ;
        assert(unit@ * pow2(53) == bound@) by (nonlinear_arith)
            requires
                unit@ == a@ * pow2(k as nat),
                bound@ == a@ * 0x20_0000_0000_0000 * pow2(k as nat),
                pow2(53) == 0x20_0000_0000_0000,
        ;
    }
    let m: u64 = nearest_quotient(x, &unit);
    let b: u64 = k * HIDDEN_BIT + m;
    if b <= INFINITY_BITS {
        b
    } else {
        INFINITY_BITS
    }
}

/// What no double reaches is infinite.
proof fn lemma_infinite(x: nat, a: nat)
    requires
        a > 0,
        x >= a * 0x20_0000_0000_0000 * pow2(2046),
    ensures
        magnitude_of(x, a) == INFINITY_BITS,
{
    crate::double::arith::lemma_halvings_bounds(x, a);
    let h = halvings(x, a);
    if h <= 2046 {
        lemma_pow2_grows(h, 2046);
        assert(a * 0x20_0000_0000_0000 * pow2(h) <= a * 0x20_0000_0000_0000 * pow2(2046)) by (nonlinear_arith)
            requires
                pow2(h) <= pow2(2046),
        ;
    }
    assert(h * HIDDEN_BIT >= 2047 * HIDDEN_BIT);
}

// -------------------------------------------------------------------- decimals

pub proof fn lemma_pow10_grows(a: nat, b: nat)
    requires
        a <= b,
    ensures
        1 <= pow10(a) <= pow10(b),
    decreases b,
{
    if a < b {
        lemma_pow10_grows(a, (b - 1) as nat);
    } else if a > 0 {
        lemma_pow10_grows((a - 1) as nat, (b - 1) as nat);
    }
}

proof fn lemma_pow10_adds(a: nat, b: nat)
    ensures
        pow10(a + b) == pow10(a) * pow10(b),
    decreases b,
{
    if b > 0 {
        let c = (b - 1) as nat;
        lemma_pow10_adds(a, c);
        assert(10 * (pow10(a) * pow10(c)) == pow10(a) * (10 * pow10(c))) by (nonlinear_arith);
    } else {
        assert(pow10(a) * pow10(0) == pow10(a)) by (nonlinear_arith)
            requires
                pow10(0) == 1,
        ;
    }
}

/// A power of ten is above the power of eight.
pub proof fn lemma_pow10_above(n: nat)
    ensures
        pow10(n) >= pow2(3 * n),
    decreases n,
{
    if n > 0 {
        let m = (n - 1) as nat;
        lemma_pow10_above(m);
        assert(pow2(3 * n) == 2 * pow2((3 * n - 1) as nat));
        assert(pow2((3 * n - 1) as nat) == 2 * pow2((3 * n - 2) as nat));
        assert(pow2((3 * n - 2) as nat) == 2 * pow2(3 * m));
    }
}

/// A number of `n` digits is below 10^n.
proof fn lemma_digits_bound(s: Seq<char>)
    requires
        forall|j: int| 0 <= j < s.len() ==> is_digit(#[trigger] s[j]),
    ensures
        digits_value(s) < pow10(s.len()),
    decreases s.len(),
{
    if s.len() > 0 {
        let t = s.drop_last();
        assert forall|j: int| 0 <= j < t.len() implies is_digit(#[trigger] t[j]) by {
            assert(t[j] == s[j]);
        }
        lemma_digits_bound(t);
        assert(is_digit(s[s.len() - 1]));
    }
}

/// An exponent above 800 leaves anything but zero infinite.
proof fn lemma_too_large(n: nat, p: nat)
    requires
        n > 0,
        p >= 800,
    ensures
        magnitude_of(n * pow10(p) * pow2(1074), 1) == INFINITY_BITS,
{
    let x = n * pow10(p) * pow2(1074);
    lemma_pow10_above(p);
    lemma_pow2_grows(2400, 3 * p);
    lemma_pow2_adds(2400, 1074);
    lemma_pow2_grows(0, 1074);
    lemma_pow2_grows(53 + 2046, 2400 + 1074);
    lemma_pow2_adds(53, 2046);
    lemma_53();
    assert(x >= pow2(2400) * pow2(1074)) by (nonlinear_arith)
        requires
            x == n * pow10(p) * pow2(1074),
            n >= 1,
            pow10(p) >= pow2(2400),
    ;
    assert(1 * 0x20_0000_0000_0000 * pow2(2046) == pow2(53 + 2046)) by (nonlinear_arith)
        requires
            pow2(53 + 2046) == pow2(53) * pow2(2046),
            pow2(53) == 0x20_0000_0000_0000,
    ;
    lemma_infinite(x, 1);
}

/// An exponent that far below the digits leaves nothing.
proof fn lemma_too_small(n: nat, len: nat, p: nat)
    requires
        n < pow10(len),
        p >= len + 800,
    ensures
        magnitude_of(n * pow2(1074), pow10(p)) == 0,
{
    let x = n * pow2(1074);
    let d = pow10(p);
    let e = (p - len) as nat;
    lemma_pow10_adds(len, e);
    lemma_pow10_above(e);
    lemma_pow2_grows(2400, 3 * e);
    lemma_pow2_grows(1075, 2400);
    assert(pow2(1075) == 2 * pow2(1074));
    lemma_pow10_grows(0, len);
    assert(2 * x < d) by (nonlinear_arith)
        requires
            x == n * pow2(1074),
            d == pow10(len) * pow10(e),
            n < pow10(len),
            2 * pow2(1074) <= pow10(e),
            pow10(e) >= 1,
    ;
    assert(halvings(x, d) == 0);
    assert(pow2(0) == 1);
    assert(d * pow2(0) == d) by (nonlinear_arith)
        requires
            pow2(0) == 1,
    ;
    vstd::arithmetic::div_mod::lemma_small_mod(x, d);
    vstd::arithmetic::div_mod::lemma_basic_div(x as int, d as int);
}

pub(crate) fn natural_of(digits: &Vec<char>) -> (r: Natural)
    requires
        forall|j: int| 0 <= j < digits@.len() ==> is_digit(#[trigger] digits@[j]),
    ensures
        r@ == digits_value(digits@),
{
    let mut n = Natural::nothing();
    let mut i: usize = 0;
    assert(digits@.subrange(0, 0) =~= Seq::<char>::empty());
    while i < digits.len()
        invariant
            i <= digits@.len(),
            forall|j: int| 0 <= j < digits@.len() ==> is_digit(#[trigger] digits@[j]),
            n@ == digits_value(digits@.subrange(0, i as int)),
        decreases digits@.len() - i,
    {
        assert(digits@.subrange(0, i + 1).drop_last() =~= digits@.subrange(0, i as int));
        assert(digits@.subrange(0, i + 1).last() == digits@[i as int]);
        assert(is_digit(digits@[i as int]));
        let x: u32 = match digit_value(digits[i]) {
            Some(x) => x as u32,
            None => 0,
        };
        n.scale(10, x);
        i += 1;
    }
    assert(digits@.subrange(0, i as int) =~= digits@);
    n
}

/// The magnitude bits of `n` times 10^p.
pub(crate) fn magnitude_at(n: Natural, p: i128) -> (r: u64)
    requires
        p > i128::MIN,
    ensures
        r as nat == decimal_magnitude(n@, p as int),
        r <= INFINITY_BITS,
{
    let mut x = n;
    if p >= 0 {
        raise_ten(&mut x, p as u128);
        raise(&mut x, 1074);
        fraction(&x, &Natural::one())
    } else {
        raise(&mut x, 1074);
        let mut a = Natural::one();
        raise_ten(&mut a, (-p) as u128);
        proof {
            lemma_pow10_grows(0, (-p) as nat);
            assert(1 * pow10((-p) as nat) == pow10((-p) as nat)) by (nonlinear_arith);
        }
        fraction(&x, &a)
    }
}

impl Double {
    /// Read a number: an integer, a decimal, or either with an exponent.
    pub fn parse(text: &str) -> (r: Option<Double>)
        ensures
            r == (match decimal_of(text@) {
                Some(d) => Some(double_of(d)),
                None => None,
            }),
    {
        proof {
            reveal(double_of);
        }
        let (negative, digits, point) = match read_decimal(text) {
            Some(x) => x,
            None => return None,
        };
        let ghost d = decimal_of(text@)->0;
        let n = natural_of(&digits);
        let len: usize = digits.len();
        let p: i128 = point - len as i128;
        let ghost exact = d.point - d.digits.len();
        let zero = Natural::nothing();
        proof {
            lemma_digits_bound(digits@);
        }
        if !zero.below(&n) {
            proof {
                lemma_zero(exact);
            }
            return Some(with_sign(negative, 0));
        }
        if p >= 800 {
            proof {
                lemma_too_large(n@, exact as nat);
            }
            return Some(with_sign(negative, INFINITY_BITS));
        }
        if p <= -(len as i128) - 800 {
            proof {
                lemma_too_small(n@, len as nat, (-exact) as nat);
            }
            return Some(with_sign(negative, 0));
        }
        assert(exact == p);
        Some(with_sign(negative, magnitude_at(n, p)))
    }
}

pub proof fn lemma_zero(p: int)
    ensures
        decimal_magnitude(0, p) == 0,
{
    let d: nat = if p >= 0 { 1 } else { pow10((-p) as nat) };
    if p < 0 {
        lemma_pow10_grows(0, (-p) as nat);
    }
    let x: nat = if p >= 0 { 0 * pow10(p as nat) * pow2(1074) } else { 0 * pow2(1074) };
    assert(x == 0) by (nonlinear_arith)
        requires
            x == 0 * pow10(p as nat) * pow2(1074) || x == 0 * pow2(1074),
    ;
    assert(halvings(0, d) == 0);
    assert(pow2(0) == 1);
    assert(d * pow2(0) == d) by (nonlinear_arith)
        requires
            pow2(0) == 1,
    ;
    vstd::arithmetic::div_mod::lemma_small_mod(0, d);
    vstd::arithmetic::div_mod::lemma_basic_div(0, d as int);
}

} // verus!
