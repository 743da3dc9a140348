//! A measured quantity as its IEEE 754 double-precision bits.
//!
//! Rates and ratios are measured, read from text and computed with. What a
//! number is, how it compares, how it is printed and what arithmetic makes of
//! it follow from its bits alone.

pub mod arith;
pub mod decimal;
pub mod error;
pub mod fixed;
pub mod laws;
pub mod shown;

use vstd::prelude::*;
use crate::chars::{dec, dec_places, decimal, decimal_places, digit};
use crate::json::{digits_value, pow10};

verus! {

/// A double-precision number.
#[derive(Debug, Clone, Copy, PartialEq, Eq, Structural)]
pub struct Double {
    pub bits: u64,
}

pub const SIGN_BIT: u64 = 0x8000_0000_0000_0000;

pub const INFINITY_BITS: u64 = 0x7FF0_0000_0000_0000;

pub const HIDDEN_BIT: u64 = 0x0010_0000_0000_0000;

/// The bits of one.
pub const ONE_BITS: u64 = 0x3FF0_0000_0000_0000;

/// The bits of two.
pub const TWO_BITS: u64 = 0x4000_0000_0000_0000;

/// The bits of a hundred.
pub const HUNDRED_BITS: u64 = 0x4059_0000_0000_0000;

/// The bits of a thousand.
pub const THOUSAND_BITS: u64 = 0x408F_4000_0000_0000;

/// The bits of a thousand million.
pub const BILLION_BITS: u64 = 0x41CD_CD65_0000_0000;

/// `2` to the power of `n`.
pub open spec fn pow2(n: nat) -> nat
    decreases n,
{
    if n == 0 {
        1
    } else {
        2 * pow2((n - 1) as nat)
    }
}

/// `a / d` rounded to the nearest whole number, a tie to the even one.
pub open spec fn nearest(a: nat, d: nat) -> nat {
    let q = a / d;
    let r = a % d;
    if 2 * r > d || (2 * r == d && q % 2 == 1) {
        q + 1
    } else {
        q
    }
}

/// Whole units and `places` decimals of a number given in units of the last
/// place.
pub open spec fn fixed_text(scaled: nat, places: nat) -> Seq<char> {
    if places == 0 {
        dec(scaled)
    } else {
        dec(scaled / pow10(places)) + seq!['.'] + dec_places(scaled, places)
    }
}

impl Double {
    pub open spec fn negative(self) -> bool {
        self.bits >= SIGN_BIT
    }

    pub open spec fn magnitude(self) -> nat {
        (self.bits as nat) % (SIGN_BIT as nat)
    }

    pub open spec fn nan(self) -> bool {
        self.magnitude() > INFINITY_BITS
    }

    pub open spec fn finite(self) -> bool {
        self.magnitude() < INFINITY_BITS
    }

    /// The significand: the value is `significand() * 2^exponent()`, with the
    /// sign put to it.
    pub open spec fn significand(self) -> nat {
        let fraction = self.magnitude() % (HIDDEN_BIT as nat);
        if self.magnitude() < HIDDEN_BIT {
            fraction
        } else {
            fraction + HIDDEN_BIT as nat
        }
    }

    pub open spec fn exponent(self) -> int {
        if self.magnitude() < HIDDEN_BIT {
            -1074
        } else {
            self.magnitude() / (HIDDEN_BIT as nat) - 1075
        }
    }

    /// The place of a number that is not NaN in the order of numbers: doubles
    /// are ordered as their magnitudes' bits, and both zeros are one.
    pub open spec fn rank(self) -> int {
        if self.negative() {
            -(self.magnitude() as int)
        } else {
            self.magnitude() as int
        }
    }

    /// `self < other`; never where one of them is NaN.
    pub open spec fn below(self, other: Double) -> bool {
        !self.nan() && !other.nan() && self.rank() < other.rank()
    }

    /// `self <= other`; never where one of them is NaN.
    pub open spec fn at_most(self, other: Double) -> bool {
        !self.nan() && !other.nan() && self.rank() <= other.rank()
    }

    /// The magnitude in units of the `places`-th decimal, to the nearest one.
    pub open spec fn scaled(self, places: nat) -> nat {
        if self.exponent() >= 0 {
            self.significand() * pow2(self.exponent() as nat) * pow10(places)
        } else {
            nearest(self.significand() * pow10(places), pow2((-self.exponent()) as nat))
        }
    }

    /// The number with `places` decimals.
    pub open spec fn text(self, places: nat) -> Seq<char> {
        if self.nan() {
            "NaN"@
        } else {
            let sign = if self.negative() { seq!['-'] } else { Seq::empty() };
            if self.finite() {
                sign + fixed_text(self.scaled(places), places)
            } else {
                sign + "inf"@
            }
        }
    }

    pub fn from_bits(bits: u64) -> (r: Double)
        ensures
            r.bits == bits,
    {
        Double { bits }
    }

    pub fn is_negative(self) -> (r: bool)
        ensures
            r == self.negative(),
    {
        self.bits >= SIGN_BIT
    }

    pub fn magnitude_bits(self) -> (r: u64)
        ensures
            r as nat == self.magnitude(),
            r < SIGN_BIT,
    {
        self.bits % SIGN_BIT
    }

    pub fn is_nan(self) -> (r: bool)
        ensures
            r == self.nan(),
    {
        self.magnitude_bits() > INFINITY_BITS
    }

    pub fn is_finite(self) -> (r: bool)
        ensures
            r == self.finite(),
    {
        self.magnitude_bits() < INFINITY_BITS
    }

    /// The place in the order of numbers.
    pub fn order(self) -> (r: i64)
        ensures
            r as int == self.rank(),
    {
        let m: i64 = self.magnitude_bits() as i64;
        if self.is_negative() {
            -m
        } else {
            m
        }
    }

    /// `self < other`.
    pub fn lt(self, other: Double) -> (r: bool)
        ensures
            r == self.below(other),
    {
        !self.is_nan() && !other.is_nan() && self.order() < other.order()
    }

    /// `self <= other`.
    pub fn le(self, other: Double) -> (r: bool)
        ensures
            r == self.at_most(other),
    {
        !self.is_nan() && !other.is_nan() && self.order() <= other.order()
    }

    /// The number without its sign.
    pub open spec fn absolute(self) -> Double {
        Double { bits: self.magnitude() as u64 }
    }

    pub fn abs(self) -> (r: Double)
        ensures
            r == self.absolute(),
    {
        Double { bits: self.magnitude_bits() }
    }

    /// The larger of two numbers; the other one where one of them is NaN.
    pub open spec fn larger(self, other: Double) -> Double {
        if self.nan() || self.below(other) {
            other
        } else {
            self
        }
    }

    pub fn max(self, other: Double) -> (r: Double)
        ensures
            r == self.larger(other),
    {
        if self.is_nan() || self.lt(other) {
            other
        } else {
            self
        }
    }

    /// The smaller of two numbers; the other one where one of them is NaN.
    pub open spec fn smaller(self, other: Double) -> Double {
        if self.nan() || other.below(self) {
            other
        } else {
            self
        }
    }

    pub fn min(self, other: Double) -> (r: Double)
        ensures
            r == self.smaller(other),
    {
        if self.is_nan() || other.lt(self) {
            other
        } else {
            self
        }
    }

    /// The number printed with `places` decimals, as `{:.N}` prints it.
    pub fn fixed(self, places: u8) -> (s: String)
        requires
            places <= 6,
        ensures
            s@ == self.text(places as nat),
    {
        if self.is_nan() {
            return String::from_str("NaN");
        }
        let mut s = String::new();
        if self.is_negative() {
            s.push('-');
        }
        assert(s@ =~= (if self.negative() { seq!['-'] } else { Seq::empty() }));
        if !self.is_finite() {
            s.append("inf");
            return s;
        }
        let mag: u64 = self.magnitude_bits();
        let fraction: u64 = mag % HIDDEN_BIT;
        let m: u64 = if mag < HIDDEN_BIT { fraction } else { fraction + HIDDEN_BIT };
        let exponent: i64 = if mag < HIDDEN_BIT { -1074 } else { (mag / HIDDEN_BIT) as i64 - 1075 };
        if exponent >= 0 {
            let digits = big_decimal(m, exponent as u64);
            s.append(digits.as_str());
            let ghost whole = m as nat * pow2(exponent as nat);
            if places > 0 {
                proof {
                    lemma_places_of_whole(whole, places as nat);
                    lemma_pow10_pos(places as nat);
                    vstd::arithmetic::div_mod::lemma_div_multiples_vanish(whole as int, pow10(places as nat) as int);
                    vstd::arithmetic::mul::lemma_mul_is_commutative(whole as int, pow10(places as nat) as int);
                }
                s.push('.');
                let zeros = decimal_places(0, places);
                s.append(zeros.as_str());
                assert(s@ =~= self.text(places as nat));
            } else {
                assert(whole * pow10(0) == whole) by (nonlinear_arith)
                    requires
                        pow10(0) == 1,
                ;
                assert(s@ =~= self.text(places as nat));
            }
            return s;
        }
        let unit: u128 = power_of_ten(places);
        let k: u64 = (-exponent) as u64;
        assert(m as int * unit as int <= 0x20_0000_0000_0000 * 1_000_000) by (nonlinear_arith)
            requires
                0 <= m < 0x20_0000_0000_0000,
                0 <= unit <= 1_000_000,
        ;
        assert(0 <= m as int * unit as int) by (nonlinear_arith)
            requires
                0 <= m,
                0 <= unit,
        ;
        let scaled: u128 = nearest_shifted(m as u128 * unit, k);
        let t = fixed_decimal(scaled, places);
        s.append(t.as_str());
        s
    }
}

pub proof fn lemma_doublings(n: nat, k: nat, m: nat)
    requires
        n > 0,
        m == n * pow2(k),
        m < HIDDEN_BIT,
    ensures
        k < 52,
        2 * m == n * pow2(k + 1),
{
    assert(pow2(k + 1) == 2 * pow2(k));
    assert(2 * m == n * (2 * pow2(k))) by (nonlinear_arith)
        requires
            m == n * pow2(k),
    ;
    if k >= 52 {
        lemma_pow2_grows(52, k);
        assert(pow2(52) == HIDDEN_BIT) by {
            reveal_with_fuel(pow2, 53);
        }
        assert(m >= pow2(k)) by (nonlinear_arith)
            requires
                m == n * pow2(k),
                n > 0,
        ;
    }
}

proof fn lemma_pow10_pos(n: nat)
    ensures
        pow10(n) >= 1,
    decreases n,
{
    if n > 0 {
        lemma_pow10_pos((n - 1) as nat);
    }
}

proof fn lemma_places_of_whole(whole: nat, places: nat)
    ensures
        dec_places(whole * pow10(places), places) == dec_places(0, places),
    decreases places,
{
    if places > 0 {
        let less = (places - 1) as nat;
        let w = whole * pow10(places);
        let v = whole * pow10(less);
        assert(w == v * 10) by (nonlinear_arith)
            requires
                w == whole * pow10(places),
                v == whole * pow10(less),
                pow10(places) == 10 * pow10(less),
        ;
        assert(w / 10 == v && w % 10 == 0);
        lemma_places_of_whole(whole, less);
        assert(0nat / 10 == 0 && 0nat % 10 == 0);
    }
}

/// A number of units of the last place, printed with `places` decimals.
pub fn fixed_decimal(scaled: u128, places: u8) -> (s: String)
    requires
        places <= 6,
    ensures
        s@ == fixed_text(scaled as nat, places as nat),
{
    if places == 0 {
        return decimal(scaled);
    }
    let unit: u128 = power_of_ten(places);
    let mut s = decimal(scaled / unit);
    s.push('.');
    let d = decimal_places(scaled, places);
    s.append(d.as_str());
    assert(s@ =~= fixed_text(scaled as nat, places as nat));
    s
}

fn power_of_ten(places: u8) -> (r: u128)
    requires
        places <= 6,
    ensures
        r as nat == pow10(places as nat),
        1 <= r <= 1_000_000,
{
    proof {
        reveal_with_fuel(pow10, 7);
    }
    if places == 0 {
        1
    } else if places == 1 {
        10
    } else if places == 2 {
        100
    } else if places == 3 {
        1_000
    } else if places == 4 {
        10_000
    } else if places == 5 {
        100_000
    } else {
        1_000_000
    }
}

pub proof fn lemma_pow2_grows(a: nat, b: nat)
    requires
        a <= b,
    ensures
        1 <= pow2(a) <= pow2(b),
    decreases b,
{
    if a < b {
        lemma_pow2_grows(a, (b - 1) as nat);
    } else if a > 0 {
        lemma_pow2_grows((a - 1) as nat, (b - 1) as nat);
    }
}

pub proof fn lemma_pow2_120()
    ensures
        pow2(120) == 0x100_0000_0000_0000_0000_0000_0000_0000,
{
    reveal_with_fuel(pow2, 31);
    assert(pow2(30) == 0x4000_0000);
    lemma_pow2_adds(30, 30);
    assert(pow2(30) * pow2(30) == 0x1000_0000_0000_0000) by (nonlinear_arith)
        requires
            pow2(30) == 0x4000_0000,
    ;
    lemma_pow2_adds(60, 60);
    assert(pow2(60) * pow2(60) == 0x100_0000_0000_0000_0000_0000_0000_0000) by (nonlinear_arith)
        requires
            pow2(60) == 0x1000_0000_0000_0000,
    ;
}

pub proof fn lemma_pow2_adds(a: nat, b: nat)
    ensures
        pow2(a + b) == pow2(a) * pow2(b),
    decreases b,
{
    if b > 0 {
        let c = (b - 1) as nat;
        lemma_pow2_adds(a, c);
        assert(2 * (pow2(a) * pow2(c)) == pow2(a) * (2 * pow2(c))) by (nonlinear_arith);
    } else {
        assert(pow2(a) * pow2(0) == pow2(a)) by (nonlinear_arith)
            requires
                pow2(0) == 1,
        ;
    }
}

/// `a / 2^k`, to the nearest whole number, a tie to the even one.
pub fn nearest_shifted(a: u128, k: u64) -> (r: u128)
    requires
        a < 0x80_0000_0000_0000_0000_0000_0000_0000,
    ensures
        r as nat == nearest(a as nat, pow2(k as nat)),
        r <= a,
{
    proof {
        lemma_pow2_120();
    }
    if k >= 120 {
        proof {
            lemma_pow2_grows(120, k as nat);
            let d = pow2(k as nat);
            assert(a as nat / d == 0 && a as nat % d == a) by {
                vstd::arithmetic::div_mod::lemma_basic_div(a as int, d as int);
                vstd::arithmetic::div_mod::lemma_small_mod(a as nat, d);
            }
        }
        return 0;
    }
    let mut d: u128 = 1;
    let mut i: u64 = 0;
    while i < k
        invariant
            i <= k < 120,
            d as nat == pow2(i as nat),
            d <= 0x100_0000_0000_0000_0000_0000_0000_0000,
            pow2(120) == 0x100_0000_0000_0000_0000_0000_0000_0000,
        decreases k - i,
    {
        proof {
            lemma_pow2_grows((i + 1) as nat, 120);
        }
        d = d * 2;
        i += 1;
    }
    proof {
        lemma_pow2_grows(0, k as nat);
    }
    let q: u128 = a / d;
    let r: u128 = a % d;
    if 2 * r > d || (2 * r == d && q % 2 == 1) {
        proof {
            vstd::arithmetic::div_mod::lemma_fundamental_div_mod(a as int, d as int);
            assert(q as int <= d as int * q as int) by (nonlinear_arith)
                requires
                    d >= 1,
                    q >= 0,
            ;
        }
        q + 1
    } else {
        proof {
            vstd::arithmetic::div_mod::lemma_fundamental_div_mod(a as int, d as int);
            assert(q as int <= d as int * q as int) by (nonlinear_arith)
                requires
                    d >= 1,
                    q >= 0,
            ;
        }
        q
    }
}

/// The spacing of doubles around `n`.
pub open spec fn spacing(n: nat) -> nat
    decreases n,
{
    if n < 0x20_0000_0000_0000 {
        1
    } else {
        2 * spacing(n / 2)
    }
}

/// The double nearest to a whole number, which is a whole number too.
pub open spec fn rounded(n: nat) -> nat {
    nearest(n, spacing(n)) * spacing(n)
}

proof fn lemma_spacing(n: nat, k: nat)
    requires
        n < 0x20_0000_0000_0000 * pow2(k),
        k > 0 ==> n >= 0x20_0000_0000_0000 * pow2((k - 1) as nat),
    ensures
        spacing(n) == pow2(k),
    decreases k,
{
    if k > 0 {
        let h = (k - 1) as nat;
        lemma_pow2_grows(0, h);
        assert(n < 2 * (0x20_0000_0000_0000 * pow2(h))) by {
            assert(pow2(k) == 2 * pow2(h));
        }
        if h > 0 {
            assert(pow2(h) == 2 * pow2((h - 1) as nat));
        }
        lemma_spacing(n / 2, h);
    } else {
        assert(pow2(0) == 1);
    }
}

/// A 64-bit count as the nearest double.
pub fn round_to_double(n: u64) -> (r: u128)
    ensures
        r as nat == rounded(n as nat),
        r <= 0x1_0000_0000_0000_0000,
{
    let mut k: u64 = 0;
    let mut d: u128 = 1;
    while k < 11 && n as u128 >= 0x20_0000_0000_0000 * d
        invariant
            k <= 11,
            d as nat == pow2(k as nat),
            d <= 2048,
            k < 11 ==> d <= 1024,
            k == 11 ==> d == 2048,
            k > 0 ==> n >= 0x20_0000_0000_0000 * pow2((k - 1) as nat),
        decreases 11 - k,
    {
        proof {
            reveal_with_fuel(pow2, 12);
            assert(pow2(11) == 2048 && pow2(10) == 1024);
            lemma_pow2_grows((k + 1) as nat, 11);
            if k + 1 < 11 {
                lemma_pow2_grows((k + 1) as nat, 10);
            }
        }
        d = d * 2;
        k += 1;
    }
    proof {
        reveal_with_fuel(pow2, 12);
        assert(pow2(11) == 2048);
        lemma_pow2_grows(k as nat, 11);
        lemma_spacing(n as nat, k as nat);
    }
    let m: u128 = nearest_shifted(n as u128, k);
    proof {
        let dd = d as nat;
        vstd::arithmetic::div_mod::lemma_fundamental_div_mod(n as int, dd as int);
        let q = n as int / dd as int;
        assert(m <= q + 1);
        assert(n as int >= dd * q);
        assert(m as int * d as int <= n as int + d as int) by (nonlinear_arith)
            requires
                m as int <= q + 1,
                n as int >= d as int * q,
                d as int >= 1,
        ;
        if k == 0 {
            assert(n as nat % 1 == 0 && n as nat / 1 == n as nat);
            assert(m == n);
        }
        if k > 0 {
            // A multiple of a power of two that the bound is one of, too.
            lemma_rounding_stays(n as nat, m as nat, dd, q as nat, k as nat);
        }
    }
    m * d
}

proof fn lemma_rounding_stays(n: nat, m: nat, d: nat, q: nat, k: nat)
    requires
        1 <= k <= 11,
        d == pow2(k),
        n < 0x1_0000_0000_0000_0000,
        q == n / d,
        m <= q + 1,
    ensures
        m * d <= 0x1_0000_0000_0000_0000,
{
    let e = (64 - k) as nat;
    lemma_pow2_adds(e, k);
    lemma_pow2_64();
    assert(pow2(64) == pow2(e) * d);
    lemma_pow2_grows(0, e);
    lemma_pow2_grows(0, k);
    assert(q < pow2(e)) by {
        vstd::arithmetic::div_mod::lemma_fundamental_div_mod(n as int, d as int);
        assert(q * d <= n) by {
            vstd::arithmetic::mul::lemma_mul_is_commutative(q as int, d as int);
        }
        if q >= pow2(e) {
            assert(q * d >= pow2(e) * d) by (nonlinear_arith)
                requires
                    q >= pow2(e),
                    d >= 1,
            ;
        }
    }
    assert(m * d <= pow2(e) * d) by (nonlinear_arith)
        requires
            m <= pow2(e),
            d >= 1,
    ;
}

proof fn lemma_pow2_64()
    ensures
        pow2(64) == 0x1_0000_0000_0000_0000,
{
    reveal_with_fuel(pow2, 33);
    assert(pow2(32) == 0x1_0000_0000);
    lemma_pow2_adds(32, 32);
    assert(pow2(32) * pow2(32) == 0x1_0000_0000_0000_0000) by (nonlinear_arith)
        requires
            pow2(32) == 0x1_0000_0000,
    ;
}

// ------------------------------------------------------- numbers of any size

/// The digits are those of a number without leading zeros.
pub open spec fn plain(s: Seq<char>) -> bool {
    &&& s.len() > 0
    &&& forall|i: int| 0 <= i < s.len() ==> '0' <= #[trigger] s[i] <= '9'
    &&& s.len() > 1 ==> s[0] != '0'
}

pub proof fn lemma_plain_is_dec(s: Seq<char>)
    requires
        plain(s),
    ensures
        s == dec(digits_value(s)),
        s.len() > 1 || s[0] != '0' ==> digits_value(s) > 0,
    decreases s.len(),
{
    let d = (s.last() as int - '0' as int) as nat;
    assert(digit(d) == s.last());
    if s.len() == 1 {
        assert(s.drop_last() =~= Seq::<char>::empty());
        assert(digits_value(s.drop_last()) == 0);
        assert(s =~= seq![digit(d)]);
    } else {
        let t = s.drop_last();
        assert(t[0] == s[0]);
        lemma_plain_is_dec(t);
        let v = digits_value(t);
        assert(digits_value(s) == v * 10 + d);
        assert((v * 10 + d) / 10 == v && (v * 10 + d) % 10 == d);
        assert(s =~= t.push(digit(d)));
    }
}

pub proof fn lemma_dec_is_plain(n: nat)
    ensures
        plain(dec(n)),
        digits_value(dec(n)) == n,
        n > 0 ==> dec(n)[0] != '0',
    decreases n,
{
    if n < 10 {
        let s = dec(n);
        assert(s.drop_last() =~= Seq::<char>::empty());
        assert(digits_value(s.drop_last()) == 0);
    } else {
        lemma_dec_is_plain(n / 10);
        let t = dec(n / 10);
        let s = dec(n);
        assert(s.drop_last() =~= t);
        assert(s[0] == t[0]);
        assert forall|i: int| 0 <= i < s.len() implies '0' <= #[trigger] s[i] <= '9' by {
            if i < t.len() {
                assert(s[i] == t[i]);
            }
        }
    }
}

pub proof fn lemma_push_value(s: Seq<char>, c: char)
    ensures
        digits_value(s.push(c)) == digits_value(s) * 10 + (c as int - '0' as int) as nat,
{
    assert(s.push(c).drop_last() =~= s);
}

/// The digits of twice the first `k` digits' number, plus `carry`.
fn doubled(v: &Vec<char>, k: usize, carry: u8) -> (r: Vec<char>)
    requires
        k <= v@.len(),
        plain(v@),
        carry <= 1,
    ensures
        digits_value(r@) == 2 * digits_value(v@.subrange(0, k as int)) + carry,
        k == 0 ==> r@ == (if carry == 1 { seq!['1'] } else { Seq::empty() }),
        k > 0 ==> plain(r@),
        k > 0 && v@[0] != '0' ==> r@[0] != '0',
    decreases k,
{
    if k == 0 {
        let mut r: Vec<char> = Vec::new();
        assert(v@.subrange(0, 0) =~= Seq::<char>::empty());
        if carry == 1 {
            r.push('1');
            assert(r@ =~= seq!['1']);
            assert(r@.drop_last() =~= Seq::<char>::empty());
            assert(digits_value(r@.drop_last()) == 0);
        }
        return r;
    }
    let d: u8 = match crate::chars::digit_value(v[k - 1]) {
        Some(d) => d,
        None => 0,
    };
    let x: u8 = 2 * d + carry;
    let mut r = doubled(v, k - 1, x / 10);
    let ghost head = r@;
    let c = crate::chars::digit_char(x % 10);
    r.push(c);
    proof {
        let cur = v@.subrange(0, k as int);
        assert(cur.drop_last() =~= v@.subrange(0, k - 1));
        assert(cur.last() == v@[k - 1]);
        assert(digit(d as nat) == v@[k - 1]);
        lemma_push_value(head, c);
        assert(r@ == head.push(c));
        let p = digits_value(v@.subrange(0, k - 1));
        assert(digits_value(r@) == (2 * p + x / 10) * 10 + x % 10);
        assert(digits_value(cur) == p * 10 + d);
        if k > 1 {
            assert(r@[0] == head[0]);
        }
        assert forall|i: int| 0 <= i < r@.len() implies '0' <= #[trigger] r@[i] <= '9' by {
            if i < head.len() {
                assert(r@[i] == head[i]);
            }
        }
        if k == 1 && r@.len() > 1 {
            assert(r@[0] == '1');
        }
    }
    r
}

/// `m * 2^e` in decimal.
fn big_decimal(m: u64, e: u64) -> (s: String)
    ensures
        s@ == dec(m as nat * pow2(e as nat)),
{
    let first = decimal(m as u128);
    let mut v = crate::chars::chars_of(first.as_str());
    proof {
        lemma_dec_is_plain(m as nat);
    }
    let mut i: u64 = 0;
    assert(m as nat * pow2(0) == m) by (nonlinear_arith)
        requires
            pow2(0) == 1,
    ;
    while i < e
        invariant
            i <= e,
            plain(v@),
            digits_value(v@) == m as nat * pow2(i as nat),
        decreases e - i,
    {
        assert(v@.subrange(0, v@.len() as int) =~= v@);
        v = doubled(&v, v.len(), 0);
        assert(2 * (m as nat * pow2(i as nat)) == m as nat * pow2((i + 1) as nat)) by (nonlinear_arith)
            requires
                pow2((i + 1) as nat) == 2 * pow2(i as nat),
        ;
        i += 1;
    }
    proof {
        lemma_plain_is_dec(v@);
        assert(v@.subrange(0, v@.len() as int) =~= v@);
    }
    crate::chars::string_of(&v, 0, v.len())
}

} // verus!
