//! Printing a number with as few digits as tell it from every other.

use vstd::prelude::*;
use vstd::arithmetic::div_mod::{lemma_div_denominator, lemma_fundamental_div_mod};
use crate::big::Natural;
use crate::chars::{concat2, copy, dec, dec_places, digit, digit_char, digit_value, is_digit, string_of};
use crate::double::arith::{distance, lemma_magnitude_scale, magnitude_of};
use crate::double::decimal::{
    decimal_magnitude, double_of, lemma_pow10_above, lemma_pow10_grows, lemma_zero, magnitude_at, natural_of, raise,
    raise_ten,
};
use crate::double::laws::{a_double_rounds_to_itself, lemma_parts, rounding_keeps_order, twice_is_more};
use crate::double::{fixed_text, lemma_dec_is_plain, lemma_plain_is_dec, lemma_pow2_adds, lemma_pow2_grows, lemma_push_value, plain, pow2, Double, HIDDEN_BIT};
use crate::json::{decimal_of, digits_end, digits_value, pow10, Decimal};

verus! {

/// `n` units of the decimal place `p` are read as the magnitude `m`.
pub open spec fn read_as(n: nat, p: int, m: nat) -> bool {
    decimal_magnitude(n, p) == m
}

/// No number that ends at a coarser place than `p` is read as `m`.
pub open spec fn coarsest(p: int, m: nat) -> bool {
    forall|n: nat, q: int| q > p ==> !#[trigger] read_as(n, q, m)
}

/// The unit of a decimal place, and a number of `u` of the smallest doubles,
/// on one scale.
pub open spec fn unit_at(p: int) -> nat {
    if p >= 0 {
        pow10(p as nat) * pow2(1074)
    } else {
        pow2(1074)
    }
}

pub open spec fn units_at(p: int, u: nat) -> nat {
    if p >= 0 {
        u
    } else {
        u * pow10((-p) as nat)
    }
}

/// How far `n` units of the place `p` are from the number.
pub open spec fn gap(n: nat, p: int, u: nat) -> nat {
    distance(n * unit_at(p) - units_at(p, u))
}

/// `n` units of the place `p` are the number in its shortest form: they are
/// read as the number, nothing coarser is, and nothing of that place is closer
/// to it. Of two that are as close it is the larger one.
pub open spec fn is_shortest(n: nat, p: int, d: Double) -> bool {
    &&& read_as(n, p, d.magnitude())
    &&& coarsest(p, d.magnitude())
    &&& forall|k: nat|
        #[trigger] read_as(k, p, d.magnitude()) ==> gap(n, p, d.units()) < gap(k, p, d.units()) || (gap(n, p, d.units()) == gap(
            k,
            p,
            d.units(),
        ) && k <= n)
}

/// `n` units of the place `p` without an exponent.
pub open spec fn place_text(n: nat, p: int) -> Seq<char> {
    if p >= 0 {
        dec(n * pow10(p as nat))
    } else {
        fixed_text(n, (-p) as nat)
    }
}

impl Double {
    /// The text of the shortest form.
    pub open spec fn shown_text(self) -> Seq<char> {
        let sign = if self.negative() { seq!['-'] } else { Seq::empty() };
        if self.nan() {
            "NaN"@
        } else if !self.finite() {
            sign + "inf"@
        } else if self.zero() {
            sign + "0"@
        } else {
            let s = choose|s: (nat, int)| is_shortest(s.0, s.1, self);
            sign + place_text(s.0, s.1)
        }
    }
}

/// There is only one shortest form.
pub proof fn the_shortest_form_is_unique(n: nat, p: int, k: nat, q: int, d: Double)
    requires
        is_shortest(n, p, d),
        is_shortest(k, q, d),
    ensures
        n == k,
        p == q,
{
    assert(read_as(n, p, d.magnitude()) && read_as(k, q, d.magnitude()));
}

// ---------------------------------------------------------------- the rounding

/// What a unit is divided by to be counted in the smallest doubles.
spec fn parts_at(p: int) -> nat {
    if p >= 0 {
        1
    } else {
        pow10((-p) as nat)
    }
}

proof fn lemma_parts_at(p: int, n: nat, d: Double)
    requires
        d.finite(),
    ensures
        parts_at(p) > 0,
        unit_at(p) > 0,
        decimal_magnitude(n, p) == magnitude_of(n * unit_at(p), parts_at(p)),
        magnitude_of(units_at(p, d.units()), parts_at(p)) == d.magnitude(),
        magnitude_of(2 * units_at(p, d.units()), parts_at(p)) == magnitude_of(2 * d.units(), 1),
{
    lemma_pow2_grows(0, 1074);
    a_double_rounds_to_itself(d);
    let u = d.units();
    if p >= 0 {
        let t = pow10(p as nat);
        lemma_pow10_grows(0, p as nat);
        assert(t * pow2(1074) > 0 && n * t * pow2(1074) == n * (t * pow2(1074))) by (nonlinear_arith)
            requires
                t >= 1,
                pow2(1074) >= 1,
        ;
    } else {
        let t = pow10((-p) as nat);
        lemma_pow10_grows(0, (-p) as nat);
        lemma_magnitude_scale(u, 1, t);
        lemma_magnitude_scale(2 * u, 1, t);
        assert(1 * t == t && 2 * u * t == 2 * (u * t)) by (nonlinear_arith);
    }
}

/// More units are not read as less.
proof fn lemma_read_order(n: nat, k: nat, p: int, d: Double)
    requires
        d.finite(),
        n <= k,
    ensures
        decimal_magnitude(n, p) <= decimal_magnitude(k, p),
{
    lemma_parts_at(p, n, d);
    lemma_parts_at(p, k, d);
    let w = unit_at(p);
    assert(n * w <= k * w) by (nonlinear_arith)
        requires
            n <= k,
    ;
    rounding_keeps_order(n * w, k * w, parts_at(p));
}

/// With `f` the whole units in a number, what is read as the number is at most
/// `f` only where `f` is read as it, and above only where `f + 1` is.
proof fn lemma_two_candidates(f: nat, k: nat, p: int, d: Double)
    requires
        d.finite(),
        f * unit_at(p) <= units_at(p, d.units()) < (f + 1) * unit_at(p),
        read_as(k, p, d.magnitude()),
    ensures
        k <= f ==> read_as(f, p, d.magnitude()),
        k > f ==> read_as(f + 1, p, d.magnitude()),
{
    lemma_parts_at(p, f, d);
    lemma_parts_at(p, f + 1, d);
    rounding_keeps_order(f * unit_at(p), units_at(p, d.units()), parts_at(p));
    rounding_keeps_order(units_at(p, d.units()), (f + 1) * unit_at(p), parts_at(p));
    if k <= f {
        lemma_read_order(k, f, p, d);
    } else {
        lemma_read_order(f + 1, k, p, d);
    }
}

/// A place whose unit is twice the number or more has nothing that is read as
/// it, and neither has a coarser one.
proof fn lemma_too_coarse(n: nat, p: int, d: Double)
    requires
        d.finite(),
        !d.zero(),
        2 * units_at(p, d.units()) <= unit_at(p),
    ensures
        !read_as(n, p, d.magnitude()),
        2 * units_at(p + 1, d.units()) <= unit_at(p + 1),
{
    let u = d.units();
    if n == 0 {
        lemma_zero(p);
    } else {
        lemma_parts_at(p, n, d);
        twice_is_more(d);
        let w = unit_at(p);
        assert(n * w >= w) by (nonlinear_arith)
            requires
                n >= 1,
        ;
        rounding_keeps_order(2 * units_at(p, u), n * w, parts_at(p));
    }
    lemma_next_place(p + 1, u);
    let a = units_at(p + 1, u);
    lemma_pow2_grows(0, 1074);
}

/// A place is ten of the next finer one.
proof fn lemma_next_place(p: int, u: nat)
    ensures
        p >= 1 ==> unit_at(p) == 10 * unit_at(p - 1) && units_at(p, u) == units_at(p - 1, u),
        p <= 0 ==> unit_at(p) == unit_at(p - 1) && units_at(p - 1, u) == 10 * units_at(p, u),
{
    if p >= 1 {
        let t = pow10((p - 1) as nat);
        assert(pow10(p as nat) == 10 * t);
        assert(10 * t * pow2(1074) == 10 * (t * pow2(1074))) by (nonlinear_arith);
    } else {
        let t = pow10((-p) as nat);
        assert(pow10((1 - p) as nat) == 10 * t);
        assert(u * (10 * t) == 10 * (u * t)) by (nonlinear_arith);
        assert(pow10(0) == 1);
        assert(pow10(0) * pow2(1074) == pow2(1074) && u * pow10(0) == u) by (nonlinear_arith)
            requires
                pow10(0) == 1,
        ;
    }
}

proof fn lemma_all_coarser(p: int, q: int, d: Double)
    requires
        d.finite(),
        !d.zero(),
        2 * units_at(p, d.units()) <= unit_at(p),
        q >= p,
    ensures
        2 * units_at(q, d.units()) <= unit_at(q),
        forall|n: nat| !#[trigger] read_as(n, q, d.magnitude()),
    decreases q - p,
{
    if q > p {
        lemma_all_coarser(p, q - 1, d);
        lemma_too_coarse(0, q - 1, d);
    }
    assert forall|n: nat| !#[trigger] read_as(n, q, d.magnitude()) by {
        lemma_too_coarse(n, q, d);
    }
}

// ------------------------------------------------------------------ the digits

pub open spec fn all_digits(s: Seq<char>) -> bool {
    forall|i: int| 0 <= i < s.len() ==> is_digit(#[trigger] s[i])
}

/// A zero in front counts nothing.
proof fn lemma_leading_zero(s: Seq<char>)
    requires
        s.len() > 0,
        s[0] == '0',
    ensures
        digits_value(s.subrange(1, s.len() as int)) == digits_value(s),
    decreases s.len(),
{
    let t = s.subrange(1, s.len() as int);
    if s.len() == 1 {
        assert(t =~= Seq::<char>::empty());
        assert(s.drop_last() =~= Seq::<char>::empty());
        assert(digits_value(s.drop_last()) == 0);
    } else {
        lemma_leading_zero(s.drop_last());
        assert(s.drop_last().subrange(1, s.len() - 1) =~= t.drop_last());
        assert(t.last() == s.last());
    }
}

/// The last `q` digits of a number and those before them.
proof fn lemma_split_digits(s: Seq<char>, q: nat)
    requires
        all_digits(s),
        q <= s.len(),
    ensures
        digits_value(s.subrange(0, s.len() - q)) == digits_value(s) / pow10(q),
        s.subrange(s.len() - q, s.len() as int) == dec_places(digits_value(s), q),
    decreases q,
{
    if q == 0 {
        assert(s.subrange(0, s.len() as int) =~= s);
        assert(s.subrange(s.len() as int, s.len() as int) =~= Seq::<char>::empty());
        assert(digits_value(s) / 1 == digits_value(s));
    } else {
        let t = s.drop_last();
        let r = (q - 1) as nat;
        assert forall|i: int| 0 <= i < t.len() implies is_digit(#[trigger] t[i]) by {
            assert(t[i] == s[i]);
        }
        lemma_split_digits(t, r);
        assert(is_digit(s[s.len() - 1]));
        let c = (s.last() as int - '0' as int) as nat;
        let v = digits_value(s);
        let w = digits_value(t);
        assert(v == w * 10 + c);
        assert(v / 10 == w && v % 10 == c);
        assert(digit(c) == s.last());
        assert(t.subrange(0, t.len() - r) =~= s.subrange(0, s.len() - q));
        assert(s.subrange(s.len() - q, s.len() as int) =~= t.subrange(t.len() - r, t.len() as int).push(s.last()));
        lemma_pow10_grows(0, r);
        lemma_div_denominator(v as int, 10, pow10(r) as int);
        assert(pow10(q) == 10 * pow10(r));
    }
}

/// The first `k` digits as a number without leading zeros.
fn whole_text(v: &Vec<char>, k: usize) -> (o: String)
    requires
        all_digits(v@),
        0 < k <= v@.len(),
    ensures
        o@ == dec(digits_value(v@.subrange(0, k as int))),
{
    let ghost s = v@.subrange(0, k as int);
    let mut i: usize = 0;
    assert(v@.subrange(0, k as int) =~= s);
    while i + 1 < k && v[i] == '0'
        invariant
            0 < k <= v@.len(),
            i < k,
            digits_value(v@.subrange(i as int, k as int)) == digits_value(s),
        decreases k - i,
    {
        proof {
            let t = v@.subrange(i as int, k as int);
            lemma_leading_zero(t);
            assert(t.subrange(1, t.len() as int) =~= v@.subrange(i + 1, k as int));
        }
        i += 1;
    }
    let ghost t = v@.subrange(i as int, k as int);
    proof {
        assert forall|j: int| 0 <= j < t.len() implies '0' <= #[trigger] t[j] <= '9' by {
            assert(is_digit(v@[i + j]));
        }
        assert(plain(t));
        lemma_plain_is_dec(t);
    }
    string_of(v, i, k)
}

/// The first `k` digits counted one further.
fn bumped(v: &Vec<char>, k: usize) -> (r: Vec<char>)
    requires
        all_digits(v@),
        0 < k <= v@.len(),
        v@[0] == '0',
    ensures
        r@.len() == k,
        all_digits(r@),
        digits_value(r@) == digits_value(v@.subrange(0, k as int)) + 1,
    decreases k,
{
    let ghost cur = v@.subrange(0, k as int);
    assert(cur.drop_last() =~= v@.subrange(0, k - 1));
    assert(is_digit(v@[k - 1]));
    let d: u8 = match digit_value(v[k - 1]) {
        Some(d) => d,
        None => 0,
    };
    assert(digits_value(cur) == digits_value(v@.subrange(0, k - 1)) * 10 + d);
    if d < 9 {
        let mut r: Vec<char> = Vec::new();
        let mut i: usize = 0;
        while i + 1 < k
            invariant
                all_digits(v@),
                0 < k <= v@.len(),
                i < k,
                r@ =~= v@.subrange(0, i as int),
            decreases k - i,
        {
            r.push(v[i]);
            i += 1;
        }
        let ghost head = r@;
        r.push(digit_char(d + 1));
        proof {
            lemma_push_value(head, digit((d + 1) as nat));
            assert forall|j: int| 0 <= j < r@.len() implies is_digit(#[trigger] r@[j]) by {
                if j < head.len() {
                    assert(r@[j] == v@[j]);
                }
            }
        }
        r
    } else {
        let mut r = bumped(v, k - 1);
        let ghost head = r@;
        r.push('0');
        proof {
            lemma_push_value(head, '0');
            assert forall|j: int| 0 <= j < r@.len() implies is_digit(#[trigger] r@[j]) by {
                if j < head.len() {
                    assert(r@[j] == head[j]);
                }
            }
        }
        r
    }
}

/// The digits as units of the place `p`: `whole` of them stand before the
/// point, with the zeros that follow them.
fn place_string(digits: &Vec<char>, whole: usize, p: i128) -> (o: String)
    requires
        all_digits(digits@),
        0 < whole,
        whole == digits@.len() + p,
        p > -2000 && p < 2000,
    ensures
        o@ == place_text(digits_value(digits@), p as int),
{
    if p >= 0 {
        let mut v: Vec<char> = Vec::new();
        let mut i: usize = 0;
        while i < digits.len()
            invariant
                i <= digits@.len(),
                v@ =~= digits@.subrange(0, i as int),
            decreases digits@.len() - i,
        {
            v.push(digits[i]);
            i += 1;
        }
        assert(v@ =~= digits@);
        let mut j: i128 = 0;
        proof {
            let n = digits_value(digits@);
            assert(pow10(0) == 1);
            assert(n * pow10(0) == n) by (nonlinear_arith)
                requires
                    pow10(0) == 1,
            ;
        }
        while j < p
            invariant
                0 <= j <= p,
                p < 2000,
                all_digits(v@),
                v@.len() == digits@.len() + j,
                digits_value(v@) == digits_value(digits@) * pow10(j as nat),
            decreases p - j,
        {
            let ghost before = v@;
            v.push('0');
            proof {
                lemma_push_value(before, '0');
                let n = digits_value(digits@);
                let t = pow10(j as nat);
                assert(pow10((j + 1) as nat) == 10 * t);
                assert(n * t * 10 == n * (10 * t)) by (nonlinear_arith);
                assert forall|k: int| 0 <= k < v@.len() implies is_digit(#[trigger] v@[k]) by {
                    if k < before.len() {
                        assert(v@[k] == before[k]);
                    }
                }
            }
            j += 1;
        }
        assert(v@.subrange(0, v@.len() as int) =~= v@);
        whole_text(&v, v.len())
    } else {
        proof {
            lemma_split_digits(digits@, (-p) as nat);
        }
        let mut o = whole_text(digits, whole);
        o.push('.');
        let f = string_of(digits, whole, digits.len());
        o.append(f.as_str());
        assert(o@ =~= fixed_text(digits_value(digits@), (-p) as nat));
        o
    }
}

// ------------------------------------------------------------------ the search

/// A power of ten is at most the power of sixteen.
proof fn lemma_pow10_below(n: nat)
    ensures
        pow10(n) <= pow2(4 * n),
    decreases n,
{
    if n > 0 {
        let m = (n - 1) as nat;
        lemma_pow10_below(m);
        assert(pow2(4 * n) == 2 * pow2((4 * n - 1) as nat));
        assert(pow2((4 * n - 1) as nat) == 2 * pow2((4 * n - 2) as nat));
        assert(pow2((4 * n - 2) as nat) == 2 * pow2((4 * n - 3) as nat));
        assert(pow2((4 * n - 3) as nat) == 2 * pow2(4 * m));
    }
}

/// Where the search starts: a place whose unit is at least twice any number of
/// less than 2^53 times 2^k of the smallest doubles.
fn start_place(k: u64) -> (p: i128)
    requires
        k <= 2045,
    ensures
        -256 <= p <= 342,
        forall|m: nat| m < 0x20_0000_0000_0000 ==> 2 * units_at(p as int, #[trigger] (m * pow2(k as nat))) <= unit_at(p as int),
{
    let p: i128 = if k >= 1020 {
        (k as i128 - 1020 + 2) / 3
    } else {
        -((1020 - k as i128) / 4)
    };
    assert forall|m: nat| m < 0x20_0000_0000_0000 implies 2 * units_at(p as int, #[trigger] (m * pow2(k as nat))) <= unit_at(
        p as int,
    ) by {
        lemma_start(m, k as nat, p as int);
    }
    p
}

proof fn lemma_start(m: nat, k: nat, p: int)
    requires
        m < 0x20_0000_0000_0000,
        p >= 0 ==> k <= 3 * p + 1020,
        p < 0 ==> k + 4 * (-p) <= 1020,
    ensures
        2 * units_at(p, m * pow2(k)) <= unit_at(p),
{
    let u = m * pow2(k);
    crate::double::arith::lemma_pow2_53();
    lemma_pow2_adds(53, k);
    lemma_pow2_grows(0, k);
    assert(pow2(54 + k) == 2 * pow2(53 + k));
    assert(u <= pow2(53) * pow2(k)) by (nonlinear_arith)
        requires
            u == m * pow2(k),
            m <= pow2(53),
    ;
    assert(2 * u <= pow2(54 + k));
    if p >= 0 {
        let t = pow10(p as nat);
        lemma_pow10_above(p as nat);
        lemma_pow2_adds(3 * p as nat, 1074);
        lemma_pow2_grows(54 + k, (3 * p + 1074) as nat);
        assert(t * pow2(1074) >= pow2(3 * p as nat) * pow2(1074)) by (nonlinear_arith)
            requires
                t >= pow2(3 * p as nat),
        ;
    } else {
        let q = (-p) as nat;
        let t = pow10(q);
        lemma_pow10_below(q);
        lemma_pow2_adds(54 + k, 4 * q);
        lemma_pow2_grows((54 + k + 4 * q) as nat, 1074);
        assert(2 * (u * t) <= pow2(54 + k) * pow2(4 * q)) by (nonlinear_arith)
            requires
                2 * u <= pow2(54 + k),
                t <= pow2(4 * q),
        ;
    }
}

/// `5` to the power of `n`.
spec fn pow5(n: nat) -> nat
    decreases n,
{
    if n == 0 {
        1
    } else {
        5 * pow5((n - 1) as nat)
    }
}

proof fn lemma_pow5(n: nat)
    ensures
        pow10(n) == pow5(n) * pow2(n),
    decreases n,
{
    if n > 0 {
        let m = (n - 1) as nat;
        lemma_pow5(m);
        assert(10 * (pow5(m) * pow2(m)) == (5 * pow5(m)) * (2 * pow2(m))) by (nonlinear_arith);
    } else {
        assert(pow5(0) * pow2(0) == 1) by (nonlinear_arith)
            requires
                pow5(0) == 1,
                pow2(0) == 1,
        ;
    }
}

/// Every number ends at the 1074th place: its whole units there are all of it.
proof fn lemma_last_place(f: nat, d: Double)
    requires
        d.finite(),
        f * unit_at(-1074) <= units_at(-1074, d.units()) < (f + 1) * unit_at(-1074),
    ensures
        read_as(f, -1074, d.magnitude()),
{
    let u = d.units();
    let g = u * pow5(1074);
    let w = pow2(1074);
    lemma_pow5(1074);
    lemma_pow2_grows(0, 1074);
    assert(u * (pow5(1074) * w) == g * w) by (nonlinear_arith)
        requires
            g == u * pow5(1074),
    ;
    assert(f == g) by (nonlinear_arith)
        requires
            f * w <= g * w,
            g * w < (f + 1) * w,
            w >= 1,
    ;
    lemma_parts_at(-1074, f, d);
}

/// One more digit.
proof fn lemma_step(p: int, u: nat, c: nat, f: nat, rest: nat, unit: nat, x: nat, left: nat) -> (e: nat)
    requires
        c > 0,
        unit == c * unit_at(p),
        f * unit_at(p) <= units_at(p, u),
        rest == c * (units_at(p, u) - f * unit_at(p)),
        left + x * unit == 10 * rest,
        left < unit,
    ensures
        e > 0,
        unit == e * unit_at(p - 1),
        (10 * f + x) * unit_at(p - 1) <= units_at(p - 1, u) < (10 * f + x + 1) * unit_at(p - 1),
        left == e * (units_at(p - 1, u) - (10 * f + x) * unit_at(p - 1)),
{
    lemma_next_place(p, u);
    let w = unit_at(p - 1) as int;
    let v = units_at(p - 1, u) as int;
    let g = (10 * f + x) as int;
    let e: nat = if p >= 1 { 10 * c } else { c };
    if p >= 1 {
        assert(unit == e * w && left == e * (v - g * w)) by (nonlinear_arith)
            requires
                unit == c * (10 * w),
                rest == c * (v - f * (10 * w)),
                left + x * unit == 10 * rest,
                g == 10 * f + x,
                e == 10 * c,
        ;
    } else {
        let t = units_at(p, u) as int;
        assert(left == e * (v - g * w)) by (nonlinear_arith)
            requires
                unit == c * w,
                rest == c * (t - f * w),
                v == 10 * t,
                left + x * unit == 10 * rest,
                g == 10 * f + x,
                e == c,
        ;
    }
    assert(g * w <= v) by (nonlinear_arith)
        requires
            left == e * (v - g * w),
            left >= 0,
            e > 0,
    ;
    assert(v < (g + 1) * w) by (nonlinear_arith)
        requires
            left == e * (v - g * w),
            left < unit,
            unit == e * w,
            e > 0,
    ;
    e
}

/// Of the two candidates the one that is read as the number and lies closer to
/// it is the shortest form.
proof fn lemma_choice(f: nat, p: int, d: Double, c: nat, unit: nat, rest: nat, up: bool)
    requires
        d.finite(),
        c > 0,
        unit == c * unit_at(p),
        f * unit_at(p) <= units_at(p, d.units()) < (f + 1) * unit_at(p),
        rest == c * (units_at(p, d.units()) - f * unit_at(p)),
        coarsest(p, d.magnitude()),
        read_as(f, p, d.magnitude()) || read_as(f + 1, p, d.magnitude()),
        up == (read_as(f + 1, p, d.magnitude()) && (!read_as(f, p, d.magnitude()) || 2 * rest >= unit)),
    ensures
        is_shortest(if up { f + 1 } else { f }, p, d),
{
    let u = d.units();
    let w = unit_at(p) as int;
    let v = units_at(p, u) as int;
    let n = if up { f + 1 } else { f };
    lemma_parts_at(p, f, d);
    assert((2 * rest >= unit) == (2 * (v - f * w) >= w)) by (nonlinear_arith)
        requires
            rest == c * (v - f * w),
            unit == c * w,
            c > 0,
    ;
    assert((f + 1) * w == f * w + w) by (nonlinear_arith);
    assert forall|k: nat| #[trigger] read_as(k, p, d.magnitude()) implies gap(n, p, u) < gap(k, p, u) || (gap(n, p, u) == gap(
        k,
        p,
        u,
    ) && k <= n) by {
        lemma_two_candidates(f, k, p, d);
        if k < f {
            assert(k * w < f * w) by (nonlinear_arith)
                requires
                    k < f,
                    w > 0,
            ;
        } else if k > f + 1 {
            assert(k * w > (f + 1) * w) by (nonlinear_arith)
                requires
                    k > f + 1,
                    w > 0,
            ;
        }
    }
}

fn natural(m: u64) -> (r: Natural)
    ensures
        r@ == m,
{
    let high: u32 = (m / 0x1_0000_0000) as u32;
    let low: u32 = (m % 0x1_0000_0000) as u32;
    let mut r = Natural::nothing();
    r.scale(0, high);
    r.scale(0x1_0000, 0);
    r.scale(0x1_0000, low);
    r
}

/// How many times `unit` goes into ten times `rest`, and what is left.
fn next_digit(rest: &mut Natural, unit: &Natural) -> (x: u8)
    requires
        old(rest)@ < unit@,
    ensures
        x < 10,
        final(rest)@ < unit@,
        final(rest)@ + x as nat * unit@ == 10 * old(rest)@,
{
    let ghost start = rest@;
    rest.scale(10, 0);
    let mut x: u8 = 0;
    assert(0 * unit@ == 0) by (nonlinear_arith);
    while !rest.below(unit)
        invariant
            start < unit@,
            rest@ + x as nat * unit@ == 10 * start,
            x < 10,
        decreases rest@,
    {
        proof {
            let b = unit@ as int;
            let y = x as int;
            assert(y + 1 < 10) by (nonlinear_arith)
                requires
                    rest@ as int + y * b == 10 * start,
                    rest@ as int >= b,
                    start < b,
            ;
            assert((y + 1) * b == y * b + b) by (nonlinear_arith);
        }
        rest.take(unit);
        x += 1;
    }
    x
}

/// The digits of the shortest form, and its last place.
fn shortest(d: Double) -> (r: (Vec<char>, usize, i128))
    requires
        d.finite(),
        !d.zero(),
    ensures
        is_shortest(digits_value(r.0@), r.2 as int, d),
        all_digits(r.0@),
        r.1 > 0,
        r.1 == r.0@.len() + r.2,
        -2000 < r.2 < 2000,
{
    let mag: u64 = d.magnitude_bits();
    let (m, k): (u64, u64) = if mag < HIDDEN_BIT {
        (mag, 0)
    } else {
        (mag % HIDDEN_BIT + HIDDEN_BIT, mag / HIDDEN_BIT - 1)
    };
    let ghost u = d.units();
    proof {
        if mag < HIDDEN_BIT {
            vstd::arithmetic::div_mod::lemma_small_mod(mag as nat, HIDDEN_BIT as nat);
        }
        assert(u == m as nat * pow2(k as nat));
    }
    let start: i128 = start_place(k);
    let mut unit = Natural::one();
    raise(&mut unit, 1074);
    let mut rest = natural(m);
    raise(&mut rest, k as u32);
    proof {
        assert(1 * pow2(1074) == pow2(1074));
        assert(pow10(0) == 1);
        assert(pow2(1074) * pow10(0) == pow10(0) * pow2(1074)) by (nonlinear_arith);
    }
    if start >= 0 {
        raise_ten(&mut unit, start as u128);
        assert(pow2(1074) * pow10(start as nat) == pow10(start as nat) * pow2(1074)) by (nonlinear_arith);
    } else {
        raise_ten(&mut rest, (-start) as u128);
    }
    assert(unit@ == unit_at(start as int) && rest@ == units_at(start as int, u));
    let zeros: usize = if start >= 0 { 1 } else { (1 - start) as usize };
    let whole: usize = if start >= 0 { (start + 1) as usize } else { 1 };
    let mut digits: Vec<char> = Vec::new();
    while digits.len() < zeros
        invariant
            digits@.len() <= zeros,
            zeros >= 1,
            forall|i: int| 0 <= i < digits@.len() ==> (#[trigger] digits@[i]) == '0',
            digits_value(digits@) == 0,
        decreases zeros - digits@.len(),
    {
        let ghost before = digits@;
        digits.push('0');
        proof {
            lemma_push_value(before, '0');
        }
    }
    let mut p: i128 = start;
    let ghost mut c: nat = 1;
    proof {
        lemma_parts_at(start as int, 0, d);
        let w = unit_at(start as int);
        let v = units_at(start as int, u);
        assert(1 * w == w && 0 * w == 0 && 1 * (v - 0 * w) == v) by (nonlinear_arith);
        assert forall|n: nat, q: int| q >= p implies !#[trigger] read_as(n, q, d.magnitude()) by {
            lemma_all_coarser(start as int, q, d);
        }
    }
    loop
        invariant
            d.finite(),
            !d.zero(),
            u == d.units(),
            mag as nat == d.magnitude(),
            -256 <= start <= 342,
            -1074 < p <= start,
            zeros == (if start >= 0 { 1 } else { 1 - start }),
            whole == zeros + start,
            all_digits(digits@),
            digits@.len() == zeros + (start - p),
            digits@[0] == '0',
            c > 0,
            unit@ == c * unit_at(p as int),
            digits_value(digits@) * unit_at(p as int) <= units_at(p as int, u),
            rest@ == c * (units_at(p as int, u) - digits_value(digits@) * unit_at(p as int)),
            rest@ < unit@,
            forall|n: nat, q: int| q >= p ==> !#[trigger] read_as(n, q, d.magnitude()),
        decreases p + 1074,
    {
        let ghost before = digits@;
        let ghost left = rest@;
        let x: u8 = next_digit(&mut rest, &unit);
        digits.push(digit_char(x));
        proof {
            lemma_push_value(before, digit(x as nat));
            assert forall|i: int| 0 <= i < digits@.len() implies is_digit(#[trigger] digits@[i]) by {
                if i < before.len() {
                    assert(digits@[i] == before[i]);
                }
            }
            c = lemma_step(p as int, u, c, digits_value(before), left, unit@, x as nat, rest@);
        }
        p -= 1;
        let ghost f = digits_value(digits@);
        let low = magnitude_at(natural_of(&digits), p) == mag;
        let mut next = natural_of(&digits);
        next.scale(1, 1);
        let high = magnitude_at(next, p) == mag;
        if low || high {
            let mut twice = rest.copy();
            twice.scale(2, 0);
            let up = high && (!low || !twice.below(&unit));
            proof {
                lemma_choice(f, p as int, d, c, unit@, rest@, up);
                assert(digits@.subrange(0, digits@.len() as int) =~= digits@);
            }
            if up {
                digits = bumped(&digits, digits.len());
            }
            return (digits, whole, p);
        }
        proof {
            if p == -1074 {
                lemma_last_place(f, d);
            }
            assert forall|n: nat, q: int| q >= p implies !#[trigger] read_as(n, q, d.magnitude()) by {
                if q == p && read_as(n, q, d.magnitude()) {
                    lemma_two_candidates(f, n, p as int, d);
                }
            }
        }
    }
}

impl Double {
    /// The number as `{}` prints it: the fewest digits that are read as this
    /// number, without an exponent.
    pub fn shown(self) -> (s: String)
        ensures
            s@ == self.shown_text(),
    {
        if self.is_nan() {
            return copy("NaN");
        }
        let text = if !self.is_finite() {
            copy("inf")
        } else if self.magnitude_bits() == 0 {
            copy("0")
        } else {
            let (digits, whole, p) = shortest(self);
            proof {
                let n = digits_value(digits@);
                let s = choose|s: (nat, int)| is_shortest(s.0, s.1, self);
                assert(is_shortest((n, p as int).0, (n, p as int).1, self));
                the_shortest_form_is_unique(n, p as int, s.0, s.1, self);
            }
            place_string(&digits, whole, p)
        };
        let o = if self.is_negative() {
            concat2("-", text.as_str())
        } else {
            text
        };
        proof {
            reveal_strlit("-");
            assert("-"@ =~= seq!['-']);
            assert(Seq::<char>::empty() + text@ =~= text@);
        }
        o
    }
}

// ------------------------------------------------------------------------ laws

proof fn lemma_some_shortest(d: Double, p: int)
    requires
        d.finite(),
        !d.zero(),
        p > -1074,
        forall|n: nat, q: int| q >= p ==> !#[trigger] read_as(n, q, d.magnitude()),
    ensures
        exists|s: (nat, int)| is_shortest(s.0, s.1, d),
    decreases p + 1074,
{
    let q = p - 1;
    let w = unit_at(q);
    let v = units_at(q, d.units());
    lemma_parts_at(q, 0, d);
    lemma_fundamental_div_mod(v as int, w as int);
    let f = v / w;
    let rest = v % w;
    assert(f * w <= v < (f + 1) * w && rest == 1 * (v - f * w)) by (nonlinear_arith)
        requires
            v == w * f + rest,
            rest < w,
    ;
    let low = read_as(f, q, d.magnitude());
    let high = read_as(f + 1, q, d.magnitude());
    if low || high {
        let up = high && (!low || 2 * rest >= w);
        assert(w == 1 * w) by (nonlinear_arith);
        lemma_choice(f, q, d, 1, w, rest, up);
        let s = (if up { f + 1 } else { f }, q);
        assert(is_shortest(s.0, s.1, d));
    } else {
        if q == -1074 {
            lemma_last_place(f, d);
        }
        assert forall|n: nat, r: int| r >= q implies !#[trigger] read_as(n, r, d.magnitude()) by {
            if r == q && read_as(n, r, d.magnitude()) {
                lemma_two_candidates(f, n, q, d);
            }
        }
        lemma_some_shortest(d, q);
    }
}

/// Every number has a shortest form.
pub proof fn a_shortest_form_exists(d: Double)
    requires
        d.finite(),
        !d.zero(),
    ensures
        exists|s: (nat, int)| is_shortest(s.0, s.1, d),
{
    let (m, k) = lemma_parts(d);
    let p: int = if k >= 1020 { (k - 1020 + 2) / 3 } else { -((1020 - k) / 4) };
    lemma_start(m, k, p);
    assert forall|n: nat, q: int| q >= p implies !#[trigger] read_as(n, q, d.magnitude()) by {
        lemma_all_coarser(p, q, d);
    }
    lemma_some_shortest(d, p);
}

proof fn lemma_digits_run(t: Seq<char>, a: int, b: int)
    requires
        0 <= a <= b <= t.len(),
        forall|p: int| a <= p < b ==> is_digit(#[trigger] t[p]),
        b < t.len() ==> !is_digit(t[b]),
    ensures
        digits_end(t, a) == b,
    decreases b - a,
{
    if a < b {
        lemma_digits_run(t, a + 1, b);
    }
}

/// The digits of a number without and with a point.
pub proof fn lemma_places_value(n: nat, q: nat, whole: Seq<char>)
    ensures
        digits_value(whole + dec_places(n, q)) == digits_value(whole) * pow10(q) + n % pow10(q),
        dec_places(n, q).len() == q,
    decreases q,
{
    let f = dec_places(n, q);
    lemma_pow10_grows(0, q);
    let w = digits_value(whole);
    if q == 0 {
        assert(whole + f =~= whole);
        assert(w * pow10(0) == w) by (nonlinear_arith)
            requires
                pow10(0) == 1,
        ;
    } else {
        let r = (q - 1) as nat;
        lemma_places_value(n / 10, r, whole);
        let g = dec_places(n / 10, r);
        let c = digit(n % 10);
        assert(whole + f =~= (whole + g).push(c));
        lemma_push_value(whole + g, c);
        lemma_pow10_grows(0, r);
        let t = pow10(r);
        vstd::arithmetic::div_mod::lemma_breakdown(n as int, 10, t as int);
        assert(pow10(q) == 10 * t);
        let b = (n / 10) % t;
        assert((w * t + b) * 10 + n % 10 == w * (10 * t) + (10 * b + n % 10)) by (nonlinear_arith);
    }
}

spec fn sign_of(negative: bool) -> Seq<char> {
    if negative {
        seq!['-']
    } else {
        Seq::empty()
    }
}

proof fn lemma_whole_is_read(negative: bool, whole: Seq<char>)
    requires
        whole.len() > 0,
        all_digits(whole),
    ensures
        decimal_of(sign_of(negative) + whole) == Some(Decimal { negative, digits: whole, point: whole.len() as int }),
{
    let sign = sign_of(negative);
    let t = sign + whole;
    let a = sign.len() as int;
    assert forall|i: int| a <= i < t.len() implies is_digit(#[trigger] t[i]) by {
        assert(t[i] == whole[i - a]);
    }
    assert(is_digit(t[a]));
    lemma_digits_run(t, a, t.len() as int);
    assert(t.subrange(a, t.len() as int) + Seq::<char>::empty() =~= whole);
}

proof fn lemma_fraction_is_read(negative: bool, whole: Seq<char>, fraction: Seq<char>)
    requires
        whole.len() > 0,
        all_digits(whole),
        all_digits(fraction),
    ensures
        decimal_of(sign_of(negative) + (whole + seq!['.'] + fraction)) == Some(
            Decimal { negative, digits: whole + fraction, point: whole.len() as int },
        ),
{
    let sign = sign_of(negative);
    let t = sign + (whole + seq!['.'] + fraction);
    let a = sign.len() as int;
    let b = a + whole.len();
    assert forall|i: int| a <= i < b implies is_digit(#[trigger] t[i]) by {
        assert(t[i] == whole[i - a]);
    }
    assert(t[b] == '.');
    assert forall|i: int| b + 1 <= i < t.len() implies is_digit(#[trigger] t[i]) by {
        assert(t[i] == fraction[i - b - 1]);
    }
    assert(is_digit(t[a]));
    lemma_digits_run(t, a, b);
    lemma_digits_run(t, b + 1, t.len() as int);
    assert(t.subrange(a, b) =~= whole);
    assert(t.subrange(b + 1, t.len() as int) =~= fraction);
}

proof fn lemma_place_is_read(n: nat, p: int, negative: bool)
    ensures
        decimal_of(sign_of(negative) + place_text(n, p)) matches Some(x) && x.negative == negative && decimal_magnitude(
            digits_value(x.digits),
            x.point - x.digits.len(),
        ) == decimal_magnitude(n, p),
{
    if p >= 0 {
        let v = n * pow10(p as nat);
        lemma_dec_is_plain(v);
        crate::chars::lemma_dec_digits(v);
        lemma_whole_is_read(negative, dec(v));
        assert(pow10(0) == 1);
        assert(v * pow10(0) * pow2(1074) == n * pow10(p as nat) * pow2(1074)) by (nonlinear_arith)
            requires
                pow10(0) == 1,
                v == n * pow10(p as nat),
        ;
    } else {
        let q = (-p) as nat;
        let v = n / pow10(q);
        lemma_dec_is_plain(v);
        crate::chars::lemma_dec_digits(v);
        crate::chars::lemma_dec_places_digits(n, q);
        lemma_places_value(n, q, dec(v));
        lemma_fraction_is_read(negative, dec(v), dec_places(n, q));
        lemma_pow10_grows(0, q);
        lemma_fundamental_div_mod(n as int, pow10(q) as int);
        assert(v * pow10(q) + n % pow10(q) == n) by (nonlinear_arith)
            requires
                n == pow10(q) * v + n % pow10(q),
        ;
    }
}

/// What is shown of a finite number is read back as that number.
pub proof fn what_is_shown_is_read_back(d: Double)
    requires
        d.finite(),
    ensures
        decimal_of(d.shown_text()) matches Some(x) && double_of(x) == d,
{
    reveal(double_of);
    if d.zero() {
        reveal_strlit("0");
        assert("0"@ =~= dec(0));
        assert(0 * pow10(0) == 0) by (nonlinear_arith);
        lemma_place_is_read(0, 0, d.negative());
        lemma_zero(0);
    } else {
        a_shortest_form_exists(d);
        let s = choose|s: (nat, int)| is_shortest(s.0, s.1, d);
        lemma_place_is_read(s.0, s.1, d.negative());
    }
}

} // verus!
