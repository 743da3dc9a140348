//! A number with so many decimals is the nearest one there is.

use vstd::prelude::*;
use crate::chars::{dec, dec_places, lemma_dec_places_digits};
use crate::double::arith::distance;
use crate::double::shown::lemma_places_value;
use crate::double::{fixed_text, lemma_dec_is_plain, lemma_pow2_adds, lemma_pow2_grows, nearest, pow2, rounded, Double};
use crate::json::{digits_value, pow10};
use crate::predict::speed::{lemma_powers_of_two, one};
use crate::probe::human_text;
use crate::report::context_text;

verus! {

/// `q` is one of the whole numbers nearest to `a` by `d`, the even one of two.
pub open spec fn is_nearest(q: nat, a: nat, d: nat) -> bool {
    &&& distance(2 * (q * d) - 2 * a) <= d
    &&& distance(2 * (q * d) - 2 * a) == d ==> q % 2 == 0
}

pub proof fn lemma_nearest(a: nat, d: nat)
    requires
        d > 0,
    ensures
        is_nearest(nearest(a, d), a, d),
{
    let (q, r) = (a / d, a % d);
    vstd::arithmetic::div_mod::lemma_fundamental_div_mod(a as int, d as int);
    assert(d * q == q * d && (q + 1) * d == q * d + d) by (nonlinear_arith);
}

/// What is written of a number in decimals is one of the nearest to it, the
/// even one of two alike: half a unit of the last place off at most.
pub proof fn what_is_written_is_the_nearest(d: Double, places: nat)
    requires
        d.finite(),
    ensures
        is_nearest(d.scaled(places), d.units() * pow10(places), one()),
{
    let (m, e, t) = (d.significand(), d.exponent(), pow10(places));
    let u = d.units();
    lemma_pow2_grows(0, 1074);
    if e >= 0 {
        lemma_pow2_adds(e as nat, 1074);
        let (a, b) = (pow2(e as nat), pow2(1074));
        let s = m * a * t;
        assert(s * b == (m * (a * b)) * t) by (nonlinear_arith)
            requires
                s == m * a * t,
        ;
        assert(s * b == u * t);
    } else {
        let f = (-e) as nat;
        let k = pow2((1074 - f) as nat);
        lemma_pow2_adds(f, (1074 - f) as nat);
        lemma_pow2_grows(0, f);
        lemma_pow2_grows(0, (1074 - f) as nat);
        let s = nearest(m * t, pow2(f));
        lemma_nearest(m * t, pow2(f));
        let g = pow2(f);
        assert(s * (g * k) == (s * g) * k && (m * k) * t == (m * t) * k) by (nonlinear_arith);
        let x = 2 * (s * g) - 2 * (m * t);
        assert(2 * ((s * g) * k) - 2 * ((m * t) * k) == x * k) by (nonlinear_arith)
            requires
                x == 2 * (s * g) - 2 * (m * t),
        ;
        assert(distance(x * k) == distance(x) * k) by (nonlinear_arith)
            requires
                k >= 1,
        ;
        assert(distance(x) <= g ==> distance(x) * k <= g * k) by (nonlinear_arith);
        assert(distance(x) * k == g * k ==> distance(x) == g) by (nonlinear_arith)
            requires
                k >= 1,
        ;
    }
}

/// A text of digits, a point and so many digits says what it was written for.
pub proof fn the_digits_say_the_number(n: nat, places: nat)
    ensures
        places == 0 ==> digits_value(fixed_text(n, places)) == n,
        places > 0 ==> exists|w: Seq<char>, f: Seq<char>|
            fixed_text(n, places) == #[trigger] (w + seq!['.'] + f) && f.len() == places && w.len() > 0 && digits_value(w) * pow10(places)
                + digits_value(f) == n && digits_value(f) < pow10(places),
        digits_value(dec(n)) == n,
{
    let v = n / pow10(places);
    lemma_dec_is_plain(n);
    lemma_dec_is_plain(v);
    if places > 0 {
        let (w, f) = (dec(v), dec_places(n, places));
        crate::chars::lemma_dec_digits(v);
        lemma_dec_places_digits(n, places);
        lemma_places_value(n, places, Seq::empty());
        assert(Seq::<char>::empty() + f =~= f);
        lemma_pow10_positive(places);
        vstd::arithmetic::div_mod::lemma_fundamental_div_mod(n as int, pow10(places) as int);
        assert(v * pow10(places) == pow10(places) * v) by (nonlinear_arith);
        assert(0 * pow10(places) == 0) by (nonlinear_arith);
        vstd::arithmetic::div_mod::lemma_mod_bound(n as int, pow10(places) as int);
        assert(fixed_text(n, places) == w + seq!['.'] + f);
    }
}

proof fn lemma_pow10_positive(n: nat)
    ensures
        pow10(n) > 0,
    decreases n,
{
    if n > 0 {
        lemma_pow10_positive((n - 1) as nat);
    }
}

/// A negative number is written with its sign, and any other without.
pub proof fn only_a_negative_number_has_a_sign(d: Double, places: nat)
    requires
        d.finite(),
    ensures
        d.text(places).len() > 0,
        d.negative() <==> d.text(places)[0] == '-',
{
    let n = d.scaled(places);
    crate::chars::lemma_dec_digits(n);
    crate::chars::lemma_dec_digits(n / pow10(places));
    let f = fixed_text(n, places);
    assert(crate::chars::is_digit(f[0])) by {
        if places > 0 {
            assert(f[0] == dec(n / pow10(places))[0]);
        }
    }
    if d.negative() {
        assert(d.text(places)[0] == '-');
    } else {
        assert(d.text(places) =~= f);
    }
}

/// A count of bytes is shown in GiB, to the nearest hundredth, from one on, and
/// in MiB, to the nearest one, below.
pub proof fn bytes_are_shown_to_the_nearest(bytes: nat)
    requires
        bytes < 0x20_0000_0000_0000,
    ensures
        bytes >= 1_073_741_824 ==> exists|v: nat| #[trigger]
            is_nearest(v, bytes * 100, 1_073_741_824) && human_text(bytes) == fixed_text(v, 2) + " GiB"@,
        bytes < 1_073_741_824 ==> exists|v: nat| #[trigger]
            is_nearest(v, bytes, 1_048_576) && human_text(bytes) == fixed_text(v, 0) + " MiB"@,
{
    assert(rounded(bytes) == bytes) by {
        assert(bytes / 1 == bytes && bytes % 1 == 0);
    }
    lemma_powers_of_two();
    lemma_pow2_adds(20, 10);
    assert(pow2(10) == 1024) by {
        reveal_with_fuel(pow2, 11);
    }
    lemma_nearest(bytes * 100, pow2(30));
    lemma_nearest(bytes, pow2(20));
}

/// A context is shown in whole thousands of 1024 from there on, and to the
/// token below.
pub proof fn contexts_are_shown_in_thousands(ctx: nat)
    ensures
        ctx < 1024 ==> digits_value(context_text(ctx)) == ctx,
        ctx >= 1024 ==> context_text(ctx).len() > 0 && context_text(ctx).last() == 'K' && digits_value(context_text(ctx).drop_last()) * 1024 <= ctx
            < digits_value(context_text(ctx).drop_last()) * 1024 + 1024,
{
    lemma_dec_is_plain(ctx);
    lemma_dec_is_plain(ctx / 1024);
    reveal_strlit("K");
    if ctx >= 1024 {
        assert(context_text(ctx).drop_last() =~= dec(ctx / 1024));
    }
}

} // verus!
