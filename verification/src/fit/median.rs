//! What a median is.

use vstd::prelude::*;
use crate::double::arith::{lemma_magnitude_scale, magnitude_of, signed};
use crate::double::error::sums_are_near;
use crate::double::laws::{a_double_rounds_to_itself, lemma_exact_units, lemma_parts, lemma_units_of, rounding_keeps_order, units_follow_magnitudes};
use crate::double::{lemma_pow2_grows, pow2, Double, HIDDEN_BIT, TWO_BITS};
use crate::fit::{is_middle, median_of, middle_by, smaller, Middle};
use crate::order::{in_order, lemma_hits_all};

verus! {

// --------------------------------------------------------------------- counting

/// How many of the numbers below `n` are such.
pub open spec fn counted(n: nat, such: spec_fn(int) -> bool) -> nat
    decreases n,
{
    if n == 0 {
        0
    } else {
        counted((n - 1) as nat, such) + (if such(n - 1) {
            1nat
        } else {
            0
        })
    }
}

pub open spec fn those(n: nat, such: spec_fn(int) -> bool) -> Set<int> {
    Set::new(|i: int| 0 <= i < n && such(i))
}

pub proof fn lemma_counted(n: nat, such: spec_fn(int) -> bool)
    ensures
        those(n, such).finite(),
        those(n, such).len() == counted(n, such),
        counted(n, such) <= n,
    decreases n,
{
    if n == 0 {
        assert(those(n, such) =~= Set::<int>::empty());
    } else {
        let m = (n - 1) as nat;
        lemma_counted(m, such);
        if such(n - 1) {
            assert(those(n, such) =~= those(m, such).insert(n - 1));
        } else {
            assert(those(n, such) =~= those(m, such));
        }
    }
}

/// Only what holds of the numbers themselves matters.
pub proof fn lemma_counted_same(n: nat, a: spec_fn(int) -> bool, b: spec_fn(int) -> bool)
    requires
        forall|i: int| 0 <= i < n ==> (#[trigger] a(i)) == b(i),
    ensures
        counted(n, a) == counted(n, b),
    decreases n,
{
    if n > 0 {
        lemma_counted_same((n - 1) as nat, a, b);
        assert(a(n - 1) == b(n - 1));
    }
}

pub proof fn lemma_counted_more(n: nat, a: spec_fn(int) -> bool, b: spec_fn(int) -> bool)
    requires
        forall|i: int| 0 <= i < n && #[trigger] a(i) ==> b(i),
    ensures
        counted(n, a) <= counted(n, b),
    decreases n,
{
    if n > 0 {
        lemma_counted_more((n - 1) as nat, a, b);
    }
}

/// `p` puts the numbers below `n` in another order.
pub open spec fn reorders(p: Seq<int>, n: nat) -> bool {
    &&& p.len() == n
    &&& forall|i: int| 0 <= i < n ==> 0 <= #[trigger] p[i] < n
    &&& forall|i: int, j: int| 0 <= i < j < n ==> #[trigger] p[i] != #[trigger] p[j]
}

/// Counting does not depend on the order.
pub proof fn counting_ignores_the_order(p: Seq<int>, n: nat, a: spec_fn(int) -> bool, b: spec_fn(int) -> bool)
    requires
        reorders(p, n),
        forall|i: int| 0 <= i < n ==> (#[trigger] b(i)) == a(p[i]),
    ensures
        counted(n, a) == counted(n, b),
{
    lemma_counted(n, a);
    lemma_counted(n, b);
    let s = those(n, b);
    let f = |i: int| p[i];
    // Those of `b` lead to as many of `a`, and the rest to the rest.
    lemma_image_is_as_large(p, n, s);
    let t = s.map(f);
    assert(t.subset_of(those(n, a))) by {
        assert forall|x: int| t.contains(x) implies those(n, a).contains(x) by {
            let i = choose|i: int| s.contains(i) && f(i) == x;
            assert(b(i) == a(p[i]));
        }
    }
    vstd::set_lib::lemma_len_subset(t, those(n, a));
    let (na, nb) = (|i: int| !a(i), |i: int| !b(i));
    lemma_counted(n, na);
    lemma_counted(n, nb);
    let s2 = those(n, nb);
    lemma_image_is_as_large(p, n, s2);
    let t2 = s2.map(f);
    assert(t2.subset_of(those(n, na))) by {
        assert forall|x: int| t2.contains(x) implies those(n, na).contains(x) by {
            let i = choose|i: int| s2.contains(i) && f(i) == x;
            assert(b(i) == a(p[i]));
        }
    }
    vstd::set_lib::lemma_len_subset(t2, those(n, na));
    lemma_counted_rest(n, a);
    lemma_counted_rest(n, b);
}

proof fn lemma_counted_rest(n: nat, a: spec_fn(int) -> bool)
    ensures
        counted(n, a) + counted(n, |i: int| !a(i)) == n,
    decreases n,
{
    if n > 0 {
        lemma_counted_rest((n - 1) as nat, a);
    }
}

proof fn lemma_image_is_as_large(p: Seq<int>, n: nat, s: Set<int>)
    requires
        reorders(p, n),
        s.finite(),
        forall|i: int| s.contains(i) ==> 0 <= i < n,
    ensures
        s.map(|i: int| p[i]).finite(),
        s.map(|i: int| p[i]).len() == s.len(),
    decreases s.len(),
{
    let f = |i: int| p[i];
    if s.len() == 0 {
        assert(s.map(f) =~= Set::<int>::empty());
    } else {
        let x = s.choose();
        let r = s.remove(x);
        lemma_image_is_as_large(p, n, r);
        assert(s.map(f) =~= r.map(f).insert(p[x])) by {
            assert forall|y: int| s.map(f).contains(y) implies r.map(f).insert(p[x]).contains(y) by {
                let i = choose|i: int| s.contains(i) && f(i) == y;
                if i != x {
                    assert(r.contains(i) && f(i) == y);
                }
            }
            assert forall|y: int| r.map(f).insert(p[x]).contains(y) implies s.map(f).contains(y) by {
                if y == p[x] {
                    assert(s.contains(x) && f(x) == y);
                } else {
                    let i = choose|i: int| r.contains(i) && f(i) == y;
                    assert(s.contains(i) && f(i) == y);
                }
            }
        }
        assert(!r.map(f).contains(p[x])) by {
            if r.map(f).contains(p[x]) {
                let i = choose|i: int| r.contains(i) && f(i) == p[x];
                if i < x {
                    assert(p[i] != p[x]);
                } else {
                    assert(p[x] != p[i]);
                }
            }
        }
    }
}

// ---------------------------------------------------------------------- medians

/// How many values come before a place in the order of numbers.
pub open spec fn before(v: Seq<Double>, place: int) -> nat {
    counted(v.len(), |i: int| v[i].rank() < place)
}

/// How many values come no later than it.
pub open spec fn up_to(v: Seq<Double>, place: int) -> nat {
    counted(v.len(), |i: int| v[i].rank() <= place)
}

/// The value at position `k` of a list in order has at most `k` before it, and
/// more than `k` up to it.
proof fn lemma_place(v: Seq<Double>, o: Seq<usize>, k: int)
    requires
        in_order(o, v.len(), smaller(v)),
        0 <= k < v.len() <= usize::MAX,
    ensures
        before(v, v[o[k] as int].rank()) <= k < up_to(v, v[o[k] as int].rank()),
{
    let r = v[o[k] as int].rank();
    let n = v.len();
    let f = smaller(v);
    let less = |i: int| v[i].rank() < r;
    let most = |i: int| v[i].rank() <= r;
    lemma_hits_all(o, n, f);
    lemma_counted(n, less);
    lemma_counted(n, most);
    let first = vstd::set_lib::set_int_range(0, k);
    vstd::set_lib::lemma_int_range(0, k);
    let upto = vstd::set_lib::set_int_range(0, k + 1);
    vstd::set_lib::lemma_int_range(0, k + 1);
    let p = Seq::new(n, |i: int| o[i] as int);
    assert(reorders(p, n)) by {
        assert forall|i: int, j: int| 0 <= i < j < n implies #[trigger] p[i] != #[trigger] p[j] by {
            assert(f(o[i] as int, o[j] as int));
        }
        assert forall|i: int| 0 <= i < n implies 0 <= #[trigger] p[i] < n by {
            assert(o[i] < n);
        }
    }
    lemma_image_is_as_large(p, n, first);
    lemma_image_is_as_large(p, n, upto);
    let g = |i: int| p[i];
    assert(those(n, less).subset_of(first.map(g))) by {
        assert forall|x: int| those(n, less).contains(x) implies first.map(g).contains(x) by {
            assert(o.contains(x as usize));
            let i = choose|i: int| 0 <= i < o.len() && o[i] == x as usize;
            if i >= k {
                if i > k {
                    assert(f(o[k] as int, o[i] as int));
                }
            }
            assert(first.contains(i) && g(i) == x);
        }
    }
    vstd::set_lib::lemma_len_subset(those(n, less), first.map(g));
    assert(upto.map(g).subset_of(those(n, most))) by {
        assert forall|x: int| upto.map(g).contains(x) implies those(n, most).contains(x) by {
            let i = choose|i: int| upto.contains(i) && g(i) == x;
            if i < k {
                assert(f(o[i] as int, o[k] as int));
            }
        }
    }
    vstd::set_lib::lemma_len_subset(upto.map(g), those(n, most));
}

/// The middle of some values, by the places its values have among them.
pub open spec fn is_central(m: Middle, v: Seq<Double>) -> bool {
    let n = v.len() as int;
    match m {
        Middle::Nothing => n == 0,
        Middle::One(x) => n % 2 == 1 && before(v, x.rank()) <= n / 2 < up_to(v, x.rank()),
        Middle::Two(x, y) => n > 0 && n % 2 == 0 && before(v, x.rank()) <= n / 2 - 1 < up_to(v, x.rank()) && before(v, y.rank()) <= n / 2
            < up_to(v, y.rank()) && x.rank() <= y.rank(),
    }
}

pub open spec fn is_among(x: Double, v: Seq<Double>) -> bool {
    exists|i: int| 0 <= i < v.len() && #[trigger] v[i] == x
}

pub proof fn lemma_middle(m: Middle, v: Seq<Double>)
    requires
        is_middle(m, v),
        v.len() <= usize::MAX,
    ensures
        is_central(m, v),
        match m {
            Middle::Nothing => true,
            Middle::One(x) => is_among(x, v),
            Middle::Two(x, y) => is_among(x, v) && is_among(y, v),
        },
{
    let o = choose|o: Seq<usize>| in_order(o, v.len(), smaller(v)) && #[trigger] middle_by(m, v, o);
    let n = v.len() as int;
    if n > 0 {
        lemma_place(v, o, n / 2);
        assert(o[n / 2] < n);
        assert(v[o[n / 2] as int] == v[o[n / 2] as int]);
        if n % 2 == 0 {
            lemma_place(v, o, n / 2 - 1);
            assert(o[n / 2 - 1] < n);
            assert(smaller(v)(o[n / 2 - 1] as int, o[n / 2] as int));
        }
    }
}

/// There is a middle of any values.
pub proof fn lemma_middle_exists(v: Seq<Double>)
    requires
        v.len() <= usize::MAX,
    ensures
        exists|m: Middle| is_middle(m, v),
{
    let o = lemma_sorted(v, v.len());
    let n = v.len() as int;
    let m = if n == 0 {
        Middle::Nothing
    } else if n % 2 == 1 {
        Middle::One(v[o[n / 2] as int])
    } else {
        Middle::Two(v[o[n / 2 - 1] as int], v[o[n / 2] as int])
    };
    assert(middle_by(m, v, o));
    assert(is_middle(m, v));
}

/// Values can be put in order, one after the other.
proof fn lemma_sorted(v: Seq<Double>, n: nat) -> (o: Seq<usize>)
    requires
        n <= v.len() <= usize::MAX,
    ensures
        in_order(o, n, smaller(v)),
    decreases n,
{
    if n == 0 {
        Seq::empty()
    } else {
        let m = (n - 1) as nat;
        let a = lemma_sorted(v, m);
        let p = lemma_slot(v, a, m, m as int);
        let f = smaller(v);
        let o = a.insert(p, m as usize);
        assert forall|k: int| 0 <= k < n implies (#[trigger] o[k]) < n by {
            if k < p {
                assert(o[k] == a[k]);
            } else if k > p {
                assert(o[k] == a[k - 1]);
            }
        }
        assert forall|i: int, j: int| 0 <= i < j < n implies f(#[trigger] o[i] as int, #[trigger] o[j] as int) by {
            let x = if i < p { a[i] } else if i == p { m as usize } else { a[i - 1] };
            let y = if j < p { a[j] } else if j == p { m as usize } else { a[j - 1] };
            assert(o[i] == x && o[j] == y);
        }
        o
    }
}

/// Where the next value goes: behind all that come before it.
proof fn lemma_slot(v: Seq<Double>, a: Seq<usize>, m: nat, q: int) -> (p: int)
    requires
        in_order(a, m, smaller(v)),
        m < v.len(),
        0 <= q <= m,
        forall|i: int| q <= i < m ==> smaller(v)(m as int, #[trigger] a[i] as int),
    ensures
        0 <= p <= m,
        forall|i: int| 0 <= i < p ==> smaller(v)(#[trigger] a[i] as int, m as int),
        forall|i: int| p <= i < m ==> smaller(v)(m as int, #[trigger] a[i] as int),
    decreases q,
{
    let f = smaller(v);
    if q > 0 && f(m as int, a[q - 1] as int) {
        lemma_slot(v, a, m, q - 1)
    } else {
        assert forall|i: int| 0 <= i < q implies f(#[trigger] a[i] as int, m as int) by {
            assert(a[i] < m);
            if i < q - 1 {
                assert(f(a[i] as int, a[q - 1] as int));
            }
            assert(a[q - 1] < m);
        }
        q
    }
}

/// The mean of two numbers lies between them.
pub proof fn the_mean_lies_between(x: Double, y: Double)
    requires
        x.finite() && y.finite(),
        !x.negative() && !y.negative(),
        x.magnitude() <= y.magnitude(),
        y.units() <= pow2(1900),
    ensures
        ({
            let m = x.sum(y).quotient(Double { bits: TWO_BITS });
            &&& m.finite() && !m.negative()
            &&& x.magnitude() <= m.magnitude() <= y.magnitude()
        }),
{
    lemma_sum_between(x, y);
    lemma_half_between(x, y, x.sum(y));
}

proof fn lemma_sum_between(x: Double, y: Double)
    requires
        x.finite() && y.finite(),
        !x.negative() && !y.negative(),
        x.magnitude() <= y.magnitude(),
        y.units() <= pow2(1900),
    ensures
        x.sum(y).finite() && !x.sum(y).negative(),
        2 * x.units() <= x.sum(y).units() <= 2 * y.units(),
{
    units_follow_magnitudes(x, y);
    let (a, b) = (x.units(), y.units());
    let s = x.sum(y);
    assert(s.finite() && !s.negative()) by {
        lemma_pow2_grows(1901, 1974);
        assert(pow2(1901) == 2 * pow2(1900));
        sums_are_near(x, y);
    }
    assert(s == signed(false, magnitude_of(a + b, 1))) by {
        reveal(Double::sum);
        lemma_nothing_rounds();
    }
    lemma_twice(x);
    lemma_twice(y);
    rounding_keeps_order(2 * a, a + b, 1);
    rounding_keeps_order(a + b, 2 * b, 1);
    let (p, q) = (signed(false, magnitude_of(2 * a, 1)), signed(false, magnitude_of(2 * b, 1)));
    assert(s.magnitude() == magnitude_of(a + b, 1));
    units_follow_magnitudes(p, s);
    units_follow_magnitudes(s, q);
}

proof fn lemma_half_between(x: Double, y: Double, s: Double)
    requires
        x.finite() && y.finite() && s.finite(),
        !x.negative() && !y.negative() && !s.negative(),
        2 * x.units() <= s.units() <= 2 * y.units(),
    ensures
        ({
            let m = s.quotient(Double { bits: TWO_BITS });
            &&& m.finite() && !m.negative()
            &&& x.magnitude() <= m.magnitude() <= y.magnitude()
        }),
{
    let (a, b, u) = (x.units(), y.units(), s.units());
    lemma_half(s);
    lemma_magnitude_scale(a, 1, 2);
    lemma_magnitude_scale(b, 1, 2);
    assert(a * 2 == 2 * a && b * 2 == 2 * b && 1 * 2 == 2);
    rounding_keeps_order(2 * a, u, 2);
    rounding_keeps_order(u, 2 * b, 2);
    a_double_rounds_to_itself(x);
    a_double_rounds_to_itself(y);
}

proof fn lemma_half(s: Double)
    requires
        s.finite() && !s.negative(),
    ensures
        s.quotient(Double { bits: TWO_BITS }) == signed(false, magnitude_of(s.units(), 2)),
{
    let two = Double { bits: TWO_BITS };
    let (t, u) = (pow2(1074), s.units());
    lemma_two();
    lemma_pow2_grows(0, 1074);
    lemma_magnitude_scale(u, 2, t);
    reveal(Double::quotient);
}

proof fn lemma_nothing_rounds()
    ensures
        magnitude_of(0, 1) == 0,
{
    assert(pow2(0) == 1);
    assert(0 * pow2(0) == 0) by (nonlinear_arith);
    lemma_exact_units(0, 0);
}

proof fn lemma_two()
    ensures
        (Double { bits: TWO_BITS }).units() == 2 * pow2(1074),
        (Double { bits: TWO_BITS }).finite(),
{
    let two = Double { bits: TWO_BITS };
    assert(two.significand() == 0x10_0000_0000_0000 && two.exponent() == -51);
    crate::double::arith::lemma_pow2_53();
    crate::double::lemma_pow2_adds(52, 1023);
    assert(pow2(1075) == 2 * pow2(1074));
}

/// Twice a number needs no rounding.
proof fn lemma_twice(x: Double)
    requires
        x.finite(),
        x.units() <= pow2(1900),
    ensures
        signed(false, magnitude_of(2 * x.units(), 1)).units() == 2 * x.units(),
        signed(false, magnitude_of(2 * x.units(), 1)).finite(),
        !signed(false, magnitude_of(2 * x.units(), 1)).negative(),
        signed(false, magnitude_of(2 * x.units(), 1)).magnitude() == magnitude_of(2 * x.units(), 1),
{
    let (m, k) = lemma_parts(x);
    if m < HIDDEN_BIT {
        assert(k == 0);
        assert(pow2(0) == 1);
        assert((2 * m) * pow2(0) == 2 * (m * pow2(0))) by (nonlinear_arith);
        lemma_exact_units(2 * m, 0);
        lemma_units_of(2 * m, 0);
    } else {
        assert(pow2(k + 1) == 2 * pow2(k));
        assert(m * pow2(k + 1) == 2 * (m * pow2(k))) by (nonlinear_arith)
            requires
                pow2(k + 1) == 2 * pow2(k),
        ;
        if k == 2045 {
            lemma_pow2_grows(1901, 2045);
            assert(pow2(1901) == 2 * pow2(1900));
            lemma_pow2_grows(0, 1900);
            assert(m * pow2(k) >= pow2(k)) by (nonlinear_arith)
                requires
                    m >= 1,
            ;
        }
        lemma_exact_units(m, k + 1);
        lemma_units_of(m, k + 1);
    }
}

/// Of any values at least half are no more than their median, and at least half
/// are no less.
pub proof fn half_are_no_more_and_half_no_less(v: Seq<Double>)
    requires
        0 < v.len() <= usize::MAX,
        forall|i: int| 0 <= i < v.len() ==> (#[trigger] v[i]).finite() && !v[i].negative() && v[i].units() <= pow2(1900),
    ensures
        2 * counted(v.len(), |i: int| v[i].units() <= median_of(v).units()) >= v.len(),
        2 * counted(v.len(), |i: int| v[i].units() >= median_of(v).units()) >= v.len(),
        median_of(v).finite() && !median_of(v).negative() && median_of(v).units() <= pow2(1900),
{
    lemma_middle_exists(v);
    let m = choose|m: Middle| is_middle(m, v);
    lemma_middle(m, v);
    let n = v.len();
    let c = median_of(v);
    let (x, y) = match m {
        Middle::Nothing => (c, c),
        Middle::One(x) => (x, x),
        Middle::Two(x, y) => (x, y),
    };
    assert(is_among(x, v) && is_among(y, v));
    let i = choose|i: int| 0 <= i < v.len() && #[trigger] v[i] == x;
    let j = choose|j: int| 0 <= j < v.len() && #[trigger] v[j] == y;
    assert(v[i].finite() && v[j].finite());
    if m is Two {
        the_mean_lies_between(x, y);
    }
    assert(c.finite() && !c.negative() && x.magnitude() <= c.magnitude() <= y.magnitude());
    units_follow_magnitudes(c, y);
    let le = |i: int| v[i].units() <= c.units();
    let ge = |i: int| v[i].units() >= c.units();
    let a = |i: int| v[i].rank() <= x.rank();
    assert forall|i: int| 0 <= i < n && #[trigger] a(i) implies le(i) by {
        assert(v[i].finite());
        units_follow_magnitudes(v[i], c);
    }
    lemma_counted_more(n, a, le);
    assert(counted(n, a) == up_to(v, x.rank()));
    let b = |i: int| v[i].rank() < y.rank();
    let nb = |i: int| !b(i);
    assert(counted(n, b) == before(v, y.rank()));
    lemma_counted_rest(n, b);
    assert forall|i: int| 0 <= i < n && #[trigger] nb(i) implies ge(i) by {
        assert(v[i].finite());
        units_follow_magnitudes(c, v[i]);
    }
    lemma_counted_more(n, nb, ge);
}

/// A median does not depend on the order of the values.
pub proof fn a_median_ignores_the_order(v: Seq<Double>, w: Seq<Double>)
    requires
        v.len() == w.len() <= usize::MAX,
        forall|i: int| 0 <= i < v.len() ==> !(#[trigger] v[i]).negative(),
        forall|i: int| 0 <= i < w.len() ==> !(#[trigger] w[i]).negative(),
        forall|r: int| #[trigger] before(v, r) == before(w, r),
        forall|r: int| #[trigger] up_to(v, r) == up_to(w, r),
    ensures
        median_of(v) == median_of(w),
{
    lemma_middle_exists(v);
    lemma_middle_exists(w);
    let (a, b) = (choose|m: Middle| is_middle(m, v), choose|m: Middle| is_middle(m, w));
    lemma_middle(a, v);
    lemma_middle(b, w);
    let n = v.len() as int;
    match (a, b) {
        (Middle::One(x), Middle::One(y)) => {
            lemma_same_place(v, w, x, y, n / 2);
        },
        (Middle::Two(x, y), Middle::Two(p, q)) => {
            lemma_same_place(v, w, x, p, n / 2 - 1);
            lemma_same_place(v, w, y, q, n / 2);
        },
        _ => {},
    }
}

/// A place is taken by one value.
proof fn lemma_same_place(v: Seq<Double>, w: Seq<Double>, x: Double, y: Double, k: int)
    requires
        forall|r: int| #[trigger] before(v, r) == before(w, r),
        forall|r: int| #[trigger] up_to(v, r) == up_to(w, r),
        before(v, x.rank()) <= k < up_to(v, x.rank()),
        before(w, y.rank()) <= k < up_to(w, y.rank()),
        is_among(x, v) && is_among(y, w),
        forall|i: int| 0 <= i < v.len() ==> !(#[trigger] v[i]).negative(),
        forall|i: int| 0 <= i < w.len() ==> !(#[trigger] w[i]).negative(),
    ensures
        x == y,
{
    let (r, s) = (x.rank(), y.rank());
    let i = choose|i: int| 0 <= i < v.len() && #[trigger] v[i] == x;
    let j = choose|j: int| 0 <= j < w.len() && #[trigger] w[j] == y;
    assert(!v[i].negative() && !w[j].negative());
    assert(before(w, s) == before(v, s) && up_to(w, s) == up_to(v, s));
    let n = v.len();
    if r < s {
        lemma_counted_more(n, |i: int| v[i].rank() <= r, |i: int| v[i].rank() < s);
        assert(up_to(v, r) <= before(v, s));
    } else if s < r {
        lemma_counted_more(n, |i: int| v[i].rank() <= s, |i: int| v[i].rank() < r);
        assert(up_to(v, s) <= before(v, r));
    }
    assert(x.bits == y.bits);
}

} // verus!
