//! What the evidence for a coefficient is, run by run.

use vstd::prelude::*;
use crate::double::error::{differences_are_near, near, nearness_cancels, nearness_carries_over, nearness_scales, ordinary, products_are_near, quotients_are_near};
use crate::double::laws::lemma_one;
use crate::double::{pow2, Double};
use crate::fit::laws::{lemma_backend_items, lemma_bucket, lemma_bucket_items, runs_with};
use crate::fit::median::{counted, half_are_no_more_and_half_no_less, lemma_counted_same};
use crate::fit::{
    backend_keys, bucket_key, bucket_keys, deviations, eta_positions, eta_samples, is_fitted, machine_count, machine_seen, mad_of, median_of,
    plausible_eta, plausible_prefill, prefill_positions, prefill_samples, sample_values, spread_of, under, Fit, Groups, Record, Sample,
    COVERAGE_BITS, MAD_BITS,
};
use crate::group::items_of;
use crate::predict::inversion::{lemma_between, lemma_positive};
use crate::predict::laws::{least_widths_are_in_percent, lemma_exactly, order_is_that_of_the_numbers};
use crate::predict::speed::{lemma_nothing, lemma_powers_of_two, lemma_turned, one};
use crate::runtime::judged::lemma_zero_has_no_units;
use crate::spec::QuantFamily;

verus! {

// ------------------------------------------------------------------ what counts

/// An efficiency counts where it is above nothing and no more than the whole.
pub proof fn an_efficiency_counts_up_to_the_whole(d: Double)
    ensures
        plausible_eta(d) <==> d.finite() && !d.negative() && 0 < d.units() <= one(),
{
    let (whole, zero) = (Double { bits: 0x3FF0_0000_0000_0000 }, Double { bits: 0 });
    lemma_one();
    lemma_nothing();
    if d.finite() && !d.negative() {
        order_is_that_of_the_numbers(d, whole);
        order_is_that_of_the_numbers(zero, d);
    }
}

/// A prefill scale counts where it is above nothing and below a thousand.
pub proof fn a_prefill_scale_counts_below_a_thousand(d: Option<Double>)
    ensures
        plausible_prefill(d) <==> (d matches Some(x) && x.finite() && !x.negative() && 0 < x.units() < 1000 * one()),
{
    let (bar, zero) = (Double { bits: 0x408F_4000_0000_0000 }, Double { bits: 0 });
    lemma_nothing();
    lemma_powers_of_two();
    assert(bar.significand() == 0x1F_4000_0000_0000 && bar.exponent() == -43);
    lemma_exactly(bar, 0x1F_4000_0000_0000, 43, 1000);
    if let Some(x) = d {
        if x.finite() && !x.negative() {
            order_is_that_of_the_numbers(x, bar);
            order_is_that_of_the_numbers(zero, x);
        }
    }
}

// -------------------------------------------------------------------- own runs

/// The record is a run of the family on the backend, with an efficiency that
/// can be real.
pub open spec fn is_own(r: Record, backend: Seq<char>, family: QuantFamily) -> bool {
    &&& r.implied_eta.finite() && !r.implied_eta.negative()
    &&& 0 < r.implied_eta.units() <= one()
    &&& r.backend@ == backend
    &&& r.quant_family == family
}

proof fn lemma_own(records: Seq<Record>, n: nat, backend: Seq<char>, family: QuantFamily, f: spec_fn(Double) -> bool)
    requires
        n <= records.len(),
    ensures
        ({
            let own = runs_with(records, n, backend, Some(family));
            &&& counted(own.len(), |i: int| f(own[i].value)) == counted(
                n,
                |k: int| is_own(records[k], backend, family) && f(records[k].implied_eta),
            )
            &&& own.len() == counted(n, |k: int| is_own(records[k], backend, family))
            &&& own.len() <= n
            &&& forall|i: int| 0 <= i < own.len() ==> plausible_eta((#[trigger] own[i]).value)
        }),
    decreases n,
{
    if n > 0 {
        let m = (n - 1) as nat;
        lemma_own(records, m, backend, family, f);
        let r = records[n - 1];
        let (v, w) = (runs_with(records, m, backend, Some(family)), runs_with(records, n, backend, Some(family)));
        an_efficiency_counts_up_to_the_whole(r.implied_eta);
        if is_own(r, backend, family) {
            assert(w == v.push(Sample { value: r.implied_eta, family: r.quant_family, record: (n - 1) as usize }));
            let (g, h) = (|i: int| f(w[i].value), |i: int| f(v[i].value));
            assert forall|i: int| 0 <= i < v.len() implies (#[trigger] g(i)) == h(i) by {
                assert(w[i] == v[i]);
            }
            lemma_counted_same(v.len(), g, h);
            assert forall|i: int| 0 <= i < w.len() implies plausible_eta((#[trigger] w[i]).value) by {
                if i < v.len() {
                    assert(w[i] == v[i]);
                }
            }
        } else {
            assert(w == v);
        }
    }
}

/// Values that count have a median with half of them on either side.
proof fn lemma_halves(s: Seq<Sample>)
    requires
        0 < s.len() <= usize::MAX,
        forall|i: int| 0 <= i < s.len() ==> (#[trigger] s[i]).value.finite() && !s[i].value.negative() && s[i].value.units() <= 1000 * one(),
    ensures
        ({
            let c = median_of(sample_values(s));
            &&& 2 * counted(s.len(), |i: int| s[i].value.units() <= c.units()) >= s.len()
            &&& 2 * counted(s.len(), |i: int| s[i].value.units() >= c.units()) >= s.len()
            &&& c.finite() && !c.negative()
        }),
{
    let v = sample_values(s);
    let c = median_of(v);
    lemma_powers_of_two();
    crate::double::lemma_pow2_adds(20, 1074);
    crate::double::lemma_pow2_grows(1094, 1900);
    assert(1000 * one() <= 0x10_0000 * one()) by (nonlinear_arith)
        requires
            one() >= 0,
    ;
    assert forall|i: int| 0 <= i < v.len() implies (#[trigger] v[i]).finite() && !v[i].negative() && v[i].units() <= pow2(1900) by {
        assert(v[i] == s[i].value);
    }
    half_are_no_more_and_half_no_less(v);
    lemma_counted_same(s.len(), |i: int| v[i].units() <= c.units(), |i: int| s[i].value.units() <= c.units());
    lemma_counted_same(s.len(), |i: int| v[i].units() >= c.units(), |i: int| s[i].value.units() >= c.units());
}

/// What is looked up for a family that was measured on the backend is the
/// median of its own runs there, each counted once: at least half of them were
/// no more efficient, and at least half no less.
pub proof fn own_runs_decide(fit: Fit, records: Seq<Record>, backend: Seq<char>, family: QuantFamily, prior: Double)
    requires
        fit.is_of(records),
        records.len() <= usize::MAX,
        exists|k: int| 0 <= k < records.len() && is_own(#[trigger] records[k], backend, family),
    ensures
        ({
            let c = fit.coefficient(backend, family, prior);
            let n = records.len();
            &&& c.samples == counted(n, |k: int| is_own(records[k], backend, family))
            &&& c.samples > 0
            &&& 2 * counted(n, |k: int| is_own(records[k], backend, family) && records[k].implied_eta.units() <= c.eta.units()) >= c.samples
            &&& 2 * counted(n, |k: int| is_own(records[k], backend, family) && records[k].implied_eta.units() >= c.eta.units()) >= c.samples
        }),
{
    let n = records.len();
    let c = fit.coefficient(backend, family, prior);
    let own = runs_with(records, n, backend, Some(family));
    let k = choose|k: int| 0 <= k < n && is_own(#[trigger] records[k], backend, family);
    let (below, above) = (|d: Double| d.units() <= c.eta.units(), |d: Double| d.units() >= c.eta.units());
    lemma_own(records, n, backend, family, below);
    lemma_own(records, n, backend, family, above);
    lemma_one_counted(n, |k: int| is_own(records[k], backend, family), k);
    lemma_fitted(fit, records, backend, family, prior);
    assert forall|i: int| 0 <= i < own.len() implies (#[trigger] own[i]).value.finite() && !own[i].value.negative() && own[i].value.units()
        <= 1000 * one() by {
        an_efficiency_counts_up_to_the_whole(own[i].value);
    }
    lemma_halves(own);
    lemma_counted_same(own.len(), |i: int| own[i].value.units() <= c.eta.units(), |i: int| below(own[i].value));
    lemma_counted_same(own.len(), |i: int| own[i].value.units() >= c.eta.units(), |i: int| above(own[i].value));
    lemma_counted_same(
        n,
        |k: int| is_own(records[k], backend, family) && below(records[k].implied_eta),
        |k: int| is_own(records[k], backend, family) && records[k].implied_eta.units() <= c.eta.units(),
    );
    lemma_counted_same(
        n,
        |k: int| is_own(records[k], backend, family) && above(records[k].implied_eta),
        |k: int| is_own(records[k], backend, family) && records[k].implied_eta.units() >= c.eta.units(),
    );
}

proof fn lemma_one_counted(n: nat, such: spec_fn(int) -> bool, k: int)
    requires
        0 <= k < n,
        such(k),
    ensures
        counted(n, such) > 0,
    decreases n,
{
    if k < n - 1 {
        lemma_one_counted((n - 1) as nat, such, k);
    }
}

proof fn lemma_fitted(fit: Fit, records: Seq<Record>, backend: Seq<char>, family: QuantFamily, prior: Double)
    requires
        fit.is_of(records),
        runs_with(records, records.len(), backend, Some(family)).len() > 0,
    ensures
        is_fitted(
            fit.coefficient(backend, family, prior),
            records,
            runs_with(records, records.len(), backend, Some(family)),
        ),
{
    let g = choose|g: Groups| g.are_those_of(records) && #[trigger] fit.fits(g, records);
    let n = records.len();
    let e = eta_positions(records, n);
    lemma_bucket_items(records, n, backend, family);
    lemma_backend_items(records, n, backend);
    lemma_bucket(fit.buckets@, g.buckets@, bucket_keys(records, e), eta_samples(records, e), records, bucket_key(backend, family));
}

/// The machines that the runs were made on.
pub open spec fn machines_behind(records: Seq<Record>, s: Seq<Sample>) -> Set<Seq<char>> {
    s.map_values(|x: Sample| records[x.record as int].hw@).to_set()
}

proof fn lemma_machines(records: Seq<Record>, s: Seq<Sample>, n: nat)
    requires
        n <= s.len(),
    ensures
        machines_behind(records, s.subrange(0, n as int)).finite(),
        machine_count(records, s, n) == machines_behind(records, s.subrange(0, n as int)).len(),
    decreases n,
{
    let f = |x: Sample| records[x.record as int].hw@;
    let p = s.subrange(0, n as int);
    if n == 0 {
        assert(p.map_values(f) =~= Seq::<Seq<char>>::empty());
        assert(machines_behind(records, p) =~= Set::<Seq<char>>::empty());
    } else {
        lemma_machines(records, s, (n - 1) as nat);
        let q = s.subrange(0, n - 1);
        let hw = f(s[n - 1]);
        let (a, b) = (machines_behind(records, q), machines_behind(records, p));
        assert(p.map_values(f) =~= q.map_values(f).push(hw));
        assert(b =~= a.insert(hw)) by {
            assert forall|x: Seq<char>| #[trigger] b.contains(x) <==> a.insert(hw).contains(x) by {
                let (u, v) = (q.map_values(f), p.map_values(f));
                if v.contains(x) {
                    let i = choose|i: int| 0 <= i < v.len() && v[i] == x;
                    if i < u.len() {
                        assert(u[i] == x);
                    }
                }
                if u.contains(x) {
                    let i = choose|i: int| 0 <= i < u.len() && u[i] == x;
                    assert(v[i] == x);
                }
                assert(v[n - 1] == hw);
            }
        }
        assert(machine_seen(records, s, n - 1, hw) <==> a.contains(hw)) by {
            let u = q.map_values(f);
            if machine_seen(records, s, n - 1, hw) {
                let j = choose|j: int| 0 <= j < n - 1 && records[(#[trigger] s[j]).record as int].hw@ == hw;
                assert(u[j] == hw);
            }
            if u.contains(hw) {
                let j = choose|j: int| 0 <= j < u.len() && u[j] == hw;
                assert(records[s[j].record as int].hw@ == hw);
            }
        }
    }
}

/// As many machines are told as there are different ones behind the runs,
/// however often each ran.
pub proof fn a_machine_counts_once_however_often_it_ran(
    fit: Fit,
    records: Seq<Record>,
    backend: Seq<char>,
    family: QuantFamily,
    prior: Double,
)
    requires
        fit.is_of(records),
        runs_with(records, records.len(), backend, Some(family)).len() > 0,
    ensures
        fit.coefficient(backend, family, prior).machines == machines_behind(
            records,
            runs_with(records, records.len(), backend, Some(family)),
        ).len(),
{
    let own = runs_with(records, records.len(), backend, Some(family));
    lemma_fitted(fit, records, backend, family, prior);
    lemma_machines(records, own, own.len());
    assert(own.subrange(0, own.len() as int) =~= own);
}

// ---------------------------------------------------------------------- prefill

/// The record is a run on the backend with a prefill scale that can be real.
pub open spec fn tells_prefill(r: Record, backend: Seq<char>) -> bool {
    &&& r.implied_prefill_scale matches Some(x) && x.finite() && !x.negative() && 0 < x.units() < 1000 * one()
    &&& r.backend@ == backend
}

/// The prefill runs on a backend.
pub open spec fn prefill_runs(records: Seq<Record>, n: nat, backend: Seq<char>) -> Seq<Sample> {
    let at = prefill_positions(records, n);
    items_of(backend_keys(records, at), prefill_samples(records, at), backend)
}

proof fn lemma_prefill_runs(records: Seq<Record>, n: nat, backend: Seq<char>, f: spec_fn(Double) -> bool)
    requires
        n <= records.len(),
    ensures
        ({
            let own = prefill_runs(records, n, backend);
            &&& counted(own.len(), |i: int| f(own[i].value)) == counted(
                n,
                |k: int| tells_prefill(records[k], backend) && f(records[k].implied_prefill_scale->0),
            )
            &&& own.len() == counted(n, |k: int| tells_prefill(records[k], backend))
            &&& own.len() <= n
            &&& forall|i: int| 0 <= i < own.len() ==> plausible_prefill(Some((#[trigger] own[i]).value))
        }),
    decreases n,
{
    if n > 0 {
        let m = (n - 1) as nat;
        lemma_prefill_runs(records, m, backend, f);
        let r = records[n - 1];
        let (v, w) = (prefill_runs(records, m, backend), prefill_runs(records, n, backend));
        let (a, b) = (prefill_positions(records, m), prefill_positions(records, n));
        a_prefill_scale_counts_below_a_thousand(r.implied_prefill_scale);
        if plausible_prefill(r.implied_prefill_scale) {
            assert(b == a.push(n - 1));
            let s = Sample { value: r.implied_prefill_scale->0, family: r.quant_family, record: (n - 1) as usize };
            assert(backend_keys(records, b).drop_last() =~= backend_keys(records, a));
            assert(prefill_samples(records, b).drop_last() =~= prefill_samples(records, a));
            assert(backend_keys(records, b).last() == r.backend@);
            assert(prefill_samples(records, b).last() == s);
            if r.backend@ == backend {
                assert(w == v.push(s));
                let (g, h) = (|i: int| f(w[i].value), |i: int| f(v[i].value));
                assert forall|i: int| 0 <= i < v.len() implies (#[trigger] g(i)) == h(i) by {
                    assert(w[i] == v[i]);
                }
                lemma_counted_same(v.len(), g, h);
                assert forall|i: int| 0 <= i < w.len() implies plausible_prefill(Some((#[trigger] w[i]).value)) by {
                    if i < v.len() {
                        assert(w[i] == v[i]);
                    }
                }
            } else {
                assert(w == v);
            }
        } else {
            assert(w == v);
        }
    }
}

/// A backend has a prefill scale exactly where a run told one there, and it is
/// the median of those: at least half told no more, and at least half no less.
pub proof fn a_prefill_scale_is_that_of_the_backend_s_runs(fit: Fit, records: Seq<Record>, backend: Seq<char>)
    requires
        fit.is_of(records),
        records.len() <= usize::MAX,
    ensures
        ({
            let n = records.len();
            let told = counted(n, |k: int| tells_prefill(records[k], backend));
            match under(fit.prefill@, backend) {
                Some(c) => {
                    &&& c.samples == told > 0
                    &&& 2 * counted(
                        n,
                        |k: int| tells_prefill(records[k], backend) && records[k].implied_prefill_scale->0.units() <= c.eta.units(),
                    ) >= told
                    &&& 2 * counted(
                        n,
                        |k: int| tells_prefill(records[k], backend) && records[k].implied_prefill_scale->0.units() >= c.eta.units(),
                    ) >= told
                },
                None => told == 0,
            }
        }),
{
    let n = records.len();
    let own = prefill_runs(records, n, backend);
    let g = choose|g: Groups| g.are_those_of(records) && #[trigger] fit.fits(g, records);
    let p = prefill_positions(records, n);
    lemma_bucket(fit.prefill@, g.prefill@, backend_keys(records, p), prefill_samples(records, p), records, backend);
    lemma_prefill_runs(records, n, backend, |d: Double| true);
    if let Some(c) = under(fit.prefill@, backend) {
        let (below, above) = (|d: Double| d.units() <= c.eta.units(), |d: Double| d.units() >= c.eta.units());
        lemma_prefill_runs(records, n, backend, below);
        lemma_prefill_runs(records, n, backend, above);
        assert forall|i: int| 0 <= i < own.len() implies (#[trigger] own[i]).value.finite() && !own[i].value.negative() && own[i].value.units()
            <= 1000 * one() by {
            a_prefill_scale_counts_below_a_thousand(Some(own[i].value));
        }
        lemma_halves(own);
        lemma_counted_same(own.len(), |i: int| own[i].value.units() <= c.eta.units(), |i: int| below(own[i].value));
        lemma_counted_same(own.len(), |i: int| own[i].value.units() >= c.eta.units(), |i: int| above(own[i].value));
        lemma_counted_same(
            n,
            |k: int| tells_prefill(records[k], backend) && below(records[k].implied_prefill_scale->0),
            |k: int| tells_prefill(records[k], backend) && records[k].implied_prefill_scale->0.units() <= c.eta.units(),
        );
        lemma_counted_same(
            n,
            |k: int| tells_prefill(records[k], backend) && above(records[k].implied_prefill_scale->0),
            |k: int| tells_prefill(records[k], backend) && records[k].implied_prefill_scale->0.units() >= c.eta.units(),
        );
    }
}

// ----------------------------------------------------------------------- spread

/// `w` is 1.645 standard deviations of `centre`, a standard deviation being
/// 1.4826 times the deviation `d`.
pub open spec fn is_wide(w: Double, d: Double, centre: Double) -> bool {
    near(w.units() * centre.units() * 10_000_000, 1645 * 14826 * d.units() * one(), 12)
}

/// At least half of the values are no further from the centre than `d`, and at
/// least half no nearer.
pub open spec fn deviates_by(v: Seq<Double>, centre: Double, d: Double) -> bool {
    &&& 2 * counted(v.len(), |i: int| v[i].difference(centre).absolute().units() <= d.units()) >= v.len()
    &&& 2 * counted(v.len(), |i: int| v[i].difference(centre).absolute().units() >= d.units()) >= v.len()
}

proof fn lemma_factors()
    ensures
        ordinary(Double { bits: COVERAGE_BITS }, 3),
        near((Double { bits: COVERAGE_BITS }).units() * 1000, 1645 * one(), 1),
        ordinary(Double { bits: MAD_BITS }, 3),
        near((Double { bits: MAD_BITS }).units() * 10000, 14826 * one(), 1),
{
    let (c, m) = (Double { bits: COVERAGE_BITS }, Double { bits: MAD_BITS });
    lemma_powers_of_two();
    assert(c.significand() == 0x1A_51EB_851E_B852 && c.exponent() == -52);
    assert(m.significand() == 0x17_B8BA_C710_CB29 && m.exponent() == -52);
    lemma_between(c, 0x3FF, 3);
    lemma_between(m, 0x3FF, 3);
    let k = pow2(1022);
    crate::double::lemma_pow2_adds(52, 1022);
    nearness_scales(0x1A_51EB_851E_B852 * 1000, 1645 * 0x10_0000_0000_0000, k, 1);
    assert((0x1A_51EB_851E_B852 * 1000) * k == (0x1A_51EB_851E_B852 * k) * 1000) by (nonlinear_arith);
    assert((1645 * 0x10_0000_0000_0000) * k == 1645 * (0x10_0000_0000_0000 * k)) by (nonlinear_arith);
    nearness_scales(0x17_B8BA_C710_CB29 * 10000, 14826 * 0x10_0000_0000_0000, k, 1);
    assert((0x17_B8BA_C710_CB29 * 10000) * k == (0x17_B8BA_C710_CB29 * k) * 10000) by (nonlinear_arith);
    assert((14826 * 0x10_0000_0000_0000) * k == 14826 * (0x10_0000_0000_0000 * k)) by (nonlinear_arith);
}

proof fn lemma_width(v: Seq<Double>, centre: Double)
    requires
        ordinary(centre, 100),
        ordinary(median_of(deviations(v, centre)), 300),
    ensures
        is_wide(spread_of(v, centre), median_of(deviations(v, centre)), centre),
        ordinary(spread_of(v, centre), 406),
{
    let t = one();
    let (c, m) = (Double { bits: COVERAGE_BITS }, Double { bits: MAD_BITS });
    let d = median_of(deviations(v, centre));
    lemma_nothing();
    lemma_factors();
    lemma_positive(centre, 100);
    products_are_near(d, m, 300, 3);
    let s = d.product(m);
    assert(mad_of(v, centre) == s);
    products_are_near(c, s, 3, 303);
    let q = c.product(s);
    quotients_are_near(q, centre, 306, 100);
    let w = q.quotient(centre);
    let (x, y, z, u, a, b) = (d.units(), s.units(), q.units(), w.units(), c.units(), m.units());
    let e = centre.units();
    // u e ~ z t, z t ~ a y, y t ~ x b
    nearness_scales(u * e, z * t, t, 1);
    nearness_scales(z * t, a * y, t, 1);
    nearness_carries_over((u * e) * t, (z * t) * t, (a * y) * t, 1, 1);
    nearness_scales(y * t, x * b, a, 1);
    assert((a * y) * t == (y * t) * a && (x * b) * a == (a * x) * b) by (nonlinear_arith);
    nearness_carries_over((u * e) * t, (a * y) * t, (a * x) * b, 3, 1);
    nearness_scales((u * e) * t, (a * x) * b, 10_000_000, 5);
    nearness_scales(a * 1000, 1645 * t, x * b * 10000, 1);
    assert((a * 1000) * (x * b * 10000) == ((a * x) * b) * 10_000_000) by (nonlinear_arith);
    nearness_carries_over(((u * e) * t) * 10_000_000, ((a * x) * b) * 10_000_000, (1645 * t) * (x * b * 10000), 5, 1);
    nearness_scales(b * 10000, 14826 * t, 1645 * t * x, 1);
    assert((b * 10000) * (1645 * t * x) == (1645 * t) * (x * b * 10000)) by (nonlinear_arith);
    nearness_carries_over(((u * e) * t) * 10_000_000, (1645 * t) * (x * b * 10000), (14826 * t) * (1645 * t * x), 7, 1);
    assert(((u * e) * t) * 10_000_000 == (u * e * 10_000_000) * t) by (nonlinear_arith);
    assert((14826 * t) * (1645 * t * x) == (1645 * 14826 * x * t) * t) by (nonlinear_arith);
    nearness_cancels(u * e * 10_000_000, 1645 * 14826 * x * t, t, 9);
    crate::double::error::nearness_widens(u * e * 10_000_000, 1645 * 14826 * x * t, 9, 12);
}

/// How far a value is from the centre is a number of ordinary size.
proof fn lemma_deviation(x: Double, centre: Double)
    requires
        x.finite() && !x.negative() && x.units() <= one(),
        ordinary(centre, 100),
    ensures
        ({
            let d = x.difference(centre).absolute();
            &&& d.finite() && !d.negative()
            &&& d.units() <= pow2(1900)
        }),
{
    crate::double::lemma_pow2_grows(1074, 1174);
    crate::double::lemma_pow2_grows(1175, 1900);
    crate::double::lemma_pow2_grows(1175, 1974);
    assert(pow2(1175) == 2 * pow2(1174));
    let (a, b) = if x.units() >= centre.units() { (x, centre) } else { (centre, x) };
    differences_are_near(a, b);
    let e = a.difference(b);
    let n = a.units() - b.units();
    let (u, m) = (e.units() as int, crate::double::error::SLACK as int);
    assert(u <= 2 * n) by (nonlinear_arith)
        requires
            u * m <= n * (m + 1),
            m >= 1,
            n >= 0,
    ;
    if x.units() < centre.units() {
        lemma_turned(x, centre);
    }
    let d = x.difference(centre).absolute();
    assert(d.magnitude() == e.magnitude());
    assert(d.units() == e.units());
}

proof fn lemma_deviations(v: Seq<Double>, centre: Double)
    requires
        0 < v.len() <= usize::MAX,
        forall|i: int| 0 <= i < v.len() ==> (#[trigger] v[i]).finite() && !v[i].negative() && v[i].units() <= one(),
        ordinary(centre, 100),
    ensures
        deviates_by(v, centre, median_of(deviations(v, centre))),
        median_of(deviations(v, centre)).finite(),
        !median_of(deviations(v, centre)).negative(),
{
    let w = deviations(v, centre);
    let d = median_of(w);
    assert forall|i: int| 0 <= i < w.len() implies (#[trigger] w[i]).finite() && !w[i].negative() && w[i].units() <= pow2(1900) by {
        assert(w[i] == v[i].difference(centre).absolute());
        lemma_deviation(v[i], centre);
    }
    half_are_no_more_and_half_no_less(w);
    lemma_counted_same(w.len(), |i: int| w[i].units() <= d.units(), |i: int| v[i].difference(centre).absolute().units() <= d.units());
    lemma_counted_same(w.len(), |i: int| w[i].units() >= d.units(), |i: int| v[i].difference(centre).absolute().units() >= d.units());
}

proof fn lemma_no_width(v: Seq<Double>, centre: Double)
    requires
        ordinary(centre, 100),
        median_of(deviations(v, centre)).finite(),
        !median_of(deviations(v, centre)).negative(),
        median_of(deviations(v, centre)).units() == 0,
    ensures
        spread_of(v, centre) == (Double { bits: 0 }),
{
    let d = median_of(deviations(v, centre));
    let zero = Double { bits: 0 };
    lemma_nothing();
    lemma_factors();
    lemma_positive(centre, 100);
    lemma_zero_has_no_units(d);
    assert(d == zero);
    crate::double::laws::nothing_times_anything(Double { bits: MAD_BITS });
    crate::double::laws::nothing_times_anything(Double { bits: COVERAGE_BITS });
    reveal(Double::quotient);
    assert(0 * one() == 0) by (nonlinear_arith);
    crate::predict::inversion::lemma_zero_rounds_to_zero(centre);
}

/// A range is as wide as its runs are apart: 1.645 times 1.4826 times the
/// deviation that half of them keep to, as a fraction of the coefficient, and
/// never narrower than the confidence allows.
pub proof fn a_range_is_as_wide_as_its_runs_are_apart(
    fit: Fit,
    records: Seq<Record>,
    backend: Seq<char>,
    family: QuantFamily,
    prior: Double,
)
    requires
        fit.is_of(records),
        records.len() <= usize::MAX,
        runs_with(records, records.len(), backend, Some(family)).len() > 0,
        ordinary(fit.coefficient(backend, family, prior).eta, 100),
    ensures
        ({
            let c = fit.coefficient(backend, family, prior);
            let v = sample_values(runs_with(records, records.len(), backend, Some(family)));
            let least = Double { bits: c.confidence.min_spread_bits() };
            exists|d: Double| #[trigger]
                deviates_by(v, c.eta, d) && (ordinary(d, 300) ==> exists|w: Double| #[trigger]
                    is_wide(w, d, c.eta) && w.finite() && c.spread == (if w.units() < least.units() {
                        least
                    } else {
                        w
                    })) && (d.units() == 0 ==> c.spread == least)
        }),
{
    let c = fit.coefficient(backend, family, prior);
    let n = records.len();
    let own = runs_with(records, n, backend, Some(family));
    let v = sample_values(own);
    let d = median_of(deviations(v, c.eta));
    let least = Double { bits: c.confidence.min_spread_bits() };
    lemma_fitted(fit, records, backend, family, prior);
    lemma_own(records, n, backend, family, |d: Double| true);
    assert forall|i: int| 0 <= i < v.len() implies (#[trigger] v[i]).finite() && !v[i].negative() && v[i].units() <= one() by {
        assert(v[i] == own[i].value);
        an_efficiency_counts_up_to_the_whole(own[i].value);
    }
    lemma_deviations(v, c.eta);
    least_widths_are_in_percent(c.confidence);
    if ordinary(d, 300) {
        lemma_width(v, c.eta);
        order_is_that_of_the_numbers(spread_of(v, c.eta), least);
        assert(is_wide(spread_of(v, c.eta), d, c.eta));
    }
    if d.units() == 0 {
        lemma_no_width(v, c.eta);
        lemma_nothing();
        order_is_that_of_the_numbers(Double { bits: 0 }, least);
    }
    assert(deviates_by(v, c.eta, d));
}

} // verus!
