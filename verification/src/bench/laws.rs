//! What the benchmarks come to.

use vstd::prelude::*;
use crate::bench::{best_rate, best_sample, gbs_of, gops_of, ComputeResult, DiskResult, RamResult, ReadRun, ThreadRate};
use crate::double::error::{near, nearness_carries_over, nearness_scales, ordinary, quotients_are_near};
use crate::double::laws::small_counts_are_exact;
use crate::double::{Double, BILLION_BITS};
use crate::predict::inversion::{lemma_count_is_ordinary, lemma_positive};
use crate::predict::laws::order_is_that_of_the_numbers;
use crate::predict::speed::{lemma_nothing, one};
use crate::runtime::judged::lemma_zero_has_no_units;

verus! {

/// A rate that was measured: a number, and not below nothing.
pub open spec fn is_rate(d: Double) -> bool {
    d.finite() && !d.negative()
}

proof fn lemma_best(v: Seq<ThreadRate>, n: nat)
    requires
        n <= v.len(),
        forall|i: int| 0 <= i < v.len() ==> is_rate((#[trigger] v[i]).gbs),
    ensures
        ({
            let b = best_rate(v, n);
            &&& is_rate(b.gbs)
            &&& forall|i: int| 0 <= i < n ==> (#[trigger] v[i]).gbs.units() <= b.gbs.units()
            &&& b.gbs.units() > 0 ==> exists|k: int|
                0 <= k < n && #[trigger] v[k] == b && forall|i: int| 0 <= i < k ==> (#[trigger] v[i]).gbs.units() < b.gbs.units()
        }),
    decreases n,
{
    lemma_nothing();
    if n > 0 {
        lemma_best(v, (n - 1) as nat);
        let (a, c) = (best_rate(v, (n - 1) as nat), v[n - 1]);
        order_is_that_of_the_numbers(a.gbs, c.gbs);
        if a.gbs.below(c.gbs) {
            assert(v[n - 1] == best_rate(v, n));
        }
    }
}

/// The peak is the largest of the rates, and the thread count beside it is the
/// first that reached it.
pub proof fn the_peak_is_the_best_that_was_measured(r: RamResult, rates: Seq<ThreadRate>)
    requires
        r.sums_up(rates),
        forall|i: int| 0 <= i < rates.len() ==> is_rate((#[trigger] rates[i]).gbs),
    ensures
        r.by_threads@ == rates,
        forall|i: int| 0 <= i < rates.len() ==> (#[trigger] rates[i]).gbs.units() <= r.peak_gbs.units(),
        (exists|i: int| 0 <= i < rates.len() && (#[trigger] rates[i]).gbs.units() > 0) ==> exists|k: int|
            0 <= k < rates.len() && (#[trigger] rates[k]).gbs == r.peak_gbs && rates[k].threads == r.peak_threads && forall|i: int|
                0 <= i < k ==> (#[trigger] rates[i]).gbs.units() < r.peak_gbs.units(),
{
    lemma_best(rates, rates.len());
}

proof fn lemma_best_sample(v: Seq<Double>)
    requires
        forall|i: int| 0 <= i < v.len() ==> is_rate(#[trigger] v[i]),
    ensures
        is_rate(best_sample(v)),
        forall|i: int| 0 <= i < v.len() ==> (#[trigger] v[i]).units() <= best_sample(v).units(),
        best_sample(v) == (Double { bits: 0 }) || v.contains(best_sample(v)),
    decreases v.len(),
{
    lemma_nothing();
    if v.len() > 0 {
        let r = v.drop_last();
        assert forall|i: int| 0 <= i < r.len() implies is_rate(#[trigger] r[i]) by {
            assert(r[i] == v[i]);
        }
        lemma_best_sample(r);
        order_is_that_of_the_numbers(best_sample(r), v.last());
        assert forall|i: int| 0 <= i < v.len() implies (#[trigger] v[i]).units() <= best_sample(v).units() by {
            if i < r.len() {
                assert(r[i] == v[i]);
            }
        }
        if best_sample(v) == v.last() {
            assert(v[v.len() - 1] == best_sample(v));
        } else if r.contains(best_sample(r)) {
            let k = choose|k: int| 0 <= k < r.len() && r[k] == best_sample(r);
            assert(v[k] == best_sample(r));
        }
    }
}

/// What a machine computes is the best of its samples, kernel by kernel: none
/// was faster.
pub proof fn no_sample_is_better_than_the_best(c: ComputeResult, single: Seq<Double>, all: Seq<Double>, int8: Seq<Double>)
    requires
        c.comes_of(single, all, int8),
        forall|i: int| 0 <= i < single.len() ==> is_rate(#[trigger] single[i]),
        forall|i: int| 0 <= i < all.len() ==> is_rate(#[trigger] all[i]),
        forall|i: int| 0 <= i < int8.len() ==> is_rate(#[trigger] int8[i]),
    ensures
        forall|i: int| 0 <= i < single.len() ==> (#[trigger] single[i]).units() <= c.gflops_1t.units(),
        forall|i: int| 0 <= i < all.len() ==> (#[trigger] all[i]).units() <= c.gflops_nt.units(),
        forall|i: int| 0 <= i < int8.len() ==> (#[trigger] int8[i]).units() <= c.int8_gops_nt.units(),
        single.contains(c.gflops_1t) || c.gflops_1t.units() == 0,
        all.contains(c.gflops_nt) || c.gflops_nt.units() == 0,
        int8.contains(c.int8_gops_nt) || c.int8_gops_nt.units() == 0,
        ordinary(c.gflops_nt, 100) && ordinary(c.int8_gops_nt, 100) ==> near(
            c.int8_ratio.units() * c.gflops_nt.units(),
            c.int8_gops_nt.units() * one(),
            1,
        ),
        c.gflops_nt.units() == 0 ==> c.int8_ratio.units() == one(),
{
    lemma_nothing();
    lemma_best_sample(single);
    lemma_best_sample(all);
    lemma_best_sample(int8);
    crate::double::laws::lemma_one();
    if ordinary(c.gflops_nt, 100) && ordinary(c.int8_gops_nt, 100) {
        lemma_positive(c.gflops_nt, 100);
        quotients_are_near(c.int8_gops_nt, c.gflops_nt, 100, 100);
    }
    lemma_zero_has_no_units(c.gflops_nt);
}

/// So much in a time, in thousands of millions per second.
pub open spec fn is_per_second(rate: Double, amount: nat, seconds: Double) -> bool {
    near(rate.units() * seconds.units() * 1_000_000_000, amount * one() * one(), 5)
}

proof fn lemma_rate(amount: nat, seconds: Double)
    requires
        0 < amount <= 0x20_0000_0000_0000,
        ordinary(seconds, 100),
    ensures
        is_per_second(gbs_of(amount, seconds), amount, seconds),
        near(Double::count(amount).quotient(seconds).units() * seconds.units(), amount * one() * one(), 1),
{
    let t = one();
    let (n, g) = (Double::count(amount), Double { bits: BILLION_BITS });
    lemma_nothing();
    small_counts_are_exact(amount);
    lemma_count_is_ordinary(amount);
    quotients_are_near(n, seconds, 53, 100);
    let p = n.quotient(seconds);
    quotients_are_near(p, g, 153, 30);
    let r = p.quotient(g);
    let (x, y, s) = (r.units(), p.units(), seconds.units());
    assert(x * (1_000_000_000 * t) == (x * 1_000_000_000) * t) by (nonlinear_arith);
    crate::double::error::nearness_cancels(x * 1_000_000_000, y, t, 1);
    nearness_scales(x * 1_000_000_000, y, s, 1);
    nearness_carries_over((x * 1_000_000_000) * s, y * s, (amount * t) * t, 1, 1);
    assert((x * 1_000_000_000) * s == x * s * 1_000_000_000) by (nonlinear_arith);
    crate::double::error::nearness_widens(x * s * 1_000_000_000, amount * t * t, 3, 5);
}

/// A loop that read something in a time that was measured.
pub open spec fn is_timed(r: ReadRun) -> bool {
    &&& 0 < r.bytes <= 0x20_0000_0000_0000
    &&& 0 < r.ops <= 0x20_0000_0000_0000
    &&& ordinary(r.seconds, 100)
}

/// Each rate of a disk is what its own loop read, by the time that took: in
/// turn, anywhere, anywhere with many workers, and the small blocks by their
/// number.
pub proof fn each_disk_rate_is_that_of_its_own_loop(d: DiskResult, sequential: ReadRun, random: ReadRun, deep: ReadRun, small: ReadRun)
    requires
        d.comes_of(sequential, random, deep, small),
        is_timed(sequential) && is_timed(random) && is_timed(deep) && is_timed(small),
    ensures
        is_per_second(d.seq_qd1_gbs, sequential.bytes as nat, sequential.seconds),
        is_per_second(d.rand_128k_qd1_gbs, random.bytes as nat, random.seconds),
        is_per_second(d.rand_128k_qdn_gbs, deep.bytes as nat, deep.seconds),
        near(d.rand_4k_qdn_iops.units() * small.seconds.units(), small.ops as nat * one() * one(), 1),
{
    lemma_rate(sequential.bytes as nat, sequential.seconds);
    lemma_rate(random.bytes as nat, random.seconds);
    lemma_rate(deep.bytes as nat, deep.seconds);
    lemma_rate(small.ops as nat, small.seconds);
}

/// Operations are counted by the time they took, and a loop that did not come
/// through counts for nothing.
pub proof fn operations_are_counted_by_their_time(ops: nat, seconds: Double, finished: bool)
    requires
        0 < ops <= 0x20_0000_0000_0000,
        ordinary(seconds, 100),
    ensures
        finished ==> is_per_second(gops_of(ops, seconds, finished), ops, seconds),
        !finished ==> gops_of(ops, seconds, finished).units() == 0,
{
    lemma_nothing();
    lemma_positive(seconds, 100);
    lemma_rate(ops, seconds);
}

} // verus!
