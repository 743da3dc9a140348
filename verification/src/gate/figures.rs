//! The share in range and the worst predictions of a gate.

use vstd::prelude::*;
use crate::double::error::{anything_is_near_itself, near, nearness_cancels};
use crate::double::laws::{small_counts_are_exact, units_follow_magnitudes};
use crate::double::{lemma_pow2_grows, pow2, Double};
use crate::fit::median::{counted, half_are_no_more_and_half_no_less, lemma_counted_more, lemma_counted_same};
use crate::fit::Record;
use crate::gate::laws::{lemma_absolute, lemma_all_runs, lemma_ranges, lemma_scored_counted, lemma_scored_len, off_by, says_range, stated_plainly};
use crate::gate::{errors_of, is_miss, misses_in, runs_at, scored, worse, Gate, Miss, Tally};
use crate::order::{in_order, lemma_hits_all};
use crate::predict::inversion::lemma_count_is_ordinary;
use crate::predict::speed::{lemma_nothing, one};
use crate::runtime::judged::{lemma_nothing_in_percent, lemma_percent_of};

verus! {

/// The share in range is in percent of the runs that say whether they were.
/// One that does not say counts neither way.
pub proof fn the_share_in_range_is_of_those_that_say(g: Gate, records: Seq<Record>)
    requires
        g.is_of(records),
        records.len() <= 0x20_0000_0000_0000,
    ensures
        ({
            let inside = counted(records.len(), |k: int| says_range(records[k], Some(true)));
            let said = counted(records.len(), |k: int| says_range(records[k], None));
            &&& inside <= said
            &&& said == 0 ==> g.within_range_pct.units() == 0
            &&& said > 0 ==> near(g.within_range_pct.units() * said, inside * 100 * one(), 5)
            &&& !g.within_range_pct.negative()
        }),
{
    let t = choose|t: Tally| t.is_of(records) && #[trigger] g.judges(t);
    let n = records.len();
    lemma_ranges(records, n, Some(true));
    lemma_ranges(records, n, None);
    let inside = counted(n, |k: int| says_range(records[k], Some(true)));
    let said = counted(n, |k: int| says_range(records[k], None));
    assert(t.in_range == inside && t.ranged == said);
    lemma_counted_more(n, |k: int| says_range(records[k], Some(true)), |k: int| says_range(records[k], None));
    lemma_at_most_all(n, |k: int| says_range(records[k], None));
    lemma_nothing();
    if said > 0 {
        lemma_share(inside, said);
    }
}

proof fn lemma_at_most_all(n: nat, such: spec_fn(int) -> bool)
    ensures
        counted(n, such) <= n,
    decreases n,
{
    if n > 0 {
        lemma_at_most_all((n - 1) as nat, such);
    }
}

proof fn lemma_share(inside: nat, said: nat)
    requires
        0 < said <= 0x20_0000_0000_0000,
        inside <= said,
    ensures
        ({
            let p = Double::count(inside).quotient(Double::count(said)).in_percent();
            &&& near(p.units() * said, inside * 100 * one(), 5)
            &&& !p.negative()
        }),
{
    let t = one();
    let (x, a) = (Double::count(inside), Double::count(said));
    lemma_nothing();
    small_counts_are_exact(inside);
    small_counts_are_exact(said);
    lemma_count_is_ordinary(said);
    lemma_pow2_grows(974, 1021);
    lemma_pow2_grows(1127, 1174);
    let p = x.quotient(a).in_percent();
    if inside == 0 {
        lemma_nothing_in_percent(a);
        anything_is_near_itself(0, 5);
        assert(0 * said == 0 && 0 * 100 * t == 0) by (nonlinear_arith);
    } else {
        lemma_count_is_ordinary(inside);
        lemma_pow2_grows(916, 1021);
        lemma_pow2_grows(1127, 1179);
        anything_is_near_itself(inside * t, 1);
        lemma_percent_of(x, inside * t, a);
        assert(p.units() * (said * t) == (p.units() * said) * t) by (nonlinear_arith);
        assert((inside * t) * 100 * t == (inside * 100 * t) * t) by (nonlinear_arith);
        nearness_cancels(p.units() * said, inside * 100 * t, t, 5);
    }
}

/// The pooled figure is the median of every run, whichever machine made it: at
/// least half of the runs were off by no more, and at least half by no less.
pub proof fn the_pooled_figure_is_the_median_run(g: Gate, records: Seq<Record>)
    requires
        g.is_of(records),
        0 < records.len() <= usize::MAX,
        stated_plainly(records),
        exists|k: int| 0 <= k < records.len() && (#[trigger] records[k]).error_pct is Some,
    ensures
        ({
            let n = records.len();
            let x = g.pooled_median_pct.units();
            &&& 2 * counted(n, |k: int| records[k].error_pct is Some && off_by(records[k]) <= x) >= g.runs
            &&& 2 * counted(n, |k: int| records[k].error_pct is Some && off_by(records[k]) >= x) >= g.runs
            &&& g.runs > 0
        }),
{
    let t = choose|t: Tally| t.is_of(records) && #[trigger] g.judges(t);
    let n = records.len();
    let at = scored(records, n);
    let v = errors_of(runs_at(records, at));
    let x = g.pooled_median_pct.units();
    lemma_scored_hold(records, n);
    lemma_scored_len(records, n);
    let k = choose|k: int| 0 <= k < n && (#[trigger] records[k]).error_pct is Some;
    assert(at.contains(k));
    assert(v.len() == at.len() > 0);
    assert forall|i: int| 0 <= i < v.len() implies (#[trigger] v[i]).finite() && !v[i].negative() && v[i].units() <= pow2(1900) by {
        let r = records[at[i]];
        assert(v[i] == r.error_pct->0.absolute());
        lemma_absolute(r.error_pct->0);
        assert(off_by(r) <= pow2(1900));
    }
    half_are_no_more_and_half_no_less(v);
    let (below, above) = (|d: Double| d.units() <= x, |d: Double| d.units() >= x);
    lemma_all_runs(records, n, below);
    lemma_all_runs(records, n, above);
    lemma_counted_same(v.len(), |i: int| v[i].units() <= x, |i: int| below(v[i]));
    lemma_counted_same(v.len(), |i: int| v[i].units() >= x, |i: int| above(v[i]));
    let (p, q) = (
        |k: int| records[k].error_pct is Some && below(records[k].error_pct->0.absolute()),
        |k: int| records[k].error_pct is Some && off_by(records[k]) <= x,
    );
    assert forall|k: int| 0 <= k < n implies (#[trigger] p(k)) == q(k) by {
        if records[k].error_pct is Some {
            lemma_absolute(records[k].error_pct->0);
        }
    }
    lemma_counted_same(n, p, q);
    let (p, q) = (
        |k: int| records[k].error_pct is Some && above(records[k].error_pct->0.absolute()),
        |k: int| records[k].error_pct is Some && off_by(records[k]) >= x,
    );
    assert forall|k: int| 0 <= k < n implies (#[trigger] p(k)) == q(k) by {
        if records[k].error_pct is Some {
            lemma_absolute(records[k].error_pct->0);
        }
    }
    lemma_counted_same(n, p, q);
}

/// The miss is what the record says.
pub open spec fn is_told_by(m: Miss, r: Record) -> bool {
    &&& m.model@ == r.model@
    &&& m.quant@ == r.quant@
    &&& r.error_pct matches Some(e) && e == m.error_pct
}

pub open spec fn is_recorded(m: Miss, records: Seq<Record>) -> bool {
    exists|k: int| 0 <= k < records.len() && #[trigger] is_told_by(m, records[k])
}

pub open spec fn is_kept(r: Record, w: Seq<Miss>) -> bool {
    exists|i: int| 0 <= i < w.len() && #[trigger] is_told_by(w[i], r)
}

proof fn lemma_scored_hold(records: Seq<Record>, n: nat)
    requires
        n <= records.len(),
    ensures
        forall|a: int| 0 <= a < scored(records, n).len() ==> 0 <= #[trigger] scored(records, n)[a] < n && records[scored(records, n)[a]].error_pct is Some,
        forall|k: int| 0 <= k < n && (#[trigger] records[k]).error_pct is Some ==> scored(records, n).contains(k),
    decreases n,
{
    if n > 0 {
        let rest = scored(records, (n - 1) as nat);
        let all = scored(records, n);
        lemma_scored_hold(records, (n - 1) as nat);
        assert forall|k: int| 0 <= k < n && (#[trigger] records[k]).error_pct is Some implies all.contains(k) by {
            if k < n - 1 {
                let a = choose|a: int| 0 <= a < rest.len() && rest[a] == k;
                assert(all[a] == k);
            } else {
                assert(all[rest.len() as int] == k);
            }
        }
    }
}

/// The five worst predictions are kept, or all where there are fewer, the
/// largest error first and either way. None that is left out was off by more.
pub proof fn the_worst_predictions_are_kept(g: Gate, records: Seq<Record>)
    requires
        g.is_of(records),
        records.len() <= usize::MAX,
        stated_plainly(records),
    ensures
        ({
            let w = g.worst@;
            let runs = counted(records.len(), |k: int| records[k].error_pct is Some);
            &&& w.len() == (if runs <= 5 { runs } else { 5 })
            &&& forall|i: int| 0 <= i < w.len() ==> is_recorded(#[trigger] w[i], records)
            &&& forall|i: int, j: int| 0 <= i < j < w.len() ==> (#[trigger] w[i]).error_pct.units() >= (#[trigger] w[j]).error_pct.units()
            &&& forall|k: int|
                0 <= k < records.len() && (#[trigger] records[k]).error_pct is Some ==> is_kept(records[k], w) || (w.len() == 5 && forall|i: int|
                    0 <= i < 5 ==> (#[trigger] w[i]).error_pct.units() >= off_by(records[k]))
        }),
{
    let t = choose|t: Tally| t.is_of(records) && #[trigger] g.judges(t);
    let n = records.len();
    let at = scored(records, n);
    let w = g.worst@;
    lemma_scored_hold(records, n);
    lemma_scored_counted(records, n);
    lemma_scored_len(records, n);
    let o = choose|o: Seq<usize>| in_order(o, at.len(), worse(records, at)) && #[trigger] misses_in(t.worst@, records, at, o);
    let f = worse(records, at);
    assert forall|i: int| 0 <= i < w.len() implies is_recorded(#[trigger] w[i], records) by {
        assert(is_miss(w[i], records[at[o[i] as int]]));
        assert(o[i] < at.len());
        assert(is_told_by(w[i], records[at[o[i] as int]]));
    }
    assert forall|i: int, j: int| 0 <= i < j < w.len() implies (#[trigger] w[i]).error_pct.units() >= (#[trigger] w[j]).error_pct.units() by {
        lemma_no_better(w, records, at, o, i, j);
    }
    assert forall|k: int| 0 <= k < n && (#[trigger] records[k]).error_pct is Some implies is_kept(records[k], w) || (w.len() == 5 && forall|i: int|
        0 <= i < 5 ==> (#[trigger] w[i]).error_pct.units() >= off_by(records[k])) by {
        assert(at.contains(k));
        let a = choose|a: int| 0 <= a < at.len() && at[a] == k;
        lemma_hits_all(o, at.len(), f);
        assert(o.contains(a as usize));
        let b = choose|b: int| 0 <= b < o.len() && o[b] == a;
        if b < w.len() {
            assert(is_miss(w[b], records[at[o[b] as int]]));
            assert(is_told_by(w[b], records[k]));
        } else {
            assert forall|i: int| 0 <= i < 5 implies (#[trigger] w[i]).error_pct.units() >= off_by(records[k]) by {
                lemma_no_better(w, records, at, o, i, b);
            }
        }
    }
}

/// A prediction that is kept was off by no less than one further down.
proof fn lemma_no_better(w: Seq<Miss>, records: Seq<Record>, at: Seq<int>, o: Seq<usize>, i: int, j: int)
    requires
        in_order(o, at.len(), worse(records, at)),
        misses_in(w, records, at, o),
        forall|a: int| 0 <= a < at.len() ==> 0 <= #[trigger] at[a] < records.len() && records[at[a]].error_pct is Some,
        stated_plainly(records),
        0 <= i < j < at.len(),
        i < w.len(),
    ensures
        w[i].error_pct.units() >= off_by(records[at[o[j] as int]]),
        j < w.len() ==> w[j].error_pct.units() == off_by(records[at[o[j] as int]]),
{
    let f = worse(records, at);
    assert(f(o[i] as int, o[j] as int));
    assert(o[i] < at.len() && o[j] < at.len());
    assert(is_miss(w[i], records[at[o[i] as int]]));
    if j < w.len() {
        assert(is_miss(w[j], records[at[o[j] as int]]));
    }
    units_follow_magnitudes(records[at[o[j] as int]].error_pct->0, records[at[o[i] as int]].error_pct->0);
}

} // verus!
