//! What a gate says of the records.

use vstd::prelude::*;
use crate::double::{pow2, Double};
use crate::fit::median::{
    a_median_ignores_the_order, before, counted, counting_ignores_the_order, half_are_no_more_and_half_no_less, lemma_counted,
    lemma_counted_same, reorders, up_to,
};
use crate::fit::{median_of, Record};
use crate::gate::{
    any_bare_metal, bare_metal_count, errors_of, is_machine, is_result, listed_before, machine_keys, machines_in, medians, range_count,
    run_of, runs_at, scored, Gate, MachineResult, Run, Tally, MAX_MEDIAN_ERROR_BITS,
};
use crate::group::{grouped, items_of, Group};
use crate::order::{in_order, lemma_hits_all, text_below, text_order_is_strict, text_order_is_total};
use crate::predict::laws::{lemma_exactly, order_is_that_of_the_numbers};
use crate::predict::speed::{lemma_powers_of_two, one};

verus! {

/// The record is a run on machine `hw` that states how far off its prediction
/// was.
pub open spec fn counts_for(r: Record, hw: Seq<char>) -> bool {
    r.hw@ == hw && r.error_pct is Some
}

/// How far off, in units of the smallest double and either way.
pub open spec fn off_by(r: Record) -> nat {
    r.error_pct->0.units()
}

/// Every error that is stated is a number of ordinary size.
pub open spec fn stated_plainly(records: Seq<Record>) -> bool {
    forall|k: int|
        0 <= k < records.len() && (#[trigger] records[k]).error_pct is Some ==> records[k].error_pct->0.finite() && off_by(records[k])
            <= pow2(1900)
}

/// The runs of one machine, in the order they came in.
pub open spec fn runs_of(records: Seq<Record>, n: nat, hw: Seq<char>) -> Seq<Run> {
    let at = scored(records, n);
    items_of(machine_keys(records, at), runs_at(records, at), hw)
}

/// What is counted of a machine's runs is counted of its records.
proof fn lemma_runs_of(records: Seq<Record>, n: nat, hw: Seq<char>, f: spec_fn(Run) -> bool)
    requires
        n <= records.len(),
    ensures
        counted(runs_of(records, n, hw).len(), |i: int| f(runs_of(records, n, hw)[i])) == counted(
            n,
            |k: int| counts_for(records[k], hw) && f(run_of(records[k])),
        ),
        runs_of(records, n, hw).len() == counted(n, |k: int| counts_for(records[k], hw)),
        forall|i: int|
            0 <= i < runs_of(records, n, hw).len() ==> exists|k: int|
                #![trigger records[k]]
                0 <= k < n && counts_for(records[k], hw) && run_of(records[k]) == #[trigger] runs_of(records, n, hw)[i],
    decreases n,
{
    if n > 0 {
        let m = (n - 1) as nat;
        lemma_runs_of(records, m, hw, f);
        let r = records[n - 1];
        let (v, w) = (runs_of(records, m, hw), runs_of(records, n, hw));
        let (a, b) = (scored(records, m), scored(records, n));
        let both = |k: int| counts_for(records[k], hw) && f(run_of(records[k]));
        if r.error_pct is Some {
            assert(b == a.push(n - 1));
            assert(machine_keys(records, b).drop_last() =~= machine_keys(records, a));
            assert(runs_at(records, b).drop_last() =~= runs_at(records, a));
            assert(machine_keys(records, b).last() == r.hw@);
            assert(runs_at(records, b).last() == run_of(r));
            if r.hw@ == hw {
                assert(w == v.push(run_of(r)));
                let (g, h) = (|i: int| f(w[i]), |i: int| f(v[i]));
                assert forall|i: int| 0 <= i < v.len() implies (#[trigger] g(i)) == h(i) by {
                    assert(w[i] == v[i]);
                }
                lemma_counted_same(v.len(), g, h);
                assert forall|i: int| 0 <= i < w.len() implies exists|k: int|
                    #![trigger records[k]]
                    0 <= k < n && counts_for(records[k], hw) && run_of(records[k]) == #[trigger] w[i] by {
                    if i < v.len() {
                        assert(w[i] == v[i]);
                        let k = choose|k: int|
                            #![trigger records[k]]
                            0 <= k < m && counts_for(records[k], hw) && run_of(records[k]) == v[i];
                        assert(counts_for(records[k], hw) && run_of(records[k]) == w[i]);
                    } else {
                        assert(counts_for(records[n - 1], hw) && run_of(records[n - 1]) == w[i]);
                    }
                }
            } else {
                assert(w == v);
            }
        } else {
            assert(b == a);
        }
    }
}

// ------------------------------------------------------------------- the listing

/// A machine of a gate, by its records.
pub open spec fn is_listed(m: MachineResult, records: Seq<Record>) -> bool {
    let runs = runs_of(records, records.len(), m.hw@);
    &&& m.runs == runs.len() > 0
    &&& m.median_abs_error_pct == median_of(errors_of(runs))
    &&& m.bare_metal == any_bare_metal(runs)
}

/// One machine comes before another: it has more runs, or as many and the
/// earlier name.
pub open spec fn leads(a: MachineResult, b: MachineResult) -> bool {
    a.runs > b.runs || (a.runs == b.runs && text_below(a.hw@, b.hw@))
}

/// The machines are those of the records, each once and in order.
pub open spec fn lists(m: Seq<MachineResult>, records: Seq<Record>) -> bool {
    &&& forall|i: int| 0 <= i < m.len() ==> is_listed(#[trigger] m[i], records)
    &&& forall|i: int, j: int| 0 <= i < j < m.len() ==> leads(#[trigger] m[i], #[trigger] m[j])
    &&& forall|hw: Seq<char>|
        (#[trigger] runs_of(records, records.len(), hw)).len() > 0 ==> exists|i: int| 0 <= i < m.len() && (#[trigger] m[i]).hw@ == hw
}

proof fn lemma_lists(g: Gate, t: Tally, records: Seq<Record>)
    requires
        t.is_of(records),
        g.judges(t),
        records.len() <= usize::MAX,
    ensures
        lists(g.machines@, records),
{
    let at = scored(records, records.len());
    let (keys, runs) = (machine_keys(records, at), runs_at(records, at));
    let (v, o) = choose|v: Seq<Group<Run>>, o: Seq<usize>|
        grouped(v, keys, runs) && in_order(o, v.len(), listed_before(v)) && #[trigger] machines_in(t.machines@, v, o);
    let m = g.machines@;
    let f = listed_before(v);
    assert forall|i: int| 0 <= i < m.len() implies is_listed(#[trigger] m[i], records) && m[i].hw@ == v[o[i] as int].key@ && m[i].runs
        == v[o[i] as int].items@.len() by {
        assert(is_result(m[i], t.machines@[i]));
        assert(is_machine(t.machines@[i], v[o[i] as int]));
        assert(o[i] < v.len());
        assert(v[o[i] as int].items@ == items_of(keys, runs, v[o[i] as int].key@));
        assert(errors_of(v[o[i] as int].items@).len() == v[o[i] as int].items@.len());
    }
    assert forall|i: int, j: int| 0 <= i < j < m.len() implies leads(#[trigger] m[i], #[trigger] m[j]) by {
        assert(f(o[i] as int, o[j] as int));
        if o[i] != o[j] {
            assert(v[o[i] as int].key@ != v[o[j] as int].key@);
        } else {
            text_order_is_strict(v[o[i] as int].key@);
        }
    }
    assert forall|i: int| 0 <= i < v.len() implies !(#[trigger] f(i, i)) by {
        text_order_is_strict(v[i].key@);
    }
    lemma_hits_all(o, v.len(), f);
    lemma_scored_len(records, records.len());
    assert(keys.len() == at.len() && runs.len() == at.len());
    assert forall|hw: Seq<char>| (#[trigger] runs_of(records, records.len(), hw)).len() > 0 implies exists|i: int|
        0 <= i < m.len() && (#[trigger] m[i]).hw@ == hw by {
        crate::fit::laws::lemma_group_of(v, keys, runs, hw);
        let h = choose|h: int| 0 <= h < v.len() && (#[trigger] v[h]).key@ == hw;
        lemma_groups_fit(v, keys, runs, h);
        assert(o.contains(h as usize));
        let i = choose|i: int| 0 <= i < o.len() && o[i] == h as usize;
        assert(m[i].hw@ == v[o[i] as int].key@);
    }
}

pub proof fn lemma_scored_len(records: Seq<Record>, n: nat)
    requires
        n <= records.len(),
    ensures
        scored(records, n).len() <= n,
    decreases n,
{
    if n > 0 {
        lemma_scored_len(records, (n - 1) as nat);
    }
}

/// There are no more groups than values.
proof fn lemma_groups_fit(v: Seq<Group<Run>>, keys: Seq<Seq<char>>, runs: Seq<Run>, h: int)
    requires
        grouped(v, keys, runs),
        keys.len() == runs.len() <= usize::MAX,
        0 <= h < v.len(),
    ensures
        h <= usize::MAX,
{
    if h > usize::MAX {
        lemma_as_many_keys(v, keys, runs, v.len() as int);
    }
}

/// Different groups have different keys among those of the values.
proof fn lemma_as_many_keys(v: Seq<Group<Run>>, keys: Seq<Seq<char>>, runs: Seq<Run>, n: int)
    requires
        grouped(v, keys, runs),
        keys.len() == runs.len(),
        0 <= n <= v.len(),
    ensures
        n <= keys.len(),
{
    let s = keys.to_set();
    vstd::seq_lib::seq_to_set_is_finite(keys);
    keys.lemma_cardinality_of_set();
    let names = Seq::new(n as nat, |i: int| v[i].key@);
    assert(names.no_duplicates());
    names.unique_seq_to_set();
    assert(names.to_set().subset_of(s)) by {
        assert forall|k: Seq<char>| names.to_set().contains(k) implies s.contains(k) by {
            let i = choose|i: int| 0 <= i < names.len() && names[i] == k;
            assert(v[i].items@ == items_of(keys, runs, k));
            crate::fit::laws::lemma_items_have_a_key(keys, runs, k);
            let j = choose|j: int| 0 <= j < keys.len() && #[trigger] keys[j] == k;
            assert(keys.contains(k));
        }
    }
    vstd::set_lib::lemma_len_subset(names.to_set(), s);
}

// ------------------------------------------------------------------- the figures

/// A machine's figure is the median of all its runs: at least half of its
/// records were off by no more, and at least half by no less. It is bare metal
/// where one of them says so.
pub proof fn a_machine_is_judged_by_the_median_of_its_runs(g: Gate, records: Seq<Record>, i: int)
    requires
        g.is_of(records),
        0 <= i < g.machines@.len(),
        records.len() <= usize::MAX,
        stated_plainly(records),
    ensures
        ({
            let m = g.machines@[i];
            let figure = m.median_abs_error_pct;
            let n = records.len();
            &&& m.runs == counted(n, |k: int| counts_for(records[k], m.hw@)) > 0
            &&& 2 * counted(n, |k: int| counts_for(records[k], m.hw@) && off_by(records[k]) <= figure.units()) >= m.runs
            &&& 2 * counted(n, |k: int| counts_for(records[k], m.hw@) && off_by(records[k]) >= figure.units()) >= m.runs
            &&& figure.finite() && !figure.negative() && figure.units() <= pow2(1900)
            &&& m.bare_metal <==> exists|k: int|
                0 <= k < n && counts_for(#[trigger] records[k], m.hw@) && crate::fit::opt_text(records[k].virt) == Some("none"@)
        }),
{
    let t = choose|t: Tally| t.is_of(records) && #[trigger] g.judges(t);
    lemma_lists(g, t, records);
    let m = g.machines@[i];
    let hw = m.hw@;
    let n = records.len();
    let runs = runs_of(records, n, hw);
    let v = errors_of(runs);
    assert(is_listed(m, records));
    lemma_runs_of(records, n, hw, |r: Run| true);
    assert forall|j: int| 0 <= j < v.len() implies (#[trigger] v[j]).finite() && !v[j].negative() && v[j].units() <= pow2(1900) by {
        let k = choose|k: int| #![trigger records[k]] 0 <= k < n && counts_for(records[k], hw) && run_of(records[k]) == runs[j];
        lemma_absolute(records[k].error_pct->0);
    }
    lemma_counted(n, |k: int| counts_for(records[k], hw));
    half_are_no_more_and_half_no_less(v);
    let c = m.median_abs_error_pct.units();
    let (le, ge) = (|r: Run| r.error.units() <= c, |r: Run| r.error.units() >= c);
    lemma_runs_of(records, n, hw, le);
    lemma_runs_of(records, n, hw, ge);
    lemma_counted_same(v.len(), |j: int| v[j].units() <= c, |j: int| le(runs[j]));
    lemma_counted_same(v.len(), |j: int| v[j].units() >= c, |j: int| ge(runs[j]));
    let (la, lb) = (
        |k: int| counts_for(records[k], hw) && le(run_of(records[k])),
        |k: int| counts_for(records[k], hw) && off_by(records[k]) <= c,
    );
    let (ga, gb) = (
        |k: int| counts_for(records[k], hw) && ge(run_of(records[k])),
        |k: int| counts_for(records[k], hw) && off_by(records[k]) >= c,
    );
    assert forall|k: int| 0 <= k < n implies (#[trigger] la(k)) == lb(k) && ga(k) == gb(k) by {
        if counts_for(records[k], hw) {
            lemma_absolute(records[k].error_pct->0);
        }
    }
    lemma_counted_same(n, la, lb);
    assert forall|k: int| 0 <= k < n implies (#[trigger] ga(k)) == gb(k) by {
        assert(la(k) == lb(k));
    }
    lemma_counted_same(n, ga, gb);
    lemma_bare(records, n, hw);
}

pub proof fn lemma_absolute(e: Double)
    ensures
        e.absolute().units() == e.units(),
        e.absolute().finite() == e.finite(),
        !e.absolute().negative(),
        e.absolute().magnitude() == e.magnitude(),
{
}

/// A machine is bare metal where one of its records says so.
proof fn lemma_bare(records: Seq<Record>, n: nat, hw: Seq<char>)
    requires
        n <= records.len(),
    ensures
        any_bare_metal(runs_of(records, n, hw)) <==> exists|k: int|
            0 <= k < n && counts_for(#[trigger] records[k], hw) && crate::fit::opt_text(records[k].virt) == Some("none"@),
{
    let runs = runs_of(records, n, hw);
    let f = |r: Run| r.bare_metal;
    lemma_runs_of(records, n, hw, f);
    let a = |i: int| f(runs[i]);
    let b = |k: int| counts_for(records[k], hw) && f(run_of(records[k]));
    lemma_some(runs.len(), a);
    lemma_some(n, b);
    if any_bare_metal(runs) {
        let i = choose|i: int| 0 <= i < runs.len() && (#[trigger] runs[i]).bare_metal;
        assert(a(i));
        let k = choose|k: int| 0 <= k < n && #[trigger] b(k);
        assert(counts_for(records[k], hw));
    }
    if exists|k: int| 0 <= k < n && counts_for(#[trigger] records[k], hw) && crate::fit::opt_text(records[k].virt) == Some("none"@) {
        let k = choose|k: int|
            0 <= k < n && counts_for(#[trigger] records[k], hw) && crate::fit::opt_text(records[k].virt) == Some("none"@);
        assert(b(k));
        let i = choose|i: int| 0 <= i < runs.len() && #[trigger] a(i);
        assert(runs[i].bare_metal);
    }
}

/// Something is counted exactly where there is something.
proof fn lemma_some(n: nat, such: spec_fn(int) -> bool)
    ensures
        counted(n, such) > 0 <==> exists|i: int| 0 <= i < n && #[trigger] such(i),
    decreases n,
{
    if n > 0 {
        lemma_some((n - 1) as nat, such);
        if such(n - 1) {
            assert(0 <= n - 1 < n);
        } else if exists|i: int| 0 <= i < n && #[trigger] such(i) {
            let i = choose|i: int| 0 <= i < n && #[trigger] such(i);
            assert(i < n - 1);
        }
    }
}

/// Every machine with a run that counts is listed, once, those with more runs
/// first.
pub proof fn every_machine_is_listed_once(g: Gate, records: Seq<Record>)
    requires
        g.is_of(records),
        records.len() <= usize::MAX,
    ensures
        forall|k: int|
            0 <= k < records.len() && (#[trigger] records[k]).error_pct is Some ==> exists|i: int|
                0 <= i < g.machines@.len() && (#[trigger] g.machines@[i]).hw@ == records[k].hw@,
        forall|i: int, j: int|
            0 <= i < j < g.machines@.len() ==> (#[trigger] g.machines@[i]).runs >= (#[trigger] g.machines@[j]).runs
                && g.machines@[i].hw@ != g.machines@[j].hw@,
        g.runs == counted(records.len(), |k: int| records[k].error_pct is Some),
        g.runs + g.skipped == records.len(),
{
    let t = choose|t: Tally| t.is_of(records) && #[trigger] g.judges(t);
    lemma_lists(g, t, records);
    let m = g.machines@;
    let n = records.len();
    assert forall|k: int| 0 <= k < n && (#[trigger] records[k]).error_pct is Some implies exists|i: int|
        0 <= i < m.len() && (#[trigger] m[i]).hw@ == records[k].hw@ by {
        let hw = records[k].hw@;
        lemma_runs_of(records, n, hw, |r: Run| true);
        let b = |k: int| counts_for(records[k], hw);
        lemma_some(n, b);
        assert(b(k));
        assert(runs_of(records, n, hw).len() > 0);
    }
    assert forall|i: int, j: int| 0 <= i < j < m.len() implies (#[trigger] m[i]).runs >= (#[trigger] m[j]).runs && m[i].hw@ != m[j].hw@ by {
        assert(leads(m[i], m[j]));
        text_order_is_strict(m[i].hw@);
        assert(is_listed(m[i], records) && is_listed(m[j], records));
    }
    lemma_scored_counted(records, n);
}

pub proof fn lemma_scored_counted(records: Seq<Record>, n: nat)
    requires
        n <= records.len(),
    ensures
        scored(records, n).len() == counted(n, |k: int| records[k].error_pct is Some),
    decreases n,
{
    if n > 0 {
        lemma_scored_counted(records, (n - 1) as nat);
    }
}

/// What is judged is the median of the machines' figures: at least half of the
/// machines are at it or below, and at least half at it or above. The bar is
/// met where there are five machines, two of them bare metal, and that median
/// is under a quarter.
pub proof fn a_gate_judges_the_median_machine(g: Gate, records: Seq<Record>)
    requires
        g.is_of(records),
        records.len() <= usize::MAX,
        stated_plainly(records),
    ensures
        ({
            let m = g.machines@;
            let judged = g.median_pct;
            &&& m.len() > 0 ==> 2 * counted(m.len(), |i: int| m[i].median_abs_error_pct.units() <= judged.units()) >= m.len()
            &&& m.len() > 0 ==> 2 * counted(m.len(), |i: int| m[i].median_abs_error_pct.units() >= judged.units()) >= m.len()
            &&& g.passed <==> m.len() >= 5 && counted(m.len(), |i: int| m[i].bare_metal) >= 2 && judged.units() < 25 * one()
        }),
{
    let t = choose|t: Tally| t.is_of(records) && #[trigger] g.judges(t);
    lemma_lists(g, t, records);
    let m = g.machines@;
    let v = medians(m);
    let judged = g.median_pct;
    assert forall|i: int| 0 <= i < v.len() implies (#[trigger] v[i]).finite() && !v[i].negative() && v[i].units() <= pow2(1900) by {
        a_machine_is_judged_by_the_median_of_its_runs(g, records, i);
    }
    lemma_bare_counted(m, m.len());
    assert(m.subrange(0, m.len() as int) =~= m);
    assert(m.len() == g.machines.len());
    if m.len() > 0 {
        half_are_no_more_and_half_no_less(v);
        lemma_counted_same(m.len(), |i: int| v[i].units() <= judged.units(), |i: int| m[i].median_abs_error_pct.units() <= judged.units());
        lemma_counted_same(m.len(), |i: int| v[i].units() >= judged.units(), |i: int| m[i].median_abs_error_pct.units() >= judged.units());
        let bar = Double { bits: MAX_MEDIAN_ERROR_BITS };
        lemma_powers_of_two();
        assert(bar.significand() == 0x19_0000_0000_0000 && bar.exponent() == -48);
        lemma_exactly(bar, 0x19_0000_0000_0000, 48, 25);
        order_is_that_of_the_numbers(judged, bar);
    }
}

proof fn lemma_bare_counted(m: Seq<MachineResult>, n: nat)
    requires
        n <= m.len(),
    ensures
        bare_metal_count(m.subrange(0, n as int)) == counted(n, |i: int| m[i].bare_metal),
    decreases n,
{
    if n > 0 {
        lemma_bare_counted(m, (n - 1) as nat);
        assert(m.subrange(0, n as int).drop_last() =~= m.subrange(0, n - 1));
    }
}

// --------------------------------------------------------------------- the order

/// What is counted of records in one order is counted of them in another.
proof fn lemma_reordered(a: Seq<Record>, b: Seq<Record>, p: Seq<int>, f: spec_fn(Record) -> bool)
    requires
        reorders(p, a.len()),
        b.len() == a.len(),
        forall|i: int| 0 <= i < b.len() ==> #[trigger] b[i] == a[p[i]],
    ensures
        counted(a.len(), |k: int| f(a[k])) == counted(b.len(), |k: int| f(b[k])),
{
    let (x, y) = (|k: int| f(a[k]), |k: int| f(b[k]));
    assert forall|i: int| 0 <= i < a.len() implies (#[trigger] y(i)) == x(p[i]) by {
        assert(b[i] == a[p[i]]);
    }
    counting_ignores_the_order(p, a.len(), x, y);
}

/// A machine has the same runs and figure in any order of the records.
proof fn lemma_same_machine(a: Seq<Record>, b: Seq<Record>, p: Seq<int>, hw: Seq<char>)
    requires
        reorders(p, a.len()),
        b.len() == a.len() <= usize::MAX,
        forall|i: int| 0 <= i < b.len() ==> #[trigger] b[i] == a[p[i]],
    ensures
        runs_of(a, a.len(), hw).len() == runs_of(b, b.len(), hw).len(),
        median_of(errors_of(runs_of(a, a.len(), hw))) == median_of(errors_of(runs_of(b, b.len(), hw))),
        any_bare_metal(runs_of(a, a.len(), hw)) == any_bare_metal(runs_of(b, b.len(), hw)),
{
    let n = a.len();
    let (v, w) = (runs_of(a, n, hw), runs_of(b, n, hw));
    let (x, y) = (errors_of(v), errors_of(w));
    lemma_runs_of(a, n, hw, |r: Run| true);
    lemma_runs_of(b, n, hw, |r: Run| true);
    let mine = |r: Record| counts_for(r, hw);
    lemma_reordered(a, b, p, mine);
    lemma_counted_same(n, |k: int| mine(a[k]), |k: int| counts_for(a[k], hw));
    lemma_counted_same(n, |k: int| mine(b[k]), |k: int| counts_for(b[k], hw));
    lemma_counted(n, |k: int| counts_for(a[k], hw));
    assert forall|r: int| #[trigger] before(x, r) == before(y, r) by {
        let f = |u: Run| u.error.rank() < r;
        lemma_same_count(a, b, p, hw, f);
        lemma_counted_same(x.len(), |i: int| x[i].rank() < r, |i: int| f(v[i]));
        lemma_counted_same(y.len(), |i: int| y[i].rank() < r, |i: int| f(w[i]));
    }
    assert forall|r: int| #[trigger] up_to(x, r) == up_to(y, r) by {
        let f = |u: Run| u.error.rank() <= r;
        lemma_same_count(a, b, p, hw, f);
        lemma_counted_same(x.len(), |i: int| x[i].rank() <= r, |i: int| f(v[i]));
        lemma_counted_same(y.len(), |i: int| y[i].rank() <= r, |i: int| f(w[i]));
    }
    assert forall|i: int| 0 <= i < x.len() implies !(#[trigger] x[i]).negative() by {
        let k = choose|k: int| #![trigger a[k]] 0 <= k < n && counts_for(a[k], hw) && run_of(a[k]) == v[i];
        lemma_absolute(a[k].error_pct->0);
    }
    assert forall|i: int| 0 <= i < y.len() implies !(#[trigger] y[i]).negative() by {
        let k = choose|k: int| #![trigger b[k]] 0 <= k < n && counts_for(b[k], hw) && run_of(b[k]) == w[i];
        lemma_absolute(b[k].error_pct->0);
    }
    a_median_ignores_the_order(x, y);
    let f = |u: Run| u.bare_metal;
    lemma_same_count(a, b, p, hw, f);
    let (g, h) = (|i: int| f(v[i]), |i: int| f(w[i]));
    lemma_some(v.len(), g);
    lemma_some(w.len(), h);
    assert(any_bare_metal(v) <==> exists|i: int| 0 <= i < v.len() && #[trigger] g(i)) by {
        if any_bare_metal(v) {
            let i = choose|i: int| 0 <= i < v.len() && (#[trigger] v[i]).bare_metal;
            assert(g(i));
        }
        if exists|i: int| 0 <= i < v.len() && #[trigger] g(i) {
            let i = choose|i: int| 0 <= i < v.len() && #[trigger] g(i);
            assert(v[i].bare_metal);
        }
    }
    assert(any_bare_metal(w) <==> exists|i: int| 0 <= i < w.len() && #[trigger] h(i)) by {
        if any_bare_metal(w) {
            let i = choose|i: int| 0 <= i < w.len() && (#[trigger] w[i]).bare_metal;
            assert(h(i));
        }
        if exists|i: int| 0 <= i < w.len() && #[trigger] h(i) {
            let i = choose|i: int| 0 <= i < w.len() && #[trigger] h(i);
            assert(w[i].bare_metal);
        }
    }
}

proof fn lemma_same_count(a: Seq<Record>, b: Seq<Record>, p: Seq<int>, hw: Seq<char>, f: spec_fn(Run) -> bool)
    requires
        reorders(p, a.len()),
        b.len() == a.len(),
        forall|i: int| 0 <= i < b.len() ==> #[trigger] b[i] == a[p[i]],
    ensures
        counted(runs_of(a, a.len(), hw).len(), |i: int| f(runs_of(a, a.len(), hw)[i])) == counted(
            runs_of(b, b.len(), hw).len(),
            |i: int| f(runs_of(b, b.len(), hw)[i]),
        ),
{
    let n = a.len();
    lemma_runs_of(a, n, hw, f);
    lemma_runs_of(b, n, hw, f);
    let g = |r: Record| counts_for(r, hw) && f(run_of(r));
    lemma_reordered(a, b, p, g);
    lemma_counted_same(n, |k: int| g(a[k]), |k: int| counts_for(a[k], hw) && f(run_of(a[k])));
    lemma_counted_same(n, |k: int| g(b[k]), |k: int| counts_for(b[k], hw) && f(run_of(b[k])));
}

/// Two machines that say the same.
pub open spec fn same_result(a: MachineResult, b: MachineResult) -> bool {
    a.hw@ == b.hw@ && a.runs == b.runs && a.median_abs_error_pct == b.median_abs_error_pct && a.bare_metal == b.bare_metal
}

/// The first `k` machines of both lists have the same names.
spec fn same_names(x: Seq<MachineResult>, y: Seq<MachineResult>, k: int) -> bool {
    forall|i: int| 0 <= i < k ==> i < y.len() && (#[trigger] x[i]).hw@ == y[i].hw@
}

/// Two lists of the same records hold the same machines, place by place.
proof fn lemma_same_place(x: Seq<MachineResult>, y: Seq<MachineResult>, a: Seq<Record>, b: Seq<Record>, p: Seq<int>, k: int)
    requires
        lists(x, a),
        lists(y, b),
        reorders(p, a.len()),
        b.len() == a.len() <= usize::MAX,
        forall|i: int| 0 <= i < b.len() ==> #[trigger] b[i] == a[p[i]],
        0 <= k < x.len(),
        same_names(x, y, k),
    ensures
        k < y.len() && x[k].hw@ == y[k].hw@,
{
    let hw = x[k].hw@;
    lemma_same_machine(a, b, p, hw);
    assert(is_listed(x[k], a));
    assert(runs_of(b, b.len(), hw).len() > 0);
    let j = choose|j: int| 0 <= j < y.len() && (#[trigger] y[j]).hw@ == hw;
    assert(is_listed(y[j], b));
    if j < k {
        assert(x[j].hw@ == y[j].hw@);
        assert(leads(x[j], x[k]));
        assert(is_listed(x[j], a));
        text_order_is_strict(hw);
    }
    if j > k {
        let other = y[k].hw@;
        lemma_same_machine(a, b, p, other);
        assert(is_listed(y[k], b));
        assert(runs_of(a, a.len(), other).len() > 0);
        let i = choose|i: int| 0 <= i < x.len() && (#[trigger] x[i]).hw@ == other;
        assert(is_listed(x[i], a));
        assert(leads(y[k], y[j]));
        if i < k {
            assert(x[i].hw@ == y[i].hw@);
            assert(leads(y[i], y[k]));
            assert(is_listed(y[i], b));
            text_order_is_strict(other);
        } else if i > k {
            assert(leads(x[k], x[i]));
            if other != hw {
                text_order_is_total(other, hw);
            } else {
                text_order_is_strict(hw);
            }
        } else {
            text_order_is_strict(hw);
        }
    }
}

proof fn lemma_same_names(x: Seq<MachineResult>, y: Seq<MachineResult>, a: Seq<Record>, b: Seq<Record>, p: Seq<int>, k: int)
    requires
        lists(x, a),
        lists(y, b),
        reorders(p, a.len()),
        b.len() == a.len() <= usize::MAX,
        forall|i: int| 0 <= i < b.len() ==> #[trigger] b[i] == a[p[i]],
        0 <= k <= x.len(),
    ensures
        same_names(x, y, k),
    decreases k,
{
    if k > 0 {
        lemma_same_names(x, y, a, b, p, k - 1);
        lemma_same_place(x, y, a, b, p, k - 1);
    }
}

/// The other order of a reordering.
proof fn lemma_turned_back(p: Seq<int>, n: nat) -> (q: Seq<int>)
    requires
        reorders(p, n),
    ensures
        reorders(q, n),
        forall|i: int| 0 <= i < n ==> q[p[i]] == i,
        forall|i: int| 0 <= i < n ==> #[trigger] p[q[i]] == i,
{
    let f = |i: int| p[i];
    let all = vstd::set_lib::set_int_range(0, n as int);
    vstd::set_lib::lemma_int_range(0, n as int);
    assert(p.no_duplicates());
    p.unique_seq_to_set();
    assert(p.to_set().subset_of(all)) by {
        assert forall|x: int| p.to_set().contains(x) implies all.contains(x) by {
            let i = choose|i: int| 0 <= i < p.len() && p[i] == x;
            assert(0 <= p[i] < n);
        }
    }
    vstd::set_lib::lemma_subset_equality(p.to_set(), all);
    let q = Seq::new(n, |x: int| choose|i: int| 0 <= i < n && p[i] == x);
    assert forall|x: int| 0 <= x < n implies 0 <= #[trigger] q[x] < n && p[q[x]] == x by {
        assert(all.contains(x));
        assert(p.to_set().contains(x));
        let i = choose|i: int| 0 <= i < p.len() && p[i] == x;
        assert(0 <= i < n && p[i] == x);
    }
    assert forall|i: int, j: int| 0 <= i < j < n implies #[trigger] q[i] != #[trigger] q[j] by {
        assert(p[q[i]] == i && p[q[j]] == j);
    }
    assert forall|i: int| 0 <= i < n implies q[p[i]] == i by {
        let x = p[i];
        assert(0 <= x < n);
        assert(p[q[x]] == x);
        if q[x] < i {
            assert(p[q[x]] != p[i]);
        } else if q[x] > i {
            assert(p[i] != p[q[x]]);
        }
    }
    q
}

/// No figure of a gate depends on the order of the records.
pub proof fn a_gate_ignores_the_order_of_its_records(g: Gate, h: Gate, a: Seq<Record>, b: Seq<Record>, p: Seq<int>)
    requires
        g.is_of(a),
        h.is_of(b),
        reorders(p, a.len()),
        b.len() == a.len() <= usize::MAX,
        forall|i: int| 0 <= i < b.len() ==> #[trigger] b[i] == a[p[i]],
    ensures
        g.runs == h.runs && g.skipped == h.skipped,
        g.machines@.len() == h.machines@.len(),
        forall|i: int| 0 <= i < g.machines@.len() ==> same_result(#[trigger] g.machines@[i], h.machines@[i]),
        g.median_pct == h.median_pct,
        g.pooled_median_pct == h.pooled_median_pct,
        g.within_range_pct == h.within_range_pct,
        g.passed == h.passed,
{
    let t = choose|t: Tally| t.is_of(a) && #[trigger] g.judges(t);
    let u = choose|u: Tally| u.is_of(b) && #[trigger] h.judges(u);
    let n = a.len();
    lemma_lists(g, t, a);
    lemma_lists(h, u, b);
    let (x, y) = (g.machines@, h.machines@);
    lemma_same_names(x, y, a, b, p, x.len() as int);
    let q = lemma_turned_back(p, n);
    assert forall|i: int| 0 <= i < a.len() implies #[trigger] a[i] == b[q[i]] by {
        assert(b[q[i]] == a[p[q[i]]]);
    }
    lemma_same_names(y, x, b, a, q, y.len() as int);
    assert(x.len() == y.len()) by {
        if x.len() < y.len() {
            assert(y[x.len() as int].hw@ == y[x.len() as int].hw@);
        }
        if y.len() < x.len() {
            assert(x[y.len() as int].hw@ == x[y.len() as int].hw@);
        }
    }
    assert forall|i: int| 0 <= i < x.len() implies same_result(#[trigger] x[i], y[i]) by {
        assert(x[i].hw@ == y[i].hw@);
        assert(is_listed(x[i], a) && is_listed(y[i], b));
        lemma_same_machine(a, b, p, x[i].hw@);
    }
    assert(medians(x) =~= medians(y));
    lemma_same_bare(x, y, x.len());
    assert(x.subrange(0, x.len() as int) =~= x && y.subrange(0, y.len() as int) =~= y);
    lemma_scored_counted(a, n);
    lemma_scored_counted(b, n);
    lemma_reordered(a, b, p, |r: Record| r.error_pct is Some);
    lemma_counted_same(n, |k: int| (|r: Record| r.error_pct is Some)(a[k]), |k: int| a[k].error_pct is Some);
    lemma_counted_same(n, |k: int| (|r: Record| r.error_pct is Some)(b[k]), |k: int| b[k].error_pct is Some);
    lemma_pooled(a, b, p);
    lemma_same_ranges(a, b, p, Some(true));
    lemma_same_ranges(a, b, p, None);
}

proof fn lemma_same_bare(x: Seq<MachineResult>, y: Seq<MachineResult>, n: nat)
    requires
        n <= x.len() && n <= y.len(),
        forall|i: int| 0 <= i < x.len() ==> same_result(#[trigger] x[i], y[i]),
    ensures
        bare_metal_count(x.subrange(0, n as int)) == bare_metal_count(y.subrange(0, n as int)),
    decreases n,
{
    if n > 0 {
        lemma_same_bare(x, y, (n - 1) as nat);
        assert(x.subrange(0, n as int).drop_last() =~= x.subrange(0, n - 1));
        assert(y.subrange(0, n as int).drop_last() =~= y.subrange(0, n - 1));
        assert(same_result(x[n - 1], y[n - 1]));
    }
}

/// What is counted of all runs is counted of the records that count.
pub proof fn lemma_all_runs(records: Seq<Record>, n: nat, f: spec_fn(Double) -> bool)
    requires
        n <= records.len(),
    ensures
        ({
            let v = errors_of(runs_at(records, scored(records, n)));
            &&& counted(v.len(), |i: int| f(v[i])) == counted(
                n,
                |k: int| records[k].error_pct is Some && f(records[k].error_pct->0.absolute()),
            )
            &&& forall|i: int| 0 <= i < v.len() ==> !(#[trigger] v[i]).negative()
        }),
    decreases n,
{
    if n > 0 {
        let m = (n - 1) as nat;
        lemma_all_runs(records, m, f);
        let r = records[n - 1];
        let v = errors_of(runs_at(records, scored(records, m)));
        let w = errors_of(runs_at(records, scored(records, n)));
        if r.error_pct is Some {
            assert(w =~= v.push(r.error_pct->0.absolute()));
            let (g, h) = (|i: int| f(w[i]), |i: int| f(v[i]));
            assert forall|i: int| 0 <= i < v.len() implies (#[trigger] g(i)) == h(i) by {
                assert(w[i] == v[i]);
            }
            lemma_counted_same(v.len(), g, h);
            assert forall|i: int| 0 <= i < w.len() implies !(#[trigger] w[i]).negative() by {
                if i < v.len() {
                    assert(w[i] == v[i]);
                } else {
                    lemma_absolute(r.error_pct->0);
                }
            }
        } else {
            assert(w =~= v);
        }
    }
}

proof fn lemma_pooled(a: Seq<Record>, b: Seq<Record>, p: Seq<int>)
    requires
        reorders(p, a.len()),
        b.len() == a.len() <= usize::MAX,
        forall|i: int| 0 <= i < b.len() ==> #[trigger] b[i] == a[p[i]],
    ensures
        median_of(errors_of(runs_at(a, scored(a, a.len())))) == median_of(errors_of(runs_at(b, scored(b, b.len())))),
{
    let n = a.len();
    let (x, y) = (errors_of(runs_at(a, scored(a, n))), errors_of(runs_at(b, scored(b, n))));
    lemma_pooled_count(a, b, p, |d: Double| true);
    lemma_all_counted(x.len());
    lemma_all_counted(y.len());
    lemma_scored_len(a, n);
    assert forall|r: int| #[trigger] before(x, r) == before(y, r) by {
        let f = |d: Double| d.rank() < r;
        lemma_pooled_count(a, b, p, f);
        lemma_counted_same(x.len(), |i: int| x[i].rank() < r, |i: int| f(x[i]));
        lemma_counted_same(y.len(), |i: int| y[i].rank() < r, |i: int| f(y[i]));
    }
    assert forall|r: int| #[trigger] up_to(x, r) == up_to(y, r) by {
        let f = |d: Double| d.rank() <= r;
        lemma_pooled_count(a, b, p, f);
        lemma_counted_same(x.len(), |i: int| x[i].rank() <= r, |i: int| f(x[i]));
        lemma_counted_same(y.len(), |i: int| y[i].rank() <= r, |i: int| f(y[i]));
    }
    lemma_all_runs(a, n, |d: Double| true);
    lemma_all_runs(b, n, |d: Double| true);
    assert(x.len() == y.len()) by {
        let f = |d: Double| true;
        lemma_counted_same(x.len(), |i: int| f(x[i]), |i: int| true);
        lemma_counted_same(y.len(), |i: int| f(y[i]), |i: int| true);
    }
    a_median_ignores_the_order(x, y);
}

proof fn lemma_all_counted(n: nat)
    ensures
        counted(n, |i: int| true) == n,
    decreases n,
{
    if n > 0 {
        lemma_all_counted((n - 1) as nat);
    }
}

proof fn lemma_pooled_count(a: Seq<Record>, b: Seq<Record>, p: Seq<int>, f: spec_fn(Double) -> bool)
    requires
        reorders(p, a.len()),
        b.len() == a.len(),
        forall|i: int| 0 <= i < b.len() ==> #[trigger] b[i] == a[p[i]],
    ensures
        ({
            let (x, y) = (errors_of(runs_at(a, scored(a, a.len()))), errors_of(runs_at(b, scored(b, b.len()))));
            counted(x.len(), |i: int| f(x[i])) == counted(y.len(), |i: int| f(y[i]))
        }),
{
    let n = a.len();
    lemma_all_runs(a, n, f);
    lemma_all_runs(b, n, f);
    let g = |r: Record| r.error_pct is Some && f(r.error_pct->0.absolute());
    lemma_reordered(a, b, p, g);
    lemma_counted_same(n, |k: int| g(a[k]), |k: int| a[k].error_pct is Some && f(a[k].error_pct->0.absolute()));
    lemma_counted_same(n, |k: int| g(b[k]), |k: int| b[k].error_pct is Some && f(b[k].error_pct->0.absolute()));
}

/// A record that counts and says whether it was in range.
pub open spec fn says_range(r: Record, want: Option<bool>) -> bool {
    r.error_pct is Some && r.within_range is Some && (want is None || r.within_range == want)
}

pub proof fn lemma_ranges(records: Seq<Record>, n: nat, want: Option<bool>)
    requires
        n <= records.len(),
    ensures
        range_count(records, scored(records, n), want) == counted(n, |k: int| says_range(records[k], want)),
    decreases n,
{
    if n > 0 {
        lemma_ranges(records, (n - 1) as nat, want);
        if records[n - 1].error_pct is Some {
            assert(scored(records, n).drop_last() =~= scored(records, (n - 1) as nat));
        }
    }
}

proof fn lemma_same_ranges(a: Seq<Record>, b: Seq<Record>, p: Seq<int>, want: Option<bool>)
    requires
        reorders(p, a.len()),
        b.len() == a.len(),
        forall|i: int| 0 <= i < b.len() ==> #[trigger] b[i] == a[p[i]],
    ensures
        range_count(a, scored(a, a.len()), want) == range_count(b, scored(b, b.len()), want),
{
    let n = a.len();
    lemma_ranges(a, n, want);
    lemma_ranges(b, n, want);
    let g = |r: Record| says_range(r, want);
    lemma_reordered(a, b, p, g);
    lemma_counted_same(n, |k: int| g(a[k]), |k: int| says_range(a[k], want));
    lemma_counted_same(n, |k: int| g(b[k]), |k: int| says_range(b[k], want));
}

} // verus!
