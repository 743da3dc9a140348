//! The accuracy gate: is the prediction model good enough to rely on?
//!
//! The median of each machine's own median error must be under 25%, over at
//! least five machines of which two run on bare metal. The error is read from
//! the record, where it was written before the run joined the dataset, and
//! never recomputed. Forty runs on one laptop must not outvote four runs on
//! four machines, so a gate takes the median of per-machine medians.

pub mod figures;
pub mod laws;

use vstd::prelude::*;
use crate::chars::{concat3, copy, dec, decimal, same, texts};
use crate::double::Double;
use crate::fit::{median, median_of, opt_text, Record};
use crate::group::{group, grouped, Group};
use crate::order::{in_order, sort_positions, text_below, text_less, Sorter};

verus! {

/// The ceiling of the median error, in percent: 25.
pub const MAX_MEDIAN_ERROR_BITS: u64 = 0x4039_0000_0000_0000;

pub const MIN_MACHINES: usize = 5;

pub const MIN_BARE_METAL: usize = 2;

/// How many of the worst predictions are kept for chasing down.
pub const WORST_KEPT: usize = 5;

// --------------------------------------------------------------------- model

/// The positions below `n` of the records that state an error.
pub open spec fn scored(records: Seq<Record>, n: nat) -> Seq<int>
    decreases n,
{
    if n == 0 {
        Seq::empty()
    } else {
        let rest = scored(records, (n - 1) as nat);
        if records[n - 1].error_pct is Some {
            rest.push(n - 1)
        } else {
            rest
        }
    }
}

/// A run as a gate sees it: how far off the prediction was, and whether the
/// machine is known to be bare metal.
#[derive(Debug, Clone, Copy, PartialEq, Eq, Structural)]
pub struct Run {
    pub error: Double,
    pub bare_metal: bool,
}

pub open spec fn run_of(r: Record) -> Run {
    Run { error: r.error_pct->0.absolute(), bare_metal: opt_text(r.virt) == Some("none"@) }
}

pub open spec fn machine_keys(records: Seq<Record>, at: Seq<int>) -> Seq<Seq<char>> {
    at.map_values(|i: int| records[i].hw@)
}

pub open spec fn runs_at(records: Seq<Record>, at: Seq<int>) -> Seq<Run> {
    at.map_values(|i: int| run_of(records[i]))
}

/// How many of the scored records say that the measurement was in range
/// (`want` is true), or say either way (`want` is nothing).
pub open spec fn range_count(records: Seq<Record>, at: Seq<int>, want: Option<bool>) -> nat
    decreases at.len(),
{
    if at.len() == 0 {
        0
    } else {
        let n = range_count(records, at.drop_last(), want);
        let w = records[at.last()].within_range;
        if w is Some && (want is None || w == want) {
            n + 1
        } else {
            n
        }
    }
}

/// Machine `a` is listed before machine `b`: it has more runs, or as many and
/// the earlier name.
pub open spec fn listed_before(v: Seq<Group<Run>>) -> spec_fn(int, int) -> bool {
    |a: int, b: int|
        v[a].items@.len() > v[b].items@.len() || (v[a].items@.len() == v[b].items@.len() && (text_below(
            v[a].key@,
            v[b].key@,
        ) || (v[a].key@ == v[b].key@ && a < b)))
}

/// The scored run at `a` was predicted worse than the one at `b`, or as badly
/// and came earlier.
pub open spec fn worse(records: Seq<Record>, at: Seq<int>) -> spec_fn(int, int) -> bool {
    |a: int, b: int|
        {
            let x = records[at[a]].error_pct->0.magnitude();
            let y = records[at[b]].error_pct->0.magnitude();
            x > y || (x == y && a < b)
        }
}

pub open spec fn any_bare_metal(runs: Seq<Run>) -> bool {
    exists|i: int| 0 <= i < runs.len() && (#[trigger] runs[i]).bare_metal
}

pub open spec fn errors_of(runs: Seq<Run>) -> Seq<Double> {
    runs.map_values(|r: Run| r.error)
}

/// A machine's runs.
pub struct MachineRuns {
    pub hw: String,
    /// How far off each prediction was, in the order the runs came in.
    pub errors: Vec<Double>,
    pub bare_metal: bool,
}

/// A prediction that missed.
pub struct Miss {
    pub model: String,
    pub quant: String,
    pub error_pct: Double,
}

/// The records sorted out for a gate, before any average is taken.
pub struct Tally {
    /// Records that state an error. Older ones are counted in `skipped`.
    pub runs: usize,
    pub skipped: usize,
    pub machines: Vec<MachineRuns>,
    /// Every scored run's error.
    pub pooled: Vec<Double>,
    /// How many runs landed in the published range, of how many that say.
    pub in_range: usize,
    pub ranged: usize,
    /// The worst predictions, largest error first.
    pub worst: Vec<Miss>,
}

/// `m` is the machine of group `g`.
pub open spec fn is_machine(m: MachineRuns, g: Group<Run>) -> bool {
    &&& m.hw@ == g.key@
    &&& m.errors@ == errors_of(g.items@)
    &&& m.bare_metal == any_bare_metal(g.items@)
}

/// The machines are those of the groups, in the order `o`.
pub open spec fn machines_in(m: Seq<MachineRuns>, g: Seq<Group<Run>>, o: Seq<usize>) -> bool {
    &&& m.len() == o.len()
    &&& forall|i: int| 0 <= i < m.len() ==> is_machine(#[trigger] m[i], g[o[i] as int])
}

pub open spec fn is_miss(m: Miss, r: Record) -> bool {
    m.model@ == r.model@ && m.quant@ == r.quant@ && Some(m.error_pct) == r.error_pct
}

/// The misses are the first of the scored runs in the order `o`.
pub open spec fn misses_in(m: Seq<Miss>, records: Seq<Record>, at: Seq<int>, o: Seq<usize>) -> bool {
    &&& m.len() == (if at.len() <= WORST_KEPT { at.len() } else { WORST_KEPT as nat })
    &&& forall|i: int| 0 <= i < m.len() ==> is_miss(#[trigger] m[i], records[at[o[i] as int]])
}

/// There are groups of the runs by machine, listed in order as `m`.
pub open spec fn machines_listed(m: Seq<MachineRuns>, records: Seq<Record>, at: Seq<int>) -> bool {
    exists|g: Seq<Group<Run>>, o: Seq<usize>|
        grouped(g, machine_keys(records, at), runs_at(records, at)) && in_order(o, g.len(), listed_before(g))
            && #[trigger] machines_in(m, g, o)
}

pub open spec fn worst_listed(m: Seq<Miss>, records: Seq<Record>, at: Seq<int>) -> bool {
    exists|o: Seq<usize>| in_order(o, at.len(), worse(records, at)) && #[trigger] misses_in(m, records, at, o)
}

impl Tally {
    pub open spec fn is_of(self, records: Seq<Record>) -> bool {
        let at = scored(records, records.len());
        &&& self.runs == at.len()
        &&& self.skipped == records.len() - at.len()
        &&& machines_listed(self.machines@, records, at)
        &&& self.pooled@ == errors_of(runs_at(records, at))
        &&& self.in_range == range_count(records, at, Some(true))
        &&& self.ranged == range_count(records, at, None)
        &&& worst_listed(self.worst@, records, at)
    }
}

// ------------------------------------------------------------------ building

struct ByRuns<'a> {
    v: &'a Vec<Group<Run>>,
}

impl Sorter for ByRuns<'_> {
    closed spec fn size(&self) -> nat {
        self.v@.len()
    }

    closed spec fn rule(&self) -> spec_fn(int, int) -> bool {
        listed_before(self.v@)
    }

    fn comes_before(&self, a: usize, b: usize) -> (r: bool) {
        let p = &self.v[a];
        let q = &self.v[b];
        let m: usize = p.items.len();
        let n: usize = q.items.len();
        m > n || (m == n && (text_less(p.key.as_str(), q.key.as_str()) || (same(p.key.as_str(), q.key.as_str()) && a
            < b)))
    }

    proof fn rule_is_total(&self) {
        let v = self.v@;
        let f = listed_before(v);
        assert forall|a: int, b: int| 0 <= a < v.len() && 0 <= b < v.len() && a != b implies #[trigger] f(a, b)
            != #[trigger] f(b, a) by {
            if v[a].key@ != v[b].key@ {
                crate::order::text_order_is_total(v[a].key@, v[b].key@);
            } else {
                crate::order::text_order_is_strict(v[a].key@);
            }
        }
        assert forall|a: int, b: int, c: int|
            0 <= a < v.len() && 0 <= b < v.len() && 0 <= c < v.len() && #[trigger] f(a, b) && #[trigger] f(b, c) implies f(a, c) by {
            if text_below(v[a].key@, v[b].key@) && text_below(v[b].key@, v[c].key@) {
                crate::order::text_order_carries_over(v[a].key@, v[b].key@, v[c].key@);
            }
        }
    }
}

struct ByError<'a> {
    records: &'a Vec<Record>,
    at: &'a Vec<usize>,
}

spec fn wide(at: Seq<usize>) -> Seq<int> {
    at.map_values(|i: usize| i as int)
}

spec fn all_scored(records: Seq<Record>, at: Seq<usize>) -> bool {
    forall|i: int| 0 <= i < at.len() ==> (#[trigger] at[i]) < records.len() && records[at[i] as int].error_pct is Some
}

fn error_size(r: &Record) -> (x: u64)
    requires
        r.error_pct is Some,
    ensures
        x as nat == r.error_pct->0.magnitude(),
{
    match r.error_pct {
        Some(e) => e.abs().bits,
        None => 0,
    }
}

impl Sorter for ByError<'_> {
    closed spec fn size(&self) -> nat {
        if all_scored(self.records@, self.at@) {
            self.at@.len()
        } else {
            0
        }
    }

    closed spec fn rule(&self) -> spec_fn(int, int) -> bool {
        worse(self.records@, wide(self.at@))
    }

    fn comes_before(&self, a: usize, b: usize) -> (r: bool) {
        let x: u64 = error_size(&self.records[self.at[a]]);
        let y: u64 = error_size(&self.records[self.at[b]]);
        x > y || (x == y && a < b)
    }

    proof fn rule_is_total(&self) {
    }
}

fn machine_of(g: &Group<Run>) -> (m: MachineRuns)
    ensures
        is_machine(m, *g),
{
    let mut errors: Vec<Double> = Vec::new();
    let mut bare_metal = false;
    let mut i: usize = 0;
    while i < g.items.len()
        invariant
            i <= g.items@.len(),
            errors@ =~= errors_of(g.items@.subrange(0, i as int)),
            bare_metal == any_bare_metal(g.items@.subrange(0, i as int)),
        decreases g.items@.len() - i,
    {
        let ghost cur = g.items@.subrange(0, i as int);
        let ghost next = g.items@.subrange(0, i + 1);
        assert(next =~= cur.push(g.items@[i as int]));
        proof {
            if any_bare_metal(cur) {
                let k = choose|k: int| 0 <= k < cur.len() && (#[trigger] cur[k]).bare_metal;
                assert(next[k].bare_metal);
            }
            if g.items@[i as int].bare_metal {
                assert(next[i as int].bare_metal);
            }
            if any_bare_metal(next) {
                let k = choose|k: int| 0 <= k < next.len() && (#[trigger] next[k]).bare_metal;
                if k < i {
                    assert(cur[k].bare_metal);
                }
            }
        }
        errors.push(g.items[i].error);
        bare_metal = bare_metal || g.items[i].bare_metal;
        i += 1;
    }
    assert(g.items@.subrange(0, i as int) =~= g.items@);
    MachineRuns { hw: copy(g.key.as_str()), errors, bare_metal }
}

/// The records sorted out for a gate.
fn tally(records: &Vec<Record>) -> (r: Tally)
    ensures
        r.is_of(records@),
{
    let ghost rs = records@;
    let mut keys: Vec<String> = Vec::new();
    let mut runs: Vec<Run> = Vec::new();
    let mut pooled: Vec<Double> = Vec::new();
    let mut at: Vec<usize> = Vec::new();
    let mut in_range: usize = 0;
    let mut ranged: usize = 0;
    let mut i: usize = 0;
    assert(texts(keys@) =~= machine_keys(rs, Seq::empty()));
    assert(runs@ =~= runs_at(rs, Seq::empty()));
    assert(pooled@ =~= errors_of(runs@));
    assert(wide(at@) =~= Seq::<int>::empty());
    while i < records.len()
        invariant
            i <= records@.len(),
            rs == records@,
            wide(at@) == scored(rs, i as nat),
            at@.len() <= i,
            all_scored(rs, at@),
            texts(keys@) == machine_keys(rs, scored(rs, i as nat)),
            runs@ == runs_at(rs, scored(rs, i as nat)),
            pooled@ == errors_of(runs@),
            in_range == range_count(rs, scored(rs, i as nat), Some(true)),
            ranged == range_count(rs, scored(rs, i as nat), None),
            in_range <= i,
            ranged <= i,
        decreases records@.len() - i,
    {
        let r = &records[i];
        let ghost s0 = scored(rs, i as nat);
        if let Some(e) = r.error_pct {
            let bare_metal = match &r.virt {
                Some(v) => same(v.as_str(), "none"),
                None => false,
            };
            let run = Run { error: e.abs(), bare_metal };
            assert(run == run_of(rs[i as int]));
            let ghost k0 = keys@;
            let ghost r0 = runs@;
            let ghost a0 = at@;
            keys.push(copy(r.hw.as_str()));
            runs.push(run);
            pooled.push(run.error);
            at.push(i);
            proof {
                let s1 = s0.push(i as int);
                assert(scored(rs, (i + 1) as nat) == s1);
                assert(s1.drop_last() =~= s0);
                assert(texts(keys@) =~= texts(k0).push(r.hw@));
                assert(machine_keys(rs, s1) =~= machine_keys(rs, s0).push(r.hw@));
                assert(runs_at(rs, s1) =~= runs_at(rs, s0).push(run));
                assert(errors_of(r0.push(run)) =~= errors_of(r0).push(run.error));
                assert(wide(at@) =~= wide(a0).push(i as int));
            }
            if let Some(w) = r.within_range {
                ranged += 1;
                if w {
                    in_range += 1;
                }
            }
        }
        i += 1;
    }
    let ghost at_all = scored(rs, rs.len());
    assert(texts(keys@).len() == keys@.len());
    assert(wide(at@).len() == at@.len());
    let groups = group(&keys, &runs);
    let o = sort_positions(&ByRuns { v: &groups }, groups.len());
    let mut machines: Vec<MachineRuns> = Vec::new();
    let mut k: usize = 0;
    while k < o.len()
        invariant
            k <= o@.len(),
            in_order(o@, groups@.len(), listed_before(groups@)),
            machines@.len() == k,
            forall|i: int| 0 <= i < machines@.len() ==> is_machine(#[trigger] machines@[i], groups@[o@[i] as int]),
        decreases o@.len() - k,
    {
        assert(o@[k as int] < groups@.len());
        machines.push(machine_of(&groups[o[k]]));
        k += 1;
    }
    assert(machines_in(machines@, groups@, o@));
    let w = sort_positions(&ByError { records, at: &at }, at.len());
    let keep: usize = if at.len() <= WORST_KEPT { at.len() } else { WORST_KEPT };
    let mut worst: Vec<Miss> = Vec::new();
    let mut j: usize = 0;
    while j < keep
        invariant
            j <= keep <= at@.len(),
            rs == records@,
            all_scored(rs, at@),
            wide(at@) == at_all,
            in_order(w@, at@.len(), worse(rs, at_all)),
            worst@.len() == j,
            forall|i: int| 0 <= i < worst@.len() ==> is_miss(#[trigger] worst@[i], rs[at_all[w@[i] as int]]),
        decreases keep - j,
    {
        assert(w@[j as int] < at@.len());
        assert(at@[w@[j as int] as int] < rs.len());
        assert(at_all[w@[j as int] as int] == at@[w@[j as int] as int]);
        let r = &records[at[w[j]]];
        let error_pct = match r.error_pct {
            Some(e) => e,
            None => Double { bits: 0 },
        };
        worst.push(Miss { model: copy(r.model.as_str()), quant: copy(r.quant.as_str()), error_pct });
        j += 1;
    }
    assert(misses_in(worst@, rs, at_all, w@));
    let n: usize = at.len();
    Tally { runs: n, skipped: records.len() - n, machines, pooled, in_range, ranged, worst }
}

// ------------------------------------------------------------------- verdict

pub struct MachineResult {
    pub hw: String,
    pub runs: usize,
    pub median_abs_error_pct: Double,
    pub bare_metal: bool,
}

/// What a gate says, with the medians taken.
pub struct Gate {
    pub runs: usize,
    pub skipped: usize,
    pub machines: Vec<MachineResult>,
    /// Median error over every run pooled together.
    pub pooled_median_pct: Double,
    /// Median of each machine's own median. This is what is judged.
    pub median_pct: Double,
    /// Share of runs whose measurement landed inside the published range.
    pub within_range_pct: Double,
    /// Worst offenders, largest error first.
    pub worst: Vec<Miss>,
    pub passed: bool,
}

/// `r` is the result of machine `m`.
pub open spec fn is_result(r: MachineResult, m: MachineRuns) -> bool {
    &&& r.hw@ == m.hw@
    &&& r.runs == m.errors@.len()
    &&& r.median_abs_error_pct == median_of(m.errors@)
    &&& r.bare_metal == m.bare_metal
}

pub open spec fn medians(m: Seq<MachineResult>) -> Seq<Double> {
    m.map_values(|r: MachineResult| r.median_abs_error_pct)
}

/// The share of runs in range in percent, over those that say.
pub open spec fn share_in_range(in_range: nat, ranged: nat) -> Double {
    if ranged == 0 {
        Double { bits: 0 }
    } else {
        Double::count(in_range).quotient(Double::count(ranged)).in_percent()
    }
}

/// How many of the machines are known to be bare metal.
pub open spec fn bare_metal_count(m: Seq<MachineResult>) -> nat
    decreases m.len(),
{
    if m.len() == 0 {
        0
    } else {
        bare_metal_count(m.drop_last()) + (if m.last().bare_metal { 1nat } else { 0 })
    }
}

/// The bar is met.
pub open spec fn gate_met(m: Seq<MachineResult>, median: Double) -> bool {
    &&& m.len() >= MIN_MACHINES
    &&& bare_metal_count(m) >= MIN_BARE_METAL
    &&& median.below(Double { bits: MAX_MEDIAN_ERROR_BITS })
}

fn count_bare_metal(m: &Vec<MachineResult>) -> (n: usize)
    ensures
        n as nat == bare_metal_count(m@),
{
    let mut n: usize = 0;
    let mut i: usize = 0;
    while i < m.len()
        invariant
            n <= i <= m@.len(),
            n as nat == bare_metal_count(m@.subrange(0, i as int)),
        decreases m@.len() - i,
    {
        assert(m@.subrange(0, i + 1).drop_last() =~= m@.subrange(0, i as int));
        if m[i].bare_metal {
            n += 1;
        }
        i += 1;
    }
    assert(m@.subrange(0, i as int) =~= m@);
    n
}

/// What is missing, in the order the work should be done.
pub open spec fn blocker_texts(g: Gate) -> Seq<Seq<char>> {
    if g.runs == 0 {
        seq!["no measured runs at all - run `zc verify`"@]
    } else {
        let n = g.machines@.len();
        let b = bare_metal_count(g.machines@);
        let few = if n < MIN_MACHINES {
            seq![dec(n) + " of 5 machines - need "@ + dec((MIN_MACHINES - n) as nat) + " more distinct machine(s)"@]
        } else {
            Seq::empty()
        };
        let virtual_only = if b < MIN_BARE_METAL {
            seq![dec(b) + " of 2 bare-metal machines - need "@ + dec((MIN_BARE_METAL - b) as nat) + " more"@]
        } else {
            Seq::empty()
        };
        let wrong = if (Double { bits: MAX_MEDIAN_ERROR_BITS }).at_most(g.median_pct) {
            seq!["median error "@ + g.median_pct.text(1) + "% exceeds the 25% ceiling"@]
        } else {
            Seq::empty()
        };
        few + virtual_only + wrong
    }
}

impl Gate {
    /// A gate over a tally: each machine's median error, the median of
    /// those, the median of all runs, and the share of runs in range.
    pub open spec fn judges(self, t: Tally) -> bool {
        &&& self.runs == t.runs
        &&& self.skipped == t.skipped
        &&& self.machines@.len() == t.machines@.len()
        &&& forall|i: int| 0 <= i < self.machines@.len() ==> is_result(#[trigger] self.machines@[i], t.machines@[i])
        &&& self.median_pct == median_of(medians(self.machines@))
        &&& self.pooled_median_pct == median_of(t.pooled@)
        &&& self.within_range_pct == share_in_range(t.in_range as nat, t.ranged as nat)
        &&& self.worst@ == t.worst@
        &&& self.passed == gate_met(self.machines@, self.median_pct)
    }

    pub open spec fn is_of(self, records: Seq<Record>) -> bool {
        exists|t: Tally| t.is_of(records) && #[trigger] self.judges(t)
    }

    pub fn from_records(records: &Vec<Record>) -> (r: Gate)
        ensures
            r.is_of(records@),
    {
        let t = tally(records);
        let ghost tallied = t;
        let mut machines: Vec<MachineResult> = Vec::new();
        let mut per_machine: Vec<Double> = Vec::new();
        let mut i: usize = 0;
        while i < t.machines.len()
            invariant
                i <= t.machines@.len(),
                machines@.len() == i,
                forall|k: int| 0 <= k < i ==> is_result(#[trigger] machines@[k], t.machines@[k]),
                per_machine@ =~= medians(machines@),
            decreases t.machines@.len() - i,
        {
            let m = &t.machines[i];
            let result = MachineResult {
                hw: copy(m.hw.as_str()),
                runs: m.errors.len(),
                median_abs_error_pct: median(&m.errors),
                bare_metal: m.bare_metal,
            };
            per_machine.push(result.median_abs_error_pct);
            machines.push(result);
            i += 1;
        }
        let median_pct = median(&per_machine);
        let pooled_median_pct = median(&t.pooled);
        let within_range_pct = if t.ranged == 0 {
            Double { bits: 0 }
        } else {
            Double::of_count(t.in_range as u64).over(Double::of_count(t.ranged as u64)).percent()
        };
        let bare: usize = count_bare_metal(&machines);
        let passed = machines.len() >= MIN_MACHINES && bare >= MIN_BARE_METAL && median_pct.lt(
            Double { bits: MAX_MEDIAN_ERROR_BITS },
        );
        let g = Gate {
            runs: t.runs,
            skipped: t.skipped,
            machines,
            pooled_median_pct,
            median_pct,
            within_range_pct,
            worst: t.worst,
            passed,
        };
        assert(g.judges(tallied));
        g
    }

    /// Why a gate is not passed yet, in the order the work should be done.
    pub fn blockers(&self) -> (r: Vec<String>)
        ensures
            texts(r@) == blocker_texts(*self),
    {
        let mut out: Vec<String> = Vec::new();
        if self.runs == 0 {
            out.push(copy("no measured runs at all - run `zc verify`"));
            assert(texts(out@) =~= blocker_texts(*self));
            return out;
        }
        let n: usize = self.machines.len();
        let b: usize = count_bare_metal(&self.machines);
        if n < MIN_MACHINES {
            let mut s = decimal(n as u128);
            s.append(" of 5 machines - need ");
            s.append(decimal((MIN_MACHINES - n) as u128).as_str());
            s.append(" more distinct machine(s)");
            out.push(s);
        }
        if b < MIN_BARE_METAL {
            let mut s = decimal(b as u128);
            s.append(" of 2 bare-metal machines - need ");
            s.append(decimal((MIN_BARE_METAL - b) as u128).as_str());
            s.append(" more");
            out.push(s);
        }
        if (Double { bits: MAX_MEDIAN_ERROR_BITS }).le(self.median_pct) {
            out.push(
                concat3("median error ", self.median_pct.fixed(1).as_str(), "% exceeds the 25% ceiling"),
            );
        }
        assert(texts(out@) =~= blocker_texts(*self));
        out
    }
}

/// A gate is met exactly when nothing blocks it. Where the machines suffice,
/// their median is a number.
pub proof fn a_gate_passes_exactly_when_nothing_blocks_it(g: Gate, records: Seq<Record>)
    requires
        g.is_of(records),
        g.machines@.len() >= MIN_MACHINES && bare_metal_count(g.machines@) >= MIN_BARE_METAL ==> !g.median_pct.nan(),
    ensures
        g.passed <==> blocker_texts(g).len() == 0,
{
    if g.runs == 0 {
        let t = choose|t: Tally| t.is_of(records) && #[trigger] g.judges(t);
        lemma_no_runs_no_machines(t, records);
    }
}

proof fn lemma_no_runs_no_machines(t: Tally, records: Seq<Record>)
    requires
        t.is_of(records),
        t.runs == 0,
    ensures
        t.machines@.len() == 0,
{
    let at = scored(records, records.len());
    let (keys, runs) = (machine_keys(records, at), runs_at(records, at));
    let (g, o) = choose|g: Seq<Group<Run>>, o: Seq<usize>|
        grouped(g, keys, runs) && in_order(o, g.len(), listed_before(g)) && #[trigger] machines_in(t.machines@, g, o);
    if g.len() > 0 {
        assert(g[0].items@ == crate::group::items_of(keys, runs, g[0].key@));
    }
}

/// With nothing measured a gate is blocked.
pub proof fn an_empty_dataset_is_blocked(g: Gate)
    requires
        g.runs == 0,
    ensures
        blocker_texts(g).len() == 1,
{
}

/// Fewer than five machines never pass, however many runs they gave and
/// however accurate those were; nor do machines of which fewer than two are
/// bare metal.
pub proof fn accuracy_does_not_replace_machines(g: Gate, records: Seq<Record>)
    requires
        g.is_of(records),
        g.machines@.len() < 5 || bare_metal_count(g.machines@) < 2,
    ensures
        !g.passed,
{
}

} // verus!
