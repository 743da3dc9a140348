//! `zc check`: which rows a report has, and the report itself.
//!
//! The one report is assembled here that every surface renders, so no two of
//! them can disagree about a number.

use vstd::prelude::*;
use crate::chars::copy;
use crate::cli::machine::Machine;
use crate::fit::Fit;
use crate::kv::KvPrecision;
use crate::predict::{plannable, predict_with, Hardware};
use crate::spec::{ModelSpec, ModelView, Quant, QuantView};
use crate::report::ranking::{may_lead, rows_are_listed_in_order, stands_for, the_version_kept_runs_best_at_the_largest_size};
use crate::report::{
    all_positions, best_of, best_per_model_indices, is_ranked, positions, sort_rows, valid_positions, Assumptions, Report, Row, SortKey,
};

verus! {

pub const UBATCH: u32 = 512;

pub const PROMPT: u32 = 2048;

// ------------------------------------------------------------------- the rows

/// The row predicts one quantisation of one model.
pub open spec fn is_row(r: Row, m: ModelView, q: QuantView, hw: Hardware, kv: KvPrecision, fit: Fit) -> bool {
    &&& r.model_id@ == m.id
    &&& r.quant@ == q
    &&& r.prediction.is_for(m, q, hw, kv, PROMPT as nat, UBATCH as nat, fit)
}

/// Where the quantisations of the first `n` models stand: the model, and the
/// place in it.
pub open spec fn places(specs: Seq<ModelSpec>, n: nat) -> Seq<(int, int)>
    decreases n,
{
    if n == 0 {
        Seq::empty()
    } else {
        places(specs, (n - 1) as nat) + Seq::new(specs[n - 1].quants@.len(), |j: int| (n - 1, j))
    }
}

/// One row for each place, in order.
pub open spec fn are_rows(
    r: Seq<Row>,
    specs: Seq<ModelSpec>,
    at: Seq<(int, int)>,
    hw: Hardware,
    kv: KvPrecision,
    fit: Fit,
) -> bool {
    &&& r.len() == at.len()
    &&& forall|k: int|
        0 <= k < at.len() ==> is_row(
            #[trigger] r[k],
            specs[at[k].0]@,
            specs[at[k].0].quants@[at[k].1]@,
            hw,
            kv,
            fit,
        )
}

/// A prediction for every quantisation of every model.
pub fn all_rows(specs: &Vec<ModelSpec>, hw: &Hardware, kv: KvPrecision, fit: &Fit) -> (r: Vec<Row>)
    requires
        forall|i: int| 0 <= i < specs@.len() ==> plannable((#[trigger] specs@[i])@, kv, UBATCH as nat),
    ensures
        are_rows(r@, specs@, places(specs@, specs@.len()), *hw, kv, *fit),
{
    let mut out: Vec<Row> = Vec::new();
    let mut i: usize = 0;
    while i < specs.len()
        invariant
            i <= specs@.len(),
            forall|k: int| 0 <= k < specs@.len() ==> plannable((#[trigger] specs@[k])@, kv, UBATCH as nat),
            are_rows(out@, specs@, places(specs@, i as nat), *hw, kv, *fit),
        decreases specs@.len() - i,
    {
        let spec = &specs[i];
        let ghost before = places(specs@, i as nat);
        let ghost tail = Seq::new(spec.quants@.len(), |j: int| (i as int, j));
        let mut j: usize = 0;
        assert(before + tail.subrange(0, 0) =~= before);
        while j < spec.quants.len()
            invariant
                i < specs@.len(),
                *spec == specs@[i as int],
                plannable(spec@, kv, UBATCH as nat),
                j <= spec.quants@.len(),
                tail == Seq::new(spec.quants@.len(), |j: int| (i as int, j)),
                are_rows(out@, specs@, before + tail.subrange(0, j as int), *hw, kv, *fit),
            decreases spec.quants@.len() - j,
        {
            let quant = &spec.quants[j];
            let prediction = predict_with(spec, quant, hw, kv, PROMPT, UBATCH, fit);
            let row = Row {
                model_id: copy(spec.id.as_str()),
                quant: Quant { name: copy(quant.name.as_str()), bytes: quant.bytes, family: quant.family },
                prediction,
            };
            out.push(row);
            assert(before + tail.subrange(0, j + 1) =~= (before + tail.subrange(0, j as int)).push((i as int, j as int)));
            j += 1;
        }
        assert(before + tail.subrange(0, j as int) =~= places(specs@, i as nat + 1)) by {
            assert(tail.subrange(0, j as int) =~= tail);
        }
        i += 1;
    }
    out
}

/// The rows of a report: which, in what order, and how many there were before
/// the cut.
pub struct Selection {
    pub rows: Vec<usize>,
    pub total: usize,
}

/// One row per model unless all are asked for.
pub open spec fn candidates(rows: Seq<Row>, all_quants: bool) -> Seq<usize> {
    if all_quants {
        all_positions(rows.len())
    } else {
        best_of(rows, all_positions(rows.len()))
    }
}

/// `r` is the start of the candidates in order, cut to the limit.
pub open spec fn is_selection(r: Seq<usize>, rows: Seq<Row>, all_quants: bool, top: Option<usize>) -> bool {
    exists|full: Seq<usize>|
        #[trigger] is_ranked(full, rows, candidates(rows, all_quants), SortKey::Verdict) && r == (match top {
            Some(n) => if n < full.len() {
                full.subrange(0, n as int)
            } else {
                full
            },
            None => full,
        })
}

/// Choose and order the rows. The cut is made here and not where the report is
/// rendered, so that every surface describes the same set.
pub fn select_rows(rows: &Vec<Row>, all_quants: bool, top: Option<usize>) -> (r: Selection)
    ensures
        is_selection(r.rows@, rows@, all_quants, top),
        valid_positions(r.rows@, rows@.len()),
        r.total as nat == candidates(rows@, all_quants).len(),
{
    let all = positions(rows.len());
    let chosen = if all_quants {
        all
    } else {
        best_per_model_indices(rows, &all)
    };
    let total: usize = chosen.len();
    let mut full = sort_rows(rows, &chosen, SortKey::Verdict);
    let ghost whole = full@;
    if let Some(n) = top {
        if n < full.len() {
            full.truncate(n);
        }
    }
    assert(is_ranked(whole, rows@, candidates(rows@, all_quants), SortKey::Verdict));
    assert(valid_positions(full@, rows@.len())) by {
        assert forall|i: int| 0 <= i < full@.len() implies (#[trigger] full@[i]) < rows@.len() by {
            assert(full@[i] == whole[i]);
        }
    }
    Selection { rows: full, total }
}

// ----------------------------------------------------------------- the report

/// Assemble the report every surface renders: the machine as it was measured,
/// and what the predictions assumed.
pub fn report(m: Machine, fit: &Fit, kv: KvPrecision, models: Vec<Row>, total_rows: usize) -> (r: Report)
    ensures
        r.cpu == m.cpu && r.mem == m.mem && r.env == m.env && r.storage == m.storage && r.gpus == m.gpus,
        r.ram == m.ram && r.compute == m.compute && r.disk == m.disk && r.backend == m.backend,
        r.ram_bw_gbs == m.hw.ram_bw_gbs && r.vram_bw_gbs == m.hw.vram_bw_gbs,
        r.vram_bytes == m.hw.vram_bytes && r.disk_gbs == m.hw.disk_gbs,
        r.budget_idle == m.budget_idle && r.budget_now == m.budget_now,
        r.assumptions.prompt_tokens == PROMPT && r.assumptions.ubatch == UBATCH,
        r.assumptions.kv_precision == kv && r.assumptions.idle_machine,
        r.assumptions.uncalibrated == (fit.buckets@.len() == 0),
        r.assumptions.prefill_unmeasured == (crate::fit::under(fit.prefill@, m.backend.name_text()) is None),
        r.assumptions.total_rows == total_rows,
        r.models == models,
{
    let prefill_unmeasured = fit.prefill_scale(m.backend.name()).is_none();
    Report {
        cpu: m.cpu,
        mem: m.mem,
        env: m.env,
        storage: m.storage,
        gpus: m.gpus,
        ram: m.ram,
        compute: m.compute,
        disk: m.disk,
        backend: m.backend,
        ram_bw_gbs: m.hw.ram_bw_gbs,
        vram_bw_gbs: m.hw.vram_bw_gbs,
        vram_bytes: m.hw.vram_bytes,
        disk_gbs: m.hw.disk_gbs,
        budget_idle: m.budget_idle,
        budget_now: m.budget_now,
        assumptions: Assumptions {
            prompt_tokens: PROMPT,
            ubatch: UBATCH,
            kv_precision: kv,
            idle_machine: true,
            uncalibrated: fit.is_empty(),
            prefill_unmeasured,
            total_rows,
        },
        models,
    }
}

/// Two rows that say the same.
pub open spec fn same_row(a: Row, b: Row) -> bool {
    a.model_id@ == b.model_id@ && a.quant@ == b.quant@ && a.prediction == b.prediction
}

/// The rows at the positions.
pub open spec fn are_rows_at(r: Seq<Row>, rows: Seq<Row>, at: Seq<usize>) -> bool {
    &&& r.len() == at.len()
    &&& forall|i: int| 0 <= i < at.len() ==> same_row(#[trigger] r[i], rows[at[i] as int])
}

/// The report with the rows that were asked for. It counts those there were
/// before the cut; all else stays as it is.
pub fn cut(r: Report, all_quants: bool, top: Option<usize>) -> (c: Report)
    ensures
        exists|at: Seq<usize>|
            #[trigger] is_selection(at, r.models@, all_quants, top) && are_rows_at(c.models@, r.models@, at),
        c.assumptions.total_rows as nat == candidates(r.models@, all_quants).len(),
        c == (Report {
            models: c.models,
            assumptions: Assumptions { total_rows: c.assumptions.total_rows, ..r.assumptions },
            ..r
        }),
{
    let chosen = select_rows(&r.models, all_quants, top);
    let mut models: Vec<Row> = Vec::new();
    let mut i: usize = 0;
    while i < chosen.rows.len()
        invariant
            i <= chosen.rows@.len(),
            valid_positions(chosen.rows@, r.models@.len()),
            are_rows_at(models@, r.models@, chosen.rows@.subrange(0, i as int)),
        decreases chosen.rows@.len() - i,
    {
        let row = &r.models[chosen.rows[i]];
        models.push(
            Row {
                model_id: copy(row.model_id.as_str()),
                quant: Quant { name: copy(row.quant.name.as_str()), bytes: row.quant.bytes, family: row.quant.family },
                prediction: row.prediction,
            },
        );
        assert(chosen.rows@.subrange(0, i + 1) =~= chosen.rows@.subrange(0, i as int).push(chosen.rows@[i as int]));
        i += 1;
    }
    assert(chosen.rows@.subrange(0, i as int) =~= chosen.rows@);
    let mut c = r;
    c.models = models;
    c.assumptions.total_rows = chosen.total;
    c
}

// ------------------------------------------------------------------------ laws

proof fn lemma_places(specs: Seq<ModelSpec>, n: nat, i: int, j: int)
    requires
        n <= specs.len(),
        0 <= i < n,
        0 <= j < specs[i].quants@.len(),
    ensures
        places(specs, n).contains((i, j)),
    decreases n,
{
    let m = (n - 1) as nat;
    let tail = Seq::new(specs[n - 1].quants@.len(), |j: int| (n - 1, j));
    let all = places(specs, n);
    if i < m {
        lemma_places(specs, m, i, j);
        let k = choose|k: int| 0 <= k < places(specs, m).len() && places(specs, m)[k] == (i, j);
        assert(all[k] == (i, j));
    } else {
        assert(tail[j] == (i, j));
        assert(all[places(specs, m).len() + j] == (i, j));
    }
}

/// Every quantisation of every model has a row that predicts it.
pub proof fn no_quantisation_goes_unpredicted(r: Seq<Row>, specs: Seq<ModelSpec>, hw: Hardware, kv: KvPrecision, fit: Fit, i: int, j: int)
    requires
        are_rows(r, specs, places(specs, specs.len()), hw, kv, fit),
        0 <= i < specs.len(),
        0 <= j < specs[i].quants@.len(),
    ensures
        exists|k: int|
            0 <= k < r.len() && (#[trigger] r[k]).model_id@ == specs[i]@.id && r[k].quant@ == specs[i].quants@[j]@ && r[k].prediction.is_for(
                specs[i]@,
                specs[i].quants@[j]@,
                hw,
                kv,
                2048,
                512,
                fit,
            ),
{
    let at = places(specs, specs.len());
    lemma_places(specs, specs.len(), i, j);
    let k = choose|k: int| 0 <= k < at.len() && at[k] == (i, j);
    assert(is_row(r[k], specs[at[k].0]@, specs[at[k].0].quants@[at[k].1]@, hw, kv, fit));
}

/// Row `k` is shown by row `b`: itself, or the best version of its model. Where
/// that row is cut off, as many rows are shown as were asked for, and none of
/// them had to come behind it.
pub open spec fn is_shown_by(r: Seq<usize>, rows: Seq<Row>, all_quants: bool, top: Option<usize>, k: int, b: usize) -> bool {
    &&& b < rows.len()
    &&& if all_quants {
        b == k
    } else {
        stands_for(rows[b as int], rows[k])
    }
    &&& r.contains(b) || (top matches Some(n) && r.len() == n && forall|i: int|
        0 <= i < r.len() ==> may_lead(rows[(#[trigger] r[i]) as int].prediction, rows[b as int].prediction, SortKey::Verdict))
}

/// What is shown is the start of all candidates in order.
proof fn lemma_start(r: Seq<usize>, rows: Seq<Row>, all_quants: bool, top: Option<usize>) -> (full: Seq<usize>)
    requires
        is_selection(r, rows, all_quants, top),
        rows.len() <= usize::MAX,
    ensures
        is_ranked(full, rows, candidates(rows, all_quants), SortKey::Verdict),
        candidates(rows, all_quants).len() <= usize::MAX,
        r.len() <= full.len(),
        forall|i: int| 0 <= i < r.len() ==> #[trigger] r[i] == full[i],
        top matches Some(n) ==> r.len() <= n,
{
    let full = choose|full: Seq<usize>|
        #[trigger] is_ranked(full, rows, candidates(rows, all_quants), SortKey::Verdict) && r == (match top {
            Some(n) => if n < full.len() {
                full.subrange(0, n as int)
            } else {
                full
            },
            None => full,
        });
    lemma_no_more_than_there_are(rows, all_positions(rows.len()));
    full
}

/// What is shown is in order, and no more than was asked for.
pub proof fn what_is_shown_is_in_order(r: Seq<usize>, rows: Seq<Row>, all_quants: bool, top: Option<usize>)
    requires
        is_selection(r, rows, all_quants, top),
        rows.len() <= usize::MAX,
    ensures
        forall|i: int, j: int|
            0 <= i < j < r.len() ==> may_lead(
                rows[(#[trigger] r[i]) as int].prediction,
                rows[(#[trigger] r[j]) as int].prediction,
                SortKey::Verdict,
            ),
        top matches Some(n) ==> r.len() <= n,
{
    let full = lemma_start(r, rows, all_quants, top);
    rows_are_listed_in_order(full, rows, candidates(rows, all_quants), SortKey::Verdict);
    assert forall|i: int, j: int| 0 <= i < j < r.len() implies may_lead(
        rows[(#[trigger] r[i]) as int].prediction,
        rows[(#[trigger] r[j]) as int].prediction,
        SortKey::Verdict,
    ) by {
        assert(r[i] == full[i] && r[j] == full[j]);
        assert(may_lead(rows[full[i] as int].prediction, rows[full[j] as int].prediction, SortKey::Verdict));
    }
}

/// Of one row per model none is shown twice.
pub proof fn no_model_is_shown_twice(r: Seq<usize>, rows: Seq<Row>, top: Option<usize>, i: int, j: int)
    requires
        is_selection(r, rows, false, top),
        rows.len() <= usize::MAX,
        0 <= i < r.len() && 0 <= j < r.len() && i != j,
    ensures
        rows[r[i] as int].model_id@ != rows[r[j] as int].model_id@,
{
    let full = lemma_start(r, rows, false, top);
    the_version_kept_runs_best_at_the_largest_size(rows, all_positions(rows.len()));
    assert(r[i] == full[i] && r[j] == full[j]);
    lemma_one_each(rows, candidates(rows, false), full, i, j);
}

/// No row is passed over: it is shown, by itself or by the best version of its
/// model, unless the list is full of what may come before it.
pub proof fn no_row_is_passed_over(r: Seq<usize>, rows: Seq<Row>, all_quants: bool, top: Option<usize>, k: int)
    requires
        is_selection(r, rows, all_quants, top),
        0 <= k < rows.len() <= usize::MAX,
    ensures
        exists|b: usize| #[trigger] is_shown_by(r, rows, all_quants, top, k, b),
{
    let full = choose|full: Seq<usize>|
        #[trigger] is_ranked(full, rows, candidates(rows, all_quants), SortKey::Verdict) && r == (match top {
            Some(n) => if n < full.len() {
                full.subrange(0, n as int)
            } else {
                full
            },
            None => full,
        });
    lemma_no_more_than_there_are(rows, all_positions(rows.len()));
    let b = lemma_shown_by(r, full, rows, all_quants, top, k);
}

proof fn lemma_shown_by(r: Seq<usize>, full: Seq<usize>, rows: Seq<Row>, all_quants: bool, top: Option<usize>, k: int) -> (b: usize)
    requires
        is_ranked(full, rows, candidates(rows, all_quants), SortKey::Verdict),
        candidates(rows, all_quants).len() <= usize::MAX,
        r == (match top {
            Some(n) => if n < full.len() {
                full.subrange(0, n as int)
            } else {
                full
            },
            None => full,
        }),
        rows.len() <= usize::MAX,
        0 <= k < rows.len(),
    ensures
        is_shown_by(r, rows, all_quants, top, k, b),
{
    let idx = candidates(rows, all_quants);
    let all = all_positions(rows.len());
    rows_are_listed_in_order(full, rows, idx, SortKey::Verdict);
    assert(all[k] == k as usize);
    let b = if all_quants {
        k as usize
    } else {
        the_version_kept_runs_best_at_the_largest_size(rows, all);
        let p = choose|p: int| 0 <= p < idx.len() && stands_for(rows[(#[trigger] idx[p]) as int], rows[all[k] as int]);
        assert(all.contains(idx[p]));
        idx[p]
    };
    assert(idx.contains(b)) by {
        if all_quants {
            assert(idx[k] == b);
        }
    }
    let c = choose|c: int| 0 <= c < idx.len() && idx[c] == b;
    assert(full.contains(idx[c]));
    let f = choose|f: int| 0 <= f < full.len() && full[f] == b;
    if f < r.len() {
        assert(r[f] == b);
    } else {
        assert forall|i: int| 0 <= i < r.len() implies may_lead(
            rows[(#[trigger] r[i]) as int].prediction,
            rows[b as int].prediction,
            SortKey::Verdict,
        ) by {
            assert(r[i] == full[i]);
            assert(may_lead(rows[full[i] as int].prediction, rows[full[f] as int].prediction, SortKey::Verdict));
        }
    }
    b
}

proof fn lemma_no_more_than_there_are(rows: Seq<Row>, idx: Seq<usize>)
    ensures
        best_of(rows, idx).len() <= idx.len(),
    decreases idx.len(),
{
    if idx.len() > 0 {
        lemma_no_more_than_there_are(rows, idx.drop_last());
        crate::report::lemma_model_at(rows, best_of(rows, idx.drop_last()), rows[idx.last() as int]);
    }
}

/// A list in order holds no position twice.
proof fn lemma_one_each(rows: Seq<Row>, best: Seq<usize>, full: Seq<usize>, i: int, j: int)
    requires
        is_ranked(full, rows, best, SortKey::Verdict),
        forall|a: int, b: int|
            0 <= a < b < best.len() ==> rows[(#[trigger] best[a]) as int].model_id@ != rows[(#[trigger] best[b]) as int].model_id@,
        0 <= i < full.len() && 0 <= j < full.len() && i != j,
    ensures
        rows[full[i] as int].model_id@ != rows[full[j] as int].model_id@,
{
    let before = crate::report::ranked_before(rows, best, SortKey::Verdict);
    let o = choose|o: Seq<usize>| crate::order::in_order(o, best.len(), before) && full == #[trigger] crate::report::picked(best, o);
    assert(full[i] == best[o[i] as int] && full[j] == best[o[j] as int]);
    if i < j {
        assert(before(o[i] as int, o[j] as int));
    } else {
        assert(before(o[j] as int, o[i] as int));
    }
    let (a, b) = (o[i] as int, o[j] as int);
    if a < b {
        assert(rows[best[a] as int].model_id@ != rows[best[b] as int].model_id@);
    } else {
        assert(rows[best[b] as int].model_id@ != rows[best[a] as int].model_id@);
    }
}

} // verus!
