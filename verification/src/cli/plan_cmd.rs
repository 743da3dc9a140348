//! `zc plan`: what would it take to run this?
//!
//! The inverse of `zc check`: it starts from the model and asks what running it
//! would need. Bandwidth is the unit that governs decode, and anyone can hold
//! it against a spec sheet.

use vstd::prelude::*;
use crate::chars::{
    begins, chars_of, concat3, copy, dec, decimal, join, joined, left, lines, lower, lowered, pad_left, pad_right, parse_unsigned, right, same,
    starts_with, string_of, texts, trim, trimmed, unsigned,
};
use crate::catalog::widened;
use crate::cli::hf::{gib, gib_text};
use crate::cli::machine::Machine;
use crate::double::Double;
use crate::fit::{Coefficient, Confidence, Fit};
use crate::json::at_most;
use crate::kv::KvPrecision;
use crate::predict::{
    needed_bandwidth, plan_eta, plannable, predict_with, prior_of, required_bandwidth_gbs, requirement, Backend, Prediction, Requirement,
};
use crate::report::text::{backend_label, backend_label_text, block, kv_label, kv_label_text, stripped_all};
use crate::report::{context_text, fmt_context, opt_str};
use crate::spec::{ModelSpec, ModelView, Quant};

verus! {

/// The context most people are actually running at.
pub const DEFAULT_CTX: u32 = 4096;

/// The bits of the speed below which a chat is not comfortable: 10 tok/s.
pub const DEFAULT_TPS_BITS: u64 = 0x4024_0000_0000_0000;

pub const UBATCH: u32 = 512;

/// A context as it is written: a number, with a k for thousands of 1024.
pub open spec fn ctx_in(s: Seq<char>) -> Option<nat> {
    let t = trim(s);
    let thousands = t.len() > 0 && (t.last() == 'k' || t.last() == 'K');
    let digits = if thousands { t.drop_last() } else { t };
    match unsigned(digits, u64::MAX as nat) {
        Some(n) => {
            let v = if thousands { n * 1024 } else { n };
            if 0 < v <= u32::MAX {
                Some(v)
            } else {
                None
            }
        },
        None => None,
    }
}

/// Parse `32768`, `32k` or `32K`.
pub fn parse_ctx(s: &str) -> (r: Option<u32>)
    ensures
        match r {
            Some(n) => ctx_in(s@) == Some(n as nat),
            None => ctx_in(s@) is None,
        },
{
    let t = trimmed(s);
    let v = chars_of(t.as_str());
    let n: usize = v.len();
    let thousands = n > 0 && (v[n - 1] == 'k' || v[n - 1] == 'K');
    let digits = string_of(&v, 0, if thousands { n - 1 } else { n });
    assert(digits@ =~= (if thousands { t@.drop_last() } else { t@ }));
    match parse_unsigned(digits.as_str(), u64::MAX) {
        Some(x) => {
            let value: u128 = if thousands { x as u128 * 1024 } else { x as u128 };
            if 0 < value && value <= u32::MAX as u128 {
                Some(value as u32)
            } else {
                None
            }
        },
        None => None,
    }
}

// ------------------------------------------------------------------- resolving

/// The first model of that name, whatever its case.
pub open spec fn exact_match(specs: Seq<ModelSpec>, want: Seq<char>, from: int) -> Option<int>
    decreases specs.len() - from,
{
    if from < 0 || from >= specs.len() {
        None
    } else if lower(specs[from].id@) == lower(want) {
        Some(from)
    } else {
        exact_match(specs, want, from + 1)
    }
}

/// The models whose name starts with the text, whatever its case.
pub open spec fn prefix_matches(specs: Seq<ModelSpec>, want: Seq<char>, n: nat) -> Seq<int>
    decreases n,
{
    if n == 0 {
        Seq::empty()
    } else {
        let rest = prefix_matches(specs, want, (n - 1) as nat);
        if starts_with(lower(specs[n - 1].id@), lower(want)) {
            rest.push(n - 1)
        } else {
            rest
        }
    }
}

/// The names of the first eight.
pub open spec fn first_names(specs: Seq<ModelSpec>, hits: Seq<int>) -> Seq<Seq<char>> {
    Seq::new(if hits.len() <= 8 { hits.len() } else { 8 }, |i: int| specs[hits[i]].id@)
}

/// The one model that is meant, or why none is. An ambiguous name is refused:
/// planning for the wrong model in silence is worse than asking again.
pub open spec fn resolved(specs: Seq<ModelSpec>, want: Seq<char>) -> Result<int, Seq<char>> {
    match exact_match(specs, want, 0) {
        Some(i) => Ok(i),
        None => {
            let hits = prefix_matches(specs, want, specs.len());
            if hits.len() == 1 {
                Ok(hits[0])
            } else if hits.len() == 0 {
                Err(
                    "no catalog model matches '"@ + want
                        + "'. `zc check --all` lists every one,\nand `zc check <hf-repo-id>` answers for a model that is not in it."@,
                )
            } else {
                Err(
                    "'"@ + want + "' matches "@ + dec(hits.len()) + " models: "@ + join(first_names(specs, hits), ", "@) + (
                    if hits.len() > 8 {
                        ", ..."@
                    } else {
                        ""@
                    }),
                )
            }
        },
    }
}

fn find_exact(specs: &Vec<ModelSpec>, want: &str) -> (r: Option<usize>)
    ensures
        match r {
            Some(i) => exact_match(specs@, want@, 0) == Some(i as int) && i < specs@.len(),
            None => exact_match(specs@, want@, 0) is None,
        },
{
    let w = lowered(want);
    let mut i: usize = 0;
    while i < specs.len()
        invariant
            i <= specs@.len(),
            w@ == lower(want@),
            exact_match(specs@, want@, i as int) == exact_match(specs@, want@, 0),
        decreases specs@.len() - i,
    {
        let id = lowered(specs[i].id.as_str());
        if same(id.as_str(), w.as_str()) {
            return Some(i);
        }
        i += 1;
    }
    None
}

fn find_by_prefix(specs: &Vec<ModelSpec>, want: &str) -> (r: Vec<usize>)
    ensures
        widened(r@) == prefix_matches(specs@, want@, specs@.len()),
        forall|k: int| 0 <= k < r@.len() ==> (#[trigger] r@[k]) < specs@.len(),
{
    let w = lowered(want);
    let mut out: Vec<usize> = Vec::new();
    let mut i: usize = 0;
    assert(widened(out@) =~= Seq::<int>::empty());
    while i < specs.len()
        invariant
            i <= specs@.len(),
            w@ == lower(want@),
            widened(out@) == prefix_matches(specs@, want@, i as nat),
            forall|k: int| 0 <= k < out@.len() ==> (#[trigger] out@[k]) < i,
        decreases specs@.len() - i,
    {
        let id = lowered(specs[i].id.as_str());
        let ghost prev = out@;
        if begins(id.as_str(), w.as_str()) {
            out.push(i);
            assert(widened(out@) =~= widened(prev).push(i as int));
        }
        i += 1;
    }
    out
}

/// Find one catalog entry by exact id, else by unique prefix.
pub fn resolve<'a>(specs: &'a Vec<ModelSpec>, want: &str) -> (r: Result<&'a ModelSpec, String>)
    ensures
        match r {
            Ok(s) => resolved(specs@, want@) matches Ok(i) && 0 <= i < specs@.len() && *s == specs@[i],
            Err(e) => resolved(specs@, want@) == Err::<int, Seq<char>>(e@),
        },
{
    if let Some(i) = find_exact(specs, want) {
        return Ok(&specs[i]);
    }
    let hits = find_by_prefix(specs, want);
    let ghost all = widened(hits@);
    assert(all.len() == hits@.len());
    if hits.len() == 1 {
        assert(all[0] == hits@[0]);
        assert(hits@[0] < specs@.len());
        return Ok(&specs[hits[0]]);
    }
    if hits.len() == 0 {
        return Err(
            concat3(
                "no catalog model matches '",
                want,
                "'. `zc check --all` lists every one,\nand `zc check <hf-repo-id>` answers for a model that is not in it.",
            ),
        );
    }
    let shown: usize = if hits.len() <= 8 { hits.len() } else { 8 };
    let mut names: Vec<String> = Vec::new();
    let mut i: usize = 0;
    while i < shown
        invariant
            i <= shown <= hits@.len(),
            shown <= 8,
            all == widened(hits@),
            first_names(specs@, all).len() == shown,
            forall|k: int| 0 <= k < hits@.len() ==> (#[trigger] hits@[k]) < specs@.len(),
            texts(names@) =~= first_names(specs@, all).subrange(0, i as int),
        decreases shown - i,
    {
        assert(hits@[i as int] < specs@.len());
        let ghost prev = names@;
        names.push(copy(specs[hits[i]].id.as_str()));
        assert(texts(names@) =~= texts(prev).push(first_names(specs@, all)[i as int]));
        i += 1;
    }
    assert(first_names(specs@, all).subrange(0, shown as int) =~= first_names(specs@, all));
    let mut e = copy("'");
    e.append(want);
    e.append("' matches ");
    e.append(decimal(hits.len() as u128).as_str());
    e.append(" models: ");
    e.append(joined(&names, ", ").as_str());
    e.append(if hits.len() > 8 { ", ..." } else { "" });
    Err(e)
}

/// A name that is exactly one model's is never ambiguous.
pub proof fn an_exact_name_wins(specs: Seq<ModelSpec>, k: int)
    requires
        0 <= k < specs.len(),
    ensures
        resolved(specs, specs[k].id@) matches Ok(i) && lower(specs[i].id@) == lower(specs[k].id@),
{
    lemma_exact(specs, specs[k].id@, 0, k);
}

proof fn lemma_exact(specs: Seq<ModelSpec>, want: Seq<char>, from: int, k: int)
    requires
        0 <= from <= k < specs.len(),
        lower(specs[k].id@) == lower(want),
    ensures
        exact_match(specs, want, from) matches Some(i) && from <= i <= k && lower(specs[i].id@) == lower(want),
    decreases specs.len() - from,
{
    if lower(specs[from].id@) != lower(want) {
        lemma_exact(specs, want, from + 1, k);
    }
}

// -------------------------------------------------------------------- the plan

/// Why a context cannot be planned for: the model was not trained for it.
pub open spec fn beyond_training(id: Seq<char>, trained: Option<u32>, ctx: nat) -> Option<Seq<char>> {
    match trained {
        Some(t) => if ctx > t {
            Some(
                id + " was trained for "@ + dec(t as nat) + " tokens of context; "@ + dec(ctx) + " is past that."@,
            )
        } else {
            None
        },
        None => None,
    }
}

pub fn check_training(spec: &ModelSpec, ctx: u32) -> (r: Option<String>)
    ensures
        crate::fit::opt_text(r) == beyond_training(spec.id@, spec.n_ctx_train, ctx as nat),
{
    match spec.n_ctx_train {
        Some(t) => if ctx > t {
            let mut o = copy(spec.id.as_str());
            o.append(" was trained for ");
            o.append(decimal(t as u128).as_str());
            o.append(" tokens of context; ");
            o.append(decimal(ctx as u128).as_str());
            o.append(" is past that.");
            Some(o)
        } else {
            None
        },
        None => None,
    }
}

/// The positions of the quantisations of that name, or of all.
pub open spec fn wanted_quants(q: Seq<Quant>, name: Option<Seq<char>>, n: nat) -> Seq<int>
    decreases n,
{
    if n == 0 {
        Seq::empty()
    } else {
        let rest = wanted_quants(q, name, (n - 1) as nat);
        if name matches Some(f) && lower(q[n - 1].name@) != lower(f) {
            rest
        } else {
            rest.push(n - 1)
        }
    }
}

pub fn choose_quants(q: &Vec<Quant>, name: Option<&str>) -> (r: Vec<usize>)
    ensures
        widened(r@) == wanted_quants(q@, opt_str(name), q@.len()),
        forall|k: int| 0 <= k < r@.len() ==> (#[trigger] r@[k]) < q@.len(),
{
    let mut out: Vec<usize> = Vec::new();
    let mut i: usize = 0;
    assert(widened(out@) =~= Seq::<int>::empty());
    while i < q.len()
        invariant
            i <= q@.len(),
            widened(out@) == wanted_quants(q@, opt_str(name), i as nat),
            forall|k: int| 0 <= k < out@.len() ==> (#[trigger] out@[k]) < i,
        decreases q@.len() - i,
    {
        let keep = match name {
            Some(f) => same(lowered(q[i].name.as_str()).as_str(), lowered(f).as_str()),
            None => true,
        };
        let ghost prev = out@;
        if keep {
            out.push(i);
            assert(widened(out@) =~= widened(prev).push(i as int));
        }
        i += 1;
    }
    out
}

pub open spec fn quant_names(q: Seq<Quant>) -> Seq<Seq<char>> {
    q.map_values(|x: Quant| x.name@)
}

/// Why nothing is planned where no quantisation has that name.
pub fn no_quant(spec: &ModelSpec, name: &str) -> (o: String)
    ensures
        o@ == spec.id@ + " has no quantisation named '"@ + name@ + "'. It has: "@ + join(
            quant_names(spec.quants@),
            ", "@,
        ),
{
    let mut names: Vec<String> = Vec::new();
    let mut i: usize = 0;
    while i < spec.quants.len()
        invariant
            i <= spec.quants@.len(),
            texts(names@) =~= quant_names(spec.quants@).subrange(0, i as int),
        decreases spec.quants@.len() - i,
    {
        let ghost prev = names@;
        names.push(copy(spec.quants[i].name.as_str()));
        assert(texts(names@) =~= texts(prev).push(quant_names(spec.quants@)[i as int]));
        i += 1;
    }
    assert(quant_names(spec.quants@).subrange(0, i as int) =~= quant_names(spec.quants@));
    let mut o = copy(spec.id.as_str());
    o.append(" has no quantisation named '");
    o.append(name);
    o.append("'. It has: ");
    o.append(joined(&names, ", ").as_str());
    o
}

/// What this machine makes of a requirement: the speed where it fits, how much
/// it is over where it does not.
pub open spec fn verdict_text(total: nat, budget: nat, low: Double, high: Double) -> Seq<char> {
    if total <= budget {
        "fits, "@ + low.text(0) + "-"@ + high.text(0) + " t/s"@
    } else {
        "over by "@ + gib_text((total - budget) as nat) + " GiB"@
    }
}

pub open spec fn row_of(quant: Seq<char>, weights: nat, kv: nat, total: nat, need_bw: Double, verdict: Seq<char>) -> Seq<char> {
    "  "@ + left(quant, 8) + " "@ + right(gib_text(weights), 8) + " "@ + right(gib_text(kv), 7)
        + " "@ + right(gib_text(total), 8) + "  "@ + right(need_bw.text(0), 7) + " GB/s   "@ + verdict + "\n"@
}

/// One quantisation of a plan. Whether it fits is judged against the context
/// that was asked for.
fn plan_row(quant: &str, req: &Requirement, need_bw: Double, budget: u64, low: Double, high: Double) -> (o: String)
    ensures
        o@ == row_of(
            quant@,
            req.weights as nat,
            req.kv as nat,
            req.total as nat,
            need_bw,
            verdict_text(req.total as nat, budget as nat, low, high),
        ),
{
    let verdict = if req.total <= budget {
        let mut v = copy("fits, ");
        v.append(low.fixed(0).as_str());
        v.append("-");
        v.append(high.fixed(0).as_str());
        v.append(" t/s");
        v
    } else {
        concat3("over by ", gib(req.total - budget).as_str(), " GiB")
    };
    let mut o = copy("  ");
    o.append(pad_right(quant, 8).as_str());
    o.append(" ");
    o.append(pad_left(gib(req.weights).as_str(), 8).as_str());
    o.append(" ");
    o.append(pad_left(gib(req.kv).as_str(), 7).as_str());
    o.append(" ");
    o.append(pad_left(gib(req.total).as_str(), 8).as_str());
    o.append("  ");
    o.append(pad_left(need_bw.fixed(0).as_str(), 7).as_str());
    o.append(" GB/s   ");
    o.append(verdict.as_str());
    o.append("\n");
    o
}

pub open spec fn head_text(id: Seq<char>, ctx: nat, kv: KvPrecision, tps: Double, budget: nat, bw: Double, b: Backend) -> Seq<char> {
    "== plan ==  "@ + id + " at "@ + context_text(ctx) + " context, KV "@ + kv_label_text(kv) + ", target "@ + tps.text(0)
        + " tok/s\n\n  this machine   "@ + gib_text(budget) + " GiB budget, "@ + bw.text(0) + " GB/s measured, "@
        + backend_label_text(b)
        + "\n\n  quant     weights      KV    total         needs   on this machine\n"@
}

/// What is planned for, and on what.
fn plan_head(id: &str, ctx: u32, kv: KvPrecision, tps: Double, budget: u64, bw: Double, b: Backend) -> (o: String)
    ensures
        o@ == head_text(id@, ctx as nat, kv, tps, budget as nat, bw, b),
{
    let mut o = copy("== plan ==  ");
    o.append(id);
    o.append(" at ");
    o.append(fmt_context(ctx).as_str());
    o.append(" context, KV ");
    o.append(kv_label(kv));
    o.append(", target ");
    o.append(tps.fixed(0).as_str());
    o.append(" tok/s\n\n  this machine   ");
    o.append(gib(budget).as_str());
    o.append(" GiB budget, ");
    o.append(bw.fixed(0).as_str());
    o.append(" GB/s measured, ");
    o.append(backend_label(b));
    o.append("\n\n  quant     weights      KV    total         needs   on this machine\n");
    o
}

pub open spec fn foot_text(tps: Double, eta: Double, confidence: Confidence) -> Seq<char> {
    "\n  GiB is memory, however it is provided -- RAM, VRAM or unified.\n  'needs' is the bandwidth for "@ + tps.text(0)
        + " tok/s at eta "@ + eta.text(3) + ", "@ + confidence.label_text()
        + " confidence.\n  Bandwidth is checkable against a spec sheet. A GPU model name\n  would be a lookup, and this tool puts no lookup under a number.\n"@
}

/// Where the bandwidth came from.
fn plan_foot(tps: Double, eta: Double, confidence: Confidence) -> (o: String)
    ensures
        o@ == foot_text(tps, eta, confidence),
{
    let mut o = copy(
        "\n  GiB is memory, however it is provided -- RAM, VRAM or unified.\n  'needs' is the bandwidth for ",
    );
    o.append(tps.fixed(0).as_str());
    o.append(" tok/s at eta ");
    o.append(eta.fixed(3).as_str());
    o.append(", ");
    o.append(confidence.label());
    o.append(
        " confidence.\n  Bandwidth is checkable against a spec sheet. A GPU model name\n  would be a lookup, and this tool puts no lookup under a number.\n",
    );
    o
}

/// What is computed of one quantisation: its position, the bandwidth the
/// target needs, and the speed predicted here.
#[derive(Debug, Clone, Copy)]
pub struct Planned {
    pub quant: usize,
    pub need_bw: Double,
    pub low: Double,
    pub high: Double,
}

/// What a quantisation needs at a context.
pub open spec fn requirement_of(spec: ModelView, bytes: nat, ctx: nat, kv: KvPrecision) -> (nat, nat, nat) {
    let k = spec.kv_bytes(ctx, kv);
    (bytes, k, at_most(bytes + k + spec.buffer_bytes(UBATCH as nat), u64::MAX as nat))
}

/// A row by its numbers.
pub open spec fn planned_text(spec: ModelView, p: Planned, ctx: nat, kv: KvPrecision, budget: nat) -> Seq<char> {
    let q = spec.quants[p.quant as int];
    let (weights, k, total) = requirement_of(spec, q.bytes, ctx, kv);
    row_of(q.name, weights, k, total, p.need_bw, verdict_text(total, budget, p.low, p.high))
}

pub open spec fn planned_rows(spec: ModelView, rows: Seq<Planned>, ctx: nat, kv: KvPrecision, budget: nat) -> Seq<char>
    decreases rows.len(),
{
    if rows.len() == 0 {
        Seq::empty()
    } else {
        planned_rows(spec, rows.drop_last(), ctx, kv, budget) + planned_text(spec, rows.last(), ctx, kv, budget)
    }
}

/// The whole plan. The footer speaks of one coefficient, that of the first
/// quantisation planned for.
pub fn plan_text(
    spec: &ModelSpec,
    rows: &Vec<Planned>,
    ctx: u32,
    kv: KvPrecision,
    tps: Double,
    budget: u64,
    bw: Double,
    backend: Backend,
    shown: &Coefficient,
) -> (o: String)
    requires
        spec@.kv_countable(),
        spec@.buffer_bytes(UBATCH as nat) <= u64::MAX,
        forall|i: int| 0 <= i < rows@.len() ==> (#[trigger] rows@[i]).quant < spec.quants@.len(),
    ensures
        o@ == head_text(spec.id@, ctx as nat, kv, tps, budget as nat, bw, backend) + planned_rows(
            spec@,
            rows@,
            ctx as nat,
            kv,
            budget as nat,
        ) + foot_text(tps, shown.eta, shown.confidence),
{
    let mut body = String::new();
    let mut i: usize = 0;
    assert(rows@.subrange(0, 0) =~= Seq::<Planned>::empty());
    while i < rows.len()
        invariant
            i <= rows@.len(),
            spec@.kv_countable(),
            spec@.buffer_bytes(UBATCH as nat) <= u64::MAX,
            forall|i: int| 0 <= i < rows@.len() ==> (#[trigger] rows@[i]).quant < spec.quants@.len(),
            body@ == planned_rows(spec@, rows@.subrange(0, i as int), ctx as nat, kv, budget as nat),
        decreases rows@.len() - i,
    {
        assert(rows@.subrange(0, i + 1).drop_last() =~= rows@.subrange(0, i as int));
        assert(rows@[i as int].quant < spec.quants@.len());
        let p = rows[i];
        let q = &spec.quants[p.quant];
        assert(spec@.quants[p.quant as int] == q@);
        let req = requirement(spec, q, ctx, kv, UBATCH);
        let line = plan_row(q.name.as_str(), &req, p.need_bw, budget, p.low, p.high);
        body.append(line.as_str());
        i += 1;
    }
    assert(rows@.subrange(0, i as int) =~= rows@);
    concat3(
        plan_head(spec.id.as_str(), ctx, kv, tps, budget, bw, backend).as_str(),
        body.as_str(),
        plan_foot(tps, shown.eta, shown.confidence).as_str(),
    )
}

/// The row is what the model says of the quantisation at `at`: the bandwidth
/// that the target needs, and the speed that is predicted on this machine.
pub open spec fn is_planned(p: Planned, spec: ModelView, at: int, m: Machine, fit: Fit, kv: KvPrecision, ctx: nat, tps: Double) -> bool {
    let q = spec.quants[at];
    let eta = fit.coefficient(m.backend.name_text(), q.family, prior_of(q.family)).eta;
    &&& p.quant == at
    &&& p.need_bw == needed_bandwidth(spec.active_bytes(q.bytes), tps, eta)
    &&& exists|r: Prediction| #[trigger]
        r.is_for(spec, q, m.hw, kv, at_most(ctx, 2048), UBATCH as nat, fit) && r.decode_tok_s == (p.low, p.high)
}

pub open spec fn are_planned(
    rows: Seq<Planned>,
    spec: ModelView,
    at: Seq<int>,
    m: Machine,
    fit: Fit,
    kv: KvPrecision,
    ctx: nat,
    tps: Double,
) -> bool {
    &&& rows.len() == at.len()
    &&& forall|i: int| 0 <= i < at.len() ==> is_planned(#[trigger] rows[i], spec, at[i], m, fit, kv, ctx, tps)
}

/// A plan that is not made: why, and how the command ends.
pub struct Refusal {
    pub message: String,
    pub code: i32,
}

/// Why no plan is made, if none is.
pub open spec fn refused(specs: Seq<ModelSpec>, model: Seq<char>, ctx: nat, quant: Option<Seq<char>>) -> Option<(Seq<char>, int)> {
    match resolved(specs, model) {
        Err(e) => Some((e, 1)),
        Ok(i) => match beyond_training(specs[i].id@, specs[i].n_ctx_train, ctx) {
            Some(e) => Some((e, 2)),
            None => if wanted_quants(specs[i].quants@, quant, specs[i].quants@.len()).len() == 0 {
                Some(
                    (
                        specs[i].id@ + " has no quantisation named '"@ + (match quant {
                            Some(f) => f,
                            None => ""@,
                        }) + "'. It has: "@ + join(quant_names(specs[i].quants@), ", "@),
                        1,
                    ),
                )
            } else {
                None
            },
        },
    }
}

/// The plan for a model, as it is printed.
pub open spec fn is_plan(
    text: Seq<char>,
    spec: ModelSpec,
    m: Machine,
    fit: Fit,
    kv: KvPrecision,
    ctx: nat,
    quant: Option<Seq<char>>,
    tps: Double,
) -> bool {
    let at = wanted_quants(spec.quants@, quant, spec.quants@.len());
    let first = spec@.quants[at[0]].family;
    let shown = fit.coefficient(m.backend.name_text(), first, prior_of(first));
    exists|rows: Seq<Planned>| #[trigger]
        are_planned(rows, spec@, at, m, fit, kv, ctx, tps) && text == stripped_all(
            lines(
                head_text(spec.id@, ctx, kv, tps, m.budget_idle as nat, m.hw.ram_bw_gbs, m.backend) + planned_rows(
                    spec@,
                    rows,
                    ctx,
                    kv,
                    m.budget_idle as nat,
                ) + foot_text(tps, shown.eta, shown.confidence),
            ),
        )
}

fn plan_rows(spec: &ModelSpec, at: &Vec<usize>, m: &Machine, fit: &Fit, kv: KvPrecision, ctx: u32, tps: Double) -> (r: Vec<Planned>)
    requires
        plannable(spec@, kv, UBATCH as nat),
        forall|k: int| 0 <= k < at@.len() ==> (#[trigger] at@[k]) < spec.quants@.len(),
    ensures
        are_planned(r@, spec@, widened(at@), *m, *fit, kv, ctx as nat, tps),
{
    let prompt: u32 = if ctx <= 2048 { ctx } else { 2048 };
    let mut rows: Vec<Planned> = Vec::new();
    let mut i: usize = 0;
    while i < at.len()
        invariant
            i <= at@.len(),
            prompt as nat == at_most(ctx as nat, 2048),
            plannable(spec@, kv, UBATCH as nat),
            forall|k: int| 0 <= k < at@.len() ==> (#[trigger] at@[k]) < spec.quants@.len(),
            rows@.len() == i,
            forall|k: int| 0 <= k < i ==> is_planned(#[trigger] rows@[k], spec@, widened(at@)[k], *m, *fit, kv, ctx as nat, tps),
        decreases at@.len() - i,
    {
        assert(at@[i as int] < spec.quants@.len());
        let q = &spec.quants[at[i]];
        assert(spec@.quants[at@[i as int] as int] == q@);
        let coef = plan_eta(fit, m.backend, q);
        let need_bw = required_bandwidth_gbs(spec, q, tps, coef.eta);
        let p = predict_with(spec, q, &m.hw, kv, prompt, UBATCH, fit);
        let row = Planned { quant: at[i], need_bw, low: p.decode_tok_s.0, high: p.decode_tok_s.1 };
        proof {
            assert(p.is_for(spec@, q@, m.hw, kv, at_most(ctx as nat, 2048), UBATCH as nat, *fit));
            assert(p.decode_tok_s == (row.low, row.high));
            assert(widened(at@)[i as int] == at@[i as int]);
            assert(is_planned(row, spec@, widened(at@)[i as int], *m, *fit, kv, ctx as nat, tps));
        }
        rows.push(row);
        i += 1;
    }
    rows
}

/// Plan for a model of the catalog. Whether it fits is judged at the context
/// that was asked for.
pub fn run(
    m: &Machine,
    fit: &Fit,
    kv: KvPrecision,
    specs: &Vec<ModelSpec>,
    model: &str,
    ctx: Option<u32>,
    quant: Option<&str>,
    target_tps: Option<Double>,
) -> (r: Result<String, Refusal>)
    requires
        forall|i: int| 0 <= i < specs@.len() ==> plannable((#[trigger] specs@[i])@, kv, UBATCH as nat),
    ensures
        ({
            let c: nat = (match ctx {
                Some(n) => n,
                None => DEFAULT_CTX,
            }) as nat;
            let tps = match target_tps {
                Some(t) => t,
                None => Double { bits: DEFAULT_TPS_BITS },
            };
            match refused(specs@, model@, c, opt_str(quant)) {
                Some(why) => r matches Err(e) && e.message@ == why.0 && e.code == why.1,
                None => r matches Ok(t) && resolved(specs@, model@) matches Ok(i) && is_plan(
                    t@,
                    specs@[i],
                    *m,
                    *fit,
                    kv,
                    c,
                    opt_str(quant),
                    tps,
                ),
            }
        }),
{
    let spec = match resolve(specs, model) {
        Ok(s) => s,
        Err(message) => return Err(Refusal { message, code: 1 }),
    };
    let ghost k = resolved(specs@, model@)->Ok_0;
    assert(plannable(specs@[k]@, kv, UBATCH as nat));
    let c: u32 = match ctx {
        Some(n) => n,
        None => DEFAULT_CTX,
    };
    let tps = match target_tps {
        Some(t) => t,
        None => Double { bits: DEFAULT_TPS_BITS },
    };
    if let Some(message) = check_training(spec, c) {
        return Err(Refusal { message, code: 2 });
    }
    let at = choose_quants(&spec.quants, quant);
    assert(widened(at@).len() == at@.len());
    if at.len() == 0 {
        let message = no_quant(
            spec,
            match quant {
                Some(f) => f,
                None => "",
            },
        );
        return Err(Refusal { message, code: 1 });
    }
    let rows = plan_rows(spec, &at, m, fit, kv, c, tps);
    proof {
        assert forall|i: int| 0 <= i < rows@.len() implies (#[trigger] rows@[i]).quant < spec.quants@.len() by {
            assert(is_planned(rows@[i], spec@, widened(at@)[i], *m, *fit, kv, c as nat, tps));
            assert(widened(at@)[i] == at@[i]);
            assert(at@[i] < spec.quants@.len());
        }
        assert(widened(at@)[0] == at@[0]);
        assert(at@[0] < spec.quants@.len());
        assert(spec@.quants[at@[0] as int] == spec.quants@[at@[0] as int]@);
    }
    let shown = plan_eta(fit, m.backend, &spec.quants[at[0]]);
    let o = plan_text(spec, &rows, c, kv, tps, m.budget_idle, m.hw.ram_bw_gbs, m.backend, &shown);
    let text = block(o.as_str());
    assert(are_planned(rows@, spec@, widened(at@), *m, *fit, kv, c as nat, tps));
    assert(is_plan(text@, *spec, *m, *fit, kv, c as nat, opt_str(quant), tps));
    Ok(text)
}

} // verus!
