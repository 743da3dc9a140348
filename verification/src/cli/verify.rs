//! `zc verify`: which runtime and which model a real run is made with, and how
//! it compares.

use vstd::prelude::*;
use crate::chars::{begins, concat2, concat3, copy, dec, decimal, left, pad_left, pad_right, right, same, starts_with, texts};
use crate::cli::hf::{gib, gib_text};
use crate::cli::machine::{profile_text, Machine};
use crate::double::Double;
use crate::kv::KvPrecision;
use crate::predict::Prediction;
use crate::probe::env::{virt_tag_text, virt_view};
use crate::runtime::calibrate::{fingerprint, fingerprint_text, record_line, record_text, Calibration};
use crate::runtime::{installed_views, InstalledModel, InstalledView, RunStats};
use crate::spec::{ModelSpec, ModelView};

verus! {

/// Enough tokens for the rate to stabilise past the first-token transient.
pub const NUM_PREDICT: u32 = 128;

pub const NUM_CTX: u32 = 4096;

/// Approximate token count of the measurement prompt.
pub const PROMPT_TOKENS: u32 = 1200;

/// A runtime that is listening.
pub struct Seen {
    pub name: String,
    pub endpoint: String,
    /// Whether it reports its own split of prefill and decode.
    pub calibratable: bool,
}

/// The first runtime of that name.
pub open spec fn named(found: Seq<Seen>, name: Seq<char>, from: int) -> Option<int>
    decreases found.len() - from,
{
    if from < 0 || from >= found.len() {
        None
    } else if found[from].name@ == name {
        Some(from)
    } else {
        named(found, name, from + 1)
    }
}

/// The first runtime that can be calibrated from.
pub open spec fn usable(found: Seq<Seen>, from: int) -> Option<int>
    decreases found.len() - from,
{
    if from < 0 || from >= found.len() {
        None
    } else if found[from].calibratable {
        Some(from)
    } else {
        usable(found, from + 1)
    }
}

pub open spec fn unfit_text(s: Seen) -> Seq<char> {
    s.name@ + " is running at "@ + s.endpoint@
        + " but does not report its own prefill/decode\ntimings, so any measurement would include HTTP and scheduling\noverhead. It cannot produce calibration data."@
}

pub open spec fn nothing_text() -> Seq<char> {
    "No usable runtime found.\n\nzc verify needs a real model to measure against, from a runtime that\nreports its own timings. Any of these will do:\n    ollama serve                     (127.0.0.1:11434, OLLAMA_HOST)\n    llama-server -m model.gguf       (127.0.0.1:8080,  LLAMA_SERVER_HOST)\n    LM Studio, local server enabled  (127.0.0.1:1234,  LMSTUDIO_HOST)\n\nThen run `zc verify` again."@
}

/// The runtime to measure with, or why there is none. "Usable" is narrower
/// than "present": one that reports no timings of its own is seen and refused.
pub open spec fn chosen_runtime(found: Seq<Seen>, wanted: Option<Seq<char>>) -> Result<int, Seq<char>> {
    match wanted {
        Some(name) => match named(found, name, 0) {
            Some(i) => if found[i].calibratable {
                Ok(i)
            } else {
                Err(unfit_text(found[i]))
            },
            None => Err("No runtime named '"@ + name + "' is running."@),
        },
        None => match usable(found, 0) {
            Some(i) => Ok(i),
            None => Err(nothing_text()),
        },
    }
}

fn find_named(found: &Vec<Seen>, name: &str) -> (r: Option<usize>)
    ensures
        match r {
            Some(i) => named(found@, name@, 0) == Some(i as int) && i < found@.len(),
            None => named(found@, name@, 0) is None,
        },
{
    let mut i: usize = 0;
    while i < found.len()
        invariant
            i <= found@.len(),
            named(found@, name@, i as int) == named(found@, name@, 0),
        decreases found@.len() - i,
    {
        if same(found[i].name.as_str(), name) {
            return Some(i);
        }
        i += 1;
    }
    None
}

fn find_usable(found: &Vec<Seen>) -> (r: Option<usize>)
    ensures
        match r {
            Some(i) => usable(found@, 0) == Some(i as int) && i < found@.len(),
            None => usable(found@, 0) is None,
        },
{
    let mut i: usize = 0;
    while i < found.len()
        invariant
            i <= found@.len(),
            usable(found@, i as int) == usable(found@, 0),
        decreases found@.len() - i,
    {
        if found[i].calibratable {
            return Some(i);
        }
        i += 1;
    }
    None
}

/// Confirm that a usable runtime is reachable before the user sits through the
/// benchmark.
pub fn precheck(found: &Vec<Seen>, wanted: Option<&str>) -> (r: Result<usize, String>)
    ensures
        match r {
            Ok(i) => chosen_runtime(found@, crate::report::opt_str(wanted)) == Ok::<int, Seq<char>>(i as int) && i
                < found@.len(),
            Err(e) => chosen_runtime(found@, crate::report::opt_str(wanted)) == Err::<int, Seq<char>>(e@),
        },
{
    match wanted {
        Some(name) => match find_named(found, name) {
            Some(i) => if found[i].calibratable {
                Ok(i)
            } else {
                let mut e = copy(found[i].name.as_str());
                e.append(" is running at ");
                e.append(found[i].endpoint.as_str());
                e.append(
                    " but does not report its own prefill/decode\ntimings, so any measurement would include HTTP and scheduling\noverhead. It cannot produce calibration data.",
                );
                Err(e)
            },
            None => Err(concat3("No runtime named '", name, "' is running.")),
        },
        None => match find_usable(found) {
            Some(i) => Ok(i),
            None => Err(
                copy(
                    "No usable runtime found.\n\nzc verify needs a real model to measure against, from a runtime that\nreports its own timings. Any of these will do:\n    ollama serve                     (127.0.0.1:11434, OLLAMA_HOST)\n    llama-server -m model.gguf       (127.0.0.1:8080,  LLAMA_SERVER_HOST)\n    LM Studio, local server enabled  (127.0.0.1:1234,  LMSTUDIO_HOST)\n\nThen run `zc verify` again.",
                ),
            ),
        },
    }
}

/// The runtimes that are passed over, with a note each.
pub open spec fn skipped_notes(found: Seq<Seen>, n: nat) -> Seq<Seq<char>>
    decreases n,
{
    if n == 0 {
        Seq::empty()
    } else {
        let rest = skipped_notes(found, (n - 1) as nat);
        if found[n - 1].calibratable {
            rest
        } else {
            rest.push(
                "  note: "@ + found[n - 1].name@ + " at "@ + found[n - 1].endpoint@
                    + " cannot report a prefill/decode split - skipping it"@,
            )
        }
    }
}

pub fn notes(found: &Vec<Seen>) -> (r: Vec<String>)
    ensures
        texts(r@) == skipped_notes(found@, found@.len()),
{
    let mut out: Vec<String> = Vec::new();
    let mut i: usize = 0;
    assert(texts(out@) =~= skipped_notes(found@, 0));
    while i < found.len()
        invariant
            i <= found@.len(),
            texts(out@) == skipped_notes(found@, i as nat),
        decreases found@.len() - i,
    {
        let ghost prev = out@;
        if !found[i].calibratable {
            let mut o = copy("  note: ");
            o.append(found[i].name.as_str());
            o.append(" at ");
            o.append(found[i].endpoint.as_str());
            o.append(" cannot report a prefill/decode split - skipping it");
            out.push(o);
            assert(texts(out@) =~= texts(prev).push(o@));
        }
        i += 1;
    }
    out
}

// ------------------------------------------------------------------- the model

/// The first model whose name starts with the text.
pub open spec fn model_named(m: Seq<InstalledView>, name: Seq<char>, from: int) -> Option<int>
    decreases m.len() - from,
{
    if from < 0 || from >= m.len() {
        None
    } else if starts_with(m[from].name, name) {
        Some(from)
    } else {
        model_named(m, name, from + 1)
    }
}

/// The first of the smallest models of known size.
pub open spec fn smallest(m: Seq<InstalledView>, n: nat) -> Option<int>
    decreases n,
{
    if n == 0 {
        None
    } else {
        let rest = smallest(m, (n - 1) as nat);
        if m[n - 1].size_bytes == 0 {
            rest
        } else {
            match rest {
                Some(k) => if m[n - 1].size_bytes < m[k].size_bytes {
                    Some(n - 1)
                } else {
                    rest
                },
                None => Some(n - 1),
            }
        }
    }
}

/// The model to measure: the one that is asked for, or the smallest, which is
/// the fastest to measure and the most likely to fit; where no size is known,
/// the first.
pub open spec fn chosen_model(m: Seq<InstalledView>, wanted: Option<Seq<char>>) -> Option<int> {
    match wanted {
        Some(name) => model_named(m, name, 0),
        None => match smallest(m, m.len()) {
            Some(k) => Some(k),
            None => if m.len() > 0 {
                Some(0)
            } else {
                None
            },
        },
    }
}

fn find_smallest(m: &Vec<InstalledModel>) -> (r: Option<usize>)
    ensures
        match r {
            Some(k) => smallest(installed_views(m@), m@.len()) == Some(k as int) && k < m@.len(),
            None => smallest(installed_views(m@), m@.len()) is None,
        },
{
    let ghost all = installed_views(m@);
    let mut best: Option<usize> = None;
    let mut i: usize = 0;
    while i < m.len()
        invariant
            i <= m@.len(),
            all == installed_views(m@),
            match best {
                Some(k) => smallest(all, i as nat) == Some(k as int) && k < i,
                None => smallest(all, i as nat) is None,
            },
        decreases m@.len() - i,
    {
        assert(all[i as int] == m@[i as int]@);
        if m[i].size_bytes > 0 {
            best = match best {
                Some(k) => {
                    assert(all[k as int] == m@[k as int]@);
                    if m[i].size_bytes < m[k].size_bytes {
                        Some(i)
                    } else {
                        Some(k)
                    }
                },
                None => Some(i),
            };
        }
        i += 1;
    }
    best
}

/// Which of the installed models to measure.
pub fn choose_model(m: &Vec<InstalledModel>, wanted: Option<&str>) -> (r: Option<usize>)
    ensures
        match r {
            Some(k) => chosen_model(installed_views(m@), crate::report::opt_str(wanted)) == Some(k as int) && k < m@.len(),
            None => chosen_model(installed_views(m@), crate::report::opt_str(wanted)) is None,
        },
{
    let ghost all = installed_views(m@);
    assert(all.len() == m@.len());
    match wanted {
        Some(name) => {
            let mut i: usize = 0;
            while i < m.len()
                invariant
                    i <= m@.len(),
                    all == installed_views(m@),
                    all.len() == m@.len(),
                    wanted == Some(name),
                    model_named(all, name@, i as int) == model_named(all, name@, 0),
                decreases m@.len() - i,
            {
                assert(all[i as int] == m@[i as int]@);
                if begins(m[i].name.as_str(), name) {
                    return Some(i);
                }
                i += 1;
            }
            None
        },
        None => match find_smallest(m) {
            Some(k) => Some(k),
            None => if m.len() > 0 {
                Some(0)
            } else {
                None
            },
        },
    }
}

// ------------------------------------------------------------------- the texts

pub open spec fn available_rows(m: Seq<InstalledView>) -> Seq<char>
    decreases m.len(),
{
    if m.len() == 0 {
        Seq::empty()
    } else {
        available_rows(m.drop_last()) + ("    "@ + m.last().name + "  ("@ + Double::in_billions(m.last().size_bytes).text(2)
            + " GiB)\n"@)
    }
}

/// That no installed model has the name, and which ones there are.
pub fn no_model(name: &str, m: &Vec<InstalledModel>) -> (o: String)
    ensures
        o@ == "No installed model matches '"@ + name@ + "'. Available:\n"@ + available_rows(installed_views(m@)),
{
    let ghost all = installed_views(m@);
    let mut list = String::new();
    let mut i: usize = 0;
    assert(all.subrange(0, 0) =~= Seq::<InstalledView>::empty());
    while i < m.len()
        invariant
            i <= m@.len(),
            all == installed_views(m@),
            all.len() == m@.len(),
            list@ == available_rows(all.subrange(0, i as int)),
        decreases m@.len() - i,
    {
        assert(all.subrange(0, i + 1).drop_last() =~= all.subrange(0, i as int));
        assert(all.subrange(0, i + 1).last() == m@[i as int]@);
        let mut l = copy("    ");
        l.append(m[i].name.as_str());
        l.append("  (");
        l.append(Double::billions(m[i].size_bytes).fixed(2).as_str());
        l.append(" GiB)\n");
        list.append(l.as_str());
        i += 1;
    }
    assert(all.subrange(0, i as int) =~= all);
    let mut o = copy("No installed model matches '");
    o.append(name);
    o.append("'. Available:\n");
    o.append(list.as_str());
    o
}

/// That a model's geometry is not known, so nothing can be predicted of it.
pub fn no_geometry(runtime: &str, model: &str) -> (o: String)
    ensures
        o@ == runtime@ + " does not describe "@ + model@
            + " and it matches no catalog entry, so its\nKV geometry is unknown. Guessing it would produce a confident\nwrong prediction, which is worse than none."@,
{
    let mut o = copy(runtime);
    o.append(" does not describe ");
    o.append(model);
    o.append(
        " and it matches no catalog entry, so its\nKV geometry is unknown. Guessing it would produce a confident\nwrong prediction, which is worse than none.",
    );
    o
}

/// What a model is made of: its experts, or that it is dense.
pub open spec fn make_text(m: ModelView) -> Seq<char> {
    let active_b = Double::in_billions(m.active());
    let params_b = Double::in_billions(m.params);
    match m.moe {
        Some(m) => "MoE "@ + dec(m.n_expert as nat) + "x top-"@ + dec(m.n_active as nat) + " ("@ + active_b.text(2)
            + "B active of "@ + params_b.text(1) + "B)"@,
        None => "dense "@ + params_b.text(1) + "B"@,
    }
}

/// What is measured, and with what.
pub fn head(runtime: &Seen, model: &InstalledModel, spec: &ModelSpec, quant: &str) -> (o: String)
    requires
        spec@.active() <= u64::MAX,
    ensures
        o@ == "== verify ==\n  runtime      "@ + runtime.name@ + " at "@ + runtime.endpoint@ + "\n  model        "@
            + model.name@ + "   "@ + quant@ + "   "@ + gib_text(model.size_bytes as nat) + " GiB\n  spec         "@ + dec(
            spec.n_layers as nat,
        ) + "L  n_embd "@ + dec(spec.n_embd as nat) + "  vocab "@ + dec(spec.n_vocab as nat) + "  "@ + make_text(spec@) + "\n"@,
{
    let params_b = Double::billions(spec.params);
    let make = match &spec.moe {
        Some(m) => {
            let mut t = copy("MoE ");
            t.append(decimal(m.n_expert as u128).as_str());
            t.append("x top-");
            t.append(decimal(m.n_active as u128).as_str());
            t.append(" (");
            t.append(Double::billions(spec.active_params()).fixed(2).as_str());
            t.append("B active of ");
            t.append(params_b.fixed(1).as_str());
            t.append("B)");
            t
        },
        None => concat3("dense ", params_b.fixed(1).as_str(), "B"),
    };
    let mut o = copy("== verify ==\n  runtime      ");
    o.append(runtime.name.as_str());
    o.append(" at ");
    o.append(runtime.endpoint.as_str());
    o.append("\n  model        ");
    o.append(model.name.as_str());
    o.append("   ");
    o.append(quant);
    o.append("   ");
    o.append(gib(model.size_bytes).as_str());
    o.append(" GiB\n  spec         ");
    o.append(decimal(spec.n_layers as u128).as_str());
    o.append("L  n_embd ");
    o.append(decimal(spec.n_embd as u128).as_str());
    o.append("  vocab ");
    o.append(decimal(spec.n_vocab as u128).as_str());
    o.append("  ");
    o.append(make.as_str());
    o.append("\n");
    o
}

/// Whether the truth landed in the range, and by how much it did not.
pub open spec fn hit_text(cal: Calibration) -> Seq<char> {
    if cal.within_range {
        "HIT"@
    } else {
        "MISS ("@ + signed_whole(cal.error_pct) + "%)"@
    }
}

/// A percentage with its sign, whichever it is.
pub open spec fn signed_whole(d: Double) -> Seq<char> {
    if d.nan() || d.negative() {
        d.text(0)
    } else {
        "+"@ + d.text(0)
    }
}

fn hit(cal: &Calibration) -> (o: String)
    ensures
        o@ == hit_text(*cal),
{
    if cal.within_range {
        return copy("HIT");
    }
    let e = cal.error_pct;
    let signed = if e.is_nan() || e.is_negative() {
        e.fixed(0)
    } else {
        concat2("+", e.fixed(0).as_str())
    };
    concat3("MISS (", signed.as_str(), "%)")
}

/// A line of the comparison: what was predicted, what came, and a remark.
pub open spec fn line_text(what: Seq<char>, predicted: Seq<char>, actual: Seq<char>, remark: Seq<char>) -> Seq<char> {
    "  "@ + left(what, 12) + " "@ + right(predicted, 18) + " "@ + right(actual, 15) + "   "@ + remark + "\n"@
}

fn line(what: &str, predicted: &str, actual: &str, remark: &str) -> (o: String)
    ensures
        o@ == line_text(what@, predicted@, actual@, remark@),
{
    let mut o = copy("  ");
    o.append(pad_right(what, 12).as_str());
    o.append(" ");
    o.append(pad_left(predicted, 18).as_str());
    o.append(" ");
    o.append(pad_left(actual, 15).as_str());
    o.append("   ");
    o.append(remark);
    o.append("\n");
    o
}

pub open spec fn prefill_text(p: Option<Double>) -> Seq<char> {
    match p {
        Some(d) => d.text(0) + " tok/s"@,
        None => "not yet measured"@,
    }
}

/// The bits of 0.999: a fraction below it is not the whole.
pub const NEARLY_ALL_BITS: u64 = 0x3FEF_F7CE_D916_872B;

/// That part of the model streamed, where it did.
pub open spec fn streaming_text(pred: Prediction) -> Seq<char> {
    if pred.resident_fraction.below(Double { bits: NEARLY_ALL_BITS }) {
        "\n  note: predicted only "@ + pred.resident_fraction.in_percent().text(0) + "% resident, so this also exercises the streaming path\n"@
    } else {
        ""@
    }
}

/// The comparison of a prediction and a run.
pub open spec fn comparison_text(pred: Prediction, cal: Calibration) -> Seq<char> {
    "\n  "@ + left(""@, 12) + " "@ + right("predicted"@, 18) + "  "@ + right("actual"@, 16) + "\n"@ + line_text(
        "decode"@,
        pred.decode_tok_s.0.text(1) + "-"@ + pred.decode_tok_s.1.text(1) + " tok/s"@,
        cal.actual.text(1),
        hit_text(cal),
    ) + line_text(
        "prefill"@,
        prefill_text(pred.prefill_tok_s),
        cal.actual_prefill_tok_s.text(1),
        "scale "@ + cal.implied_prefill_scale.text(2) + "x vs f32 peak"@,
    ) + line_text(
        "eta"@,
        "assumed "@ + cal.assumed_eta.text(3),
        cal.implied_eta.text(3),
        "<- the calibration constant"@,
    ) + streaming_text(pred)
}

/// What was predicted beside what came.
pub fn comparison(pred: &Prediction, cal: &Calibration) -> (o: String)
    ensures
        o@ == comparison_text(*pred, *cal),
{
    let mut range = pred.decode_tok_s.0.fixed(1);
    range.append("-");
    range.append(pred.decode_tok_s.1.fixed(1).as_str());
    range.append(" tok/s");
    let prefill = match pred.prefill_tok_s {
        Some(d) => concat2(d.fixed(0).as_str(), " tok/s"),
        None => copy("not yet measured"),
    };
    let streaming = if pred.resident_fraction.lt(Double::from_bits(NEARLY_ALL_BITS)) {
        concat3(
            "\n  note: predicted only ",
            pred.resident_fraction.percent().fixed(0).as_str(),
            "% resident, so this also exercises the streaming path\n",
        )
    } else {
        copy("")
    };
    let mut o = copy("\n  ");
    o.append(pad_right("", 12).as_str());
    o.append(" ");
    o.append(pad_left("predicted", 18).as_str());
    o.append("  ");
    o.append(pad_left("actual", 16).as_str());
    o.append("\n");
    o.append(line("decode", range.as_str(), cal.actual.fixed(1).as_str(), hit(cal).as_str()).as_str());
    o.append(
        line(
            "prefill",
            prefill.as_str(),
            cal.actual_prefill_tok_s.fixed(1).as_str(),
            concat3("scale ", cal.implied_prefill_scale.fixed(2).as_str(), "x vs f32 peak").as_str(),
        ).as_str(),
    );
    o.append(
        line(
            "eta",
            concat2("assumed ", cal.assumed_eta.fixed(3).as_str()).as_str(),
            cal.implied_eta.fixed(3).as_str(),
            "<- the calibration constant",
        ).as_str(),
    );
    o.append(streaming.as_str());
    o
}

/// What is said after a run that missed its range: nothing after a hit.
pub fn closing(cal: &Calibration) -> (o: &'static str)
    ensures
        o@ == (if cal.within_range {
            ""@
        } else {
            "\n  A miss is data, not a failure. Run `zc verify` across several models\n  and quant families, then refit eta from data/calibration/local.jsonl.\n"@
        }),
{
    if cal.within_range {
        ""
    } else {
        "\n  A miss is data, not a failure. Run `zc verify` across several models\n  and quant families, then refit eta from data/calibration/local.jsonl.\n"
    }
}

// ----------------------------------------------------------------- the record

/// The line that is kept of a run: the machine under its fingerprint, and the
/// context that the runtime ran with where it says so.
pub fn record(m: &Machine, runtime: &str, kv: KvPrecision, active_params: u64, cal: &Calibration, run: &RunStats) -> (o: String)
    ensures
        o@ == record_text(
            fingerprint_text(profile_text(m.cpu, m.mem, m.env.os@, m.storage, m.gpus@)),
            m.env.os@,
            virt_tag_text(virt_view(m.env.virt)),
            m.backend.name_text(),
            runtime@,
            m.hw.ram_bw_gbs,
            m.hw.vram_bw_gbs,
            m.hw.disk_gbs,
            m.hw.gflops,
            m.hw.threads,
            kv.tag_text(),
            match run.n_ctx {
                Some(n) => n,
                None => NUM_CTX,
            },
            active_params,
            *cal,
            *run,
        ),
{
    let hw = fingerprint(m.profile().as_str());
    let ctx: u32 = match run.n_ctx {
        Some(n) => n,
        None => NUM_CTX,
    };
    record_line(
        hw.as_str(),
        m.env.os.as_str(),
        m.env.virt_tag(),
        m.backend.name(),
        runtime,
        m.hw.ram_bw_gbs,
        m.hw.vram_bw_gbs,
        m.hw.disk_gbs,
        m.hw.gflops,
        m.hw.threads,
        kv.tag(),
        ctx,
        active_params,
        cal,
        run,
    )
}

} // verus!
