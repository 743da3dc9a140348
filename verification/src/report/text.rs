//! Human-readable rendering: what `zc check` prints.

use vstd::prelude::*;
use crate::chars::{concat2, concat3, copy, dec, decimal, join, left, pad_left, pad_right, right, split, split_on, texts, trim_end, trimmed_end};
use crate::bench::ThreadRate;
use crate::kv::KvPrecision;
use crate::predict::{Backend, Verdict};
use crate::probe::gpu::{Gpu, Vendor};
use crate::probe::storage::{hazard_text, Hazard};
use crate::probe::{human, human_text};
use crate::report::{ctx_text, fmt_ctx, fmt_speed, fmt_ttft, speed_text, spills, ttft_text, Report, Row, RESIDENT_BITS};
use crate::double::{Double, THOUSAND_BITS};

verus! {

pub const GREEN: &'static str = "\u{1b}[32m";

pub const YELLOW: &'static str = "\u{1b}[33m";

pub const RED: &'static str = "\u{1b}[31m";

pub const RESET: &'static str = "\u{1b}[0m";

/// Already-padded text in a colour, where colour is on.
pub open spec fn painted(padded: Seq<char>, code: Seq<char>, on: bool) -> Seq<char> {
    if on {
        code + padded + RESET@
    } else {
        padded
    }
}

/// Wrap already-padded text in a colour.
///
/// Padding first and painting second is the whole contract: painting first
/// would count the escape codes as columns.
pub fn paint(padded: &str, code: &str, on: bool) -> (r: String)
    ensures
        r@ == painted(padded@, code@, on),
{
    if on {
        concat3(code, padded, RESET)
    } else {
        copy(padded)
    }
}

/// With colour off the text is what it was.
pub proof fn no_colour_changes_nothing(padded: Seq<char>, code: Seq<char>)
    ensures
        painted(padded, code, false) == padded,
{
}

/// The lines of a text, nothing but their trailing white space removed, with
/// the line feed that ends it.
pub open spec fn stripped(line: Seq<char>) -> Seq<char> {
    join(split(line, '\n').map_values(|l: Seq<char>| trim_end(l)), "\n"@) + "\n"@
}

/// The texts one after the other, each stripped.
pub open spec fn stripped_all(lines: Seq<Seq<char>>) -> Seq<char>
    decreases lines.len(),
{
    if lines.len() == 0 {
        Seq::empty()
    } else {
        stripped_all(lines.drop_last()) + stripped(lines.last())
    }
}

/// Every line goes through here, so trailing white space is stripped in one
/// place: it breaks copy-paste out of a terminal.
pub fn push(out: &mut String, line: &str)
    ensures
        final(out)@ == old(out)@ + stripped(line@),
{
    let parts = split_on(line, '\n');
    let ghost all = texts(parts@);
    let mut clean: Vec<String> = Vec::new();
    let mut i: usize = 0;
    while i < parts.len()
        invariant
            i <= parts@.len(),
            all == texts(parts@),
            texts(clean@) =~= all.subrange(0, i as int).map_values(|l: Seq<char>| trim_end(l)),
        decreases parts@.len() - i,
    {
        let ghost prev = clean@;
        clean.push(trimmed_end(parts[i].as_str()));
        assert(texts(clean@) =~= texts(prev).push(trim_end(all[i as int])));
        i += 1;
    }
    assert(all.subrange(0, i as int) =~= all);
    let body = crate::chars::joined(&clean, "\n");
    out.append(body.as_str());
    out.append("\n");
    assert(out@ =~= old(out)@ + stripped(line@));
}

/// A block of text with the trailing white space of its lines removed.
pub fn block(text: &str) -> (r: String)
    ensures
        r@ == stripped_all(crate::chars::lines(text@)),
{
    let l = crate::chars::lines_of(text);
    render_lines(&l)
}

fn render_lines(l: &Vec<String>) -> (o: String)
    ensures
        o@ == stripped_all(texts(l@)),
{
    let ghost all = texts(l@);
    let mut o = String::new();
    let mut i: usize = 0;
    assert(all.subrange(0, 0) =~= Seq::<Seq<char>>::empty());
    while i < l.len()
        invariant
            i <= l@.len(),
            all == texts(l@),
            o@ == stripped_all(all.subrange(0, i as int)),
        decreases l@.len() - i,
    {
        assert(all.subrange(0, i + 1).drop_last() =~= all.subrange(0, i as int));
        assert(all.subrange(0, i + 1).last() == l@[i as int]@);
        push(&mut o, l[i].as_str());
        i += 1;
    }
    assert(all.subrange(0, i as int) =~= all);
    o
}

fn extend(out: &mut Vec<String>, more: Vec<String>)
    ensures
        texts(final(out)@) == texts(old(out)@) + texts(more@),
{
    let mut m = more;
    out.append(&mut m);
    assert(texts(out@) =~= texts(old(out)@) + texts(more@));
}

/// Colour only where a human is looking at a terminal that wants it: not in a
/// pipe, not where `NO_COLOR` is set, and not on a terminal that cannot.
pub fn colors_enabled(terminal: bool, no_color: bool, term: Option<&str>) -> (r: bool)
    ensures
        r == (terminal && !no_color && (term matches Some(t) && t@ != "dumb"@)),
{
    terminal && !no_color && (match term {
        Some(t) => !crate::chars::same(t, "dumb"),
        None => false,
    })
}

pub open spec fn backend_label_text(b: Backend) -> Seq<char> {
    match b {
        Backend::Cpu => "CPU"@,
        Backend::Metal => "Metal"@,
        Backend::Discrete => "discrete GPU"@,
    }
}

/// The backend as a user knows it.
pub fn backend_label(b: Backend) -> (r: &'static str)
    ensures
        r@ == backend_label_text(b),
{
    match b {
        Backend::Cpu => "CPU",
        Backend::Metal => "Metal",
        Backend::Discrete => "discrete GPU",
    }
}

pub open spec fn kv_label_text(k: KvPrecision) -> Seq<char> {
    match k {
        KvPrecision::F16 => "F16"@,
        KvPrecision::Q8 => "Q8"@,
        KvPrecision::Q4 => "Q4"@,
    }
}

/// The KV precision's tag in upper case.
pub fn kv_label(k: KvPrecision) -> (r: &'static str)
    ensures
        r@ == kv_label_text(k),
{
    match k {
        KvPrecision::F16 => "F16",
        KvPrecision::Q8 => "Q8",
        KvPrecision::Q4 => "Q4",
    }
}

// ------------------------------------------------------------------ hardware

/// The processor and the memory.
pub open spec fn cpu_line_text(r: Report) -> Seq<char> {
    "  "@ + r.cpu.brand@ + "   "@ + dec(r.cpu.p_cores as nat) + "P+"@ + dec(r.cpu.e_cores as nat) + "E   "@ + human_text(r.mem.total as nat) + " total / "@ + human_text(r.mem.available as nat) + " available"@ + (if r.mem.unified { "   unified"@ } else { ""@ })
}

fn cpu_line(r: &Report) -> (o: String)
    ensures
        o@ == cpu_line_text(*r),
{
    let mut o = copy("  ");
    o.append(r.cpu.brand.as_str());
    o.append("   ");
    o.append(decimal(r.cpu.p_cores as u128).as_str());
    o.append("P+");
    o.append(decimal(r.cpu.e_cores as u128).as_str());
    o.append("E   ");
    o.append(human(r.mem.total).as_str());
    o.append(" total / ");
    o.append(human(r.mem.available).as_str());
    o.append(" available");
    o.append(if r.mem.unified { "   unified" } else { "" });
    o
}

/// The volume of the models.
pub open spec fn storage_line_text(r: Report) -> Seq<char> {
    "  "@ + r.storage.mount@ + " on "@ + r.storage.fstype@ + " ("@ + r.storage.medium.label_text() + ")"@ + (if r.storage.bench_file is Some && !r.storage.bench_is_weight { "   [benchmarked against a non-model file on the same volume]"@ } else { ""@ })
}

fn storage_line(r: &Report) -> (o: String)
    ensures
        o@ == storage_line_text(*r),
{
    let mut o = copy("  ");
    o.append(r.storage.mount.as_str());
    o.append(" on ");
    o.append(r.storage.fstype.as_str());
    o.append(" (");
    o.append(r.storage.medium.label());
    o.append(")");
    o.append(if r.storage.bench_file.is_some() && !r.storage.bench_is_weight { "   [benchmarked against a non-model file on the same volume]" } else { "" });
    o
}

/// A graphics adapter. An integrated one has no memory of its own to show.
pub open spec fn gpu_line_text(g: Gpu) -> Seq<char> {
    "  "@ + g.name@ + (if g.count > 1 { " x"@ + dec(g.count as nat) } else { ""@ }) + "   "@ + (if g.integrated {
        "integrated (shares system memory)"@
    } else {
        human_text(g.vram_bytes as nat) + " VRAM   ~"@ + dec(g.bw_gbs as nat) + " GB/s (looked up, not measured)"@
    })
}

fn gpu_line(g: &Gpu) -> (o: String)
    ensures
        o@ == gpu_line_text(*g),
{
    let count = if g.count > 1 {
        concat2(" x", decimal(g.count as u128).as_str())
    } else {
        copy("")
    };
    let kind = if g.integrated {
        copy("integrated (shares system memory)")
    } else {
        let mut k = human(g.vram_bytes);
        k.append(" VRAM   ~");
        k.append(decimal(g.bw_gbs as u128).as_str());
        k.append(" GB/s (looked up, not measured)");
        k
    };
    let mut o = copy("  ");
    o.append(g.name.as_str());
    o.append(count.as_str());
    o.append("   ");
    o.append(kind.as_str());
    o
}

pub open spec fn hardware_lines(r: Report) -> Seq<Seq<char>> {
    seq!["== hardware =="@, cpu_line_text(r), storage_line_text(r)] + r.gpus@.map_values(|g: Gpu| gpu_line_text(g))
}

fn hardware(r: &Report) -> (v: Vec<String>)
    ensures
        texts(v@) == hardware_lines(*r),
{
    let mut v: Vec<String> = vec![copy("== hardware =="), cpu_line(r), storage_line(r)];
    assert(texts(v@) =~= seq!["== hardware =="@, cpu_line_text(*r), storage_line_text(*r)]);
    let ghost head = texts(v@);
    let mut i: usize = 0;
    while i < r.gpus.len()
        invariant
            i <= r.gpus@.len(),
            texts(v@) =~= head + r.gpus@.subrange(0, i as int).map_values(|g: Gpu| gpu_line_text(g)),
        decreases r.gpus@.len() - i,
    {
        let ghost prev = v@;
        v.push(gpu_line(&r.gpus[i]));
        assert(texts(v@) =~= texts(prev).push(gpu_line_text(r.gpus@[i as int])));
        i += 1;
    }
    assert(r.gpus@.subrange(0, i as int) =~= r.gpus@);
    v
}

// ------------------------------------------------------------------ measured

/// A point of the bandwidth curve.
pub open spec fn curve_point(t: ThreadRate) -> Seq<char> {
    dec(t.threads as nat) + "t:"@ + t.gbs.text(0)
}

pub open spec fn curve_text(v: Seq<ThreadRate>) -> Seq<char> {
    join(v.map_values(|t: ThreadRate| curve_point(t)), "  "@)
}

fn curve(v: &Vec<ThreadRate>) -> (o: String)
    ensures
        o@ == curve_text(v@),
{
    let mut parts: Vec<String> = Vec::new();
    let mut i: usize = 0;
    while i < v.len()
        invariant
            i <= v@.len(),
            texts(parts@) =~= v@.subrange(0, i as int).map_values(|t: ThreadRate| curve_point(t)),
        decreases v@.len() - i,
    {
        let ghost prev = parts@;
        parts.push(concat3(decimal(v[i].threads as u128).as_str(), "t:", v[i].gbs.fixed(0).as_str()));
        assert(texts(parts@) =~= texts(prev).push(curve_point(v@[i as int])));
        i += 1;
    }
    assert(v@.subrange(0, i as int) =~= v@);
    crate::chars::joined(&parts, "  ")
}

/// The memory bandwidth and its curve over threads.
pub open spec fn ram_line_text(r: Report) -> Seq<char> {
    "  ram          "@ + r.ram.peak_gbs.text(0) + " GB/s peak @"@ + dec(r.ram.peak_threads as nat) + "t   ["@ + curve_text(r.ram.by_threads@) + "]"@
}

fn ram_line(r: &Report) -> (o: String)
    ensures
        o@ == ram_line_text(*r),
{
    let mut o = copy("  ram          ");
    o.append(r.ram.peak_gbs.fixed(0).as_str());
    o.append(" GB/s peak @");
    o.append(decimal(r.ram.peak_threads as u128).as_str());
    o.append("t   [");
    o.append(curve(&r.ram.by_threads).as_str());
    o.append("]");
    o
}

/// The arithmetic throughput.
pub open spec fn compute_line_text(r: Report) -> Seq<char> {
    "  compute      "@ + r.compute.gflops_nt.text(0) + " GFLOPS f32 @"@ + dec(r.compute.threads as nat) + "t   "@ + r.compute.int8_gops_nt.text(0) + " GOPS int8 ("@ + r.compute.int8_ratio.text(2) + "x)"@
}

fn compute_line(r: &Report) -> (o: String)
    ensures
        o@ == compute_line_text(*r),
{
    let mut o = copy("  compute      ");
    o.append(r.compute.gflops_nt.fixed(0).as_str());
    o.append(" GFLOPS f32 @");
    o.append(decimal(r.compute.threads as u128).as_str());
    o.append("t   ");
    o.append(r.compute.int8_gops_nt.fixed(0).as_str());
    o.append(" GOPS int8 (");
    o.append(r.compute.int8_ratio.fixed(2).as_str());
    o.append("x)");
    o
}

/// The disk, or that it could not be measured: streaming speed is predicted
/// from it, so no default may stand in.
pub open spec fn disk_line_text(r: Report) -> Seq<char> {
    match r.disk {
        Some(d) => "  disk         "@ + d.rand_128k_qdn_gbs.text(2) + " GB/s random 128K @QD"@ + dec(d.queue_depth as nat) + "   "@ + d.rand_4k_qdn_iops.quotient(Double { bits: THOUSAND_BITS }).text(0) + "K IOPS 4K"@ + (if d.uncached { ""@ } else { "   [CACHED - inflated]"@ }),
        None => "  disk         MEASUREMENT FAILED - streaming predictions unreliable"@,
    }
}

fn disk_line(r: &Report) -> (o: String)
    ensures
        o@ == disk_line_text(*r),
{
    match &r.disk {
        Some(d) => {
            let mut o = copy("  disk         ");
            o.append(d.rand_128k_qdn_gbs.fixed(2).as_str());
            o.append(" GB/s random 128K @QD");
            o.append(decimal(d.queue_depth as u128).as_str());
            o.append("   ");
            o.append(d.rand_4k_qdn_iops.over(Double { bits: THOUSAND_BITS }).fixed(0).as_str());
            o.append("K IOPS 4K");
            o.append(if d.uncached { "" } else { "   [CACHED - inflated]" });
            o
        },
        None => copy("  disk         MEASUREMENT FAILED - streaming predictions unreliable"),
    }
}

/// What may be allocated.
pub open spec fn budget_line_text(r: Report) -> Seq<char> {
    "  budget       "@ + human_text(r.budget_idle as nat) + " on an idle machine   ("@ + human_text(r.budget_now as nat) + " free right now)"@
}

fn budget_line(r: &Report) -> (o: String)
    ensures
        o@ == budget_line_text(*r),
{
    let mut o = copy("  budget       ");
    o.append(human(r.budget_idle).as_str());
    o.append(" on an idle machine   (");
    o.append(human(r.budget_now).as_str());
    o.append(" free right now)");
    o
}

pub open spec fn measured_lines(r: Report) -> Seq<Seq<char>> {
    seq!["\n== measured =="@, ram_line_text(r), compute_line_text(r), disk_line_text(r), budget_line_text(r)]
}

fn measured(r: &Report) -> (v: Vec<String>)
    ensures
        texts(v@) == measured_lines(*r),
{
    let v: Vec<String> = vec![copy("\n== measured =="), ram_line(r), compute_line(r), disk_line(r), budget_line(r)];
    assert(texts(v@) =~= measured_lines(*r));
    v
}

// --------------------------------------------------------------- predictions

/// The bandwidth the predictions rest on. On a discrete GPU the weights that
/// matter sit in VRAM.
pub open spec fn bandwidth_text(r: Report) -> Seq<char> {
    if r.backend == Backend::Discrete {
        r.vram_bw_gbs.text(0) + " GB/s VRAM + "@ + r.ram_bw_gbs.text(0) + " GB/s RAM"@
    } else {
        r.ram_bw_gbs.text(0) + " GB/s"@
    }
}

fn bandwidth(r: &Report) -> (o: String)
    ensures
        o@ == bandwidth_text(*r),
{
    if r.backend == Backend::Discrete {
        let mut o = r.vram_bw_gbs.fixed(0);
        o.append(" GB/s VRAM + ");
        o.append(r.ram_bw_gbs.fixed(0).as_str());
        o.append(" GB/s RAM");
        o
    } else {
        concat2(r.ram_bw_gbs.fixed(0).as_str(), " GB/s")
    }
}

/// What the predictions assume.
pub open spec fn heading_text(r: Report) -> Seq<char> {
    "\n== predictions ==  ("@ + backend_label_text(r.backend) + " backend, "@ + bandwidth_text(r) + ", KV at "@ + kv_label_text(r.assumptions.kv_precision) + ", "@ + dec(r.assumptions.prompt_tokens as nat) + "-token prompt)"@
}

fn heading(r: &Report) -> (o: String)
    ensures
        o@ == heading_text(*r),
{
    let mut o = copy("\n== predictions ==  (");
    o.append(backend_label(r.backend));
    o.append(" backend, ");
    o.append(bandwidth(r).as_str());
    o.append(", KV at ");
    o.append(kv_label(r.assumptions.kv_precision));
    o.append(", ");
    o.append(decimal(r.assumptions.prompt_tokens as u128).as_str());
    o.append("-token prompt)");
    o
}

/// An adapter of Apple's was found.
pub open spec fn saw_apple(g: Seq<Gpu>) -> bool {
    exists|i: int| 0 <= i < g.len() && (#[trigger] g[i]).vendor == Vendor::Apple
}

fn has_apple(g: &Vec<Gpu>) -> (r: bool)
    ensures
        r == saw_apple(g@),
{
    let mut i: usize = 0;
    while i < g.len()
        invariant
            i <= g@.len(),
            forall|j: int| 0 <= j < i ==> (#[trigger] g@[j]).vendor != Vendor::Apple,
        decreases g@.len() - i,
    {
        if g[i].vendor == Vendor::Apple {
            return true;
        }
        i += 1;
    }
    false
}

/// What has to be said before the table. Unified memory normally means Metal;
/// where it does not, say so unprompted.
pub open spec fn note_lines(r: Report) -> Seq<Seq<char>> {
    let looked_up = if r.backend == Backend::Discrete {
        seq!["  VRAM bandwidth is a table lookup, not a measurement - confidence is capped at 'low'"@]
    } else {
        Seq::empty()
    };
    let no_metal = if r.mem.unified && r.backend == Backend::Cpu {
        seq![
            if saw_apple(r.gpus@) {
                "  a GPU was found but reports no shader cores (a VM's paravirtual\n  adapter), so this predicts CPU decode rather than Metal"@
            } else {
                "  no GPU could be verified, so this predicts CPU decode rather than\n  Metal - run `zc doctor` to see what was probed"@
            },
        ]
    } else {
        Seq::empty()
    };
    let idle = if r.assumptions.idle_machine {
        seq!["  assumes an otherwise-idle machine"@]
    } else {
        Seq::empty()
    };
    let priors = if r.assumptions.uncalibrated {
        seq!["  no calibration data yet - ranges are wide priors. Run `zc verify`."@]
    } else {
        Seq::empty()
    };
    looked_up + no_metal + idle + priors
}

fn notes(r: &Report) -> (v: Vec<String>)
    ensures
        texts(v@) == note_lines(*r),
{
    let mut v: Vec<String> = Vec::new();
    if r.backend == Backend::Discrete {
        v.push(copy("  VRAM bandwidth is a table lookup, not a measurement - confidence is capped at 'low'"));
    }
    if r.mem.unified && r.backend == Backend::Cpu {
        v.push(
            copy(
                if has_apple(&r.gpus) {
                    "  a GPU was found but reports no shader cores (a VM's paravirtual\n  adapter), so this predicts CPU decode rather than Metal"
                } else {
                    "  no GPU could be verified, so this predicts CPU decode rather than\n  Metal - run `zc doctor` to see what was probed"
                },
            ),
        );
    }
    if r.assumptions.idle_machine {
        v.push(copy("  assumes an otherwise-idle machine"));
    }
    if r.assumptions.uncalibrated {
        v.push(copy("  no calibration data yet - ranges are wide priors. Run `zc verify`."));
    }
    assert(texts(v@) =~= note_lines(*r));
    v
}

/// A row of the table: the columns and what follows them.
pub open spec fn table_row(
    mark: Seq<char>,
    model: Seq<char>,
    quant: Seq<char>,
    speed: Seq<char>,
    ctx: Seq<char>,
    ttft: Seq<char>,
    conf: Seq<char>,
    rest: Seq<char>,
) -> Seq<char> {
    "  "@ + mark + " "@ + left(model, 28) + " "@ + left(quant, 7) + " "@ + right(speed, 12) + " "@ + right(ctx, 7)
        + " "@ + right(ttft, 6) + "  "@ + left(conf, 6) + rest
}

fn table_line(mark: &str, model: &str, quant: &str, speed: &str, ctx: &str, ttft: &str, conf: &str, rest: &str) -> (o: String)
    ensures
        o@ == table_row(mark@, model@, quant@, speed@, ctx@, ttft@, conf@, rest@),
{
    let mut o = copy("  ");
    o.append(mark);
    o.append(" ");
    o.append(pad_right(model, 28).as_str());
    o.append(" ");
    o.append(pad_right(quant, 7).as_str());
    o.append(" ");
    o.append(pad_left(speed, 12).as_str());
    o.append(" ");
    o.append(pad_left(ctx, 7).as_str());
    o.append(" ");
    o.append(pad_left(ttft, 6).as_str());
    o.append("  ");
    o.append(pad_right(conf, 6).as_str());
    o.append(rest);
    o
}

/// The verdict's mark and its colour: the one cell the eye should find.
pub open spec fn mark_of(v: Verdict) -> (Seq<char>, Seq<char>) {
    match v {
        Verdict::Good => ("OK"@, GREEN@),
        Verdict::Usable => ("ok"@, GREEN@),
        Verdict::Slow => ("SLOW"@, YELLOW@),
        Verdict::WontFit => ("XX"@, RED@),
    }
}

/// A model of the table. A row that is resident ends at its last character.
pub open spec fn row_text(row: Row, color: bool) -> Seq<char> {
    let p = row.prediction;
    let m = mark_of(p.verdict);
    table_row(
        painted(left(m.0, 4), m.1, color),
        row.model_id@,
        row.quant.name@,
        speed_text(p),
        ctx_text(p),
        ttft_text(p),
        p.confidence.label_text(),
        if spills(p.resident_fraction) {
            "  "@ + p.resident_fraction.in_percent().text(0) + "% resident"@
        } else {
            ""@
        },
    )
}

fn row_line(row: &Row, color: bool) -> (o: String)
    ensures
        o@ == row_text(*row, color),
{
    let p = &row.prediction;
    let (mark, hue) = match p.verdict {
        Verdict::Good => ("OK", GREEN),
        Verdict::Usable => ("ok", GREEN),
        Verdict::Slow => ("SLOW", YELLOW),
        Verdict::WontFit => ("XX", RED),
    };
    let cell = paint(pad_right(mark, 4).as_str(), hue, color);
    let rest = if p.resident_fraction.lt(Double { bits: RESIDENT_BITS }) {
        concat3("  ", p.resident_fraction.percent().fixed(0).as_str(), "% resident")
    } else {
        copy("")
    };
    table_line(
        cell.as_str(),
        row.model_id.as_str(),
        row.quant.name.as_str(),
        fmt_speed(p).as_str(),
        fmt_ctx(p).as_str(),
        fmt_ttft(p).as_str(),
        p.confidence.label(),
        rest.as_str(),
    )
}

pub open spec fn table_lines(r: Report, color: bool) -> Seq<Seq<char>> {
    seq![table_row(left(""@, 4), "model"@, "quant"@, "decode tok/s"@, "max ctx"@, "TTFT"@, "conf"@, ""@)]
        + r.models@.map_values(|row: Row| row_text(row, color))
}

fn table(r: &Report, color: bool) -> (v: Vec<String>)
    ensures
        texts(v@) == table_lines(*r, color),
{
    let mut v: Vec<String> = Vec::new();
    v.push(table_line(pad_right("", 4).as_str(), "model", "quant", "decode tok/s", "max ctx", "TTFT", "conf", ""));
    let ghost head = seq![
        table_row(left(""@, 4), "model"@, "quant"@, "decode tok/s"@, "max ctx"@, "TTFT"@, "conf"@, ""@),
    ];
    assert(texts(v@) =~= head);
    let mut i: usize = 0;
    while i < r.models.len()
        invariant
            i <= r.models@.len(),
            texts(v@) =~= head + r.models@.subrange(0, i as int).map_values(|row: Row| row_text(row, color)),
        decreases r.models@.len() - i,
    {
        let ghost prev = v@;
        v.push(row_line(&r.models[i], color));
        assert(texts(v@) =~= texts(prev).push(row_text(r.models@[i as int], color)));
        i += 1;
    }
    assert(r.models@.subrange(0, i as int) =~= r.models@);
    v
}

// ------------------------------------------------------------------- the end

/// What has to be said behind the table.
pub open spec fn closing_lines(r: Report) -> Seq<Seq<char>> {
    let ttft = if r.assumptions.prefill_unmeasured {
        seq![
            "\n  TTFT shown as '-': prefill speed cannot be derived from a CPU benchmark"@,
            "  (real prefill runs on the GPU or via int8 kernels). Run `zc verify` to measure it."@,
        ]
    } else {
        Seq::empty()
    };
    let cut = if r.models@.len() < r.assumptions.total_rows {
        seq![
            "\n  showing "@ + dec(r.models@.len()) + " of "@ + dec(r.assumptions.total_rows as nat)
                + " - ranked by verdict, then speed, then context (--all for every quant)"@,
        ]
    } else {
        Seq::empty()
    };
    ttft + cut
}

fn closing(r: &Report) -> (v: Vec<String>)
    ensures
        texts(v@) == closing_lines(*r),
{
    let mut v: Vec<String> = Vec::new();
    if r.assumptions.prefill_unmeasured {
        v.push(copy("\n  TTFT shown as '-': prefill speed cannot be derived from a CPU benchmark"));
        v.push(copy("  (real prefill runs on the GPU or via int8 kernels). Run `zc verify` to measure it."));
    }
    if r.models.len() < r.assumptions.total_rows {
        let mut o = copy("\n  showing ");
        o.append(decimal(r.models.len() as u128).as_str());
        o.append(" of ");
        o.append(decimal(r.assumptions.total_rows as u128).as_str());
        o.append(" - ranked by verdict, then speed, then context (--all for every quant)");
        v.push(o);
    }
    assert(texts(v@) =~= closing_lines(*r));
    v
}

/// What is wrong with the machine as a place for models.
pub open spec fn warning_lines(r: Report) -> Seq<Seq<char>> {
    r.storage.hazards@.map_values(|h: Hazard| "\n  !  "@ + hazard_text(h@)) + (match r.env.warning {
        Some(w) => seq!["\n  !  "@ + w@],
        None => Seq::empty(),
    })
}

fn warnings(r: &Report) -> (v: Vec<String>)
    ensures
        texts(v@) == warning_lines(*r),
{
    let mut v: Vec<String> = Vec::new();
    let mut i: usize = 0;
    while i < r.storage.hazards.len()
        invariant
            i <= r.storage.hazards@.len(),
            texts(v@) =~= r.storage.hazards@.subrange(0, i as int).map_values(|h: Hazard| "\n  !  "@ + hazard_text(h@)),
        decreases r.storage.hazards@.len() - i,
    {
        let ghost prev = v@;
        v.push(concat2("\n  !  ", r.storage.hazards[i].text().as_str()));
        assert(texts(v@) =~= texts(prev).push("\n  !  "@ + hazard_text(r.storage.hazards@[i as int]@)));
        i += 1;
    }
    assert(r.storage.hazards@.subrange(0, i as int) =~= r.storage.hazards@);
    if let Some(w) = &r.env.warning {
        v.push(concat2("\n  !  ", w.as_str()));
    }
    assert(texts(v@) =~= warning_lines(*r));
    v
}

/// Everything the report says, line by line, before stripping.
pub open spec fn report_lines(r: Report, color: bool) -> Seq<Seq<char>> {
    hardware_lines(r) + measured_lines(r) + seq![heading_text(r)] + note_lines(r) + table_lines(r, color) + closing_lines(r)
        + warning_lines(r)
}

/// The report as text, in colour or plain.
pub fn render_with(r: &Report, color: bool) -> (o: String)
    ensures
        o@ == stripped_all(report_lines(*r, color)),
{
    let mut v = hardware(r);
    extend(&mut v, measured(r));
    let ghost prev = v@;
    v.push(heading(r));
    assert(texts(v@) =~= texts(prev) + seq![heading_text(*r)]);
    extend(&mut v, notes(r));
    extend(&mut v, table(r, color));
    extend(&mut v, closing(r));
    extend(&mut v, warnings(r));
    render_lines(&v)
}

} // verus!
