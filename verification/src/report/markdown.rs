//! `zc doctor`: everything that was read and concluded, in one paste.
//!
//! A bug report that carries the raw readings beside what was derived from
//! them can be acted on. It is written to be pasted into a public issue, so
//! every path is rewritten against the home directory.

use vstd::prelude::*;
use crate::bench::ThreadRate;
use crate::chars::{concat2, concat3, copy, dec, decimal, lines_text, pad_left, right, texts, trim_end, trimmed_end};
use crate::probe::cpu::Reading;
use crate::probe::env::{virt_tag_text, virt_view};
use crate::probe::gpu::Gpu;
use crate::probe::storage::{Hazard, HazardView};
use crate::probe::{human, human_text};
use crate::report::{backend_tag, backend_tag_text, bool_str, bool_text, opt_str, redact, redacted, Report};

verus! {

/// What `{:?}` makes of a string.
pub uninterp spec fn debug_text(s: Seq<char>) -> Seq<char>;

/// `<str as Debug>::fmt` through `format!`: the text in quotes with the
/// escapes of Rust's string literals, which depends on the text alone.
#[verifier::external_body]
fn debug_str(s: &str) -> (r: String)
    ensures
        r@ == debug_text(s@),
{
    format!("{:?}", s)
}

/// Environment variables that change what `zc` does.
pub open spec fn relevant_env_texts() -> Seq<Seq<char>> {
    seq![
        "ZC_DATA_DIR"@,
        "OLLAMA_HOST"@,
        "LLAMA_SERVER_HOST"@,
        "LMSTUDIO_HOST"@,
        "OLLAMA_KV_CACHE_TYPE"@,
        "OLLAMA_FLASH_ATTENTION"@,
    ]
}

/// Their names, in the order they are shown.
pub fn relevant_env() -> (r: Vec<&'static str>)
    ensures
        crate::json::slices(r@) == relevant_env_texts(),
{
    let v: Vec<&'static str> = vec![
        "ZC_DATA_DIR",
        "OLLAMA_HOST",
        "LLAMA_SERVER_HOST",
        "LMSTUDIO_HOST",
        "OLLAMA_KV_CACHE_TYPE",
        "OLLAMA_FLASH_ATTENTION",
    ];
    assert(crate::json::slices(v@) =~= relevant_env_texts());
    v
}

/// A row of a two-column table.
pub open spec fn row_text(k: Seq<char>, v: Seq<char>) -> Seq<char> {
    "| "@ + k + " | "@ + v + " |"@
}

fn row(k: &str, v: &str) -> (o: String)
    ensures
        o@ == row_text(k@, v@),
{
    let mut o = copy("| ");
    o.append(k);
    o.append(" | ");
    o.append(v);
    o.append(" |");
    o
}

fn extend(out: &mut Vec<String>, more: Vec<String>)
    ensures
        texts(final(out)@) == texts(old(out)@) + texts(more@),
{
    let mut m = more;
    out.append(&mut m);
    assert(texts(out@) =~= texts(old(out)@) + texts(more@));
}

pub open spec fn human_or(v: Option<u64>, other: Seq<char>) -> Seq<char> {
    match v {
        Some(n) => human_text(n as nat),
        None => other,
    }
}

pub open spec fn number_or(v: Option<u64>, other: Seq<char>) -> Seq<char> {
    match v {
        Some(n) => dec(n as nat),
        None => other,
    }
}

fn number_or_absent(v: Option<u64>) -> (o: String)
    ensures
        o@ == number_or(v, "absent"@),
{
    match v {
        Some(n) => decimal(n as u128),
        None => copy("absent"),
    }
}

fn human_or_unknown(v: Option<u64>) -> (o: String)
    ensures
        o@ == human_or(v, "unknown"@),
{
    match v {
        Some(n) => human(n),
        None => copy("unknown"),
    }
}

// ----------------------------------------------------------------- concluded

/// What ran where.
pub open spec fn title_text(r: Report, version: Seq<char>) -> Seq<char> {
    "`zc "@ + version + "` on `"@ + r.env.os@ + "` / `"@ + r.env.arch@ + "`\n"@
}

fn title(r: &Report, version: &str) -> (o: String)
    ensures
        o@ == title_text(*r, version@),
{
    let mut o = copy("`zc ");
    o.append(version);
    o.append("` on `");
    o.append(r.env.os.as_str());
    o.append("` / `");
    o.append(r.env.arch.as_str());
    o.append("`\n");
    o
}

/// The cores.
pub open spec fn cores_text(r: Report) -> Seq<char> {
    dec(r.cpu.physical as nat) + " physical / "@ + dec(r.cpu.logical as nat) + " logical / "@ + dec(r.cpu.p_cores as nat) + "P + "@ + dec(r.cpu.e_cores as nat) + "E / smt "@ + bool_text(r.cpu.smt)
}

fn cores(r: &Report) -> (o: String)
    ensures
        o@ == cores_text(*r),
{
    let mut o = copy(decimal(r.cpu.physical as u128).as_str());
    o.append(" physical / ");
    o.append(decimal(r.cpu.logical as u128).as_str());
    o.append(" logical / ");
    o.append(decimal(r.cpu.p_cores as u128).as_str());
    o.append("P + ");
    o.append(decimal(r.cpu.e_cores as u128).as_str());
    o.append("E / smt ");
    o.append(bool_str(r.cpu.smt));
    o
}

/// The memory.
pub open spec fn memory_text(r: Report) -> Seq<char> {
    human_text(r.mem.total as nat) + " total / "@ + human_text(r.mem.available as nat) + " available / unified "@ + bool_text(r.mem.unified)
}

fn memory(r: &Report) -> (o: String)
    ensures
        o@ == memory_text(*r),
{
    let mut o = copy(human(r.mem.total).as_str());
    o.append(" total / ");
    o.append(human(r.mem.available).as_str());
    o.append(" available / unified ");
    o.append(bool_str(r.mem.unified));
    o
}

/// The budgets.
pub open spec fn budget_text(r: Report) -> Seq<char> {
    human_text(r.budget_idle as nat) + " idle / "@ + human_text(r.budget_now as nat) + " now"@
}

fn budget(r: &Report) -> (o: String)
    ensures
        o@ == budget_text(*r),
{
    let mut o = copy(human(r.budget_idle).as_str());
    o.append(" idle / ");
    o.append(human(r.budget_now).as_str());
    o.append(" now");
    o
}

/// The volume of the models.
pub open spec fn volume_text(r: Report) -> Seq<char> {
    r.storage.mount@ + " on "@ + r.storage.fstype@ + " ("@ + r.storage.medium.name_text() + ") via "@ + r.storage.source@
}

fn volume(r: &Report) -> (o: String)
    ensures
        o@ == volume_text(*r),
{
    let mut o = copy(r.storage.mount.as_str());
    o.append(" on ");
    o.append(r.storage.fstype.as_str());
    o.append(" (");
    o.append(r.storage.medium.name());
    o.append(") via ");
    o.append(r.storage.source);
    o
}

/// What was concluded of the machine.
pub open spec fn concluded_lines(r: Report, home: Option<&str>, version: Seq<char>) -> Seq<Seq<char>> {
    seq![
        "# zc doctor\n"@,
        title_text(r, version),
        "Paste this into a bug report. It contains no hostname, username, serial, MAC or IP; paths are rewritten against `$HOME`.\n"@,
        "## Concluded\n"@,
        "| field | value |"@,
        "|---|---|"@,
        row_text("cpu"@, r.cpu.brand@),
        row_text("cores"@, cores_text(r)),
        row_text("inference threads"@, dec(r.cpu.recommended_threads as nat)),
        row_text("llc"@, human_text(r.cpu.llc_bytes as nat)),
        row_text("memory"@, memory_text(r)),
        row_text("firmware reserved"@, human_or(r.mem.firmware_reserved, "unknown"@)),
        row_text("virtualisation"@, virt_tag_text(virt_view(r.env.virt))),
        row_text("backend"@, backend_tag_text(r.backend)),
        row_text("budget"@, budget_text(r)),
        row_text("storage"@, redacted(volume_text(r), opt_str(home))),
        ""@,
    ]
}

fn concluded(r: &Report, home: Option<&str>, version: &str) -> (v: Vec<String>)
    ensures
        texts(v@) == concluded_lines(*r, home, version@),
{
    let mut v: Vec<String> = Vec::new();
    v.push(copy("# zc doctor\n"));
    v.push(title(r, version));
    v.push(copy("Paste this into a bug report. It contains no hostname, username, serial, MAC or IP; paths are rewritten against `$HOME`.\n"));
    v.push(copy("## Concluded\n"));
    v.push(copy("| field | value |"));
    v.push(copy("|---|---|"));
    v.push(row("cpu", r.cpu.brand.as_str()));
    v.push(row("cores", cores(r).as_str()));
    v.push(row("inference threads", decimal(r.cpu.recommended_threads as u128).as_str()));
    v.push(row("llc", human(r.cpu.llc_bytes).as_str()));
    v.push(row("memory", memory(r).as_str()));
    v.push(row("firmware reserved", human_or_unknown(r.mem.firmware_reserved).as_str()));
    v.push(row("virtualisation", r.env.virt_tag()));
    v.push(row("backend", backend_tag(r.backend)));
    v.push(row("budget", budget(r).as_str()));
    v.push(row("storage", redact(volume(r).as_str(), home).as_str()));
    v.push(copy(""));
    assert(texts(v@) =~= concluded_lines(*r, home, version@));
    v
}

/// An adapter of the table. An integrated one reads system memory and has no
/// bandwidth of its own.
pub open spec fn gpu_row(g: Gpu) -> Seq<char> {
    "| "@ + g.name@ + " | "@ + human_text(g.vram_bytes as nat) + " | "@ + bool_text(g.integrated) + " | "@ + dec(
        g.count as nat,
    ) + " | "@ + g.source@ + " | "@ + (if g.integrated {
        "- (shares system memory)"@
    } else {
        dec(g.bw_gbs as nat) + " GB/s (looked up)"@
    }) + " |"@
}

fn gpu_line(g: &Gpu) -> (o: String)
    ensures
        o@ == gpu_row(*g),
{
    let rate = if g.integrated {
        copy("- (shares system memory)")
    } else {
        concat2(decimal(g.bw_gbs as u128).as_str(), " GB/s (looked up)")
    };
    let mut o = copy("| ");
    o.append(g.name.as_str());
    o.append(" | ");
    o.append(human(g.vram_bytes).as_str());
    o.append(" | ");
    o.append(bool_str(g.integrated));
    o.append(" | ");
    o.append(decimal(g.count as u128).as_str());
    o.append(" | ");
    o.append(g.source);
    o.append(" | ");
    o.append(rate.as_str());
    o.append(" |");
    o
}

pub open spec fn gpu_lines(r: Report) -> Seq<Seq<char>> {
    if r.gpus@.len() == 0 {
        seq!["No GPU detected.\n"@]
    } else {
        seq!["| gpu | vram | integrated | count | source | bandwidth |"@, "|---|---|---|---|---|---|"@] + r.gpus@.map_values(
            |g: Gpu| gpu_row(g),
        ) + seq![""@]
    }
}

fn gpus(r: &Report) -> (v: Vec<String>)
    ensures
        texts(v@) == gpu_lines(*r),
{
    let mut v: Vec<String> = Vec::new();
    if r.gpus.len() == 0 {
        v.push(copy("No GPU detected.\n"));
        assert(texts(v@) =~= gpu_lines(*r));
        return v;
    }
    v.push(copy("| gpu | vram | integrated | count | source | bandwidth |"));
    v.push(copy("|---|---|---|---|---|---|"));
    let ghost head = seq!["| gpu | vram | integrated | count | source | bandwidth |"@, "|---|---|---|---|---|---|"@];
    let mut i: usize = 0;
    assert(texts(v@) =~= head);
    while i < r.gpus.len()
        invariant
            i <= r.gpus@.len(),
            texts(v@) =~= head + r.gpus@.subrange(0, i as int).map_values(|g: Gpu| gpu_row(g)),
        decreases r.gpus@.len() - i,
    {
        let ghost prev = v@;
        v.push(gpu_line(&r.gpus[i]));
        assert(texts(v@) =~= texts(prev).push(gpu_row(r.gpus@[i as int])));
        i += 1;
    }
    assert(r.gpus@.subrange(0, i as int) =~= r.gpus@);
    v.push(copy(""));
    assert(texts(v@) =~= gpu_lines(*r));
    v
}

// ------------------------------------------------------------- raw readings

pub open spec fn reading_text(x: Reading) -> Seq<char> {
    x.key@ + " = "@ + x.value@
}

/// What the conclusions were drawn from.
pub open spec fn raw_lines(r: Report) -> Seq<Seq<char>> {
    seq![
        "## Raw readings\n"@,
        "The values the table above was derived from. A disagreement between these two sections is the bug.\n"@,
        "```"@,
    ] + r.cpu.raw@.map_values(|x: Reading| reading_text(x)) + seq![
        "memory.page_size = "@ + dec(r.mem.page_size as nat),
        "memory.gpu_wired_limit = "@ + number_or(r.mem.gpu_wired_limit, "absent"@),
        "env.memory_ceiling = "@ + number_or(r.env.memory_ceiling, "absent"@),
        "```\n"@,
    ]
}

fn raw(r: &Report) -> (v: Vec<String>)
    ensures
        texts(v@) == raw_lines(*r),
{
    let mut v: Vec<String> = Vec::new();
    v.push(copy("## Raw readings\n"));
    v.push(
        copy(
            "The values the table above was derived from. A disagreement between these two sections is the bug.\n",
        ),
    );
    v.push(copy("```"));
    let ghost head = seq![
        "## Raw readings\n"@,
        "The values the table above was derived from. A disagreement between these two sections is the bug.\n"@,
        "```"@,
    ];
    assert(texts(v@) =~= head);
    let mut i: usize = 0;
    while i < r.cpu.raw.len()
        invariant
            i <= r.cpu.raw@.len(),
            texts(v@) =~= head + r.cpu.raw@.subrange(0, i as int).map_values(|x: Reading| reading_text(x)),
        decreases r.cpu.raw@.len() - i,
    {
        let ghost prev = v@;
        v.push(concat3(r.cpu.raw[i].key.as_str(), " = ", r.cpu.raw[i].value.as_str()));
        assert(texts(v@) =~= texts(prev).push(reading_text(r.cpu.raw@[i as int])));
        i += 1;
    }
    assert(r.cpu.raw@.subrange(0, i as int) =~= r.cpu.raw@);
    v.push(concat2("memory.page_size = ", decimal(r.mem.page_size as u128).as_str()));
    v.push(concat2("memory.gpu_wired_limit = ", number_or_absent(r.mem.gpu_wired_limit).as_str()));
    v.push(concat2("env.memory_ceiling = ", number_or_absent(r.env.memory_ceiling).as_str()));
    v.push(copy("```\n"));
    assert(texts(v@) =~= raw_lines(*r));
    v
}

// ------------------------------------------------------------------ measured

/// The memory bandwidth.
pub open spec fn ram_line_text(r: Report) -> Seq<char> {
    "ram    peak "@ + r.ram.peak_gbs.text(1) + " GB/s @"@ + dec(r.ram.peak_threads as nat) + "t   working set "@ + human_text(r.ram.working_set as nat)
}

fn ram_line(r: &Report) -> (o: String)
    ensures
        o@ == ram_line_text(*r),
{
    let mut o = copy("ram    peak ");
    o.append(r.ram.peak_gbs.fixed(1).as_str());
    o.append(" GB/s @");
    o.append(decimal(r.ram.peak_threads as u128).as_str());
    o.append("t   working set ");
    o.append(human(r.ram.working_set as u64).as_str());
    o
}

/// A point of the bandwidth curve.
pub open spec fn rate_line_text(t: ThreadRate) -> Seq<char> {
    "       "@ + right(dec(t.threads as nat), 3) + "t  "@ + right(t.gbs.text(1), 8) + " GB/s"@
}

fn rate_line(t: &ThreadRate) -> (o: String)
    ensures
        o@ == rate_line_text(*t),
{
    let mut o = copy("       ");
    o.append(pad_left(decimal(t.threads as u128).as_str(), 3).as_str());
    o.append("t  ");
    o.append(pad_left(t.gbs.fixed(1).as_str(), 8).as_str());
    o.append(" GB/s");
    o
}

/// The arithmetic throughput.
pub open spec fn compute_line_text(r: Report) -> Seq<char> {
    "compute "@ + r.compute.gflops_1t.text(1) + " GFLOPS f32 1t / "@ + r.compute.gflops_nt.text(1) + " nt @"@ + dec(r.compute.threads as nat) + "t   int8 "@ + r.compute.int8_gops_nt.text(1) + " GOPS ("@ + r.compute.int8_ratio.text(2) + "x)"@
}

fn compute_line(r: &Report) -> (o: String)
    ensures
        o@ == compute_line_text(*r),
{
    let mut o = copy("compute ");
    o.append(r.compute.gflops_1t.fixed(1).as_str());
    o.append(" GFLOPS f32 1t / ");
    o.append(r.compute.gflops_nt.fixed(1).as_str());
    o.append(" nt @");
    o.append(decimal(r.compute.threads as u128).as_str());
    o.append("t   int8 ");
    o.append(r.compute.int8_gops_nt.fixed(1).as_str());
    o.append(" GOPS (");
    o.append(r.compute.int8_ratio.fixed(2).as_str());
    o.append("x)");
    o
}

/// The disk, and whether its figure is inflated by the cache.
pub open spec fn disk_lines(r: Report) -> Seq<Seq<char>> {
    match r.disk {
        Some(d) => seq![
            "disk   seq "@ + d.seq_qd1_gbs.text(2) + " / rand128k qd1 "@ + d.rand_128k_qd1_gbs.text(2) + " / qd"@ + dec(d.queue_depth as nat) + " "@ + d.rand_128k_qdn_gbs.text(2) + " GB/s   4k "@ + d.rand_4k_qdn_iops.text(0) + " IOPS"@,
            "       uncached "@ + bool_text(d.uncached) + "   file "@ + human_text(d.file_bytes as nat) + "   created "@ + bool_text(d.created_file),
        ],
        None => seq!["disk   MEASUREMENT FAILED"@],
    }
}

fn disk(r: &Report) -> (v: Vec<String>)
    ensures
        texts(v@) == disk_lines(*r),
{
    let mut v: Vec<String> = Vec::new();
    match &r.disk {
        Some(d) => {
            let mut o = copy("disk   seq ");
            o.append(d.seq_qd1_gbs.fixed(2).as_str());
            o.append(" / rand128k qd1 ");
            o.append(d.rand_128k_qd1_gbs.fixed(2).as_str());
            o.append(" / qd");
            o.append(decimal(d.queue_depth as u128).as_str());
            o.append(" ");
            o.append(d.rand_128k_qdn_gbs.fixed(2).as_str());
            o.append(" GB/s   4k ");
            o.append(d.rand_4k_qdn_iops.fixed(0).as_str());
            o.append(" IOPS");
            v.push(o);
            let mut p = copy("       uncached ");
            p.append(bool_str(d.uncached));
            p.append("   file ");
            p.append(human(d.file_bytes).as_str());
            p.append("   created ");
            p.append(bool_str(d.created_file));
            v.push(p);
        },
        None => v.push(copy("disk   MEASUREMENT FAILED")),
    }
    assert(texts(v@) =~= disk_lines(*r));
    v
}

/// The whole curve, not the peak: a flat one is what single-channel memory
/// looks like.
pub open spec fn measured_lines(r: Report) -> Seq<Seq<char>> {
    seq!["## Measured\n"@, "```"@, ram_line_text(r)] + r.ram.by_threads@.map_values(|t: ThreadRate| rate_line_text(t))
        + seq![compute_line_text(r)] + disk_lines(r) + seq!["```\n"@]
}

fn measured(r: &Report) -> (v: Vec<String>)
    ensures
        texts(v@) == measured_lines(*r),
{
    let mut v: Vec<String> = vec![copy("## Measured\n"), copy("```"), ram_line(r)];
    let ghost head = seq!["## Measured\n"@, "```"@, ram_line_text(*r)];
    assert(texts(v@) =~= head);
    let mut i: usize = 0;
    while i < r.ram.by_threads.len()
        invariant
            i <= r.ram.by_threads@.len(),
            texts(v@) =~= head + r.ram.by_threads@.subrange(0, i as int).map_values(|t: ThreadRate| rate_line_text(t)),
        decreases r.ram.by_threads@.len() - i,
    {
        let ghost prev = v@;
        v.push(rate_line(&r.ram.by_threads[i]));
        assert(texts(v@) =~= texts(prev).push(rate_line_text(r.ram.by_threads@[i as int])));
        i += 1;
    }
    assert(r.ram.by_threads@.subrange(0, i as int) =~= r.ram.by_threads@);
    let ghost curve = r.ram.by_threads@.map_values(|t: ThreadRate| rate_line_text(t));
    v.push(compute_line(r));
    assert(texts(v@) =~= head + curve + seq![compute_line_text(*r)]);
    extend(&mut v, disk(r));
    let ghost prev = v@;
    v.push(copy("```\n"));
    assert(texts(v@) =~= texts(prev) + seq!["```\n"@]);
    v
}

// --------------------------------------------- calibration and environment

/// What the calibration data says. It names a file under the home directory.
pub open spec fn calibration_lines(fit_summary: Seq<char>, home: Option<&str>) -> Seq<Seq<char>> {
    seq!["## Calibration\n"@, "```"@, trim_end(redacted(fit_summary, opt_str(home))), "```\n"@]
}

fn calibration(fit_summary: &str, home: Option<&str>) -> (v: Vec<String>)
    ensures
        texts(v@) == calibration_lines(fit_summary@, home),
{
    let clean = redact(fit_summary, home);
    let v: Vec<String> = vec![copy("## Calibration\n"), copy("```"), trimmed_end(clean.as_str()), copy("```\n")];
    assert(texts(v@) =~= calibration_lines(fit_summary@, home));
    v
}

pub open spec fn setting_text(x: Reading, home: Option<&str>) -> Seq<char> {
    x.key@ + " = "@ + redacted(x.value@, opt_str(home))
}

/// The variables that are set.
pub open spec fn setting_lines(set: Seq<Reading>, home: Option<&str>) -> Seq<Seq<char>> {
    seq!["## Environment\n"@, "```"@] + (if set.len() == 0 {
        seq!["(none of the variables zc reads are set)"@]
    } else {
        set.map_values(|x: Reading| setting_text(x, home))
    }) + seq!["```\n"@]
}

fn settings(set: &Vec<Reading>, home: Option<&str>) -> (v: Vec<String>)
    ensures
        texts(v@) == setting_lines(set@, home),
{
    let mut v: Vec<String> = vec![copy("## Environment\n"), copy("```")];
    let ghost head = seq!["## Environment\n"@, "```"@];
    assert(texts(v@) =~= head);
    if set.len() == 0 {
        v.push(copy("(none of the variables zc reads are set)"));
    }
    let ghost start = texts(v@);
    let mut i: usize = 0;
    while i < set.len()
        invariant
            i <= set@.len(),
            texts(v@) =~= start + set@.subrange(0, i as int).map_values(|x: Reading| setting_text(x, home)),
        decreases set@.len() - i,
    {
        let ghost prev = v@;
        let value = redact(set[i].value.as_str(), home);
        v.push(concat3(set[i].key.as_str(), " = ", value.as_str()));
        assert(texts(v@) =~= texts(prev).push(setting_text(set@[i as int], home)));
        i += 1;
    }
    assert(set@.subrange(0, i as int) =~= set@);
    let ghost prev = v@;
    v.push(copy("```\n"));
    assert(texts(v@) =~= texts(prev) + seq!["```\n"@]);
    proof {
        let shown = set@.map_values(|x: Reading| setting_text(x, home));
        if set@.len() == 0 {
            assert(texts(prev) =~= head + seq!["(none of the variables zc reads are set)"@]);
        } else {
            assert(texts(prev) =~= head + shown);
        }
    }
    v
}

// ------------------------------------------------------------------ warnings

/// A hazard by its name and what it carries.
pub open spec fn hazard_name(h: HazardView) -> Seq<char> {
    match h {
        HazardView::CloudSync(s) => "CloudSync("@ + debug_text(s) + ")"@,
        HazardView::NetworkMount(s) => "NetworkMount("@ + debug_text(s) + ")"@,
        HazardView::Removable => "Removable"@,
        HazardView::Rotational => "Rotational"@,
        HazardView::LowSpace(b) => "LowSpace("@ + dec(b) + ")"@,
    }
}

fn hazard_line(h: &Hazard) -> (o: String)
    ensures
        o@ == "- "@ + hazard_name(h@),
{
    let name = match h {
        Hazard::CloudSync(s) => concat3("CloudSync(", debug_str(s.as_str()).as_str(), ")"),
        Hazard::NetworkMount(s) => concat3("NetworkMount(", debug_str(s.as_str()).as_str(), ")"),
        Hazard::Removable => copy("Removable"),
        Hazard::Rotational => copy("Rotational"),
        Hazard::LowSpace(b) => concat3("LowSpace(", decimal(*b as u128).as_str(), ")"),
    };
    concat2("- ", name.as_str())
}

/// What is already known to be wrong.
pub open spec fn warning_lines(r: Report) -> Seq<Seq<char>> {
    if r.storage.hazards@.len() == 0 && r.env.warning is None {
        Seq::empty()
    } else {
        seq!["## Warnings\n"@] + r.storage.hazards@.map_values(|h: Hazard| "- "@ + hazard_name(h@)) + (match r.env.warning {
            Some(w) => seq!["- "@ + w@],
            None => Seq::empty(),
        }) + seq![""@]
    }
}

fn warnings(r: &Report) -> (v: Vec<String>)
    ensures
        texts(v@) == warning_lines(*r),
{
    let mut v: Vec<String> = Vec::new();
    if r.storage.hazards.len() == 0 && r.env.warning.is_none() {
        assert(texts(v@) =~= warning_lines(*r));
        return v;
    }
    v.push(copy("## Warnings\n"));
    let ghost head = seq!["## Warnings\n"@];
    assert(texts(v@) =~= head);
    let mut i: usize = 0;
    while i < r.storage.hazards.len()
        invariant
            i <= r.storage.hazards@.len(),
            texts(v@) =~= head + r.storage.hazards@.subrange(0, i as int).map_values(
                |h: Hazard| "- "@ + hazard_name(h@),
            ),
        decreases r.storage.hazards@.len() - i,
    {
        let ghost prev = v@;
        v.push(hazard_line(&r.storage.hazards[i]));
        assert(texts(v@) =~= texts(prev).push("- "@ + hazard_name(r.storage.hazards@[i as int]@)));
        i += 1;
    }
    assert(r.storage.hazards@.subrange(0, i as int) =~= r.storage.hazards@);
    if let Some(w) = &r.env.warning {
        v.push(concat2("- ", w.as_str()));
    }
    v.push(copy(""));
    assert(texts(v@) =~= warning_lines(*r));
    v
}

/// Everything the report says, line by line.
pub open spec fn doctor_lines(
    r: Report,
    fit_summary: Seq<char>,
    home: Option<&str>,
    version: Seq<char>,
    set: Seq<Reading>,
) -> Seq<Seq<char>> {
    concluded_lines(r, home, version) + gpu_lines(r) + raw_lines(r) + measured_lines(r) + calibration_lines(fit_summary, home)
        + setting_lines(set, home) + warning_lines(r)
}

/// The report as Markdown, with the summary of the calibration data and the
/// environment variables that are set.
pub fn render(r: &Report, fit_summary: &str, home: Option<&str>, version: &str, set: &Vec<Reading>) -> (o: String)
    ensures
        o@ == lines_text(doctor_lines(*r, fit_summary@, home, version@, set@)),
{
    let mut v = concluded(r, home, version);
    extend(&mut v, gpus(r));
    extend(&mut v, raw(r));
    extend(&mut v, measured(r));
    extend(&mut v, calibration(fit_summary, home));
    extend(&mut v, settings(set, home));
    extend(&mut v, warnings(r));
    let ghost all = texts(v@);
    let mut o = String::new();
    let mut i: usize = 0;
    assert(all.subrange(0, 0) =~= Seq::<Seq<char>>::empty());
    while i < v.len()
        invariant
            i <= v@.len(),
            all == texts(v@),
            o@ == lines_text(all.subrange(0, i as int)),
        decreases v@.len() - i,
    {
        assert(all.subrange(0, i + 1).drop_last() =~= all.subrange(0, i as int));
        assert(all.subrange(0, i + 1).last() == v@[i as int]@);
        let ghost before = o@;
        o.append(v[i].as_str());
        o.push('\n');
        assert(o@ =~= before + v@[i as int]@ + seq!['\n']);
        i += 1;
    }
    assert(all.subrange(0, i as int) =~= all);
    o
}

} // verus!
