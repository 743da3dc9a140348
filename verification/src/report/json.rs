//! Machine-readable rendering.
//!
//! An unmeasured value is `null`, never a substituted number, and a number
//! that is not finite is `null` too: JSON has neither NaN nor infinity.

use vstd::prelude::*;
use crate::bench::ThreadRate;
use crate::chars::{copy, dec, decimal, join, joined, texts};
use crate::double::Double;
use crate::fit::opt_text;
use crate::json::{escape, escaped};
use crate::probe::env::{virt_tag_text, virt_view};
use crate::probe::gpu::Gpu;
use crate::probe::storage::{Hazard, HazardView, Medium};
use crate::report::{backend_tag, backend_tag_text, bool_str, bool_text, opt_str, redact, redacted, verdict_tag, verdict_tag_text, Report, Row};

verus! {

/// Bumped when a field changes meaning or disappears.
pub const SCHEMA: u32 = 2;

/// A string literal.
pub open spec fn st_text(s: Seq<char>) -> Seq<char> {
    "\""@ + escaped(s) + "\""@
}

pub open spec fn opt_st_text(s: Option<Seq<char>>) -> Seq<char> {
    match s {
        Some(t) => st_text(t),
        None => "null"@,
    }
}

pub open spec fn opt_u_text(v: Option<u64>) -> Seq<char> {
    match v {
        Some(n) => dec(n as nat),
        None => "null"@,
    }
}

/// A finite number with six decimals, or `null`.
pub open spec fn num_text(v: Double) -> Seq<char> {
    if v.finite() {
        v.text(6)
    } else {
        "null"@
    }
}

pub open spec fn opt_num_text(v: Option<Double>) -> Seq<char> {
    match v {
        Some(x) => num_text(x),
        None => "null"@,
    }
}

pub fn st(s: &str) -> (o: String)
    ensures
        o@ == st_text(s@),
{
    let mut o = copy("\"");
    o.append(escape(s).as_str());
    o.append("\"");
    o
}

fn opt_st(s: &Option<String>) -> (o: String)
    ensures
        o@ == opt_st_text(opt_text(*s)),
{
    match s {
        Some(t) => st(t.as_str()),
        None => copy("null"),
    }
}

pub fn opt_u(v: Option<u64>) -> (o: String)
    ensures
        o@ == opt_u_text(v),
{
    match v {
        Some(n) => decimal(n as u128),
        None => copy("null"),
    }
}

pub fn num(v: Double) -> (o: String)
    ensures
        o@ == num_text(v),
{
    if v.is_finite() {
        v.fixed(6)
    } else {
        copy("null")
    }
}

pub fn opt_num(v: Option<Double>) -> (o: String)
    ensures
        o@ == opt_num_text(v),
{
    match v {
        Some(x) => num(x),
        None => copy("null"),
    }
}

pub open spec fn medium_tag_text(m: Medium) -> Seq<char> {
    match m {
        Medium::Nvme => "nvme"@,
        Medium::Ssd => "ssd"@,
        Medium::Rotational => "rotational"@,
        Medium::Network => "network"@,
        Medium::Unknown => "unknown"@,
    }
}

fn medium_tag(m: Medium) -> (r: &'static str)
    ensures
        r@ == medium_tag_text(m),
{
    match m {
        Medium::Nvme => "nvme",
        Medium::Ssd => "ssd",
        Medium::Rotational => "rotational",
        Medium::Network => "network",
        Medium::Unknown => "unknown",
    }
}

/// A hazard's kind and what there is to say of it.
pub open spec fn hazard_parts(h: HazardView) -> (Seq<char>, Option<Seq<char>>) {
    match h {
        HazardView::CloudSync(s) => ("cloud_sync"@, Some(s)),
        HazardView::NetworkMount(s) => ("network_mount"@, Some(s)),
        HazardView::Removable => ("removable"@, None),
        HazardView::Rotational => ("rotational"@, None),
        HazardView::LowSpace(b) => ("low_space"@, Some(dec(b))),
    }
}

pub open spec fn hazard_json_text(h: HazardView) -> Seq<char> {
    let p = hazard_parts(h);
    "{\"kind\":"@ + st_text(p.0) + ",\"detail\":"@ + opt_st_text(p.1) + "}"@
}

fn hazard_json(h: &Hazard) -> (o: String)
    ensures
        o@ == hazard_json_text(h@),
{
    let (kind, detail) = match h {
        Hazard::CloudSync(s) => ("cloud_sync", Some(copy(s.as_str()))),
        Hazard::NetworkMount(s) => ("network_mount", Some(copy(s.as_str()))),
        Hazard::Removable => ("removable", None),
        Hazard::Rotational => ("rotational", None),
        Hazard::LowSpace(b) => ("low_space", Some(decimal(*b as u128))),
    };
    let mut o = copy("{\"kind\":");
    o.append(st(kind).as_str());
    o.append(",\"detail\":");
    o.append(opt_st(&detail).as_str());
    o.append("}");
    o
}

// ------------------------------------------------------------------- machine

/// The processor.
pub open spec fn cpu_json_text(r: Report) -> Seq<char> {
    "\"cpu\":{\"brand\":"@ + st_text(r.cpu.brand@) + ",\"physical\":"@ + dec(r.cpu.physical as nat) + ",\"logical\":"@ + dec(r.cpu.logical as nat) + ",\"p_cores\":"@ + dec(r.cpu.p_cores as nat) + ",\"e_cores\":"@ + dec(r.cpu.e_cores as nat) + ",\"smt\":"@ + bool_text(r.cpu.smt) + ",\"llc_bytes\":"@ + dec(r.cpu.llc_bytes as nat) + ",\"cache_line\":"@ + dec(r.cpu.cache_line as nat) + ",\"recommended_threads\":"@ + dec(r.cpu.recommended_threads as nat) + ",\"features\":{\"avx2\":"@ + bool_text(r.cpu.features.avx2) + ",\"avx512f\":"@ + bool_text(r.cpu.features.avx512f) + ",\"f16c\":"@ + bool_text(r.cpu.features.f16c) + ",\"neon_dotprod\":"@ + bool_text(r.cpu.features.neon_dotprod) + ",\"neon_i8mm\":"@ + bool_text(r.cpu.features.neon_i8mm) + "}},"@
}

fn cpu_json(r: &Report) -> (o: String)
    ensures
        o@ == cpu_json_text(*r),
{
    let mut o = copy("\"cpu\":{\"brand\":");
    o.append(st(r.cpu.brand.as_str()).as_str());
    o.append(",\"physical\":");
    o.append(decimal(r.cpu.physical as u128).as_str());
    o.append(",\"logical\":");
    o.append(decimal(r.cpu.logical as u128).as_str());
    o.append(",\"p_cores\":");
    o.append(decimal(r.cpu.p_cores as u128).as_str());
    o.append(",\"e_cores\":");
    o.append(decimal(r.cpu.e_cores as u128).as_str());
    o.append(",\"smt\":");
    o.append(bool_str(r.cpu.smt));
    o.append(",\"llc_bytes\":");
    o.append(decimal(r.cpu.llc_bytes as u128).as_str());
    o.append(",\"cache_line\":");
    o.append(decimal(r.cpu.cache_line as u128).as_str());
    o.append(",\"recommended_threads\":");
    o.append(decimal(r.cpu.recommended_threads as u128).as_str());
    o.append(",\"features\":{\"avx2\":");
    o.append(bool_str(r.cpu.features.avx2));
    o.append(",\"avx512f\":");
    o.append(bool_str(r.cpu.features.avx512f));
    o.append(",\"f16c\":");
    o.append(bool_str(r.cpu.features.f16c));
    o.append(",\"neon_dotprod\":");
    o.append(bool_str(r.cpu.features.neon_dotprod));
    o.append(",\"neon_i8mm\":");
    o.append(bool_str(r.cpu.features.neon_i8mm));
    o.append("}},");
    o
}

/// The memory.
pub open spec fn memory_json_text(r: Report) -> Seq<char> {
    "\"memory\":{\"total\":"@ + dec(r.mem.total as nat) + ",\"available\":"@ + dec(r.mem.available as nat) + ",\"page_size\":"@ + dec(r.mem.page_size as nat) + ",\"unified\":"@ + bool_text(r.mem.unified) + ",\"firmware_reserved\":"@ + opt_u_text(r.mem.firmware_reserved) + ",\"gpu_wired_limit\":"@ + opt_u_text(r.mem.gpu_wired_limit) + "},"@
}

fn memory_json(r: &Report) -> (o: String)
    ensures
        o@ == memory_json_text(*r),
{
    let mut o = copy("\"memory\":{\"total\":");
    o.append(decimal(r.mem.total as u128).as_str());
    o.append(",\"available\":");
    o.append(decimal(r.mem.available as u128).as_str());
    o.append(",\"page_size\":");
    o.append(decimal(r.mem.page_size as u128).as_str());
    o.append(",\"unified\":");
    o.append(bool_str(r.mem.unified));
    o.append(",\"firmware_reserved\":");
    o.append(opt_u(r.mem.firmware_reserved).as_str());
    o.append(",\"gpu_wired_limit\":");
    o.append(opt_u(r.mem.gpu_wired_limit).as_str());
    o.append("},");
    o
}

/// The environment.
pub open spec fn env_json_text(r: Report) -> Seq<char> {
    "\"env\":{\"os\":"@ + st_text(r.env.os@) + ",\"arch\":"@ + st_text(r.env.arch@) + ",\"virt\":"@ + st_text(virt_tag_text(virt_view(r.env.virt))) + ",\"memory_ceiling\":"@ + opt_u_text(r.env.memory_ceiling) + ",\"warning\":"@ + opt_st_text(opt_text(r.env.warning)) + "},"@
}

fn env_json(r: &Report) -> (o: String)
    ensures
        o@ == env_json_text(*r),
{
    let mut o = copy("\"env\":{\"os\":");
    o.append(st(r.env.os.as_str()).as_str());
    o.append(",\"arch\":");
    o.append(st(r.env.arch.as_str()).as_str());
    o.append(",\"virt\":");
    o.append(st(r.env.virt_tag()).as_str());
    o.append(",\"memory_ceiling\":");
    o.append(opt_u(r.env.memory_ceiling).as_str());
    o.append(",\"warning\":");
    o.append(opt_st(&r.env.warning).as_str());
    o.append("},");
    o
}

/// The volume of the models, its paths relative to the home directory.
pub open spec fn storage_json_text(r: Report, home: Option<&str>) -> Seq<char> {
    "\"storage\":{\"model_dir\":"@ + st_text(redacted(r.storage.model_dir@, opt_str(home))) + ",\"mount\":"@ + st_text(redacted(r.storage.mount@, opt_str(home))) + ",\"fstype\":"@ + st_text(r.storage.fstype@) + ",\"medium\":"@ + st_text(medium_tag_text(r.storage.medium)) + ",\"source\":"@ + st_text(r.storage.source@) + ",\"total\":"@ + dec(r.storage.total as nat) + ",\"free\":"@ + dec(r.storage.free as nat) + ",\"bench_file_is_weight\":"@ + bool_text(r.storage.bench_is_weight) + ",\"hazards\":["@ + hazards_text(r.storage.hazards@) + "]},"@
}

fn storage_json(r: &Report, home: Option<&str>) -> (o: String)
    ensures
        o@ == storage_json_text(*r, home),
{
    let mut o = copy("\"storage\":{\"model_dir\":");
    o.append(st(redact(r.storage.model_dir.as_str(), home).as_str()).as_str());
    o.append(",\"mount\":");
    o.append(st(redact(r.storage.mount.as_str(), home).as_str()).as_str());
    o.append(",\"fstype\":");
    o.append(st(r.storage.fstype.as_str()).as_str());
    o.append(",\"medium\":");
    o.append(st(medium_tag(r.storage.medium)).as_str());
    o.append(",\"source\":");
    o.append(st(r.storage.source).as_str());
    o.append(",\"total\":");
    o.append(decimal(r.storage.total as u128).as_str());
    o.append(",\"free\":");
    o.append(decimal(r.storage.free as u128).as_str());
    o.append(",\"bench_file_is_weight\":");
    o.append(bool_str(r.storage.bench_is_weight));
    o.append(",\"hazards\":[");
    o.append(hazards(&r.storage.hazards).as_str());
    o.append("]},");
    o
}

/// The hazards, separated by commas.
pub open spec fn hazards_text(v: Seq<Hazard>) -> Seq<char> {
    join(v.map_values(|x: Hazard| hazard_json_text(x@)), ","@)
}

fn hazards(v: &Vec<Hazard>) -> (o: String)
    ensures
        o@ == hazards_text(v@),
{
    let mut parts: Vec<String> = Vec::new();
    let mut i: usize = 0;
    while i < v.len()
        invariant
            i <= v@.len(),
            texts(parts@) =~= v@.subrange(0, i as int).map_values(|x: Hazard| hazard_json_text(x@)),
        decreases v@.len() - i,
    {
        let ghost prev = parts@;
        let ghost x = v@[i as int];
        parts.push(hazard_json(&v[i]));
        assert(texts(parts@) =~= texts(prev).push(hazard_json_text(x@)));
        i += 1;
    }
    assert(v@.subrange(0, i as int) =~= v@);
    joined(&parts, ",")
}

/// An adapter. Its bandwidth is looked up, and says so.
pub open spec fn gpu_json_text(g: Gpu) -> Seq<char> {
    "{\"name\":"@ + st_text(g.name@) + ",\"vendor\":"@ + st_text(g.vendor.tag_text()) + ",\"vram_bytes\":"@ + dec(g.vram_bytes as nat) + ",\"integrated\":"@ + bool_text(g.integrated) + ",\"count\":"@ + dec(g.count as nat) + ",\"source\":"@ + st_text(g.source@) + ",\"bw_gbs\":"@ + dec(g.bw_gbs as nat) + ".000000,\"bw_measured\":false}"@
}

fn gpu_json(g: &Gpu) -> (o: String)
    ensures
        o@ == gpu_json_text(*g),
{
    let mut o = copy("{\"name\":");
    o.append(st(g.name.as_str()).as_str());
    o.append(",\"vendor\":");
    o.append(st(g.vendor.tag()).as_str());
    o.append(",\"vram_bytes\":");
    o.append(decimal(g.vram_bytes as u128).as_str());
    o.append(",\"integrated\":");
    o.append(bool_str(g.integrated));
    o.append(",\"count\":");
    o.append(decimal(g.count as u128).as_str());
    o.append(",\"source\":");
    o.append(st(g.source).as_str());
    o.append(",\"bw_gbs\":");
    o.append(decimal(g.bw_gbs as u128).as_str());
    o.append(".000000,\"bw_measured\":false}");
    o
}

/// The adapters, separated by commas.
pub open spec fn gpus_text(v: Seq<Gpu>) -> Seq<char> {
    join(v.map_values(|x: Gpu| gpu_json_text(x)), ","@)
}

fn gpus(v: &Vec<Gpu>) -> (o: String)
    ensures
        o@ == gpus_text(v@),
{
    let mut parts: Vec<String> = Vec::new();
    let mut i: usize = 0;
    while i < v.len()
        invariant
            i <= v@.len(),
            texts(parts@) =~= v@.subrange(0, i as int).map_values(|x: Gpu| gpu_json_text(x)),
        decreases v@.len() - i,
    {
        let ghost prev = parts@;
        let ghost x = v@[i as int];
        parts.push(gpu_json(&v[i]));
        assert(texts(parts@) =~= texts(prev).push(gpu_json_text(x)));
        i += 1;
    }
    assert(v@.subrange(0, i as int) =~= v@);
    joined(&parts, ",")
}

/// Everything known of the machine.
pub open spec fn machine_json_text(r: Report, home: Option<&str>) -> Seq<char> {
    "\"machine\":{"@ + cpu_json_text(r) + memory_json_text(r) + env_json_text(r) + storage_json_text(r, home) + "\"gpus\":["@ + gpus_text(r.gpus@) + "],\"budget\":{\"idle\":"@ + dec(r.budget_idle as nat) + ",\"now\":"@ + dec(r.budget_now as nat) + "}},"@
}

fn machine_json(r: &Report, home: Option<&str>) -> (o: String)
    ensures
        o@ == machine_json_text(*r, home),
{
    let mut o = copy("\"machine\":{");
    o.append(cpu_json(r).as_str());
    o.append(memory_json(r).as_str());
    o.append(env_json(r).as_str());
    o.append(storage_json(r, home).as_str());
    o.append("\"gpus\":[");
    o.append(gpus(&r.gpus).as_str());
    o.append("],\"budget\":{\"idle\":");
    o.append(decimal(r.budget_idle as u128).as_str());
    o.append(",\"now\":");
    o.append(decimal(r.budget_now as u128).as_str());
    o.append("}},");
    o
}

// ------------------------------------------------------------------ measured

/// A point of the bandwidth curve.
pub open spec fn rate_json_text(t: ThreadRate) -> Seq<char> {
    "{\"threads\":"@ + dec(t.threads as nat) + ",\"gbs\":"@ + num_text(t.gbs) + "}"@
}

fn rate_json(t: &ThreadRate) -> (o: String)
    ensures
        o@ == rate_json_text(*t),
{
    let mut o = copy("{\"threads\":");
    o.append(decimal(t.threads as u128).as_str());
    o.append(",\"gbs\":");
    o.append(num(t.gbs).as_str());
    o.append("}");
    o
}

/// The bandwidth curve, separated by commas.
pub open spec fn rates_text(v: Seq<ThreadRate>) -> Seq<char> {
    join(v.map_values(|x: ThreadRate| rate_json_text(x)), ","@)
}

fn rates(v: &Vec<ThreadRate>) -> (o: String)
    ensures
        o@ == rates_text(v@),
{
    let mut parts: Vec<String> = Vec::new();
    let mut i: usize = 0;
    while i < v.len()
        invariant
            i <= v@.len(),
            texts(parts@) =~= v@.subrange(0, i as int).map_values(|x: ThreadRate| rate_json_text(x)),
        decreases v@.len() - i,
    {
        let ghost prev = parts@;
        let ghost x = v@[i as int];
        parts.push(rate_json(&v[i]));
        assert(texts(parts@) =~= texts(prev).push(rate_json_text(x)));
        i += 1;
    }
    assert(v@.subrange(0, i as int) =~= v@);
    joined(&parts, ",")
}

/// The memory bandwidth.
pub open spec fn ram_json_text(r: Report) -> Seq<char> {
    "\"ram\":{\"peak_gbs\":"@ + num_text(r.ram.peak_gbs) + ",\"peak_threads\":"@ + dec(r.ram.peak_threads as nat) + ",\"working_set\":"@ + dec(r.ram.working_set as nat) + ",\"by_threads\":["@ + rates_text(r.ram.by_threads@) + "]},"@
}

fn ram_json(r: &Report) -> (o: String)
    ensures
        o@ == ram_json_text(*r),
{
    let mut o = copy("\"ram\":{\"peak_gbs\":");
    o.append(num(r.ram.peak_gbs).as_str());
    o.append(",\"peak_threads\":");
    o.append(decimal(r.ram.peak_threads as u128).as_str());
    o.append(",\"working_set\":");
    o.append(decimal(r.ram.working_set as u128).as_str());
    o.append(",\"by_threads\":[");
    o.append(rates(&r.ram.by_threads).as_str());
    o.append("]},");
    o
}

/// The arithmetic throughput.
pub open spec fn compute_json_text(r: Report) -> Seq<char> {
    "\"compute\":{\"gflops_1t\":"@ + num_text(r.compute.gflops_1t) + ",\"gflops_nt\":"@ + num_text(r.compute.gflops_nt) + ",\"int8_gops_nt\":"@ + num_text(r.compute.int8_gops_nt) + ",\"int8_ratio\":"@ + num_text(r.compute.int8_ratio) + ",\"threads\":"@ + dec(r.compute.threads as nat) + "},"@
}

fn compute_json(r: &Report) -> (o: String)
    ensures
        o@ == compute_json_text(*r),
{
    let mut o = copy("\"compute\":{\"gflops_1t\":");
    o.append(num(r.compute.gflops_1t).as_str());
    o.append(",\"gflops_nt\":");
    o.append(num(r.compute.gflops_nt).as_str());
    o.append(",\"int8_gops_nt\":");
    o.append(num(r.compute.int8_gops_nt).as_str());
    o.append(",\"int8_ratio\":");
    o.append(num(r.compute.int8_ratio).as_str());
    o.append(",\"threads\":");
    o.append(decimal(r.compute.threads as u128).as_str());
    o.append("},");
    o
}

/// The disk; null where it was never measured, which is not the same as slow.
pub open spec fn disk_json_text(r: Report) -> Seq<char> {
    match r.disk {
        Some(d) => "\"disk\":{\"seq_qd1_gbs\":"@ + num_text(d.seq_qd1_gbs) + ",\"rand_128k_qd1_gbs\":"@ + num_text(d.rand_128k_qd1_gbs) + ",\"rand_128k_qdn_gbs\":"@ + num_text(d.rand_128k_qdn_gbs) + ",\"rand_4k_qdn_iops\":"@ + num_text(d.rand_4k_qdn_iops) + ",\"queue_depth\":"@ + dec(d.queue_depth as nat) + ",\"uncached\":"@ + bool_text(d.uncached) + ",\"file_bytes\":"@ + dec(d.file_bytes as nat) + ",\"created_file\":"@ + bool_text(d.created_file) + "}},"@,
        None => "\"disk\":null},"@,
    }
}

fn disk_json(r: &Report) -> (o: String)
    ensures
        o@ == disk_json_text(*r),
{
    match &r.disk {
        Some(d) => {
            let mut o = copy("\"disk\":{\"seq_qd1_gbs\":");
            o.append(num(d.seq_qd1_gbs).as_str());
            o.append(",\"rand_128k_qd1_gbs\":");
            o.append(num(d.rand_128k_qd1_gbs).as_str());
            o.append(",\"rand_128k_qdn_gbs\":");
            o.append(num(d.rand_128k_qdn_gbs).as_str());
            o.append(",\"rand_4k_qdn_iops\":");
            o.append(num(d.rand_4k_qdn_iops).as_str());
            o.append(",\"queue_depth\":");
            o.append(decimal(d.queue_depth as u128).as_str());
            o.append(",\"uncached\":");
            o.append(bool_str(d.uncached));
            o.append(",\"file_bytes\":");
            o.append(decimal(d.file_bytes as u128).as_str());
            o.append(",\"created_file\":");
            o.append(bool_str(d.created_file));
            o.append("}},");
            o
        },
        None => copy("\"disk\":null},"),
    }
}

// ------------------------------------------------- assumptions and models

/// What the predictions assume.
pub open spec fn assumptions_json_text(r: Report) -> Seq<char> {
    "\"assumptions\":{\"backend\":"@ + st_text(backend_tag_text(r.backend)) + ",\"ram_bw_gbs\":"@ + num_text(r.ram_bw_gbs) + ",\"vram_bytes\":"@ + dec(r.vram_bytes as nat) + ",\"vram_bw_gbs\":"@ + num_text(r.vram_bw_gbs) + ",\"vram_bw_measured\":false,\"disk_gbs\":"@ + num_text(r.disk_gbs) + ",\"kv_precision\":"@ + st_text(r.assumptions.kv_precision.tag_text()) + ",\"prompt_tokens\":"@ + dec(r.assumptions.prompt_tokens as nat) + ",\"ubatch\":"@ + dec(r.assumptions.ubatch as nat) + ",\"idle_machine\":"@ + bool_text(r.assumptions.idle_machine) + ",\"uncalibrated\":"@ + bool_text(r.assumptions.uncalibrated) + ",\"prefill_unmeasured\":"@ + bool_text(r.assumptions.prefill_unmeasured) + ",\"total_rows\":"@ + dec(r.assumptions.total_rows as nat) + "},"@
}

fn assumptions_json(r: &Report) -> (o: String)
    ensures
        o@ == assumptions_json_text(*r),
{
    let mut o = copy("\"assumptions\":{\"backend\":");
    o.append(st(backend_tag(r.backend)).as_str());
    o.append(",\"ram_bw_gbs\":");
    o.append(num(r.ram_bw_gbs).as_str());
    o.append(",\"vram_bytes\":");
    o.append(decimal(r.vram_bytes as u128).as_str());
    o.append(",\"vram_bw_gbs\":");
    o.append(num(r.vram_bw_gbs).as_str());
    o.append(",\"vram_bw_measured\":false,\"disk_gbs\":");
    o.append(num(r.disk_gbs).as_str());
    o.append(",\"kv_precision\":");
    o.append(st(r.assumptions.kv_precision.tag()).as_str());
    o.append(",\"prompt_tokens\":");
    o.append(decimal(r.assumptions.prompt_tokens as u128).as_str());
    o.append(",\"ubatch\":");
    o.append(decimal(r.assumptions.ubatch as u128).as_str());
    o.append(",\"idle_machine\":");
    o.append(bool_str(r.assumptions.idle_machine));
    o.append(",\"uncalibrated\":");
    o.append(bool_str(r.assumptions.uncalibrated));
    o.append(",\"prefill_unmeasured\":");
    o.append(bool_str(r.assumptions.prefill_unmeasured));
    o.append(",\"total_rows\":");
    o.append(decimal(r.assumptions.total_rows as u128).as_str());
    o.append("},");
    o
}

/// A prediction.
pub open spec fn model_json_text(m: Row) -> Seq<char> {
    "{\"id\":"@ + st_text(m.model_id@) + ",\"quant\":"@ + st_text(m.quant.name@) + ",\"quant_family\":"@ + st_text(m.quant.family.tag_text()) + ",\"bytes\":"@ + dec(m.quant.bytes as nat) + ",\"verdict\":"@ + st_text(verdict_tag_text(m.prediction.verdict)) + ",\"decode_tok_s\":{\"low\":"@ + num_text(m.prediction.decode_tok_s.0) + ",\"high\":"@ + num_text(m.prediction.decode_tok_s.1) + "},\"max_context\":"@ + dec(m.prediction.max_context as nat) + ",\"kv_bytes_per_token\":"@ + dec(m.prediction.kv_bytes_per_token as nat) + ",\"prefill_tok_s\":"@ + opt_num_text(m.prediction.prefill_tok_s) + ",\"ttft_s\":"@ + opt_num_text(m.prediction.ttft_s) + ",\"confidence\":"@ + st_text(m.prediction.confidence.label_text()) + ",\"prefill_confidence\":"@ + st_text(m.prediction.prefill_confidence.label_text()) + ",\"resident_fraction\":"@ + num_text(m.prediction.resident_fraction) + ",\"raw_seconds_per_token\":"@ + num_text(m.prediction.raw_seconds_per_token) + ",\"assumed_eta\":"@ + num_text(m.prediction.assumed_eta) + "}"@
}

fn model_json(m: &Row) -> (o: String)
    ensures
        o@ == model_json_text(*m),
{
    let mut o = copy("{\"id\":");
    o.append(st(m.model_id.as_str()).as_str());
    o.append(",\"quant\":");
    o.append(st(m.quant.name.as_str()).as_str());
    o.append(",\"quant_family\":");
    o.append(st(m.quant.family.tag()).as_str());
    o.append(",\"bytes\":");
    o.append(decimal(m.quant.bytes as u128).as_str());
    o.append(",\"verdict\":");
    o.append(st(verdict_tag(m.prediction.verdict)).as_str());
    o.append(",\"decode_tok_s\":{\"low\":");
    o.append(num(m.prediction.decode_tok_s.0).as_str());
    o.append(",\"high\":");
    o.append(num(m.prediction.decode_tok_s.1).as_str());
    o.append("},\"max_context\":");
    o.append(decimal(m.prediction.max_context as u128).as_str());
    o.append(",\"kv_bytes_per_token\":");
    o.append(decimal(m.prediction.kv_bytes_per_token as u128).as_str());
    o.append(",\"prefill_tok_s\":");
    o.append(opt_num(m.prediction.prefill_tok_s).as_str());
    o.append(",\"ttft_s\":");
    o.append(opt_num(m.prediction.ttft_s).as_str());
    o.append(",\"confidence\":");
    o.append(st(m.prediction.confidence.label()).as_str());
    o.append(",\"prefill_confidence\":");
    o.append(st(m.prediction.prefill_confidence.label()).as_str());
    o.append(",\"resident_fraction\":");
    o.append(num(m.prediction.resident_fraction).as_str());
    o.append(",\"raw_seconds_per_token\":");
    o.append(num(m.prediction.raw_seconds_per_token).as_str());
    o.append(",\"assumed_eta\":");
    o.append(num(m.prediction.assumed_eta).as_str());
    o.append("}");
    o
}

/// The predictions, separated by commas.
pub open spec fn models_text(v: Seq<Row>) -> Seq<char> {
    join(v.map_values(|x: Row| model_json_text(x)), ","@)
}

fn models(v: &Vec<Row>) -> (o: String)
    ensures
        o@ == models_text(v@),
{
    let mut parts: Vec<String> = Vec::new();
    let mut i: usize = 0;
    while i < v.len()
        invariant
            i <= v@.len(),
            texts(parts@) =~= v@.subrange(0, i as int).map_values(|x: Row| model_json_text(x)),
        decreases v@.len() - i,
    {
        let ghost prev = parts@;
        let ghost x = v@[i as int];
        parts.push(model_json(&v[i]));
        assert(texts(parts@) =~= texts(prev).push(model_json_text(x)));
        i += 1;
    }
    assert(v@.subrange(0, i as int) =~= v@);
    joined(&parts, ",")
}

/// The report as one JSON object.
pub open spec fn report_json(r: Report, home: Option<&str>) -> Seq<char> {
    "{\"schema\":"@ + dec(SCHEMA as nat) + ","@ + machine_json_text(r, home) + "\"measured\":{"@ + ram_json_text(r) + compute_json_text(r) + disk_json_text(r) + assumptions_json_text(r) + "\"models\":["@ + models_text(r.models@) + "]}"@
}

/// The report as JSON. Paths are relative to the home directory, so a report
/// that is attached somewhere carries no account name.
pub fn render(r: &Report, home: Option<&str>) -> (o: String)
    ensures
        o@ == report_json(*r, home),
{
    let mut o = copy("{\"schema\":");
    o.append(decimal(SCHEMA as u128).as_str());
    o.append(",");
    o.append(machine_json(r, home).as_str());
    o.append("\"measured\":{");
    o.append(ram_json(r).as_str());
    o.append(compute_json(r).as_str());
    o.append(disk_json(r).as_str());
    o.append(assumptions_json(r).as_str());
    o.append("\"models\":[");
    o.append(models(&r.models).as_str());
    o.append("]}");
    o
}

} // verus!
