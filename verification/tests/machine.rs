//! From readings to a machine, and from a machine to its report and plan.

use zerocloud::bench::{
    best_of, gbs, gops, needs_scratch, worker_seed, ComputeResult, DiskResult, RamResult, ReadRun, ThreadRate, Walk, MIN_SPAN,
};
use zerocloud::catalog::{builtin, is_document};
use zerocloud::cli::args::{mode, parse_options, Command, Mode};
use zerocloud::cli::check::{all_rows, cut, report};
use zerocloud::cli::gate_cmd::merged;
use zerocloud::cli::hf::parse;
use zerocloud::cli::machine::{inference_thread_count, Machine};
use zerocloud::cli::plan_cmd;
use zerocloud::cli::share::{agrees, describe, offer};
use zerocloud::cli::verify::record;
use zerocloud::double::Double;
use zerocloud::fit::{parse_record, parse_records, Fit};
use zerocloud::gate::Gate;
use zerocloud::kv::KvPrecision;
use zerocloud::predict::{predict, required_bandwidth_gbs, Backend, Platform, Verdict};
use zerocloud::probe::cpu::{self, Cpu, IsaFeatures, MacCpu, WinCore};
use zerocloud::probe::env::{cpuid_virt, macos_virt, Env, Virt};
use zerocloud::probe::gpu::{detect_linux, detect_windows, sysfs_card, Gpu};
use zerocloud::probe::memory::{self, Memory, VmPages};
use zerocloud::probe::storage::{candidate_dirs, choose_medium, windows_volume_kind, BenchTarget, DeviceMedium, Medium, MediumClues, ModelDir, Storage, Volume};
use zerocloud::report::charset::{detect, Charset, Terminal};
use zerocloud::report::text::{colors_enabled, render_with};
use zerocloud::report::{best_per_model, home, redact, wrap, SortKey};
use zerocloud::runtime::calibrate::{compare, fingerprint};
use zerocloud::runtime::{measurement_prompt, RunStats};
use zerocloud::spec::{Attention, ModelSpec, Quant, QuantFamily};
use zerocloud::tui::frame::{frame, View};
use zerocloud::tui::run::{prepare, press, KeyCode, KeyPress};
use zerocloud::tui::state::{Action, State};

const GIB: u64 = 1 << 30;

fn d(x: f64) -> Double {
    Double::from_bits(x.to_bits())
}

fn f(x: Double) -> f64 {
    f64::from_bits(x.bits)
}

// ------------------------------------------------------------------- readings

#[test]
fn memory_in_use_on_a_mac_is_what_cannot_be_dropped() {
    let pages = VmPages { internal: 1000, purgeable: 200, wired: 300, compressor: 100 };
    let m = memory::from_macos(Some(16384), Some(GIB), Some(pages), Some(0), true);
    assert_eq!(m.available, GIB - 1200 * 16384);
    assert_eq!((m.total, m.page_size, m.unified), (GIB, 16384, true));
    assert_eq!((m.firmware_reserved, m.gpu_wired_limit), (Some(0), None));
    let m = memory::from_macos(None, Some(10 * GIB), None, Some(12), false);
    assert_eq!(m.available, 7 * GIB);
    assert_eq!((m.page_size, m.gpu_wired_limit, m.unified), (16384, Some(12 << 20), false));
}

#[test]
fn memory_on_windows_is_taken_as_reported() {
    let m = memory::from_windows(Some((16 * GIB, 9 * GIB)));
    assert_eq!((m.total, m.available, m.page_size, m.unified), (16 * GIB, 9 * GIB, 4096, false));
    let m = memory::from_windows(None);
    assert_eq!((m.total, m.available), (0, 0));
}

#[test]
fn a_drive_type_names_its_volume() {
    assert_eq!(windows_volume_kind(2), ("removable", true));
    assert_eq!(windows_volume_kind(3), ("fixed", true));
    assert_eq!(windows_volume_kind(4), ("remote", false));
    for dtype in [0, 1, 5, 6, u32::MAX] {
        assert_eq!(windows_volume_kind(dtype), ("unknown", true));
    }
}

fn no_features() -> IsaFeatures {
    IsaFeatures { avx2: false, avx512f: false, f16c: false, neon_dotprod: false, neon_i8mm: false }
}

fn mac(levels: Option<u64>, l3: Option<u64>) -> MacCpu {
    MacCpu {
        brand: Some("Apple M5".into()),
        physical: Some(10),
        logical: Some(10),
        perf_levels: levels,
        level0: Some(4),
        level1: Some(6),
        l3,
        l2: Some(16 << 20),
        cache_line: Some(128),
        features: no_features(),
    }
}

#[test]
fn a_mac_has_its_cores_in_levels() {
    let c = cpu::from_macos(mac(Some(2), None));
    assert_eq!((c.p_cores, c.e_cores, c.physical, c.logical), (4, 6, 10, 10));
    assert_eq!((c.llc_bytes, c.cache_line, c.smt), (16 << 20, 128, false));
    assert_eq!(c.recommended_threads, 4);
    let c = cpu::from_macos(mac(None, Some(32 << 20)));
    assert_eq!((c.p_cores, c.e_cores, c.llc_bytes), (10, 0, 32 << 20));
    let c = cpu::from_macos(mac(Some(1), Some(0)));
    assert_eq!(c.llc_bytes, 16 << 20);
}

#[test]
fn even_cores_on_windows_are_all_fast_ones() {
    let even: Vec<WinCore> = (0..6).map(|_| WinCore { logical: 2, efficiency_class: 0 }).collect();
    let c = cpu::from_windows(&even, Some("Intel64".into()));
    assert_eq!((c.physical, c.logical, c.p_cores, c.e_cores, c.smt), (6, 12, 6, 0, true));
    let mixed = vec![WinCore { logical: 2, efficiency_class: 1 }, WinCore { logical: 1, efficiency_class: 0 }];
    let c = cpu::from_windows(&mixed, None);
    assert_eq!((c.physical, c.logical, c.p_cores, c.e_cores), (2, 3, 1, 1));
    assert_eq!(c.brand, "unknown");
    let c = cpu::from_windows(&Vec::new(), None);
    assert_eq!((c.physical, c.logical), (1, 1));
}

#[test]
fn a_guest_is_told_by_its_bit() {
    assert!(macos_virt(false).is_none());
    assert!(matches!(macos_virt(true), Some(Virt::Hypervisor(n)) if n == "unknown"));
    assert!(cpuid_virt(0x7FFF_FFFF, "KVMKVMKVM\0\0\0").is_none());
    assert!(matches!(cpuid_virt(1 << 31, "KVMKVMKVM\0\0\0"), Some(Virt::Hypervisor(n)) if n == "KVMKVMKVM"));
}

#[test]
fn adapters_come_from_the_driver_first() {
    let smi = "24564, GeForce RTX 4090\n";
    let card = sysfs_card(0x1002, Some(8 * GIB), Some("Radeon RX 7600".into())).unwrap();
    let v = detect_linux(Some(smi), vec![card]);
    let names: Vec<&str> = v.iter().map(|g| g.name.as_str()).collect();
    assert_eq!(names, ["NVIDIA GeForce RTX 4090", "Radeon RX 7600"]);
    assert!(detect_linux(None, Vec::new()).is_empty());
    assert!(sysfs_card(0x10de, None, None).is_none());
    let wmi = "Radeon RX 7600|4293918720|8573157376\n";
    assert_eq!(detect_windows(Some(smi), Some(wmi)).len(), 1);
    assert_eq!(detect_windows(Some(smi), Some(wmi))[0].vendor.tag(), "nvidia");
    assert_eq!(detect_windows(None, Some(wmi))[0].vram_bytes, 8573157376);
}

#[test]
fn model_directories_are_tried_in_order() {
    let v = candidate_dirs("/home/alice", Some("/fast/models"), None, false);
    let paths: Vec<(&str, &str)> = v.iter().map(|m| (m.path.as_str(), m.source)).collect();
    assert_eq!(
        paths,
        [
            ("/fast/models", "ZC_MODEL_DIR"),
            ("/home/alice/.ollama/models", "ollama"),
            ("/home/alice/.lmstudio/models", "lm studio"),
            ("/home/alice/.cache/lm-studio/models", "lm studio"),
            ("/home/alice/.cache/huggingface/hub", "huggingface"),
            ("/home/alice/.local/share/models", "local"),
            ("/home/alice", "home (no runtime found)"),
        ]
    );
    assert_eq!(candidate_dirs("/h", None, Some("/o"), false)[0].source, "OLLAMA_MODELS");
    assert_eq!(candidate_dirs("C:\\Users\\a", None, None, true)[0].path, "C:\\Users\\a\\.ollama/models");
    assert_eq!(candidate_dirs("C:", None, None, true)[0].path, "C:.ollama/models");
    assert_eq!(candidate_dirs("C:/", None, None, true)[0].path, "C:/.ollama/models");
    assert_eq!(candidate_dirs("a\\", None, None, false)[0].path, "a\\/.ollama/models");
}

#[test]
fn the_medium_follows_the_clues() {
    let asked = |a: &str| MediumClues::Linux(vec![DeviceMedium::AskBlockDevice("sda".into())], vec![Some(a.to_string())]);
    assert_eq!(choose_medium("ext4", true, &asked("1\n")), Medium::Rotational);
    assert_eq!(choose_medium("ext4", true, &asked("0\n")), Medium::Ssd);
    assert_eq!(choose_medium("ext4", true, &MediumClues::Linux(vec![DeviceMedium::Nvme], vec![None])), Medium::Nvme);
    assert_eq!(choose_medium("nfs4", true, &asked("0")), Medium::Network);
    assert_eq!(choose_medium("ext4", true, &MediumClues::Linux(Vec::new(), Vec::new())), Medium::Unknown);
    assert_eq!(choose_medium("apfs", true, &MediumClues::MacOs), Medium::Nvme);
    assert_eq!(choose_medium("removable", true, &MediumClues::Windows), Medium::Unknown);
    assert_eq!(choose_medium("fixed", true, &MediumClues::Windows), Medium::Ssd);
    assert_eq!(choose_medium("fixed", false, &MediumClues::Windows), Medium::Network);
}

fn stored(path: &str, volume: Option<Volume>) -> Storage {
    let dir = ModelDir { path: path.into(), source: "ollama" };
    let target = BenchTarget::none().with_file("a.gguf", "/m/a.gguf".into(), 2 * GIB).with_file("b.iso", "/m/b.iso".into(), 4 * GIB);
    Storage::assemble(dir, volume, &MediumClues::MacOs, target)
}

#[test]
fn storage_is_what_was_found_of_it() {
    let v = Volume { mount: "/".into(), fstype: "apfs".into(), total: 500 * GIB, free: 100 * GIB, local: true };
    let s = stored("/Users/alice/.ollama/models", Some(v));
    assert_eq!((s.mount.as_str(), s.fstype.as_str(), s.total, s.free), ("/", "apfs", 500 * GIB, 100 * GIB));
    assert_eq!((s.medium, s.hazards.len()), (Medium::Nvme, 0));
    assert_eq!((s.bench_file.as_deref(), s.bench_is_weight, s.source), (Some("/m/a.gguf"), true, "ollama"));
    let s = stored("/Users/alice/OneDrive/m", None);
    assert_eq!((s.mount.as_str(), s.fstype.as_str(), s.total), ("/Users/alice/OneDrive/m", "unknown", 0));
    let texts: Vec<String> = s.hazards.iter().map(|h| h.text()).collect();
    assert_eq!(texts.len(), 2, "{texts:?}");
    assert!(texts[0].contains("OneDrive"), "{texts:?}");
}

#[test]
fn a_catalog_file_is_known_by_its_extension() {
    assert!(is_document("a.json") && is_document("b.c.json"));
    assert!(!is_document("json") && !is_document(".json") && !is_document("a.jsonl") && !is_document("a.json.bak"));
}

// ----------------------------------------------------------------- benchmarks

#[test]
fn rates_are_what_the_processor_divides() {
    for (n, s) in [(1u64 << 31, 0.137), (1, 3.0), (0, 1.0), (u64::MAX, 0.4), (7_777_777, 0.0)] {
        assert_eq!(gbs(n, d(s)).bits, (n as f64 / s / 1e9).to_bits(), "{n} in {s}");
    }
    assert_eq!(f(gops(1_000_000_000, d(0.5), true)), 2.0);
    assert_eq!(f(gops(1_000_000_000, d(0.5), false)), 0.0);
    assert_eq!(f(gops(1_000_000_000, d(0.0), true)), 0.0);
    assert_eq!(f(best_of(&vec![d(1.5), d(9.25), d(3.0)])), 9.25);
    assert_eq!(f(best_of(&Vec::new())), 0.0);
    let run = |bytes: u64, ops: u64| ReadRun { bytes, ops, seconds: d(0.5) };
    let r = DiskResult::of(run(GIB, 1), run(2 * GIB, 1), run(4 * GIB, 1), run(1, 50_000), 16, true, 3 * GIB, false);
    assert_eq!(f(r.seq_qd1_gbs), GIB as f64 / 0.5 / 1e9);
    assert_eq!(f(r.rand_128k_qdn_gbs), (4 * GIB) as f64 / 0.5 / 1e9);
    assert_eq!((f(r.rand_4k_qdn_iops), r.queue_depth, r.file_bytes), (100_000.0, 16, 3 * GIB));
    let c = ComputeResult::of(&vec![d(10.0)], &vec![d(40.0), d(20.0)], &vec![d(60.0)], 4);
    assert_eq!((f(c.gflops_1t), f(c.gflops_nt), f(c.int8_gops_nt), f(c.int8_ratio)), (10.0, 40.0, 60.0, 1.5));
    let c = ComputeResult::of(&vec![d(0.0)], &Vec::new(), &vec![d(60.0)], 4);
    assert_eq!(f(c.int8_ratio), 1.0);
}

#[test]
fn a_walk_stays_in_the_file() {
    let mut w = Walk::new(1_000_000, 4096, true, 1);
    let turns: Vec<u64> = (0..245).map(|_| w.next_offset()).collect();
    assert_eq!((turns[0], turns[1], turns[242], turns[243], turns[244]), (4096, 8192, 243 * 4096, 0, 4096));
    let mut w = Walk::new(1_000_000, 4096, false, 2);
    let spots: Vec<u64> = (0..1000).map(|_| w.next_offset()).collect();
    assert!(spots.iter().all(|o| o % 4096 == 0 && o + 4096 <= 1_000_000));
    assert!(spots.iter().any(|o| *o != spots[0]));
    assert_eq!(Walk::new(10, 4096, false, 2).next_offset(), 0);
    assert_eq!(worker_seed(0), 0x9E37_79B9_7F4A_7C15);
    assert_eq!(worker_seed(3), 0x9E37_79B9_7F4A_7C15 ^ (3 << 17));
    assert!(needs_scratch(None) && needs_scratch(Some(MIN_SPAN - 1)) && !needs_scratch(Some(MIN_SPAN)));
}

// --------------------------------------------------------------- the machine

fn host(gpus: Vec<Gpu>, unified: bool) -> Machine {
    let mem = Memory { total: 32 * GIB, available: 20 * GIB, page_size: 4096, firmware_reserved: None, gpu_wired_limit: None, unified };
    let cpu = Cpu {
        brand: "Test CPU".into(),
        physical: 8,
        logical: 16,
        p_cores: 8,
        e_cores: 0,
        smt: true,
        llc_bytes: 16 << 20,
        cache_line: 64,
        features: no_features(),
        recommended_threads: 8,
        raw: Vec::new(),
    };
    let env = Env { os: "linux".into(), arch: "x86_64".into(), virt: None, memory_ceiling: None, warning: None };
    let v = Volume { mount: "/".into(), fstype: "apfs".into(), total: 500 * GIB, free: 100 * GIB, local: true };
    let ram = RamResult {
        peak_gbs: d(60.0),
        peak_threads: 2,
        by_threads: vec![ThreadRate { threads: 2, gbs: d(60.0) }, ThreadRate { threads: 8, gbs: d(55.0) }],
        working_set: 256 << 20,
    };
    let compute = ComputeResult::of(&vec![d(100.0)], &vec![d(400.0)], &vec![d(800.0)], 8);
    Machine::assemble(mem, cpu, env, stored("/m", Some(v)), gpus, ram, compute, None, Platform::Other)
}

#[test]
fn a_machine_is_put_together_from_its_readings() {
    let m = host(Vec::new(), false);
    assert_eq!(m.backend, Backend::Cpu);
    assert_eq!((f(m.hw.ram_bw_gbs), f(m.hw.ram_bw_peak_gbs), f(m.hw.disk_gbs)), (55.0, 60.0, 0.5));
    assert_eq!((f(m.hw.gflops), m.hw.threads, m.hw.vram_bytes), (400.0, 8, 0));
    assert_eq!(m.hw.usable_bytes, m.budget_idle);
    assert!(!m.hw.vram_bw_measured);
    assert_eq!(m.profile(), format!("Test CPU|8P0E|{}|linux|Nvme", 32 * GIB));
    let m = host(vec![Gpu::new("NVIDIA GeForce RTX 3060".into(), 12 * GIB, "nvidia-smi")], false);
    assert_eq!((m.backend, m.hw.vram_bytes, f(m.hw.vram_bw_gbs)), (Backend::Discrete, 12 * GIB, 360.0));
    assert!(m.profile().ends_with(&format!("|NVIDIA GeForce RTX 3060|{}", 12 * GIB)), "{}", m.profile());
    assert_eq!((inference_thread_count(0), inference_thread_count(6)), (1, 6));
}

#[test]
fn every_quantisation_gets_a_row_and_the_cut_comes_last() {
    let specs = builtin();
    let m = host(Vec::new(), false);
    let fit = Fit::empty();
    let rows = all_rows(&specs, &m.hw, KvPrecision::F16, &fit);
    let pairs: Vec<(&str, &str)> = specs.iter().flat_map(|s| s.quants.iter().map(|q| (s.id.as_str(), q.name.as_str()))).collect();
    let got: Vec<(&str, &str)> = rows.iter().map(|r| (r.model_id.as_str(), r.quant.name.as_str())).collect();
    assert_eq!(got, pairs);
    let alone = predict(&specs[0], &specs[0].quants[0], &m.hw, KvPrecision::F16, 2048, 512);
    assert_eq!(rows[0].prediction.decode_tok_s, alone.decode_tok_s);
    let n = rows.len();
    let full = report(m, &fit, KvPrecision::F16, rows, n);
    assert!(full.assumptions.uncalibrated && full.assumptions.prefill_unmeasured);
    let short = cut(full, false, Some(2));
    assert_eq!((short.models.len(), short.assumptions.total_rows), (2, specs.len()));
    assert!(short.models[0].model_id != short.models[1].model_id);
    assert_eq!((short.assumptions.prompt_tokens, short.assumptions.ubatch), (2048, 512));
    assert_eq!(short.cpu.brand, "Test CPU");
    let rows = all_rows(&builtin(), &host(Vec::new(), false).hw, KvPrecision::F16, &fit);
    assert_eq!(best_per_model(rows).len(), specs.len());
}

#[test]
fn a_plan_is_made_or_refused() {
    let specs = builtin();
    let m = host(Vec::new(), false);
    let fit = Fit::empty();
    let plan = |model: &str, ctx: Option<u32>, quant: Option<&str>| {
        plan_cmd::run(&m, &fit, KvPrecision::F16, &specs, model, ctx, quant, None)
    };
    let Ok(text) = plan("llama-3.1-8b", None, None) else { panic!("refused") };
    assert!(text.starts_with("== plan ==  llama-3.1-8b at 4K context, KV F16, target 10 tok/s\n"), "{text}");
    assert!(text.contains("  Q4_K_M ") && text.contains("  Q8_0 "), "{text}");
    let eta = 0.70 * f(specs.iter().find(|s| s.id == "llama-3.1-8b").unwrap().quants[0].family.efficiency());
    let need = 4_920_000_000.0 * 10.0 / eta / 1e9;
    assert!(text.contains(&format!("{need:>7.0} GB/s")), "{need} in {text}");
    assert!(text.lines().all(|l| l == l.trim_end()));
    let refusal = |r: Result<String, plan_cmd::Refusal>| match r {
        Ok(t) => panic!("planned: {t}"),
        Err(e) => (e.message, e.code),
    };
    assert_eq!(refusal(plan("no-such", None, None)).1, 1);
    assert_eq!(
        refusal(plan("llama-3.1-8b", Some(200_000), None)),
        ("llama-3.1-8b was trained for 131072 tokens of context; 200000 is past that.".to_string(), 2)
    );
    assert_eq!(
        refusal(plan("llama-3.1-8b", None, Some("IQ1"))),
        ("llama-3.1-8b has no quantisation named 'IQ1'. It has: Q4_K_M, Q8_0".to_string(), 1)
    );
}

#[test]
fn a_record_names_the_machine_by_its_fingerprint() {
    let specs = builtin();
    let m = host(Vec::new(), false);
    let pred = predict(&specs[0], &specs[0].quants[0], &m.hw, KvPrecision::Q8, 1200, 512);
    let run = RunStats {
        model: "m".into(),
        prompt_tokens: 1180,
        eval_tokens: 128,
        prefill_tok_s: d(200.0),
        decode_tok_s: d(12.5),
        load_s: d(1.0),
        n_ctx: None,
    };
    let cal = compare("m", "Q4_K_M", &pred, &run, specs[0].active_params(), m.hw.gflops);
    let line = record(&m, "ollama", KvPrecision::Q8, specs[0].active_params(), &cal, &run);
    let r = parse_record(&line).expect("a record");
    assert_eq!(r.hw, fingerprint(&m.profile()));
    assert_eq!((r.backend.as_str(), r.virt.as_deref()), ("Cpu", Some("none")));
    let shown = describe(&line);
    assert!(shown.contains("  ctx                    4096\n"), "{shown}");
    assert!(shown.contains("  kv                     q8\n"), "{shown}");
    assert!(shown.contains("  ram_bw_gbs             55\n"), "{shown}");
    let line = record(&m, "llamacpp", KvPrecision::F16, 1, &cal, &RunStats { n_ctx: Some(8192), ..run });
    assert!(describe(&line).contains("  ctx                    8192\n"));
}

#[test]
fn an_offer_links_what_fits_into_a_link() {
    let line = "{\"hw\":\"abc\",\"ram_bw_gbs\":55.50,\"within_range\":true}";
    let (text, fits) = offer("/home/alice/r.jsonl", Some("/home/alice"), line, "abc.jsonl", "https://x/y");
    assert!(fits);
    assert!(text.starts_with("== share ==  (~/r.jsonl)\n\n"), "{text}");
    assert!(text.contains("  hw                     abc\n  ram_bw_gbs             55.5\n  within_range           true\n"), "{text}");
    assert!(text.contains("  url           https://x/y\n"), "{text}");
    assert!(text.contains("  lands at      data/calibration/community/abc.jsonl\n"), "{text}");
    let long = "u".repeat(6145);
    let (text, fits) = offer("r", None, line, "abc.jsonl", &long);
    assert!(!fits && text.contains("Too long for a URL (6145 bytes)") && text.ends_with(&format!("{line}\n")), "{text}");
    assert!(agrees("y\n") && agrees(" Y ") && !agrees("yes") && !agrees(""));
}

// --------------------------------------------------------------- the terminal

#[test]
fn what_was_asked_for_is_shown_or_refused() {
    let o = |args: &[&str]| parse_options(args.iter().map(|s| s.to_string()).collect()).unwrap();
    assert_eq!(mode(&o(&["check"]), Command::Check, true), Ok(Mode::Browse));
    assert_eq!(mode(&o(&["check"]), Command::Check, false), Ok(Mode::Print));
    assert_eq!(mode(&o(&["doctor"]), Command::Doctor, true), Ok(Mode::Print));
    assert_eq!(mode(&o(&["check", "Qwen/Qwen3-4B"]), Command::Check, true), Ok(Mode::Repo("Qwen/Qwen3-4B".into())));
    assert_eq!(mode(&o(&["check", "qwen3"]), Command::Check, false), Ok(Mode::Print));
    assert!(mode(&o(&["check", "Qwen/Qwen3-4B", "--json"]), Command::Check, false).unwrap_err().contains("no --json output yet"));
    assert!(mode(&o(&["check", "--tui"]), Command::Check, false).unwrap_err().starts_with("--tui needs an interactive terminal"));
}

fn terminal(term: Option<&str>, lang: Option<&str>) -> Terminal {
    Terminal {
        term: term.map(String::from),
        windows_terminal: false,
        lc_all: None,
        lc_ctype: None,
        lang: lang.map(String::from),
        zc_ascii: None,
    }
}

#[test]
fn a_terminal_gets_the_glyphs_it_can_draw() {
    assert_eq!(detect(&terminal(Some("xterm-256color"), Some("en_US.UTF-8")), false), Charset::Unicode);
    assert_eq!(detect(&terminal(Some("xterm-256color"), Some("C")), false), Charset::Ascii);
    let t = terminal(Some("xterm-256color"), Some("en_US.UTF-8"));
    assert_eq!(detect(&Terminal { zc_ascii: Some("1".into()), ..t }, false), Charset::Ascii);
    let t = terminal(Some("xterm-256color"), Some("en_US.UTF-8"));
    assert_eq!(detect(&Terminal { lc_all: Some("C".into()), ..t }, false), Charset::Ascii);
    assert!(colors_enabled(true, false, Some("xterm")));
    assert!(!colors_enabled(true, true, Some("xterm")) && !colors_enabled(false, false, Some("xterm")));
    assert!(!colors_enabled(true, false, Some("dumb")) && !colors_enabled(true, false, None));
    assert_eq!(home(Some("/h".into()), Some("C:\\u".into())).as_deref(), Some("/h"));
    assert_eq!(home(None, Some("C:\\u".into())).as_deref(), Some("C:\\u"));
}

#[test]
fn a_key_moves_the_cursor_over_the_rows_on_screen() {
    let m = host(Vec::new(), false);
    let all = all_rows(&builtin(), &m.hw, KvPrecision::F16, &Fit::empty());
    let n = all.len();
    let full = report(m, &Fit::empty(), KvPrecision::F16, all, n);
    let view = View::from_report(&full, "1.0");
    let rows = full.models;
    let key = |code: KeyCode| KeyPress { code, control: false, release: false };
    let mut s = State::new(0);
    let (idx, total) = prepare(&rows, &view, &mut s, 24);
    assert_eq!((idx.len(), total, s.len), (builtin().len(), builtin().len(), builtin().len()));
    assert_eq!(press(&mut s, key(KeyCode::Char('j'))), Action::Redraw);
    assert_eq!(s.cursor, 1);
    press(&mut s, KeyPress { code: KeyCode::Down, control: false, release: true });
    assert_eq!(s.cursor, 1);
    press(&mut s, key(KeyCode::Char('s')));
    assert_eq!(s.sort, SortKey::Decode);
    press(&mut s, key(KeyCode::Char('a')));
    let (idx, total) = prepare(&rows, &view, &mut s, 24);
    assert_eq!((idx.len(), total), (rows.len(), rows.len()));
    for c in "/qwen".chars() {
        press(&mut s, key(KeyCode::Char(c)));
    }
    let (idx, total) = prepare(&rows, &view, &mut s, 24);
    assert_eq!((idx.len(), total), (4, rows.len()));
    assert_eq!(press(&mut s, KeyPress { code: KeyCode::Char('c'), control: true, release: false }), Action::Quit);
}

// ------------------------------------------------------------------ the cache

fn cache_model(n_layers: u32, attention: Attention) -> ModelSpec {
    ModelSpec {
        id: "m".into(),
        n_layers,
        n_embd: 4096,
        n_vocab: 32000,
        params: 1,
        attention,
        moe: None,
        n_ctx_train: None,
        quants: Vec::new(),
    }
}

#[test]
fn cache_sizes_are_what_the_processor_computes() {
    let mut x: u64 = 0x0123_4567_89AB_CDEF;
    let mut next = |limit: u64| {
        x ^= x << 13;
        x ^= x >> 7;
        x ^= x << 17;
        (x >> 11) % limit
    };
    for round in 0..400 {
        let top = if round % 2 == 0 { 4096 } else { u32::MAX as u64 };
        let (l, h, w) = (next(top) as u32, next(top) as u32, next(top) as u32);
        let (window, every, ctx) = (next(top) as u32, next(9) as u32, next(top) as u32);
        let (rank, rope, layers, state) = (next(top / 2) as u32, next(top / 2) as u32, next(top) as u32, next(top * top / 4));
        for prec in [KvPrecision::F16, KvPrecision::Q8, KvPrecision::Q4] {
            let e = f(prec.bytes());
            let lf = l as f64;
            let s = cache_model(l, Attention::Gqa { n_kv_heads: h, head_dim: w });
            assert_eq!(s.kv_bytes(ctx, prec), (2.0 * lf * h as f64 * w as f64 * ctx as f64 * e) as u64);
            let s = cache_model(l, Attention::Mla { kv_lora_rank: rank, rope_head_dim: rope });
            assert_eq!(s.kv_bytes(ctx, prec), (lf * (rank + rope) as f64 * ctx as f64 * e) as u64);
            let s = cache_model(l, Attention::Swa { n_kv_heads: h, head_dim: w, window, global_every: every });
            let global = (l / every.max(1)) as f64;
            let want = 2.0 * h as f64 * w as f64 * e * (global * ctx as f64 + (lf - global) * ctx.min(window) as f64);
            assert_eq!(s.kv_bytes(ctx, prec), want as u64);
            let s = cache_model(
                l,
                Attention::Hybrid { attn_layers: layers, n_kv_heads: h, head_dim: w, ssm_state_bytes: state },
            );
            let want = 2.0 * layers as f64 * h as f64 * w as f64 * ctx as f64 * e + (lf - layers as f64) * state as f64;
            assert_eq!(s.kv_bytes(ctx, prec), want as u64);
        }
    }
}

#[test]
fn the_cursor_is_seen_beside_an_open_pane() {
    let m = host(Vec::new(), false);
    let mut all = Vec::new();
    for _ in 0..4 {
        all.extend(all_rows(&builtin(), &m.hw, KvPrecision::F16, &Fit::empty()));
    }
    let n = all.len();
    assert!(n > 20);
    let full = report(m, &Fit::empty(), KvPrecision::F16, all, n);
    let view = View::from_report(&full, "1.0");
    for (cursor, detail, help) in [(15, true, false), (15, true, true), (n - 1, false, true), (0, true, false)] {
        let mut s = State::new(n);
        s.show_all = true;
        s.cursor = cursor;
        s.detail = detail;
        s.help = help;
        let (idx, total) = prepare(&full.models, &view, &mut s, 28);
        let lines = frame(&view, &idx, total, &s, Charset::Ascii, 80, 28);
        assert_eq!(lines.iter().filter(|l| l.starts_with('>')).count(), 1, "{lines:?}");
    }
}

// -------------------------------------------------------------- what is read

#[test]
fn every_json_escape_is_decoded() {
    let src = "{\"e\":\"\\b\\f\\n\\t\\r\\/\\\\\\u0041\"}";
    assert_eq!(zerocloud::json::string(src, "e").as_deref(), Some("\u{8}\u{c}\n\t\r/\\A"));
    assert_eq!(zerocloud::json::string("{\"e\":\"\\u+041\"}", "e"), None);
    assert_eq!(zerocloud::json::keys("{\"a\":1,\"b\":{\"c\":\"d\"}}"), ["a", "b", "c"]);
}

#[test]
fn an_unknown_dtype_leaves_the_total_unknown() {
    let config = "{\"num_hidden_layers\":32,\"hidden_size\":4096,\"vocab_size\":128256,\"num_attention_heads\":32,\"num_key_value_heads\":8}";
    let read = |parameters: &str| parse("a/b", &format!("{{\"safetensors\":{{\"parameters\":{parameters}}}}}"), config);
    let why = |parameters: &str| read(parameters).err().unwrap_or_default();
    assert_eq!(why("{\"BF16\":1000,\"F4\":10}"), "unrecognised dtype F4");
    assert_eq!(why("{\"BF16\":null}"), "the API reports no count for dtype BF16");
    assert_eq!(why("{\"BF16\":18446744073709551615}"), "the API reports more weights than can be counted");
    assert_eq!(why("{\"BF16\":0}"), "the API reports no parameter counts for this repo");
    let Ok(f) = read("{\"U16\":10,\"BF16\":1000,\"U64\":5,\"U32\":3}") else { panic!("refused") };
    assert_eq!((f.weight_bytes, f.spec.params), (2072, 1018));
    assert_eq!(f.dtypes, "BF16 + U16 + U64 + U32");
}

#[test]
fn a_fragment_from_the_middle_names_no_model() {
    let specs = vec![named_model("qwen3-8b"), named_model("llama-3.1-8b")];
    assert_eq!(plan_cmd::resolve(&specs, "LLAMA").unwrap().id, "llama-3.1-8b");
    assert!(plan_cmd::resolve(&specs, "3.1").is_err());
    assert!(plan_cmd::resolve(&specs, "8b").is_err());
}

fn named_model(id: &str) -> ModelSpec {
    ModelSpec { id: id.into(), ..cache_model(1, Attention::Gqa { n_kv_heads: 1, head_dim: 1 }) }
}

#[test]
fn a_run_that_beat_its_own_machine_enters_no_fit() {
    let line = |eta: &str| format!("{{\"hw\":\"abc\",\"backend\":\"Cpu\",\"quant\":\"Q4_K_M\",\"implied_eta\":{eta}}}\n");
    let fit = Fit::from_text(&(line("0.7") + &line("0.7") + &line("1.2") + &line("1.0000000000000002")));
    let c = fit.lookup("Cpu", QuantFamily::KQuant, d(0.62));
    assert_eq!((c.samples, f(c.eta)), (2, 0.7));
    assert_eq!(Fit::from_text(&line("1.0")).lookup("Cpu", QuantFamily::KQuant, d(0.62)).samples, 1);
}

#[test]
fn the_merged_figure_stands_beside_the_headline() {
    let line = |hw: &str, e: &str| {
        format!("{{\"hw\":\"{hw}\",\"backend\":\"Cpu\",\"quant\":\"Q4_K_M\",\"implied_eta\":0.5,\"error_pct\":{e}}}\n")
    };
    let g = Gate::from_records(&parse_records(&(line("a", "10") + &line("b", "-20") + &line("b", "20"))));
    assert_eq!(merged(&g), "\n  with merged community records       15.0%   (3 runs on 2 machine(s); not the headline)\n");
}

// ------------------------------------------------------- what always holds

fn without_colours(coloured: &str) -> String {
    let mut stripped = String::new();
    let mut inside = false;
    for c in coloured.chars() {
        if c == '\u{1b}' {
            inside = true;
        } else if inside {
            inside = c != 'm';
        } else {
            stripped.push(c);
        }
    }
    stripped
}

#[test]
fn colour_is_all_that_colour_adds() {
    let m = host(vec![Gpu::new("NVIDIA GeForce RTX 3060".into(), 12 * GIB, "nvidia-smi")], false);
    let fit = Fit::empty();
    let rows = all_rows(&builtin(), &m.hw, KvPrecision::F16, &fit);
    let n = rows.len();
    let r = report(m, &fit, KvPrecision::F16, rows, n + 1);
    let (coloured, plain) = (render_with(&r, true), render_with(&r, false));
    assert_eq!(without_colours(&coloured), plain);
    assert!(coloured.contains('\u{1b}') && !plain.contains('\u{1b}'));
    assert!(coloured.lines().chain(plain.lines()).all(|l| l == l.trim_end()));
}

#[test]
fn colour_is_all_that_colour_adds_to_names_of_several_lines() {
    for (name, quant) in [("a\n\n  b  \n", "Q4\n"), ("  a \n", ""), ("", " Q4 \n x"), ("   ", "  ")] {
        let fit = Fit::empty();
        let m = host(Vec::new(), false);
        let mut rows = all_rows(&builtin(), &m.hw, KvPrecision::F16, &fit);
        for row in &mut rows {
            row.model_id = name.into();
            row.quant.name = quant.into();
        }
        let r = report(m, &fit, KvPrecision::F16, rows, 20);
        let (coloured, plain) = (render_with(&r, true), render_with(&r, false));
        assert_eq!(without_colours(&coloured), plain);
        assert!(coloured.contains('\u{1b}') && !plain.contains('\u{1b}'));
    }
}

#[test]
fn a_slow_mark_fills_its_column_before_a_blank_line() {
    let fit = Fit::empty();
    let m = host(Vec::new(), false);
    let mut rows = all_rows(&builtin(), &m.hw, KvPrecision::F16, &fit);
    rows.truncate(3);
    for row in &mut rows {
        row.model_id = "\nbelow".into();
        row.prediction.verdict = Verdict::Slow;
    }
    let r = report(m, &fit, KvPrecision::F16, rows, 20);
    assert_eq!(without_colours(&render_with(&r, true)), render_with(&r, false));
}

#[test]
fn a_home_directory_leaves_no_trace() {
    for text in ["/home/a/home/a", "x/home/ax/home/home/a", "/home//home/a/a"] {
        assert!(!redact(text, Some("/home/a")).contains("/home/a"), "{text}");
    }
}

#[test]
fn wrapping_loses_no_word() {
    let text = "a path   that is /far/too/long/for/one/line and\nmore words";
    let words: Vec<&str> = text.split_whitespace().collect();
    for (width, indent) in [(20, 2), (1, 0), (4, 9), (80, 4)] {
        let lines = wrap(text, width, indent);
        let got: Vec<&str> = lines.iter().flat_map(|l| l.split_whitespace()).collect();
        assert_eq!(got, words, "{width} {indent}");
    }
}

#[test]
fn two_prompts_part_early_and_are_long() {
    for (a, b) in [(7u64, 8u64), (1, 12), (12, 1), (u64::MAX, u64::MAX - 1)] {
        let (x, y) = (measurement_prompt(a), measurement_prompt(b));
        assert!(x.len() > 5_000 && y.len() > 5_000);
        let i = x.chars().zip(y.chars()).position(|(p, q)| p != q).unwrap();
        assert!(i <= 8 + a.to_string().len(), "{a} {b} {i}");
    }
}

#[test]
fn the_core_is_part_of_what_is_read() {
    for s in builtin() {
        for q in &s.quants {
            assert!(s.hot_core_bytes(q) <= s.active_bytes(q) && s.active_bytes(q) <= q.bytes, "{} {}", s.id, q.name);
        }
    }
}

#[test]
fn a_plan_asks_for_the_bandwidth_there_is() {
    let specs = builtin();
    let s = specs.iter().find(|s| s.id == "llama-3.1-8b").unwrap();
    for bw in [0.25, 30.0, 132.0, 1000.0, 1e12] {
        let mut hw = host(Vec::new(), false).hw;
        hw.ram_bw_gbs = d(bw);
        let p = predict(s, &s.quants[0], &hw, KvPrecision::F16, 2048, 512);
        assert_eq!(f(p.resident_fraction), 1.0);
        let tps = p.assumed_eta.over(p.raw_seconds_per_token);
        let back = f(required_bandwidth_gbs(s, &s.quants[0], tps, p.assumed_eta));
        assert!((back - bw).abs() / bw < 1e-6, "{back} {bw}");
    }
}

#[test]
fn small_caches_are_counted_to_the_byte() {
    let q4 = KvPrecision::Q4;
    let s = cache_model(61, Attention::Mla { kv_lora_rank: 512, rope_head_dim: 64 });
    assert_eq!(s.kv_bytes(4097, q4), 61 * 576 * 4097 * 18 / 32);
    let s = cache_model(48, Attention::Swa { n_kv_heads: 8, head_dim: 256, window: 1024, global_every: 6 });
    assert_eq!(s.kv_bytes(4097, q4), 2 * 8 * 256 * 18 * (8 * 4097 + 40 * 1024) / 32);
    let s = cache_model(48, Attention::Hybrid { attn_layers: 6, n_kv_heads: 3, head_dim: 65, ssm_state_bytes: 1_000_001 });
    assert_eq!(s.kv_bytes(4097, q4), (2 * 6 * 3 * 65 * 4097 * 18 + 32 * 42 * 1_000_001) / 32);
}

#[test]
fn what_nothing_is_kept_of_takes_no_bytes() {
    let most = u32::MAX;
    for prec in [KvPrecision::F16, KvPrecision::Q8, KvPrecision::Q4] {
        for (layers, heads, width, ctx) in [(0, most, most, most), (most, 0, most, most), (most, most, 0, most), (most, most, most, 0)] {
            let s = cache_model(layers, Attention::Gqa { n_kv_heads: heads, head_dim: width });
            assert_eq!(s.kv_bytes(ctx, prec), 0);
            let s = cache_model(layers, Attention::Swa { n_kv_heads: heads, head_dim: width, window: most, global_every: 6 });
            assert_eq!(s.kv_bytes(ctx, prec), 0);
        }
        for (layers, rank, rope, ctx) in [(0, most, most, most), (most, 0, 0, most), (most, most, most, 0)] {
            let s = cache_model(layers, Attention::Mla { kv_lora_rank: rank, rope_head_dim: rope });
            assert_eq!(s.kv_bytes(ctx, prec), 0);
        }
    }
    let hybrid = |layers, attn_layers, head_dim, ssm_state_bytes| {
        cache_model(layers, Attention::Hybrid { attn_layers, n_kv_heads: 2, head_dim, ssm_state_bytes })
    };
    let q4 = KvPrecision::Q4;
    assert_eq!(hybrid(48, 0, 64, 1_000_001).kv_bytes(most, q4), 48 * 1_000_001);
    assert_eq!(hybrid(6, 6, 65, u64::MAX).kv_bytes(4097, q4), 2 * 6 * 2 * 65 * 4097 * 18 / 32);
    assert_eq!(hybrid(6, 6, 0, u64::MAX).kv_bytes(4097, q4), 0);
    assert_eq!(hybrid(4, 6, 65, 1_000).kv_bytes(4097, q4), (2 * 6 * 2 * 65 * 4097 * 18 - 32 * 2 * 1_000) / 32);
    assert_eq!(hybrid(4, 6, 65, 1_000_000_000).kv_bytes(4097, q4), 0);
}

#[test]
fn a_dense_model_reads_its_whole_file() {
    let mut m = cache_model(1, Attention::Gqa { n_kv_heads: 1, head_dim: 1 });
    let q = |bytes: u64| Quant { name: "Q4".into(), family: QuantFamily::KQuant, bytes };
    for params in [1, 7_000_000_001, u64::MAX] {
        m.params = params;
        for bytes in [0, 1, 4_920_000_001, 1 << 53] {
            assert_eq!(m.active_bytes(&q(bytes)), bytes);
        }
        for bytes in [(1 << 53) + 1, (1 << 53) + 3, u64::MAX] {
            assert_eq!(m.active_bytes(&q(bytes)), bytes as f64 as u64);
        }
    }
    m.params = 0;
    assert_eq!(m.active_bytes(&q(u64::MAX)), 0);
}

#[test]
fn what_is_looked_up_was_measured() {
    let line = |quant: &str, eta: f64| {
        format!("{{\"hw\":\"abc\",\"backend\":\"Cpu\",\"quant\":\"{quant}\",\"implied_eta\":{eta}}}\n")
    };
    let mut text = String::new();
    for k in 0..9 {
        text += &line("Q4_K_M", 0.5 + k as f64 / 100.0);
    }
    let fit = Fit::from_text(&text);
    let own = fit.lookup("Cpu", QuantFamily::KQuant, d(0.62));
    assert_eq!((f(own.eta), own.samples, own.confidence.label()), (0.54, 9, "medium"));
    let lent = fit.lookup("Cpu", QuantFamily::Legacy, d(0.62));
    assert_eq!((lent.samples, lent.confidence.label()), (9, "low"));
    let mean = (0..9).fold(0.0, |s, _| s + 0.88) / 9.0;
    assert_eq!(f(lent.eta), 0.54 * (0.95 / mean));
    let none = fit.lookup("Metal", QuantFamily::Legacy, d(0.62));
    assert_eq!((f(none.eta), none.samples, f(none.spread)), (0.62, 0, 0.40));
}
