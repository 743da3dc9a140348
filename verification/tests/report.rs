//! Reports, on every surface.

use zerocloud::bench::{ComputeResult, DiskResult, RamResult, ThreadRate};
use zerocloud::cli::check::select_rows;
use zerocloud::double::Double;
use zerocloud::fit::Confidence;
use zerocloud::json::{array_objects, number_written, string};
use zerocloud::kv::KvPrecision;
use zerocloud::predict::{Backend, Prediction, Verdict};
use zerocloud::probe::cpu::{Cpu, IsaFeatures, Reading};
use zerocloud::probe::env::Env;
use zerocloud::probe::memory::Memory;
use zerocloud::probe::storage::{Hazard, Medium, Storage};
use zerocloud::report::charset::{from_env, Charset};
use zerocloud::report::json::{num, opt_num, st};
use zerocloud::report::markdown::relevant_env;
use zerocloud::report::progress::Progress;
use zerocloud::report::text::{paint, push, render_with, GREEN, YELLOW};
use zerocloud::report::{backend_tag, clamp_model_width, fmt_context, fmt_ctx, fmt_resident, fmt_speed, fmt_ttft};
use zerocloud::report::{rank_by, redact, sort_all, verdict_tag, wrap, Assumptions, Report, Row, SortKey};
use zerocloud::spec::{Quant, QuantFamily};

fn render_json(r: &Report, home: Option<&str>) -> String {
    zerocloud::report::json::render(r, home)
}

fn render_markdown(r: &Report, fit: &str, home: Option<&str>, version: &str, set: &Vec<Reading>) -> String {
    zerocloud::report::markdown::render(r, fit, home, version, set)
}

fn d(x: f64) -> Double {
    Double::from_bits(x.to_bits())
}

fn pred(decode: f64, ctx: u32, verdict: Verdict) -> Prediction {
    Prediction {
        resident_fraction: d(1.0),
        decode_tok_s: (d(decode), d(decode * 1.5)),
        prefill_tok_s: None,
        ttft_s: None,
        prefill_confidence: Confidence::Low,
        max_context: ctx,
        kv_bytes_per_token: 1024,
        verdict,
        raw_seconds_per_token: d(0.01),
        assumed_eta: d(0.8),
        confidence: Confidence::Low,
    }
}

fn row(id: &str, quant: &str, decode: f64, ctx: u32, verdict: Verdict) -> Row {
    Row {
        model_id: id.into(),
        quant: Quant { name: quant.into(), bytes: 1 << 30, family: QuantFamily::KQuant },
        prediction: pred(decode, ctx, verdict),
    }
}

fn report() -> Report {
    Report {
        cpu: Cpu {
            brand: "Apple M5".into(),
            physical: 10,
            logical: 10,
            p_cores: 4,
            e_cores: 6,
            smt: false,
            llc_bytes: 16 << 20,
            cache_line: 128,
            features: IsaFeatures { avx2: false, avx512f: false, f16c: false, neon_dotprod: true, neon_i8mm: true },
            recommended_threads: 4,
            raw: vec![Reading { key: "cpu.brand".into(), value: "Apple M5".into() }],
        },
        mem: Memory {
            total: 16 << 30,
            available: 4 << 30,
            page_size: 16384,
            firmware_reserved: None,
            gpu_wired_limit: Some(12 << 30),
            unified: true,
        },
        env: Env { os: "macos".into(), arch: "aarch64".into(), virt: None, memory_ceiling: None, warning: None },
        storage: Storage {
            model_dir: "/Users/alice/models".into(),
            mount: "/System/Volumes/Data".into(),
            fstype: "apfs".into(),
            medium: Medium::Nvme,
            total: 500 << 30,
            free: 100 << 30,
            hazards: Vec::new(),
            bench_file: None,
            bench_is_weight: false,
            source: "default",
        },
        gpus: Vec::new(),
        ram: RamResult {
            peak_gbs: d(129.4),
            peak_threads: 10,
            by_threads: vec![ThreadRate { threads: 1, gbs: d(88.6) }, ThreadRate { threads: 10, gbs: d(129.4) }],
            working_set: 512 << 20,
        },
        compute: ComputeResult {
            gflops_1t: d(110.5),
            gflops_nt: d(427.4),
            int8_gops_nt: d(413.2),
            int8_ratio: d(0.967),
            threads: 4,
        },
        disk: Some(DiskResult {
            seq_qd1_gbs: d(3.0),
            rand_128k_qd1_gbs: d(2.0),
            rand_128k_qdn_gbs: d(5.02),
            rand_4k_qdn_iops: d(166_900.0),
            queue_depth: 16,
            uncached: true,
            file_bytes: 1 << 30,
            created_file: false,
        }),
        backend: Backend::Metal,
        ram_bw_gbs: d(129.4),
        vram_bw_gbs: d(0.0),
        vram_bytes: 0,
        disk_gbs: d(5.02),
        budget_idle: 12 << 30,
        budget_now: 1 << 30,
        assumptions: Assumptions {
            prompt_tokens: 2048,
            ubatch: 512,
            kv_precision: KvPrecision::F16,
            idle_machine: true,
            uncalibrated: false,
            prefill_unmeasured: true,
            total_rows: 2,
        },
        models: vec![row("smollm2-360m", "Q8_0", 249.5, 8192, Verdict::Good), row("big", "Q4_K_M", 0.5, 0, Verdict::WontFit)],
    }
}
#[test]
fn model_column_shrinks_to_the_widest_visible_row() {
    assert_eq!(clamp_model_width(10), 12);
    assert_eq!(clamp_model_width(20), 20);
    assert_eq!(clamp_model_width(40), 28);
}

#[test]
fn a_spilling_row_fits_eighty_columns() {
    let mw = clamp_model_width("qwen3-30b-a3b".len());
    let row = format!(
        "  {} {:<mw$} {:<7} {:>12} {:>7} {:>6}  {:<6}{}",
        "OK  ", "qwen3-30b-a3b", "IQ4_XS", "10.7-17.8", "2K", "1.2s", "low", "  89% resident"
    );
    assert!(row.len() <= 80, "row was {} columns: {row}", row.len());
}

#[test]
fn the_sort_cycle_closes() {
    let s = SortKey::Verdict;
    assert_eq!(s.next().next().next(), s);
}

#[test]
fn wraps_to_the_width_including_the_indent() {
    let t = "the quick brown fox jumps over the lazy dog and keeps running";
    for w in [20usize, 40, 80] {
        for l in wrap(t, w, 2) {
            assert!(l.chars().count() <= w, "{} cols at w={w}: {l}", l.chars().count());
            assert!(l.starts_with("  "));
        }
    }
}

#[test]
fn an_overlong_word_is_never_broken() {
    let long = "~/Library/Application/Support/zerocloud/a/very/long/path.jsonl";
    let out = wrap(&format!("from {long} onwards"), 30, 2);
    assert!(out.iter().any(|l| l.contains(long)), "{out:?}");
    assert_eq!(out.concat().matches("jsonl").count(), 1);
}

#[test]
fn no_line_is_blank_or_padded_only() {
    assert!(wrap("", 80, 2).is_empty());
    for l in wrap("   spaced   out   ", 80, 2) {
        assert_eq!(l.trim_end(), l);
    }
}


#[test]
fn an_unrunnable_model_never_outranks_a_runnable_one() {
    let quant = Quant {
        name: "Q4_K_M".into(),
        bytes: 1 << 30,
        family: QuantFamily::KQuant,
    };
    let fast_but_unrunnable = Row {
        model_id: "no-context-left".into(),
        quant: quant.clone(),
        prediction: pred(200.0, 0, Verdict::WontFit),
    };
    let slow_but_runnable = Row {
        model_id: "actually-works".into(),
        quant: quant.clone(),
        prediction: pred(4.0, 32768, Verdict::Usable),
    };
    for sort in [SortKey::Verdict, SortKey::Decode, SortKey::Context] {
        assert!(
            rank_by(&slow_but_runnable, sort) < rank_by(&fast_but_unrunnable, sort),
            "{sort:?} ranked an unrunnable model first"
        );
    }
}

#[test]
fn the_requested_sort_still_orders_runnable_models() {
    let quant = Quant {
        name: "Q4_K_M".into(),
        bytes: 1 << 30,
        family: QuantFamily::KQuant,
    };
    let fast = Row {
        model_id: "fast".into(),
        quant: quant.clone(),
        prediction: pred(50.0, 65536, Verdict::Slow),
    };
    let slow = Row {
        model_id: "slow".into(),
        quant: quant.clone(),
        prediction: pred(5.0, 2048, Verdict::Good),
    };
    assert!(
        rank_by(&slow, SortKey::Verdict) < rank_by(&fast, SortKey::Verdict),
        "verdict sort leads with the verdict"
    );
    assert!(
        rank_by(&fast, SortKey::Decode) < rank_by(&slow, SortKey::Decode),
        "speed sort leads with speed"
    );
    assert!(
        rank_by(&fast, SortKey::Context) < rank_by(&slow, SortKey::Context),
        "context sort leads with context"
    );
}

#[test]
fn home_relative_paths_are_redacted() {
    assert_eq!(
        redact("/Users/alice/models/llama.gguf", Some("/Users/alice")),
        "~/models/llama.gguf"
    );
    assert_eq!(
        redact(r"C:\Users\alice\models", Some(r"C:\Users\alice")),
        r"~\models"
    );
    assert_eq!(
        redact("/System/Volumes/Data", Some("/Users/alice")),
        "/System/Volumes/Data"
    );
}

#[test]
fn a_degenerate_home_is_ignored() {
    assert_eq!(redact("/etc/fstab", Some("/")), "/etc/fstab");
    assert_eq!(redact("/etc/fstab", Some("")), "/etc/fstab");
    assert_eq!(redact("/etc/fstab", None), "/etc/fstab");
}

#[test]
fn utf8_locales_get_unicode() {
    assert_eq!(
        from_env(Some("xterm"), Some("en_US.UTF-8"), false, false),
        Charset::Unicode
    );
    assert_eq!(
        from_env(Some("xterm"), Some("C.utf8"), false, false),
        Charset::Unicode
    );
}

#[test]
fn a_non_utf8_or_dumb_terminal_gets_ascii() {
    assert_eq!(
        from_env(Some("xterm"), Some("C"), false, false),
        Charset::Ascii
    );
    assert_eq!(
        from_env(Some("dumb"), Some("en_US.UTF-8"), false, false),
        Charset::Ascii
    );
    assert_eq!(
        from_env(None, Some("en_US.UTF-8"), false, false),
        Charset::Ascii
    );
}

#[test]
fn windows_without_a_terminal_hint_gets_ascii() {
    assert_eq!(from_env(None, None, false, true), Charset::Ascii);
    assert_eq!(from_env(Some("wt"), None, false, true), Charset::Unicode);
}

#[test]
fn zc_ascii_overrides_everything() {
    assert_eq!(
        from_env(Some("xterm"), Some("en_US.UTF-8"), true, false),
        Charset::Ascii
    );
}

#[test]
fn every_glyph_is_one_column_wide_in_both() {
    for c in [Charset::Unicode, Charset::Ascii] {
        for g in [
            c.resident(),
            c.partial(),
            c.wont_fit(),
            c.rule(),
            c.vrule(),
            c.sep(),
        ] {
            assert_eq!(g.chars().count(), 1, "{g:?} in {c:?} is not one column");
        }
        for tick in 0..12 {
            assert_eq!(c.spinner(tick).chars().count(), 1);
        }
    }
}

#[test]
fn an_unmeasured_value_is_null_not_a_number() {
    assert_eq!(opt_num(None), "null");
    assert_eq!(opt_num(Some(d(0.0))), "0.000000");
}

#[test]
fn non_finite_floats_become_null() {
    assert_eq!(num(d(f64::NAN)), "null");
    assert_eq!(num(d(f64::INFINITY)), "null");
    assert_eq!(num(d(f64::NEG_INFINITY)), "null");
}

#[test]
fn strings_cannot_break_out_of_their_field() {
    assert_eq!(st(r#"evil","verdict":"good"#), r#""evil\",\"verdict\":\"good""#);
    assert_eq!(st("line\nbreak"), r#""line\nbreak""#);
}

#[test]
fn a_non_tty_gets_no_bytes_at_all() {
    let mut p = Progress::to_writer(Charset::Ascii, false);
    let mut buf = p.start("ram");
    buf += &p.tick();
    buf += &p.done("125 GB/s");
    assert!(buf.is_empty(), "wrote {buf:?}");
}

#[test]
fn a_tty_rewrites_one_line_per_measurement() {
    let mut p = Progress::to_writer(Charset::Ascii, true);
    let mut s = p.start("ram");
    s += &p.tick();
    s += &p.tick();
    s += &p.done("125 GB/s");
    assert_eq!(s.matches('\n').count(), 1, "one newline per finished line: {s:?}");
    assert!(s.contains("125 GB/s"));
    assert!(s.contains('\r'), "must rewrite in place");
}

#[test]
fn the_result_column_is_aligned_across_labels() {
    let render = |label: &str| {
        let mut p = Progress::to_writer(Charset::Ascii, true);
        let mut s = p.start(label);
        s += &p.done("x");
        s
    };
    let a = render("ram");
    let b = render("compute");
    let col = |s: &str| s.rfind('x').unwrap() - s.rfind('\r').unwrap();
    assert_eq!(col(&a), col(&b), "results must share a column:\n{a}\n{b}");
}

#[test]
fn colour_never_changes_a_column_width() {
    fn visible(s: &str) -> String {
        let mut out = String::new();
        let mut chars = s.chars();
        while let Some(c) = chars.next() {
            if c == '\x1b' {
                for c in chars.by_ref() {
                    if c == 'm' {
                        break;
                    }
                }
            } else {
                out.push(c);
            }
        }
        out
    }

    let plain = format!("{:<4}", "OK");
    assert_eq!(plain.len(), 4);
    let painted = paint(&plain, GREEN, true);
    assert_eq!(visible(&painted), plain, "colour changed the visible text");
    assert!(painted.len() > plain.len(), "nothing was actually painted");

    let off = paint(&format!("{:<4}", "SLOW"), YELLOW, false);
    assert_eq!(off, "SLOW", "colour off must be byte-identical to plain");
}

#[test]
fn no_line_ends_in_whitespace() {
    let mut o = String::new();
    push(&mut o, &format!("  {:<6}{}", "low", ""));
    push(&mut o, "a\n  b   ");
    assert_eq!(o, "  low\na\n  b\n");
}

#[test]
fn the_report_reads_as_it_is_shown() {
    let mut want = String::from("== hardware ==\n  Apple M5   4P+6E   16.00 GiB total / 4.00 GiB available   unified\n");
    want += "  /System/Volumes/Data on apfs (NVMe)\n\n== measured ==\n";
    want += "  ram          129 GB/s peak @10t   [1t:89  10t:129]\n";
    want += "  compute      427 GFLOPS f32 @4t   413 GOPS int8 (0.97x)\n";
    want += "  disk         5.02 GB/s random 128K @QD16   167K IOPS 4K\n";
    want += "  budget       12.00 GiB on an idle machine   (1.00 GiB free right now)\n\n";
    want += "== predictions ==  (Metal backend, 129 GB/s, KV at F16, 2048-token prompt)\n";
    want += "  assumes an otherwise-idle machine\n";
    want += "       model                        quant   decode tok/s max ctx   TTFT  conf\n";
    want += &format!("  {:<4} {:<28} {:<7} {:>12} {:>7} {:>6}  low\n", "OK", "smollm2-360m", "Q8_0", "249.5-374.2", "8K", "-");
    want += &format!("  {:<4} {:<28} {:<7} {:>12} {:>7} {:>6}  low\n", "XX", "big", "Q4_K_M", "-", "-", "-");
    want += "\n  TTFT shown as '-': prefill speed cannot be derived from a CPU benchmark\n";
    want += "  (real prefill runs on the GPU or via int8 kernels). Run `zc verify` to measure it.\n";
    assert_eq!(render_with(&report(), false), want);
}

#[test]
fn the_report_says_what_it_left_out() {
    let mut r = report();
    r.assumptions.total_rows = 26;
    r.assumptions.prefill_unmeasured = false;
    r.models[0].prediction.ttft_s = Some(d(0.12));
    r.models[1].prediction.ttft_s = Some(d(123.4));
    r.models[1].prediction.verdict = Verdict::Slow;
    r.models[1].prediction.resident_fraction = d(0.28);
    r.env.warning = Some("a warning".into());
    r.disk = None;
    let t = render_with(&r, false);
    assert!(t.contains("  disk         MEASUREMENT FAILED - streaming predictions unreliable\n"), "{t}");
    assert!(t.contains("   0.1s  low\n") && t.contains("   123s  low     28% resident\n"), "{t}");
    assert!(t.contains("\n  showing 2 of 26 - ranked by verdict, then speed, then context (--all for every quant)\n"), "{t}");
    assert!(t.ends_with("\n  !  a warning\n"), "{t}");
    let painted = render_with(&r, true);
    assert!(painted.contains("\u{1b}[32mOK  \u{1b}[0m") && painted.contains("\u{1b}[33mSLOW\u{1b}[0m"), "{painted}");
    r.backend = Backend::Cpu;
    assert!(render_with(&r, false).contains("  no GPU could be verified, so this predicts CPU decode rather than\n"));
    r.backend = Backend::Discrete;
    r.vram_bw_gbs = d(360.0);
    assert!(render_with(&r, false).contains("(discrete GPU backend, 360 GB/s VRAM + 129 GB/s RAM, KV at F16,"));
}

#[test]
fn the_json_is_one_object_that_reads_back() {
    let mut r = report();
    r.models[0].model_id = "evil\",\"verdict\":\"good".into();
    r.storage.hazards.push(Hazard::LowSpace(5));
    let j = render_json(&r, Some("/Users/alice"));
    assert!(j.starts_with("{\"schema\":2,\"machine\":{\"cpu\":{\"brand\":\"Apple M5\",\"physical\":10,"), "{j}");
    assert_eq!(string(&j, "model_dir").as_deref(), Some("~/models"));
    assert_eq!(number_written(&j, "idle").as_deref(), Some("12884901888"));
    assert_eq!(number_written(&j, "gpu_wired_limit").as_deref(), Some("12884901888"));
    assert_eq!(number_written(&j, "firmware_reserved"), None);
    assert_eq!(number_written(&j, "rand_4k_qdn_iops").as_deref(), Some("166900.000000"));
    let models = array_objects(&j, "models");
    assert_eq!(models.len(), 2);
    assert_eq!(string(models[0], "id").as_deref(), Some("evil\",\"verdict\":\"good"));
    assert_eq!(string(models[0], "verdict").as_deref(), Some("good"));
    assert_eq!(string(models[1], "verdict").as_deref(), Some("wont_fit"));
    assert!(models[1].contains("\"ttft_s\":null"));
    assert!(j.contains("\"hazards\":["), "{j}");
    assert!(j.ends_with("]}"), "{j}");
}

#[test]
fn the_markdown_carries_no_home() {
    let mut r = report();
    r.storage.mount = "/Users/alice/disk".into();
    r.storage.hazards.push(Hazard::CloudSync("a\tb\"c".into()));
    let set = vec![Reading { key: "OLLAMA_HOST".into(), value: "/Users/alice/x".into() }];
    let m = render_markdown(&r, "from /Users/alice/gate.jsonl\n\n", Some("/Users/alice"), "0.1.0", &set);
    assert!(!m.contains("alice"), "{m}");
    assert!(m.starts_with("# zc doctor\n\n`zc 0.1.0` on `macos` / `aarch64`\n\n"), "{m}");
    assert!(m.contains("| cores | 10 physical / 10 logical / 4P + 6E / smt false |\n"), "{m}");
    assert!(m.contains("| storage | ~/disk on apfs (Nvme) via default |\n"), "{m}");
    assert!(m.contains("No GPU detected.\n"), "{m}");
    assert!(m.contains("```\ncpu.brand = Apple M5\nmemory.page_size = 16384\nmemory.gpu_wired_limit = 12884901888\nenv.memory_ceiling = absent\n```\n"), "{m}");
    assert!(m.contains(&format!("       {:>3}t  {:>8.1} GB/s\n", 1, 88.6)), "{m}");
    assert!(m.contains("```\nfrom ~/gate.jsonl\n```\n"), "{m}");
    assert!(m.contains("OLLAMA_HOST = ~/x\n"), "{m}");
    assert!(m.contains(&format!("- {}({:?})\n", "CloudSync", "a\tb\"c")), "{m}");
    assert_eq!(relevant_env().len(), 6);
}

#[test]
fn best_rows_are_one_per_model() {
    let rows = vec![
        row("a", "Q4_K_M", 20.0, 4096, Verdict::Good),
        row("a", "Q8_0", 12.0, 4096, Verdict::Good),
        row("b", "Q4_K_M", 5.0, 4096, Verdict::Usable),
    ];
    let s = select_rows(&rows, false, None);
    assert_eq!(s.total, 2);
    assert_eq!(s.rows.len(), 2);
    let s = select_rows(&rows, true, Some(2));
    assert_eq!(s.total, 3);
    assert_eq!(s.rows, vec![0, 1]);
    assert_eq!(sort_all(&rows, SortKey::Decode), vec![0, 1, 2]);
}

#[test]
fn shared_formats_are_the_same_everywhere() {
    let mut p = pred(10.25, 37_000, Verdict::Good);
    assert_eq!(fmt_speed(&p), format!("{:.1}-{:.1}", 10.25, 15.375));
    assert_eq!(fmt_ctx(&p), "36K");
    assert_eq!(fmt_ttft(&p), "-");
    p.ttft_s = Some(d(99.96));
    assert_eq!(fmt_ttft(&p), format!("{:.1}s", 99.96));
    p.ttft_s = Some(d(100.0));
    assert_eq!(fmt_ttft(&p), "100s");
    p.verdict = Verdict::WontFit;
    assert_eq!(fmt_speed(&p), "-");
    p.max_context = 0;
    assert_eq!(fmt_ctx(&p), "-");
    assert_eq!(fmt_context(1023), "1023");
    assert_eq!(fmt_resident(&p), "");
    assert_eq!((verdict_tag(Verdict::WontFit), backend_tag(Backend::Discrete)), ("wont_fit", "discrete"));
}

#[test]
fn a_rule_is_as_wide_as_asked() {
    assert_eq!(Charset::Unicode.rule_line(7).chars().count(), 7);
    assert_eq!(Charset::Ascii.rule_line(3), Charset::Ascii.rule().repeat(3));
}
