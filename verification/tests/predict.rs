//! Sizing memory and predicting speed.

use zerocloud::double::Double;
use zerocloud::fit::{Confidence, Fit};
use zerocloud::kv::KvPrecision;
use zerocloud::predict::{can_plan, current_budget, plan_eta, plan_memory, potential_budget, requirement, verdict};
use zerocloud::predict::{Backend, Platform, Verdict};
use zerocloud::spec::{Attention, ModelSpec, Moe, Quant, QuantFamily};

fn d(x: f64) -> Double {
    Double::from_bits(x.to_bits())
}

fn f(x: Double) -> f64 {
    f64::from_bits(x.bits)
}

struct Fitted(Fit);

impl Fitted {
    fn default() -> Fitted {
        Fitted(Fit::empty())
    }

    fn from_records(records: &[Record]) -> Fitted {
        Fitted(Fit::from_records(&records.iter().map(library_record).collect()))
    }
}

#[derive(Debug, Clone)]
struct Record {
    hw: String,
    backend: String,
    model: String,
    quant: String,
    virt: Option<String>,
    quant_family: QuantFamily,
    implied_eta: f64,
    error_pct: Option<f64>,
    within_range: Option<bool>,
    implied_prefill_scale: Option<f64>,
}

fn library_record(r: &Record) -> zerocloud::fit::Record {
    zerocloud::fit::Record {
        hw: r.hw.clone(),
        backend: r.backend.clone(),
        model: r.model.clone(),
        quant: r.quant.clone(),
        virt: r.virt.clone(),
        quant_family: r.quant_family,
        implied_eta: d(r.implied_eta),
        error_pct: r.error_pct.map(d),
        within_range: r.within_range,
        implied_prefill_scale: r.implied_prefill_scale.map(d),
    }
}

#[derive(Debug, Clone)]
struct Hardware {
    backend: Backend,
    ram_bw_gbs: f64,
    ram_bw_peak_gbs: f64,
    disk_gbs: f64,
    gflops: f64,
    usable_bytes: u64,
    threads: u32,
    vram_bytes: u64,
    vram_bw_gbs: f64,
    vram_bw_measured: bool,
}

struct Prediction {
    resident_fraction: f64,
    decode_tok_s: (f64, f64),
    prefill_tok_s: Option<f64>,
    ttft_s: Option<f64>,
    max_context: u32,
    verdict: Verdict,
    raw_seconds_per_token: f64,
    assumed_eta: f64,
    confidence: Confidence,
}

fn library_hardware(h: &Hardware) -> zerocloud::predict::Hardware {
    zerocloud::predict::Hardware {
        backend: h.backend,
        ram_bw_gbs: d(h.ram_bw_gbs),
        ram_bw_peak_gbs: d(h.ram_bw_peak_gbs),
        disk_gbs: d(h.disk_gbs),
        gflops: d(h.gflops),
        usable_bytes: h.usable_bytes,
        threads: h.threads,
        vram_bytes: h.vram_bytes,
        vram_bw_gbs: d(h.vram_bw_gbs),
        vram_bw_measured: h.vram_bw_measured,
    }
}

fn plain(p: zerocloud::predict::Prediction) -> Prediction {
    Prediction {
        resident_fraction: f(p.resident_fraction),
        decode_tok_s: (f(p.decode_tok_s.0), f(p.decode_tok_s.1)),
        prefill_tok_s: p.prefill_tok_s.map(f),
        ttft_s: p.ttft_s.map(f),
        max_context: p.max_context,
        verdict: p.verdict,
        raw_seconds_per_token: f(p.raw_seconds_per_token),
        assumed_eta: f(p.assumed_eta),
        confidence: p.confidence,
    }
}

fn predict(spec: &ModelSpec, quant: &Quant, hw: &Hardware, kv: KvPrecision, prompt: u32, ubatch: u32) -> Prediction {
    plain(zerocloud::predict::predict(spec, quant, &library_hardware(hw), kv, prompt, ubatch))
}

fn predict_with(
    spec: &ModelSpec,
    quant: &Quant,
    hw: &Hardware,
    kv: KvPrecision,
    prompt: u32,
    ubatch: u32,
    fit: &Fitted,
) -> Prediction {
    plain(zerocloud::predict::predict_with(spec, quant, &library_hardware(hw), kv, prompt, ubatch, &fit.0))
}

fn required_bandwidth_gbs(spec: &ModelSpec, quant: &Quant, tps: f64, eta: f64) -> f64 {
    f(zerocloud::predict::required_bandwidth_gbs(spec, quant, d(tps), d(eta)))
}
fn llama3_8b() -> ModelSpec {
    ModelSpec {
        id: "llama-3.1-8b".into(),
        n_layers: 32,
        n_embd: 4096,
        n_vocab: 128256,
        params: 8_030_000_000,
        attention: Attention::Gqa { n_kv_heads: 8, head_dim: 128 },
        moe: None,
        n_ctx_train: None,
        quants: vec![],
    }
}

fn llama3_70b() -> ModelSpec {
    ModelSpec {
        id: "llama-3.1-70b".into(),
        n_layers: 80,
        n_embd: 8192,
        n_vocab: 128256,
        params: 70_600_000_000,
        attention: Attention::Gqa { n_kv_heads: 8, head_dim: 128 },
        moe: None,
        n_ctx_train: None,
        quants: vec![],
    }
}

#[test]
fn llama3_8b_kv_is_128kib_per_token() {
    let m = llama3_8b();
    assert_eq!(m.kv_bytes(1, KvPrecision::F16), 128 * 1024);
    assert_eq!(m.kv_bytes(8192, KvPrecision::F16), 1 << 30);
}

#[test]
fn llama3_70b_kv_at_32k_is_10gib() {
    let m = llama3_70b();
    assert_eq!(m.kv_bytes(1, KvPrecision::F16), 320 * 1024);
    assert_eq!(m.kv_bytes(32768, KvPrecision::F16), 10 << 30);
}

#[test]
fn kv_quantisation_scales_as_expected() {
    let m = llama3_70b();
    let f16 = m.kv_bytes(4096, KvPrecision::F16) as f64;
    let q8 = m.kv_bytes(4096, KvPrecision::Q8) as f64;
    let q4 = m.kv_bytes(4096, KvPrecision::Q4) as f64;
    assert!((f16 / q8 - 1.882).abs() < 0.01, "q8 ratio {}", f16 / q8);
    assert!((f16 / q4 - 3.556).abs() < 0.01, "q4 ratio {}", f16 / q4);
}

#[test]
fn mla_kv_is_far_smaller_than_gqa() {
    let dsv3 = ModelSpec {
        id: "deepseek-v3".into(),
        n_layers: 61,
        n_embd: 7168,
        n_vocab: 129280,
        params: 671_000_000_000,
        attention: Attention::Mla { kv_lora_rank: 512, rope_head_dim: 64 },
        moe: Some(Moe {
            n_expert: 256,
            n_active: 8,
            expert_params: 44_000_000,
            shared_params: 17_000_000_000,
        }),
        n_ctx_train: None,
        quants: vec![],
    };
    assert_eq!(dsv3.kv_bytes(1, KvPrecision::F16), 70_272);
    assert!(dsv3.kv_bytes(1, KvPrecision::F16) < llama3_70b().kv_bytes(1, KvPrecision::F16));
}

#[test]
fn swa_kv_growth_flattens_past_the_window() {
    let g = ModelSpec {
        id: "gemma-3-12b".into(),
        n_layers: 48,
        n_embd: 3840,
        n_vocab: 262144,
        params: 12_200_000_000,
        attention: Attention::Swa {
            n_kv_heads: 8,
            head_dim: 256,
            window: 1024,
            global_every: 6,
        },
        moe: None,
        n_ctx_train: None,
        quants: vec![],
    };
    let at_8k = g.kv_bytes(8192, KvPrecision::F16) as f64;
    let at_16k = g.kv_bytes(16384, KvPrecision::F16) as f64;

    let ratio = at_16k / at_8k;
    assert!((1.0..1.7).contains(&ratio), "ratio {ratio}");

    let full_attention = ModelSpec {
        attention: Attention::Gqa { n_kv_heads: 8, head_dim: 256 },
        ..g.clone()
    };
    let saving = at_8k / full_attention.kv_bytes(8192, KvPrecision::F16) as f64;
    assert!(saving < 0.30, "SWA should save >70% at 8K, saved {saving}");
}

#[test]
fn hybrid_kv_grows_only_with_attention_layers() {
    let h = ModelSpec {
        id: "hybrid-test".into(),
        n_layers: 64,
        n_embd: 4096,
        n_vocab: 128000,
        params: 8_000_000_000,
        attention: Attention::Hybrid {
            attn_layers: 8,
            n_kv_heads: 8,
            head_dim: 128,
            ssm_state_bytes: 512 * 1024,
        },
        moe: None,
        n_ctx_train: None,
        quants: vec![],
    };
    let full_attn = llama3_8b().kv_bytes(32768, KvPrecision::F16);
    assert!(h.kv_bytes(32768, KvPrecision::F16) < full_attn / 3);
}

#[test]
fn moe_active_params_are_a_small_fraction() {
    let m = ModelSpec {
        id: "qwen3-30b-a3b".into(),
        n_layers: 48,
        n_embd: 2048,
        n_vocab: 151936,
        params: 30_500_000_000,
        attention: Attention::Gqa { n_kv_heads: 4, head_dim: 128 },
        moe: Some(Moe {
            n_expert: 128,
            n_active: 8,
            expert_params: 25_000_000,
            shared_params: 2_400_000_000,
        }),
        n_ctx_train: None,
        quants: vec![],
    };
    let frac = m.active_params() as f64 / m.params as f64;
    assert!(frac > 0.05 && frac < 0.45, "active fraction {frac}");
}

#[test]
fn calibration_shifts_eta_and_narrows_the_range() {
    let spec = llama3_8b();
    let quant = Quant {
        name: "Q4_K_M".into(),
        bytes: 4_920_733_696,
        family: QuantFamily::KQuant,
    };
    let hw = Hardware {
        backend: Backend::Metal,
        ram_bw_gbs: 132.0,
        ram_bw_peak_gbs: 132.0,
        disk_gbs: 5.0,
        gflops: 420.0,
        usable_bytes: 12 << 30,
        threads: 4,
        vram_bytes: 0,
        vram_bw_gbs: 0.0,
        vram_bw_measured: false,
    };

    let before = predict(&spec, &quant, &hw, KvPrecision::Q8, 2048, 512);
    assert_eq!(before.confidence, Confidence::Prior);
    assert!(before.prefill_tok_s.is_none());
    assert!(before.ttft_s.is_none());

    let records: Vec<Record> = (0..40)
        .map(|i| Record {
            hw: format!("hw{i}"),
            backend: "Metal".into(),
            model: "m".into(),
            quant: "Q4_K_M".into(),
            virt: Some("none".into()),
            quant_family: QuantFamily::KQuant,
            implied_eta: 0.85,
            error_pct: None,
            within_range: None,
            implied_prefill_scale: None,
        })
        .collect();
    let after = predict_with(
        &spec, &quant, &hw, KvPrecision::Q8, 2048, 512,
        &Fitted::from_records(&records),
    );

    assert_eq!(after.confidence, Confidence::High);
    assert!((after.assumed_eta - 0.85).abs() < 1e-9);
    let mid = |p: &Prediction| (p.decode_tok_s.0 + p.decode_tok_s.1) / 2.0;
    assert!(mid(&after) > mid(&before) * 1.3, "{} vs {}", mid(&after), mid(&before));
    let width = |p: &Prediction| (p.decode_tok_s.1 - p.decode_tok_s.0) / mid(p);
    assert!(width(&after) < width(&before), "{} vs {}", width(&after), width(&before));
}

fn hw_16gb() -> Hardware {
    Hardware {
        backend: Backend::Metal,
        ram_bw_gbs: 132.0,
        ram_bw_peak_gbs: 132.0,
        disk_gbs: 5.0,
        gflops: 420.0,
        usable_bytes: 12 << 30,
        threads: 4,
        vram_bytes: 0,
        vram_bw_gbs: 0.0,
        vram_bw_measured: false,
    }
}

fn q(name: &str, bytes: u64, family: QuantFamily) -> Quant {
    Quant { name: name.into(), bytes, family }
}

#[test]
fn required_bandwidth_round_trips_through_predict() {
    let spec = llama3_70b();
    let quant = q("Q4_K_M", 6 << 30, QuantFamily::KQuant);
    for bw in [30.0f64, 60.0, 132.0, 400.0, 1000.0] {
        let mut hw = hw_16gb();
        hw.ram_bw_gbs = bw;
        let p = predict(&spec, &quant, &hw, KvPrecision::F16, 2048, 512);
        assert!(
            (p.resident_fraction - 1.0).abs() < 1e-9,
            "fixture must be fully resident, got {}",
            p.resident_fraction
        );
        let tps = p.assumed_eta / p.raw_seconds_per_token;
        let back = required_bandwidth_gbs(&spec, &quant, tps, p.assumed_eta);
        assert!(
            (back - bw).abs() / bw < 1e-6,
            "asked for {tps:.3} t/s, inversion said {back:.3} GB/s, machine had {bw}"
        );
    }
}

#[test]
fn required_bandwidth_scales_with_target_and_active_bytes() {
    let spec = llama3_70b();
    let small = q("Q4_K_M", 4 << 30, QuantFamily::KQuant);
    let big = q("Q8_0", 8 << 30, QuantFamily::Legacy);
    let a = required_bandwidth_gbs(&spec, &small, 10.0, 0.8);
    assert!((required_bandwidth_gbs(&spec, &small, 20.0, 0.8) - 2.0 * a).abs() < 1e-9);
    assert!((required_bandwidth_gbs(&spec, &big, 10.0, 0.8) - 2.0 * a).abs() < 1e-9);
    assert_eq!(required_bandwidth_gbs(&spec, &small, 0.0, 0.8), 0.0);
    assert_eq!(required_bandwidth_gbs(&spec, &small, 10.0, 0.0), 0.0);
}

#[test]
fn requirement_uses_the_same_terms_as_prediction() {
    let spec = llama3_70b();
    let quant = q("Q4_K_M", 6 << 30, QuantFamily::KQuant);
    let r = requirement(&spec, &quant, 32768, KvPrecision::F16, 512);
    assert_eq!(r.weights, 6 << 30);
    assert_eq!(r.kv, spec.kv_bytes(32768, KvPrecision::F16));
    assert_eq!(r.compute, spec.compute_buffer_bytes(512));
    assert_eq!(r.total, r.weights + r.kv + r.compute);
    let q4 = requirement(&spec, &quant, 32768, KvPrecision::Q4, 512);
    assert_eq!(q4.weights, r.weights);
    assert!(q4.kv < r.kv, "q4 KV must be smaller than f16");
}

#[test]
fn model_larger_than_ram_streams_rather_than_refusing() {
    let spec = llama3_70b();
    let quant = q("Q4_K_M", 45_635_198_976, QuantFamily::KQuant);
    let p = predict(&spec, &quant, &hw_16gb(), KvPrecision::Q8, 2048, 512);

    assert_ne!(p.verdict, Verdict::WontFit, "must not refuse a streamable model");
    assert!(p.max_context >= 2048, "context {} too small", p.max_context);
    assert!(p.decode_tok_s.0 > 0.0, "must predict a real, slow speed");
    assert!(p.resident_fraction < 0.4, "resident {}", p.resident_fraction);
}

#[test]
fn wont_fit_only_when_context_is_truly_impossible() {
    let spec = llama3_70b();
    let quant = q("Q4_K_M", 45_635_198_976, QuantFamily::KQuant);
    let tiny = Hardware { usable_bytes: 200 << 20, ..hw_16gb() };
    let p = predict(&spec, &quant, &tiny, KvPrecision::Q8, 2048, 512);
    assert_eq!(p.verdict, Verdict::WontFit);
}

#[test]
fn moe_hot_core_is_pinned_before_experts() {
    let spec = ModelSpec {
        id: "moe".into(),
        n_layers: 48,
        n_embd: 2048,
        n_vocab: 151936,
        params: 30_500_000_000,
        attention: Attention::Gqa { n_kv_heads: 4, head_dim: 128 },
        moe: Some(Moe {
            n_expert: 128,
            n_active: 8,
            expert_params: 4_718_592,
            shared_params: 1_510_000_000,
        }),
        n_ctx_train: None,
        quants: vec![],
    };
    let quant = q("Q4_K_M", 19_971_519_744, QuantFamily::KQuant);
    let p = predict(&spec, &quant, &hw_16gb(), KvPrecision::Q8, 2048, 512);

    let whole_file_ratio = 12.0 / 19.0;
    assert!(
        p.resident_fraction > whole_file_ratio,
        "active-byte residency {} should exceed whole-file ratio {whole_file_ratio}",
        p.resident_fraction
    );
}

#[test]
fn hot_core_that_does_not_fit_is_not_counted_resident() {
    let spec = ModelSpec {
        id: "moe-big-core".into(),
        n_layers: 48,
        n_embd: 2048,
        n_vocab: 151936,
        params: 30_500_000_000,
        attention: Attention::Gqa { n_kv_heads: 4, head_dim: 128 },
        moe: Some(Moe {
            n_expert: 128,
            n_active: 8,
            expert_params: 4_718_592,
            shared_params: 16_000_000_000,
        }),
        n_ctx_train: None,
        quants: vec![],
    };
    let quant = q("Q4_K_M", 19_971_519_744, QuantFamily::KQuant);
    let tiny = Hardware { usable_bytes: 2 << 30, ..hw_16gb() };
    let p = predict(&spec, &quant, &tiny, KvPrecision::Q8, 2048, 512);
    assert!(p.resident_fraction < 0.5, "resident {}", p.resident_fraction);
}

#[test]
fn dense_residency_is_the_cache_ratio() {
    let spec = llama3_8b();
    let quant = q("Q4_K_M", 8 << 30, QuantFamily::KQuant);
    let hw = Hardware { usable_bytes: 6 << 30, ..hw_16gb() };
    let p = predict(&spec, &quant, &hw, KvPrecision::Q8, 2048, 512);
    assert!((0.5..0.75).contains(&p.resident_fraction), "{}", p.resident_fraction);
}

fn hw_with_gpu(vram: u64, host: u64) -> Hardware {
    Hardware {
        backend: Backend::Discrete,
        ram_bw_gbs: 50.0,
        ram_bw_peak_gbs: 50.0,
        disk_gbs: 1.0,
        gflops: 420.0,
        usable_bytes: host,
        threads: 8,
        vram_bytes: vram,
        vram_bw_gbs: 360.0,
        vram_bw_measured: false,
    }
}

#[test]
fn weights_that_fit_in_vram_are_read_at_vram_bandwidth() {
    let spec = llama3_8b();
    let quant = q("Q4_K_M", 4 << 30, QuantFamily::KQuant);
    let p = predict(
        &spec,
        &quant,
        &hw_with_gpu(12 << 30, 8 << 30),
        KvPrecision::Q8,
        2048,
        512,
    );

    assert_eq!(p.resident_fraction, 1.0);
    let expected = (4u64 << 30) as f64 / 360e9;
    assert!(
        (p.raw_seconds_per_token - expected).abs() < 1e-12,
        "{} vs {expected}",
        p.raw_seconds_per_token
    );
}

#[test]
fn a_partial_offload_lands_between_the_two_bandwidths() {
    let spec = llama3_8b();
    let quant = q("Q4_K_M", 16 << 30, QuantFamily::KQuant);
    let cpu_only = Hardware {
        backend: Backend::Cpu,
        ..hw_with_gpu(0, 20 << 30)
    };
    let with_gpu = hw_with_gpu(12 << 30, 8 << 30);

    let a = predict(&spec, &quant, &cpu_only, KvPrecision::Q8, 2048, 512);
    let b = predict(&spec, &quant, &with_gpu, KvPrecision::Q8, 2048, 512);

    assert_eq!(a.max_context, b.max_context, "same pool, same context");
    let speedup = a.raw_seconds_per_token / b.raw_seconds_per_token;
    assert!(speedup > 1.5, "GPU must help: {speedup}");
    assert!(speedup < 360.0 / 50.0, "spill is not free: {speedup}");
}

#[test]
fn a_looked_up_vram_bandwidth_cannot_earn_high_confidence() {
    let spec = llama3_8b();
    let quant = q("Q4_K_M", 4 << 30, QuantFamily::KQuant);
    let records: Vec<Record> = (0..40)
        .map(|i| Record {
            hw: format!("hw{i}"),
            backend: "Discrete".into(),
            model: "m".into(),
            quant: "Q4_K_M".into(),
            virt: Some("none".into()),
            quant_family: QuantFamily::KQuant,
            implied_eta: 0.85,
            error_pct: None,
            within_range: None,
            implied_prefill_scale: None,
        })
        .collect();
    let fit = Fitted::from_records(&records);
    let hw = hw_with_gpu(12 << 30, 8 << 30);

    let p = predict_with(&spec, &quant, &hw, KvPrecision::Q8, 2048, 512, &fit);
    assert_eq!(p.confidence, Confidence::Low);
    let width = (p.decode_tok_s.1 - p.decode_tok_s.0) / (p.decode_tok_s.1 + p.decode_tok_s.0);
    assert!(width >= 0.25, "range must stay wide: {width}");

    let measured = Hardware { vram_bw_measured: true, ..hw };
    let m = predict_with(&spec, &quant, &measured, KvPrecision::Q8, 2048, 512, &fit);
    assert_eq!(m.confidence, Confidence::High);
}

#[test]
fn a_disagreeing_bucket_never_predicts_a_negative_rate() {
    let spec = llama3_8b();
    let quant = q("Q4_K_M", 4 << 30, QuantFamily::KQuant);
    let rec = |eta: f64| Record {
        hw: "x".into(),
        backend: "Cpu".into(),
        model: "m".into(),
        quant: "Q4_K_M".into(),
        virt: Some("none".into()),
        quant_family: QuantFamily::KQuant,
        implied_eta: eta,
        error_pct: None,
        within_range: None,
        implied_prefill_scale: None,
    };
    let fit = Fitted::from_records(&[rec(0.11), rec(0.92), rec(0.11), rec(0.92)]);
    let p = predict_with(&spec, &quant, &hw_16gb(), KvPrecision::Q8, 2048, 512, &fit);

    assert!(p.decode_tok_s.0 >= 0.0, "low bound {} is negative", p.decode_tok_s.0);
    assert!(p.decode_tok_s.1 > p.decode_tok_s.0, "range must not invert");
}

#[test]
fn max_context_behaves() {
    let m = llama3_8b();
    let weights = 4_900_000_000;
    assert_eq!(m.max_context(3 << 30, weights, KvPrecision::F16, 512), 0);
    let small = m.max_context(6 << 30, weights, KvPrecision::F16, 512);
    let large = m.max_context(12 << 30, weights, KvPrecision::F16, 512);
    assert!(small > 0 && large > small, "{small} -> {large}");
    let q4 = m.max_context(12 << 30, weights, KvPrecision::Q4, 512);
    assert!(q4 as f64 / large as f64 > 3.0, "q4 {q4} vs f16 {large}");
}

#[test]
fn budgets_hold_back_what_the_system_needs() {
    let gib = 1u64 << 30;
    assert_eq!(current_budget(16 * gib, 8 * gib, None, 0), 8 * gib - 16 * gib / 10);
    assert_eq!(current_budget(4 * gib, 2 * gib, Some(gib), 0), 0);
    assert_eq!(potential_budget(16 * gib, None, 0, Platform::MacOs), 16 * gib - 16 * gib / 5);
    assert_eq!(potential_budget(8 * gib, None, 0, Platform::MacOs), 5 * gib);
    assert_eq!(potential_budget(8 * gib, None, 0, Platform::Windows), 8 * gib - 5 * (gib / 2));
    assert_eq!(potential_budget(8 * gib, None, gib, Platform::Other), 8 * gib - 3 * (gib / 2) - gib);
    assert_eq!(potential_budget(64 * gib, Some(12 * gib), 0, Platform::Other), 10 * gib);
}

#[test]
fn a_verdict_follows_speed_unless_no_context_fits() {
    assert_eq!(verdict(511, d(1000.0)), Verdict::WontFit);
    assert_eq!(verdict(512, d(10.0)), Verdict::Good);
    assert_eq!(verdict(512, d(9.99)), Verdict::Usable);
    assert_eq!(verdict(512, d(3.0)), Verdict::Usable);
    assert_eq!(verdict(512, d(2.99)), Verdict::Slow);
    assert_eq!(verdict(512, d(f64::NAN)), Verdict::Slow);
}

#[test]
fn a_speed_is_what_the_formula_gives() {
    let spec = llama3_8b();
    let quant = q("Q4_K_M", 4 << 30, QuantFamily::KQuant);
    let p = predict(&spec, &quant, &hw_16gb(), KvPrecision::Q8, 2048, 512);
    let seconds = (4u64 << 30) as f64 / (132.0 * 1e9);
    let decode = 0.70 * 0.88 / seconds;
    assert_eq!(p.raw_seconds_per_token, seconds);
    assert_eq!(p.decode_tok_s, ((decode * (1.0 - 0.40)).max(0.0), decode * (1.0 + 0.40)));
    assert_eq!(p.assumed_eta, 0.70 * 0.88);
    let scale = Record {
        hw: "a".into(),
        backend: "Metal".into(),
        model: "m".into(),
        quant: "Q4_K_M".into(),
        virt: None,
        quant_family: QuantFamily::KQuant,
        implied_eta: 0.8,
        error_pct: None,
        within_range: None,
        implied_prefill_scale: Some(8.0),
    };
    let p = predict_with(&spec, &quant, &hw_16gb(), KvPrecision::Q8, 2048, 512, &Fitted::from_records(&[scale]));
    let prefill = 420.0 * 1e9 * 8.0 / (2.0 * 8_030_000_000u64 as f64);
    assert_eq!(p.prefill_tok_s, Some(prefill));
    assert_eq!(p.ttft_s, Some(2048.0 / prefill));
    let c = plan_eta(&Fit::empty(), Backend::Metal, &quant);
    assert_eq!(f(c.eta), 0.70 * 0.88);
    assert_eq!(c.confidence, Confidence::Prior);
}

#[test]
fn a_share_of_a_file_is_what_doubles_compute() {
    let m = |shared: u64, params: u64| ModelSpec {
        params,
        moe: Some(Moe { n_expert: 2, n_active: 0, expert_params: 1, shared_params: shared }),
        ..llama3_8b()
    };
    for (bytes, shared, params) in [(100, 29, 100), (1000, 3, 10), (19_971_519_744, 1_510_000_000, 30_500_000_000), (7, 0, 0), (7, 3, 0), (0, 1, 1)] {
        let want = (bytes as f64 * (shared as f64 / params as f64)) as u64;
        let quant = q("x", bytes, QuantFamily::KQuant);
        assert_eq!(m(shared, params).hot_core_bytes(&quant), want, "{bytes} {shared} {params}");
        assert_eq!(m(shared, params).active_bytes(&quant), want, "{bytes} {shared} {params}");
    }
    let quant = q("x", 4_920_733_696, QuantFamily::KQuant);
    assert_eq!(llama3_8b().active_bytes(&quant), 4_920_733_696);
    assert_eq!(llama3_8b().hot_core_bytes(&quant), 0);
}

#[test]
fn counts_beyond_the_machine_cannot_be_planned() {
    let spec = ModelSpec {
        moe: Some(Moe { n_expert: 1, n_active: u32::MAX, expert_params: u64::MAX, shared_params: 0 }),
        ..llama3_8b()
    };
    assert!(!can_plan(&spec, KvPrecision::F16, 512));
    assert!(can_plan(&llama3_8b(), KvPrecision::F16, 512));
    let mla = ModelSpec { attention: Attention::Mla { kv_lora_rank: u32::MAX, rope_head_dim: 1 }, ..llama3_8b() };
    assert!(!can_plan(&mla, KvPrecision::F16, 512));
    assert!(!can_plan(&ModelSpec { n_embd: u32::MAX, ..llama3_8b() }, KvPrecision::F16, u32::MAX));
}

#[test]
fn the_trained_context_is_a_ceiling() {
    let spec = ModelSpec { n_ctx_train: Some(4096), ..llama3_8b() };
    let quant = q("Q4_K_M", 1 << 30, QuantFamily::KQuant);
    let plan = plan_memory(&spec, &quant, &library_hardware(&hw_16gb()), KvPrecision::F16, 512);
    assert_eq!(plan.max_context, 4096);
    assert_eq!(plan.weights_cached, 1 << 30);
    assert_eq!(plan.vram.pinned, d(0.0));
}
