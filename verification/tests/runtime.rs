//! Talking to runtimes, and what their answers come to.

use zerocloud::double::Double;
use zerocloud::fit::Confidence;
use zerocloud::json::escape;
use zerocloud::kv::KvPrecision;
use zerocloud::predict::{Prediction, Verdict};
use zerocloud::runtime::calibrate::{compare, fingerprint, record_line, Calibration};
use zerocloud::runtime::http::parse_response;
use zerocloud::runtime::llamacpp::LlamaCpp;
use zerocloud::runtime::lmstudio::LmStudio;
use zerocloud::runtime::ollama::{generate_body, parse_generate, parse_show, parse_tags, quant_family, show_body, Ollama};
use zerocloud::runtime::openai::{detect_all, owner_tag, parse_models, quant_from_name, OpenAiCompat};
use zerocloud::runtime::{catalog_match, measurement_prompt, parse_host};
use zerocloud::runtime::{Endpoint, InstalledModel, RunStats, Runtime};
use zerocloud::spec::{Attention, QuantFamily};

fn d(x: f64) -> Double {
    Double::from_bits(x.to_bits())
}

fn f(x: Double) -> f64 {
    f64::from_bits(x.bits)
}

struct Run {
    prompt_tokens: u32,
    eval_tokens: u32,
    prefill_tok_s: f64,
    decode_tok_s: f64,
    load_s: f64,
    n_ctx: Option<u32>,
}

fn plain(r: RunStats) -> Run {
    Run {
        prompt_tokens: r.prompt_tokens,
        eval_tokens: r.eval_tokens,
        prefill_tok_s: f(r.prefill_tok_s),
        decode_tok_s: f(r.decode_tok_s),
        load_s: f(r.load_s),
        n_ctx: r.n_ctx,
    }
}

fn ollama_run(body: &str, model: &str) -> Run {
    plain(parse_generate(body, model))
}

fn llama_run(body: &str, model: &str, n_ctx: Option<u32>) -> Run {
    plain(zerocloud::runtime::llamacpp::parse_completion(body, model, n_ctx))
}

fn studio_run(body: &str, model: &str) -> Run {
    plain(zerocloud::runtime::lmstudio::parse_completion(body, model))
}

fn studio_models(body: &str) -> Vec<InstalledModel> {
    zerocloud::runtime::lmstudio::parse_models(body)
}

fn is_llama_cpp(props: &str) -> bool {
    LlamaCpp::at(Endpoint::local(8080), 200, props).is_some()
}

fn server_ctx(props: &str) -> Option<u32> {
    LlamaCpp::at(Endpoint::local(8080), 200, props).unwrap().n_ctx
}

fn reply(payload: &str) -> zerocloud::runtime::http::Response {
    parse_response(&format!(
        "HTTP/1.1 200 OK\r\nContent-Type: application/json\r\nContent-Length: {}\r\nConnection: close\r\n\r\n{}",
        payload.len(),
        payload
    ))
}

fn library_compare(model: &str, quant: &str, p: &Prediction, r: &RunStats, params: u64, gflops: f64) -> Calibration {
    compare(model, quant, p, r, params, d(gflops))
}
#[test]
fn escapes_json_specials() {
    assert_eq!(escape(r#"a"b\c"#), r#"a\"b\\c"#);
    assert_eq!(escape("a\nb"), "a\\nb");
    assert_eq!(escape("a\u{1}b"), "a\\u0001b");
}


#[test]
fn parses_host_forms_against_a_supplied_default_port() {
    let e = parse_host("http://192.168.1.5:9999", 11434).unwrap();
    assert_eq!((e.host.as_str(), e.port), ("192.168.1.5", 9999));
    let e = parse_host("myhost", 1234).unwrap();
    assert_eq!((e.host.as_str(), e.port), ("myhost", 1234));
    let e = parse_host(":11500", 11434).unwrap();
    assert_eq!((e.host.as_str(), e.port), ("127.0.0.1", 11500));
    assert!(parse_host("", 8080).is_none());

    let e = parse_host("localhost:11434", 11434).unwrap();
    assert_eq!((e.host.as_str(), e.port), ("localhost", 11434));
}

#[test]
fn parses_ipv6_hosts() {
    let e = parse_host("[::1]:11434", 11434).unwrap();
    assert_eq!((e.host.as_str(), e.port), ("::1", 11434));
    let e = parse_host("[::1]", 8080).unwrap();
    assert_eq!((e.host.as_str(), e.port), ("::1", 8080));
    let e = parse_host("http://[fe80::1]:9999", 8080).unwrap();
    assert_eq!((e.host.as_str(), e.port), ("fe80::1", 9999));
    let e = parse_host("::1", 1234).unwrap();
    assert_eq!((e.host.as_str(), e.port), ("::1", 1234));
}

#[test]
fn measurement_prompt_is_long_varied_and_nonce_prefixed() {
    let a = measurement_prompt(1);
    let b = measurement_prompt(2);
    assert!(a.len() > 5_000, "prompt too short: {} chars", a.len());
    assert!(a.starts_with("Session 1."), "nonce must lead the prompt");
    assert_ne!(a, b, "different nonces must produce different prompts");
    assert_ne!(&a[..40], &b[..40]);
    assert!(
        a.matches("bandwidth rather than").count() < 40,
        "too repetitive"
    );
}

#[test]
fn a_gguf_filename_matches_its_catalog_entry() {
    let m = InstalledModel {
        name: "/models/Meta-Llama-3.1-8B-Instruct-Q4_K_M.gguf".into(),
        size_bytes: 4_920_000_000,
        quant: "Q4_K_M".into(),
        ..InstalledModel::new("", 0, "")
    };
    let spec = catalog_match(&m, &Vec::new()).expect("should match llama-3.1-8b");
    assert_eq!(spec.id, "llama-3.1-8b");
    assert_eq!(spec.quants.len(), 1);
    assert_eq!(spec.quants[0].bytes, 4_920_000_000);
}

#[test]
fn an_unlabelled_quantisation_is_refused() {
    let m = InstalledModel {
        name: "qwen3-4b".into(),
        size_bytes: 2_600_000_000,
        quant: "unknown".into(),
        ..InstalledModel::new("", 0, "")
    };
    assert!(catalog_match(&m, &Vec::new()).is_none());
}

#[test]
fn a_disagreeing_parameter_count_rejects_the_match() {
    let m = InstalledModel {
        name: "llama-3.1-8b-Q4_K_M.gguf".into(),
        size_bytes: 4_920_000_000,
        quant: "Q4_K_M".into(),
        params: Some(70_600_000_000),
        ..InstalledModel::new("", 0, "")
    };
    assert!(catalog_match(&m, &Vec::new()).is_none());

    let ok = InstalledModel {
        params: Some(8_030_000_000),
        ..m
    };
    assert!(catalog_match(&ok, &Vec::new()).is_some());
}

#[test]
fn timings_are_milliseconds_not_nanoseconds() {
    let body = r#"{"content":"x","timings":{"cache_n":236,"prompt_n":1,
        "prompt_ms":30.958,"prompt_per_token_ms":30.958,
        "predicted_n":35,"predicted_ms":661.064,
        "predicted_per_second":52.94494935437416}}"#;
    let r = llama_run(body, "m", Some(4096));
    assert_eq!(r.eval_tokens, 35);
    assert!((r.decode_tok_s - 52.945).abs() < 0.01, "{}", r.decode_tok_s);
    assert!((r.prefill_tok_s - 32.302).abs() < 0.01, "{}", r.prefill_tok_s);
    assert_eq!(r.n_ctx, Some(4096));
}

#[test]
fn llamacpp_missing_timings_yield_zero_not_nan() {
    let r = llama_run(r#"{"content":""}"#, "m", None);
    assert_eq!(r.decode_tok_s, 0.0);
    assert!(r.prefill_tok_s.is_finite());
}

#[test]
fn only_llama_cpp_identifies_as_llama_cpp() {
    assert!(is_llama_cpp(r#"{"build_info":"b4321-abc","total_slots":1}"#));
    assert!(is_llama_cpp(
        r#"{"model_path":"/m/llama-3.1-8b-Q4_K_M.gguf"}"#
    ));
    assert!(!is_llama_cpp(r#"{"object":"list","data":[]}"#));
    assert!(!is_llama_cpp("{}"));
}

#[test]
fn context_comes_from_the_server_not_the_request() {
    let props = r#"{"default_generation_settings":{"id":0,"n_ctx":8192,
        "params":{"n_predict":-1}},"total_slots":1,"build_info":"b1"}"#;
    assert_eq!(server_ctx(props), Some(8192));
    assert_eq!(server_ctx(r#"{"build_info":"b1"}"#), None);
}

#[test]
fn stats_block_supplies_both_halves_of_the_split() {
    let body = r#"{"id":"chatcmpl-1","object":"chat.completion","model":"granite-3.0-2b-instruct",
        "usage":{"prompt_tokens":24,"completion_tokens":53,"total_tokens":77},
        "stats":{"tokens_per_second":51.43709529007664,"time_to_first_token":0.111,
        "generation_time":0.954,"stop_reason":"eosFound"},
        "model_info":{"arch":"granite","quant":"Q4_K_M","format":"gguf","context_length":4096}}"#;
    let r = studio_run(body, "granite-3.0-2b-instruct");
    assert_eq!(r.eval_tokens, 53);
    assert_eq!(r.prompt_tokens, 24);
    assert!((r.decode_tok_s - 51.437).abs() < 0.01, "{}", r.decode_tok_s);
    assert!((r.prefill_tok_s - 216.216).abs() < 0.01, "{}", r.prefill_tok_s);
    assert_eq!(r.n_ctx, Some(4096));
}

#[test]
fn a_response_without_stats_yields_zero_not_nan() {
    let r = studio_run(r#"{"usage":{"prompt_tokens":10}}"#, "m");
    assert_eq!(r.decode_tok_s, 0.0);
    assert!(r.prefill_tok_s.is_finite());
}

#[test]
fn embedding_models_are_not_offered_as_targets() {
    let body = r#"{"data":[
        {"id":"qwen3-4b","type":"llm","quantization":"Q4_K_M","max_context_length":32768},
        {"id":"nomic-embed-text","type":"embeddings","quantization":"F16"}]}"#;
    let v = studio_models(body);
    assert_eq!(v.len(), 1);
    assert_eq!(v[0].name, "qwen3-4b");
    assert_eq!(v[0].quant, "Q4_K_M");
}

#[test]
fn quant_families_are_classified() {
    assert_eq!(quant_family("Q4_K_M"), QuantFamily::KQuant);
    assert_eq!(quant_family("Q6_K"), QuantFamily::KQuant);
    assert_eq!(quant_family("Q8_0"), QuantFamily::Legacy);
    assert_eq!(quant_family("IQ3_XXS"), QuantFamily::IQuant);
    assert_eq!(quant_family("MXFP4"), QuantFamily::BlockFloat);
    assert_eq!(quant_family("F16"), QuantFamily::Float);
}

#[test]
fn parses_tags_and_sorts_largest_first() {
    let body = r#"{"models":[
        {"name":"qwen3:4b","size":2600000000,"details":{"quantization_level":"Q4_K_M"}},
        {"name":"llama3.1:8b","size":4900000000,"details":{"quantization_level":"Q4_K_M"}}]}"#;
    let v = parse_tags(body);
    assert_eq!(v.len(), 2);
    assert_eq!(v[0].name, "llama3.1:8b");
    assert_eq!(v[0].quant, "Q4_K_M");
}

fn model() -> InstalledModel {
    InstalledModel::new("qwen3:4b", 2_600_000_000, "Q4_K_M")
}

#[test]
fn parses_dense_model_metadata() {
    let body = r#"{"model_info":{"general.architecture":"qwen3",
        "general.parameter_count":4022468096,
        "qwen3.block_count":36,"qwen3.embedding_length":2560,
        "qwen3.attention.head_count":32,"qwen3.attention.head_count_kv":8,
        "qwen3.attention.key_length":128,"qwen3.vocab_size":151936}}"#;
    let s = parse_show(body, &model()).expect("spec");
    assert_eq!(s.n_layers, 36);
    assert_eq!(s.n_embd, 2560);
    assert_eq!(s.n_vocab, 151936);
    assert!(s.moe.is_none());
    assert_eq!(
        s.kv_bytes(1, KvPrecision::F16),
        2 * 36 * 8 * 128 * 2
    );
}

#[test]
fn parses_moe_model_metadata() {
    let body = r#"{"model_info":{"general.architecture":"qwen3moe",
        "general.parameter_count":30500000000,
        "qwen3moe.block_count":48,"qwen3moe.embedding_length":2048,
        "qwen3moe.attention.head_count":32,"qwen3moe.attention.head_count_kv":4,
        "qwen3moe.attention.key_length":128,"qwen3moe.vocab_size":151936,
        "qwen3moe.expert_count":128,"qwen3moe.expert_used_count":8,
        "qwen3moe.expert_feed_forward_length":768}}"#;
    let s = parse_show(body, &model()).expect("spec");
    let moe = s.moe.as_ref().expect("moe");
    assert_eq!(moe.n_expert, 128);
    assert_eq!(moe.n_active, 8);
    assert_eq!(moe.expert_params, 3 * 2048 * 768);
    let active_b = s.active_params() as f64 / 1e9;
    assert!((3.0..3.7).contains(&active_b), "active {active_b}B");
}

#[test]
fn sliding_window_switches_attention_variant() {
    let body = r#"{"model_info":{"general.architecture":"gemma3",
        "general.parameter_count":12200000000,
        "gemma3.block_count":48,"gemma3.embedding_length":3840,
        "gemma3.attention.head_count":16,"gemma3.attention.head_count_kv":8,
        "gemma3.attention.key_length":256,"gemma3.vocab_size":262144,
        "gemma3.attention.sliding_window":1024}}"#;
    let s = parse_show(body, &model()).expect("spec");
    assert!(matches!(s.attention, Attention::Swa { window: 1024, .. }));
}

#[test]
fn head_dim_falls_back_when_key_length_absent() {
    let body = r#"{"model_info":{"llama.block_count":32,
        "llama.embedding_length":4096,"llama.attention.head_count":32,
        "llama.attention.head_count_kv":8}}"#;
    let s = parse_show(body, &model()).expect("spec");
    assert!(matches!(s.attention, Attention::Gqa { head_dim: 128, .. }));
}

#[test]
fn unusable_metadata_returns_none() {
    assert!(parse_show("{}", &model()).is_none());
}

#[test]
fn computes_rates_from_nanosecond_durations() {
    let body = r#"{"model":"qwen3:4b","done":true,
        "total_duration":3521000000,"load_duration":41000000,
        "prompt_eval_count":2048,"prompt_eval_duration":1200000000,
        "eval_count":128,"eval_duration":2280000000}"#;
    let r = ollama_run(body, "qwen3:4b");
    assert_eq!(r.eval_tokens, 128);
    assert_eq!(r.prompt_tokens, 2048);
    assert!((r.decode_tok_s - 56.14).abs() < 0.01, "{}", r.decode_tok_s);
    assert!((r.prefill_tok_s - 1706.67).abs() < 0.01, "{}", r.prefill_tok_s);
}

#[test]
fn ollama_missing_timings_yield_zero_not_nan() {
    let r = ollama_run(r#"{"done":false}"#, "m");
    assert_eq!(r.decode_tok_s, 0.0);
    assert!(r.prefill_tok_s.is_finite());
}

#[test]
fn parses_llama_cpp_extended_model_entries() {
    let body = r#"{"object":"list","data":[{"id":"../models/Meta-Llama-3.1-8B-Instruct-Q4_K_M.gguf",
        "object":"model","created":1735142223,"owned_by":"llamacpp",
        "meta":{"vocab_type":2,"n_vocab":128256,"n_ctx_train":131072,
        "n_embd":4096,"n_params":8030261312,"size":4912898304}}]}"#;
    let v = parse_models(body);
    assert_eq!(v.len(), 1);
    assert_eq!(v[0].size_bytes, 4_912_898_304);
    assert_eq!(v[0].params, Some(8_030_261_312));
    assert_eq!(v[0].n_embd, Some(4096));
    assert_eq!(v[0].quant, "Q4_K_M");
}

#[test]
fn a_bare_openai_entry_invents_nothing() {
    let v = parse_models(r#"{"data":[{"id":"granite-3.0-2b-instruct","owned_by":"vllm"}]}"#);
    assert_eq!(v[0].size_bytes, 0);
    assert_eq!(v[0].params, None);
    assert_eq!(v[0].quant, "unknown");
}

#[test]
fn quant_labels_are_recovered_from_file_names() {
    assert_eq!(quant_from_name("Meta-Llama-3.1-8B-Q4_K_M.gguf"), "Q4_K_M");
    assert_eq!(quant_from_name("/m/qwen3-30b-a3b-IQ3_XXS.gguf"), "IQ3_XXS");
    assert_eq!(quant_from_name("gpt-oss-20b-MXFP4.gguf"), "MXFP4");
    assert_eq!(quant_from_name("granite-3.0-2b-instruct"), "unknown");
}

#[test]
fn owned_by_disambiguates_servers_on_adjacent_ports() {
    assert_eq!(owner_tag(r#"{"data":[{"id":"m","owned_by":"vllm"}]}"#), Some("vllm"));
    assert_eq!(owner_tag(r#"{"data":[{"id":"m","owned_by":"mlx-lm"}]}"#), Some("mlx"));
    assert_eq!(owner_tag(r#"{"data":[{"id":"m","owned_by":"library"}]}"#), None);
}


fn pred(lo: f64, hi: f64, raw: f64, eta: f64) -> Prediction {
    Prediction {
        decode_tok_s: (d(lo), d(hi)),
        prefill_tok_s: Some(d(100.0)),
        ttft_s: Some(d(1.0)),
        max_context: 8192,
        kv_bytes_per_token: 1024,
        raw_seconds_per_token: d(raw),
        assumed_eta: d(eta),
        ..measured_pred()
    }
}

fn run(decode: f64) -> RunStats {
    RunStats {
        model: "m".into(),
        prompt_tokens: 100,
        eval_tokens: 128,
        prefill_tok_s: d(250.0),
        decode_tok_s: d(decode),
        load_s: d(0.1),
        n_ctx: None,
    }
}



#[test]
fn implied_eta_inverts_the_model() {
    let c = library_compare("m", "Q4_K_M", &pred(15.0, 25.0, 0.04, 0.62), &run(20.0), 8_000_000_000, 400.0);
    assert!((f(c.implied_eta) - 0.8).abs() < 1e-9, "{}", f(c.implied_eta));
}

#[test]
fn error_sign_and_range_membership() {
    let hit = library_compare("m", "q", &pred(15.0, 25.0, 0.04, 0.62), &run(20.0), 8_000_000_000, 400.0);
    assert!(hit.within_range);
    assert!(f(hit.error_pct).abs() < 1e-9);

    let low = library_compare("m", "q", &pred(12.0, 20.0, 0.05, 0.62), &run(25.0), 8_000_000_000, 400.0);
    assert!(!low.within_range);
    assert!(f(low.error_pct) < 0.0, "{}", f(low.error_pct));
    assert!((f(low.error_pct) + 36.0).abs() < 0.1, "{}", f(low.error_pct));
}

#[test]
fn zero_measurement_is_handled() {
    let c = library_compare("m", "q", &pred(10.0, 20.0, 0.05, 0.62), &run(0.0), 8_000_000_000, 400.0);
    assert_eq!(f(c.error_pct), 0.0);
    assert!(f(c.implied_eta).is_finite());
}

#[test]
fn prefill_scale_inverts_and_may_exceed_one() {
    let c = library_compare("m", "q", &pred(15.0, 25.0, 0.04, 0.62), &run(20.0), 8_000_000_000, 400.0);
    assert!((f(c.implied_prefill_scale) - 10.0).abs() < 1e-9, "{}", f(c.implied_prefill_scale));
}

#[test]
fn fingerprint_is_stable_and_non_identifying() {
    let a = fingerprint("Apple M5|10|16GiB|macos");
    assert_eq!(a, fingerprint("Apple M5|10|16GiB|macos"));
    assert_ne!(a, fingerprint("Apple M4|10|16GiB|macos"));
    assert_eq!(a.len(), 16);
}

#[test]
fn record_is_single_line_json() {
    let c = library_compare("qwen3:4b", "Q4_K_M", &pred(15.0, 25.0, 0.04, 0.62), &run(20.0), 8_000_000_000, 400.0);
    let line = record_line("abc", "macos", "none", "Metal", "ollama", d(132.0), d(0.0), d(5.0), d(420.0), 4, "f16", 4096, 8_000_000_000, &c, &run(20.0));
    assert!(!line.contains('\n'));
    assert!(line.starts_with('{') && line.ends_with('}'));
    assert!(line.contains(r#""implied_eta":0.8000"#), "{line}");
    assert!(line.contains(r#""virt":"none""#), "{line}");
}

const OLLAMA_TAGS: &str = r#"{"models":[
{"name":"qwen3:4b","size":2600000000,"details":{"quantization_level":"Q4_K_M"}},
{"name":"qwen3:30b-a3b","size":18600000000,"details":{"quantization_level":"Q4_K_M"}}]}"#;

const OLLAMA_SHOW: &str = r#"{"model_info":{"general.architecture":"qwen3",
"general.parameter_count":4022468096,
"qwen3.block_count":36,"qwen3.embedding_length":2560,
"qwen3.attention.head_count":32,"qwen3.attention.head_count_kv":8,
"qwen3.attention.key_length":128,"qwen3.vocab_size":151936}}"#;

const OLLAMA_GEN: &str = r#"{"model":"qwen3:4b","done":true,"done_reason":"length",
"total_duration":3521000000,"load_duration":41000000,
"prompt_eval_count":2048,"prompt_eval_duration":1200000000,
"eval_count":128,"eval_duration":2280000000}"#;

const LLAMA_PROPS: &str = r#"{"default_generation_settings":{"id":0,"n_ctx":8192,
"params":{"n_predict":-1}},"total_slots":1,
"model_path":"../models/Meta-Llama-3.1-8B-Instruct-Q4_K_M.gguf",
"build_info":"b4321-deadbeef"}"#;

const LLAMA_MODELS: &str = r#"{"object":"list","data":[{
"id":"../models/Meta-Llama-3.1-8B-Instruct-Q4_K_M.gguf","object":"model",
"created":1735142223,"owned_by":"llamacpp",
"meta":{"vocab_type":2,"n_vocab":128256,"n_ctx_train":131072,
"n_embd":4096,"n_params":8030261312,"size":4912898304}}]}"#;

const LLAMA_COMPLETION: &str = r#"{"content":"...","stop":true,
"timings":{"cache_n":0,"prompt_n":1200,"prompt_ms":500.0,
"predicted_n":128,"predicted_ms":4000.0}}"#;

const LMS_MODELS: &str = r#"{"object":"list","data":[
{"id":"qwen3-4b","object":"model","type":"llm","publisher":"qwen",
"arch":"qwen3","quantization":"Q4_K_M","state":"loaded","max_context_length":32768},
{"id":"nomic-embed-text","object":"model","type":"embeddings","quantization":"F16"}]}"#;

const LMS_COMPLETION: &str = r#"{"id":"chatcmpl-1","object":"chat.completion","model":"qwen3-4b",
"choices":[{"index":0,"finish_reason":"length","message":{"role":"assistant","content":"..."}}],
"usage":{"prompt_tokens":1200,"completion_tokens":128,"total_tokens":1328},
"stats":{"tokens_per_second":32.0,"time_to_first_token":0.5,"generation_time":4.0,
"stop_reason":"maxPredictedTokensReached"},
"model_info":{"arch":"qwen3","quant":"Q4_K_M","format":"gguf","context_length":8192}}"#;

const OPENAI_MODELS: &str = r#"{"object":"list","data":[
{"id":"meta-llama/Llama-3.1-8B-Instruct","object":"model","owned_by":"vllm"}]}"#;

#[test]
fn ollama_round_trip() {
    let rt = Ollama::at(Endpoint::local(11434), 200).expect("health check should succeed");
    assert_eq!(rt.name(), "ollama");
    assert!(rt.calibratable());

    let models = rt.list(&reply(OLLAMA_TAGS).body);
    assert_eq!(models.len(), 2);
    assert_eq!(models[0].name, "qwen3:30b-a3b");
    assert_eq!(models.last().unwrap().name, "qwen3:4b");

    let r = reply(OLLAMA_SHOW);
    let spec = rt
        .describe(&InstalledModel::new("qwen3:4b", 2_600_000_000, "Q4_K_M"), r.status, &r.body)
        .expect("spec present");
    assert_eq!(spec.n_layers, 36);
    assert_eq!(spec.kv_bytes(1, KvPrecision::F16), 147_456);
    assert!(rt.describe(&model(), 404, OLLAMA_SHOW).is_none());

    let run = ollama_run(&reply(OLLAMA_GEN).body, "qwen3:4b");
    assert_eq!(run.eval_tokens, 128);
    assert!((run.decode_tok_s - 56.14).abs() < 0.01, "{}", run.decode_tok_s);
    assert!((run.load_s - 0.041).abs() < 1e-6);
    assert_eq!(run.n_ctx, None);
    let long = "x".repeat(300);
    let err = rt.generate("qwen3:4b", 500, &long).err().expect("must fail");
    assert_eq!(err, format!("ollama returned 500: {}", "x".repeat(200)));
}

#[test]
fn full_client_round_trip() {
    let rt = Ollama::at(Endpoint::local(1), 200).unwrap();
    let models = rt.list(OLLAMA_TAGS);
    assert_eq!(models[0].name, "qwen3:30b-a3b");
    let spec = rt.describe(&InstalledModel::new("qwen3:4b", 2_600_000_000, "Q4_K_M"), 200, OLLAMA_SHOW).unwrap();
    assert_eq!(spec.n_layers, 36);
    assert_eq!(spec.n_embd, 2560);
    assert_eq!(spec.kv_bytes(1, KvPrecision::F16), 147_456);
    let run = ollama_run(OLLAMA_GEN, "qwen3:4b");
    assert_eq!(run.eval_tokens, 128);
    assert!((run.decode_tok_s - 56.14).abs() < 0.01, "{}", run.decode_tok_s);
    assert!((run.load_s - 0.041).abs() < 1e-6);
}

#[test]
fn llama_cpp_round_trip_joins_the_catalog() {
    let rt = LlamaCpp::at(Endpoint::local(8080), 200, LLAMA_PROPS).expect("/props must identify llama.cpp");
    assert_eq!(rt.name(), "llamacpp");
    assert!(rt.calibratable());

    let models = rt.list(&reply(LLAMA_MODELS).body);
    assert_eq!(models[0].params, Some(8_030_261_312));

    let spec = catalog_match(&models[0], &Vec::new()).expect("catalog join");
    assert_eq!(spec.id, "llama-3.1-8b");
    assert_eq!(spec.quants[0].bytes, 4_912_898_304);
    assert_eq!(spec.kv_bytes(1, KvPrecision::F16), 131_072);

    let run = llama_run(&reply(LLAMA_COMPLETION).body, &spec.id, rt.n_ctx);
    assert!((run.decode_tok_s - 32.0).abs() < 1e-6, "{}", run.decode_tok_s);
    assert!((run.prefill_tok_s - 2400.0).abs() < 1e-6);
    assert_eq!(run.n_ctx, Some(8192));
    assert_eq!(rt.generate("m", 503, "busy").err().as_deref(), Some("llama-server returned 503: busy"));
}

#[test]
fn lm_studio_round_trip_uses_the_native_stats_block() {
    let rt = LmStudio::at(Endpoint::local(1234), 200).expect("/api/v0/models must answer");
    assert_eq!(rt.name(), "lmstudio");
    assert!(rt.calibratable());

    let models = rt.list(&reply(LMS_MODELS).body);
    assert_eq!(models.len(), 1);
    assert_eq!(models[0].name, "qwen3-4b");

    let spec = catalog_match(&models[0], &Vec::new()).expect("catalog join");
    assert_eq!(spec.id, "qwen3-4b");
    assert!(spec.quants[0].bytes > 0);

    let run = studio_run(&reply(LMS_COMPLETION).body, "qwen3-4b");
    assert!((run.decode_tok_s - 32.0).abs() < 1e-6);
    assert!((run.prefill_tok_s - 2400.0).abs() < 1e-6);
    assert_eq!(run.n_ctx, Some(8192));
    assert_eq!(rt.generate("m", 400, "no").err().as_deref(), Some("lm studio returned 400: no"));
}

#[test]
fn an_openai_compatible_server_is_listed_but_cannot_calibrate() {
    let rt = OpenAiCompat::at(Endpoint::local(8000), "unknown", 200, OPENAI_MODELS).expect("should be detected");
    assert_eq!(rt.name(), "vllm");
    assert!(!rt.calibratable());
    assert_eq!(parse_models(OPENAI_MODELS).len(), 1);
    assert!(rt.refusal().contains("prefill/decode"), "{}", rt.refusal());
}

#[test]
fn unreachable_endpoints_fail_cleanly() {
    let nothing = parse_response("");
    assert!(!Endpoint::local(1).responds(&None));
    assert!(Ollama::at(Endpoint::local(1), nothing.status).is_none());
    assert!(LlamaCpp::at(Endpoint::local(1), nothing.status, &nothing.body).is_none());
    assert!(LmStudio::at(Endpoint::local(1), nothing.status).is_none());
    assert!(OpenAiCompat::at(Endpoint::local(1), "vllm", nothing.status, &nothing.body).is_none());
}

fn measured_pred() -> Prediction {
    Prediction {
        resident_fraction: d(1.0),
        decode_tok_s: (d(45.0), d(75.0)),
        prefill_tok_s: Some(d(20.0)),
        ttft_s: Some(d(100.0)),
        max_context: 32768,
        kv_bytes_per_token: 147_456,
        verdict: Verdict::Good,
        raw_seconds_per_token: d(0.0125),
        assumed_eta: d(0.616),
        confidence: Confidence::Prior,
        prefill_confidence: Confidence::Prior,
    }
}

#[test]
fn calibration_inverts_a_measured_run_and_records_the_runtime() {
    let rt = Ollama::at(Endpoint::local(11434), 200).expect("health");
    let run = parse_generate(OLLAMA_GEN, "qwen3:4b");
    let cal = library_compare("qwen3:4b", "Q4_K_M", &measured_pred(), &run, 4_022_468_096, 420.0);
    assert!(cal.within_range, "56.1 should fall inside 45-75");
    assert!((f(cal.implied_eta) - 0.7018).abs() < 1e-3, "{}", f(cal.implied_eta));

    let line = record_line(
        "deadbeef", "macos", "none", "Metal", rt.name(), d(132.0), d(0.0), d(5.0), d(420.0), 4, "f16", 4096,
        4_022_468_096, &cal, &run,
    );
    assert!(!line.contains('\n'));
    assert!(line.contains(r#""actual_decode_tok_s":56.140"#), "{line}");
    assert!(line.contains(r#""implied_prefill_scale":32.6"#), "{line}");
    assert!(line.contains(r#""runtime":"ollama""#), "{line}");
}

#[test]
fn calibration_inverts_a_measured_run() {
    let run = parse_generate(OLLAMA_GEN, "qwen3:4b");
    let cal = library_compare("qwen3:4b", "Q4_K_M", &measured_pred(), &run, 4_022_468_096, 420.0);
    assert!(cal.within_range, "56.1 should fall inside 45-75");
    assert!((f(cal.implied_eta) - 0.7018).abs() < 1e-3, "{}", f(cal.implied_eta));

    let line = record_line(
        "deadbeef", "macos", "none", "Metal", "ollama", d(132.0), d(0.0), d(5.0), d(420.0), 4, "f16", 4096,
        4_022_468_096, &cal, &run,
    );
    assert!(!line.contains('\n'));
    assert!(line.contains(r#""actual_decode_tok_s":56.140"#), "{line}");
    assert!(line.contains(r#""implied_prefill_scale":32.6"#), "{line}");
}

#[test]
fn a_written_record_reads_back_and_is_disclosed_whole() {
    let run = parse_generate(OLLAMA_GEN, "qwen3:4b");
    let cal = library_compare("backend", "Q4_K_M", &measured_pred(), &run, 4_022_468_096, 420.0);
    let line = record_line(
        "8bc574063a10f63c", "macos", "none", "Metal", "ollama", d(132.0), d(0.0), d(5.0), d(420.0), 4, "f16", 4096,
        4_022_468_096, &cal, &run,
    );
    let r = zerocloud::fit::parse_record(&line).expect("a record");
    assert_eq!((r.hw.as_str(), r.backend.as_str(), r.model.as_str()), ("8bc574063a10f63c", "Metal", "backend"));
    assert_eq!(r.virt.as_deref(), Some("none"));
    assert_eq!(r.quant_family, QuantFamily::KQuant);
    assert_eq!(f(r.implied_eta), format!("{:.4}", f(cal.implied_eta)).parse::<f64>().unwrap());
    assert_eq!(r.error_pct.map(f), Some(format!("{:.1}", f(cal.error_pct)).parse::<f64>().unwrap()));
    assert_eq!(r.within_range, Some(true));
    let shown = zerocloud::cli::share::disclosed(&line);
    assert_eq!(shown.len(), 26);
    assert_eq!(shown[11].value, "backend");
    assert_eq!((shown[5].key, shown[5].value.as_str()), ("ram_bw_gbs", "132"));
    assert_eq!(shown[25].value, "true");
}

#[test]
fn mock_ollama_quant_family_classification_is_exhaustive() {
    for (label, want) in [
        ("Q4_K_M", QuantFamily::KQuant),
        ("Q8_0", QuantFamily::Legacy),
        ("IQ2_XXS", QuantFamily::IQuant),
        ("MXFP4", QuantFamily::BlockFloat),
        ("BF16", QuantFamily::Float),
    ] {
        assert_eq!(quant_family(label), want, "{label}");
    }
}

#[test]
fn mock_runtimes_quant_family_classification_is_exhaustive() {
    for (label, want) in [
        ("Q4_K_M", QuantFamily::KQuant),
        ("Q8_0", QuantFamily::Legacy),
        ("IQ2_XXS", QuantFamily::IQuant),
        ("MXFP4", QuantFamily::BlockFloat),
        ("BF16", QuantFamily::Float),
    ] {
        assert_eq!(quant_family(label), want, "{label}");
    }
}

#[test]
fn a_label_is_recognised_in_either_case() {
    assert_eq!(quant_family("q4_k_m"), QuantFamily::KQuant);
    assert_eq!(quant_from_name("model-q4_k_m.gguf"), "Q4_K_M");
    assert_eq!(owner_tag(r#"{"data":[{"id":"m","owned_by":"VLLM"}]}"#), Some("vllm"));
}

#[test]
fn a_request_names_its_host_and_length() {
    let ep = Endpoint::new("localhost", 11434);
    assert_eq!(ep.get("/api/tags"), "GET /api/tags HTTP/1.1\r\nHost: localhost:11434\r\nConnection: close\r\n\r\n");
    assert_eq!(
        ep.post("/api/show", "{\"a\":\"\u{e9}\"}"),
        "POST /api/show HTTP/1.1\r\nHost: localhost:11434\r\nConnection: close\r\n\
         Content-Type: application/json\r\nContent-Length: 10\r\n\r\n{\"a\":\"\u{e9}\"}"
    );
    assert_eq!(ep.text(), "localhost:11434");
    let r = parse_response("HTTP/1.1 404 Not Found\r\nA: b\r\n\r\nbody\r\n\r\nmore");
    assert_eq!((r.status, r.body.as_str()), (404, "body\r\n\r\nmore"));
    let r = parse_response("garbage");
    assert_eq!((r.status, r.body.as_str()), (0, ""));
}

#[test]
fn the_bodies_carry_the_prompt() {
    assert!(show_body("a\"b").contains("a\\\"b"));
    let g = generate_body("m", 8, 4096, 42);
    assert!(g.contains("Session 42.") && g.contains("4096") && g.contains("8"), "{g}");
    let c = zerocloud::runtime::llamacpp::completion_body(8, 7);
    assert!(c.starts_with("{\"prompt\":\"Session 7.") && c.ends_with("\"n_predict\":8,\"temperature\":0,\"cache_prompt\":false,\"stream\":false}"), "{c}");
    let l = zerocloud::runtime::lmstudio::completion_body("m", 8, 7);
    assert!(l.starts_with("{\"model\":\"m\",\"messages\":[{\"role\":\"user\",\"content\":\"Session 7."), "{l}");
}

#[test]
fn a_claimed_port_is_not_asked_again() {
    let all = detect_all(&Vec::new());
    assert!(!all.is_empty());
    let claimed = vec![Endpoint::new(&all[0].ep.host, all[0].ep.port)];
    assert_eq!(detect_all(&claimed).len(), all.len() - all.iter().filter(|p| p.ep.is(&claimed[0])).count());
    assert_eq!(Ollama::detect(None).port, 11434);
    assert_eq!(LmStudio::detect(Some("box:9")).text(), "box:9");
    assert_eq!(LlamaCpp::detect(Some("")).text(), "127.0.0.1:8080");
}
