//! The catalog of models.

use zerocloud::catalog::{builtin, load, parse_model};
use zerocloud::catalog_data::embedded;
use zerocloud::kv::KvPrecision;
use zerocloud::spec::{Attention, ModelSpec, QuantFamily};

#[test]
fn every_embedded_file_parses() {
    assert!(!embedded().is_empty(), "build.rs embedded nothing");
    for (i, src) in embedded().iter().enumerate() {
        assert!(parse_model(src).is_some(), "embedded file {i} failed to parse");
    }
    assert_eq!(builtin().len(), embedded().len());
}

fn get(id: &str) -> ModelSpec {
    builtin()
        .into_iter()
        .find(|m| m.id == id)
        .unwrap_or_else(|| panic!("{id} missing from catalog"))
}

#[test]
fn catalog_data_matches_hand_computed_kv() {
    assert_eq!(get("llama-3.1-8b").kv_bytes(1, KvPrecision::F16), 131_072);
    assert_eq!(get("llama-3.3-70b").kv_bytes(1, KvPrecision::F16), 327_680);
    assert_eq!(
        get("llama-3.3-70b").kv_bytes(32768, KvPrecision::F16),
        10 << 30
    );
    assert_eq!(get("qwen3-4b").kv_bytes(1, KvPrecision::F16), 147_456);
    assert_eq!(get("deepseek-v3").kv_bytes(1, KvPrecision::F16), 70_272);
}

#[test]
fn moe_geometry_reproduces_advertised_active_params() {
    let m = get("qwen3-30b-a3b");
    let active_b = m.active_params() as f64 / 1e9;
    assert!((3.0..3.7).contains(&active_b), "active {active_b}B, expected ~3.3B");

    let ds = get("deepseek-v3");
    let active_b = ds.active_params() as f64 / 1e9;
    assert!((30.0..40.0).contains(&active_b), "active {active_b}B, expected ~37B");
}

#[test]
fn sliding_window_model_is_parsed_as_swa() {
    assert!(matches!(
        get("gemma-3-12b").attention,
        Attention::Swa { window: 1024, global_every: 6, .. }
    ));
}

#[test]
fn quant_families_round_trip_from_data() {
    let m = get("qwen3-30b-a3b");
    assert_eq!(m.quants[0].family, QuantFamily::KQuant);
    assert_eq!(m.quants[1].family, QuantFamily::IQuant);
}

#[test]
fn invalid_entries_are_rejected() {
    assert!(parse_model("{}").is_none());
    assert!(parse_model(
        r#"{"id":"x","n_layers":1,"n_embd":1,"n_vocab":1,"params":1,
            "attention":{"kind":"gqa","n_kv_heads":8},
            "quants":[{"name":"Q4","bytes":1,"family":"k_quant"}]}"#
    )
    .is_none());
    assert!(parse_model(
        r#"{"id":"x","n_layers":1,"n_embd":1,"n_vocab":1,"params":1,
            "attention":{"kind":"future-thing"},
            "quants":[{"name":"Q4","bytes":1,"family":"k_quant"}]}"#
    )
    .is_none());
    assert!(parse_model(
        r#"{"id":"x","n_layers":1,"n_embd":1,"n_vocab":1,"params":1,
            "attention":{"kind":"gqa","n_kv_heads":8,"head_dim":128},
            "quants":[]}"#
    )
    .is_none());
}

#[test]
fn catalog_is_sorted_by_size() {
    let v = builtin();
    assert!(v.windows(2).all(|w| w[0].params <= w[1].params));
    assert_eq!(v[0].id, "qwen3-4b");
}

fn entry(id: &str, params: u64) -> String {
    format!(
        "{{\"id\":\"{id}\",\"n_layers\":2,\"n_embd\":8,\"n_vocab\":100,\"params\":{params},\
         \"attention\":{{\"kind\":\"gqa\",\"n_kv_heads\":1,\"head_dim\":8}},\
         \"quants\":[{{\"name\":\"Q4_K_M\",\"bytes\":7,\"family\":\"k_quant\"}}]}}"
    )
}

#[test]
fn a_user_entry_replaces_the_builtin_one_of_its_name() {
    let docs = vec![entry("qwen3-4b", 5), "not a model".to_string(), entry("brand-new", 9)];
    let l = load(&docs);
    assert_eq!(l.skipped, vec![1]);
    assert_eq!(l.models.len(), builtin().len() + 1);
    assert_eq!(l.models[0].id, "qwen3-4b");
    assert_eq!(l.models[0].params, 5);
    assert_eq!(l.models[1].id, "brand-new");
    assert!(l.models.windows(2).all(|w| w[0].params <= w[1].params));
}

#[test]
fn the_trained_context_is_optional() {
    assert_eq!(parse_model(&entry("x", 1)).unwrap().n_ctx_train, None);
    assert_eq!(get("qwen3-4b").n_ctx_train.is_some(), true);
}

#[test]
fn an_unknown_family_is_read_by_its_default() {
    let m = parse_model(&entry("x", 1).replace("k_quant", "block_float")).unwrap();
    assert_eq!(m.quants[0].family, QuantFamily::BlockFloat);
}
