//! Reading JSON.

use zerocloud::json::{array_objects, boolean, escape, object_at, string};
use zerocloud::json::{whole, whole32};

fn number(src: &str, key: &str) -> Option<f64> {
    zerocloud::json::number(src, key).map(|d| f64::from_bits(d.bits))
}

fn number_by_suffix(src: &str, suffix: &str) -> Option<f64> {
    zerocloud::json::number_by_suffix(src, suffix).map(|d| f64::from_bits(d.bits))
}

const GEN: &str = r#"{"model":"qwen3:4b","created_at":"2026-08-13T00:00:00Z",
    "response":"Hello","done":true,"done_reason":"stop",
    "context":[151644,872,198,9707],
    "total_duration":3521000000,"load_duration":41000000,
    "prompt_eval_count":2048,"prompt_eval_duration":1200000000,
    "eval_count":128,"eval_duration":2280000000}"#;

#[test]
fn extracts_scalars() {
    assert_eq!(string(GEN, "model").as_deref(), Some("qwen3:4b"));
    assert_eq!(number(GEN, "eval_count"), Some(128.0));
    assert_eq!(number(GEN, "eval_duration"), Some(2_280_000_000.0));
}

#[test]
fn does_not_confuse_prefixed_keys() {
    assert_eq!(number(GEN, "prompt_eval_count"), Some(2048.0));
    assert_eq!(number(GEN, "eval_count"), Some(128.0));
    assert_ne!(number(GEN, "eval_count"), number(GEN, "prompt_eval_count"));
}

#[test]
fn ignores_keys_inside_string_values() {
    let s = r#"{"response":"the \"eval_count\": 999 trick","eval_count":7}"#;
    assert_eq!(number(s, "eval_count"), Some(7.0));
}

#[test]
fn suffix_match_handles_architecture_prefixes() {
    let s = r#"{"model_info":{"general.architecture":"qwen3",
        "qwen3.block_count":36,"qwen3.attention.head_count_kv":8,
        "qwen3.attention.key_length":128,"qwen3.embedding_length":2560}}"#;
    assert_eq!(number_by_suffix(s, ".block_count"), Some(36.0));
    assert_eq!(number_by_suffix(s, ".attention.head_count_kv"), Some(8.0));
    assert_eq!(number_by_suffix(s, ".embedding_length"), Some(2560.0));
}

#[test]
fn splits_array_objects_regardless_of_formatting() {
    let compact = r#"{"models":[{"name":"a","size":1},{"name":"b","size":2}]}"#;
    let pretty = "{\"models\":[\n  {\"name\":\"a\",\"size\":1},\n  {\"name\":\"b\",\"size\":2}\n]}";
    for src in [compact, pretty] {
        let v = array_objects(src, "models");
        assert_eq!(v.len(), 2, "{src}");
        assert_eq!(string(v[0], "name").as_deref(), Some("a"));
        assert_eq!(string(v[1], "name").as_deref(), Some("b"));
    }
}

#[test]
fn splits_array_objects_with_nesting() {
    let s = r#"{"models":[{"name":"a","details":{"q":"Q4"}},{"name":"b","details":{"q":"Q8"}}]}"#;
    let v = array_objects(s, "models");
    assert_eq!(v.len(), 2);
    assert_eq!(string(v[1], "q").as_deref(), Some("Q8"));
}

#[test]
fn braces_inside_strings_do_not_break_splitting() {
    let s = r#"{"models":[{"name":"a{b}c"},{"name":"d"}]}"#;
    let v = array_objects(s, "models");
    assert_eq!(v.len(), 2);
    assert_eq!(string(v[0], "name").as_deref(), Some("a{b}c"));
}

#[test]
fn extracts_nested_objects() {
    let s = r#"{"id":"m","attention":{"kind":"gqa","n_kv_heads":8},"moe":null}"#;
    let a = object_at(s, "attention").expect("attention");
    assert_eq!(string(a, "kind").as_deref(), Some("gqa"));
    assert_eq!(number(a, "n_kv_heads"), Some(8.0));
    assert!(object_at(s, "moe").is_none());
}

#[test]
fn nested_object_is_bounded_correctly() {
    let s = r#"{"a":{"b":{"c":1},"d":2},"e":{"f":3}}"#;
    let a = object_at(s, "a").expect("a");
    assert_eq!(a, r#"{"b":{"c":1},"d":2}"#);
    assert_eq!(number(a, "f"), None);
}

#[test]
fn decodes_unicode_escapes_go_emits() {
    let s = r#"{"name":"a&b","tpl":"<|im_start|>"}"#;
    assert_eq!(string(s, "name").as_deref(), Some("a&b"));
    assert_eq!(string(s, "tpl").as_deref(), Some("<|im_start|>"));
}

#[test]
fn multibyte_utf8_is_not_mangled() {
    let s = r#"{"name":"café","cn":"通义千问"}"#;
    assert_eq!(string(s, "name").as_deref(), Some("café"));
    assert_eq!(string(s, "cn").as_deref(), Some("通义千问"));
}

#[test]
fn handles_surrogate_pairs_and_lone_surrogates() {
    assert_eq!(string(r#"{"e":"😀"}"#, "e").as_deref(), Some("😀"));
    assert_eq!(string(r#"{"e":"\uD83D"}"#, "e").as_deref(), Some("\u{FFFD}"));
}

#[test]
fn truncated_escape_does_not_panic() {
    assert_eq!(string(r#"{"e":"\u00"#, "e"), None);
    assert_eq!(string(r#"{"e":"ab\"#, "e"), None);
}

#[test]
fn missing_keys_are_none() {
    assert_eq!(number(GEN, "nope"), None);
    assert_eq!(string(GEN, "nope"), None);
}

const SEEDS: &[&str] = &[
    r#"{"a":1}"#,
    r#"{"a":"#,
    "{",
    "}",
    "",
    "null",
    "[]",
    r#"{"a":[[[[[[[[[[1]]]]]]]]]]}"#,
    r#"{"a":" \uD800"}"#,
    r#"{"n":999999999999999999999999999999}"#,
    r#"{"n":-0.0e999999}"#,
    r#"{"n":1e308}"#,
    r#"{"a":"unterminated"#,
    r#"{"a":{"b":{"c":{"d":{}}}}}"#,
    r#"{"num_hidden_layers":4294967296,"hidden_size":0,"vocab_size":-1}"#,
    r#"{"safetensors":{"parameters":{"BF16":1e308}}}"#,
    r#"{"a":"\\\\\\\\"}"#,
    r#"{"a":1,"a":2,"a":3}"#,
    r#"{"hw":"x","error_pct":"not a number","within_range":7}"#,
    r#"{"hw":null,"backend":[],"quant":{}}"#,
];

fn mutate(base: &str, r: u64) -> String {
    let mut s = base.to_string();
    match r % 6 {
        0 => {
            let n = (r as usize / 7) % (s.len() + 1);
            let n = (0..=n).rev().find(|i| s.is_char_boundary(*i)).unwrap_or(0);
            s.truncate(n);
        }
        1 => s.push_str(&"[".repeat((r as usize / 11) % 200)),
        2 => s.push_str(&"\u{1F600}".repeat((r as usize / 13) % 50)),
        3 => s.push('\u{0}'),
        4 => s.insert(0, '\u{feff}'),
        _ => s = s.repeat(1 + (r as usize / 17) % 3),
    }
    s
}

#[test]
fn no_hostile_input_panics_a_parser() {
    let mut state: u64 = 0x2545F4914F6CDD1D;
    let mut rnd = || {
        state ^= state << 13;
        state ^= state >> 7;
        state ^= state << 17;
        state
    };
    for base in SEEDS {
        for _ in 0..500 {
            let s = mutate(base, rnd());
            let _ = number(&s, "a");
            let _ = string(&s, "a");
            let _ = boolean(&s, "a");
            let _ = object_at(&s, "a");
            let _ = array_objects(&s, "a");
            let _ = number_by_suffix(&s, "a");
            let _ = escape(&s);
            let _ = zerocloud::fit::parse_records(&s);
        }
    }
}

#[test]
fn a_missing_key_is_absent_not_confused_with_a_neighbour() {
    let s = r#"{"aa":1,"ab":2,"b":3}"#;
    assert_eq!(number(s, "a"), None);
    assert_eq!(number(s, "aa"), Some(1.0));
    assert_eq!(number(s, "ab"), Some(2.0));
    let s = r#"{"error_pct_scaled":5,"error_pct":9}"#;
    assert_eq!(number(s, "error_pct"), Some(9.0));
}

#[test]
fn an_overflowing_number_does_not_wrap() {
    let huge = r#"{"n":999999999999999999999999999999}"#;
    let v = number(huge, "n");
    assert!(
        v.is_none() || v.is_some_and(|x| x > 1e20),
        "a huge number came back as {v:?}"
    );
    let inf = r#"{"n":1e999}"#;
    let v = number(inf, "n");
    assert!(
        v.is_none() || v.is_some_and(|x| !x.is_finite() || x > 1e300),
        "an overflowing exponent came back as {v:?}"
    );
}

#[test]
fn a_count_is_truncated_and_held_at_its_limit() {
    assert_eq!(whole(r#"{"n":12.9}"#, "n"), Some(12));
    assert_eq!(whole(r#"{"n":-3}"#, "n"), Some(0));
    assert_eq!(whole(r#"{"n":1.5e3}"#, "n"), Some(1500));
    assert_eq!(whole(r#"{"n":250e-1}"#, "n"), Some(25));
    assert_eq!(whole(r#"{"n":1e40}"#, "n"), Some(u64::MAX));
    assert_eq!(whole32(r#"{"n":4294967296}"#, "n"), Some(u32::MAX));
    assert_eq!(whole(r#"{"n":"12"}"#, "n"), None);
    assert_eq!(whole(r#"{"n":1.2.3}"#, "n"), None);
}

#[test]
fn a_truth_value_is_read_only_where_it_stands() {
    assert_eq!(boolean(r#"{"a":true,"b": false,"c":null}"#, "a"), Some(true));
    assert_eq!(boolean(r#"{"a":true,"b": false,"c":null}"#, "b"), Some(false));
    assert_eq!(boolean(r#"{"a":true,"b": false,"c":null}"#, "c"), None);
}

#[test]
fn escaped_text_is_read_back_whatever_it_holds() {
    for s in ["", "plain", "a\"b", "back\\slash", "line\nfeed\ttab\rreturn", "\u{1}\u{1f}", "caf\u{e9} \u{1f600}", "\\u0041"] {
        let doc = format!("{{\"k\":\"{}\",\"z\":1}}", escape(s));
        assert_eq!(string(&doc, "k").as_deref(), Some(s), "{doc}");
    }
}

#[test]
fn control_characters_are_escaped_as_four_digits() {
    assert_eq!(escape("\u{1}"), "\\u0001");
    assert_eq!(escape("\u{1f}"), "\\u001f");
    assert_eq!(escape("a\"b"), "a\\\"b");
}

#[test]
fn a_surrogate_pair_is_one_character() {
    assert_eq!(string("{\"e\":\"\\uD83D\\uDE00!\"}", "e").as_deref(), Some("\u{1f600}!"));
    assert_eq!(string("{\"e\":\"\\u0041\\u00e9\"}", "e").as_deref(), Some("A\u{e9}"));
}
