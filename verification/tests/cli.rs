//! What the commands decide and say.

use zerocloud::cli::args::{accepts, command, did_you_mean, distance, is_interactive, parse_options, Command};
use zerocloud::cli::fit_cmd::{choose_base, describe_dataset, describe_sources, path, read_text, record_in, record_path};
use zerocloud::cli::fit_cmd::{sources, sources_in, summary_text, user_data_dir, Homes};
use zerocloud::cli::hf::{dtype_bytes, fetch_failure, fetch_model, looks_like_repo_id, parse, repo_urls};
use zerocloud::cli::plan_cmd::{check_training, choose_quants, no_quant, parse_ctx, plan_text, resolve, Planned};
use zerocloud::cli::share::{browser_command, describe, dest_filename, encode, last_record, share_url, Desktop};
use zerocloud::cli::verify::{choose_model, closing, comparison, head, no_geometry, no_model, notes, precheck, Seen};
use zerocloud::double::Double;
use zerocloud::fit::{Coefficient, Confidence, Fit, Named};
use zerocloud::kv::KvPrecision;
use zerocloud::predict::{requirement, Backend, Platform, Prediction, Verdict};
use zerocloud::runtime::calibrate::{compare, fingerprint};
use zerocloud::runtime::{InstalledModel, RunStats};
use zerocloud::spec::{Attention, ModelSpec, Moe, Quant, QuantFamily};

fn dataset(dir: &str, curated: bool) -> String {
    zerocloud::cli::fit_cmd::resolve(dir, curated, false)
}

fn render_hf(f: &zerocloud::cli::hf::Fetched, budget: u64, kv: KvPrecision, ubatch: u32) -> String {
    zerocloud::cli::hf::render(f, budget, kv, ubatch)
}

const API: &str = r#"{"id":"x","safetensors":{"parameters":{"BF16":8030261248},"total":8030261248}}"#;
const CFG: &str = r#"{"num_hidden_layers":32,"hidden_size":4096,"vocab_size":128256,
    "num_attention_heads":32,"num_key_value_heads":8,"max_position_embeddings":131072}"#;

#[test]
fn a_repo_id_is_recognised_but_a_path_is_not() {
    assert!(looks_like_repo_id("meta-llama/Llama-3.1-8B"));
    assert!(looks_like_repo_id("Qwen/Qwen3-1.7B"));
    assert!(!looks_like_repo_id("qwen3:1.7b"));
    assert!(!looks_like_repo_id("./data/models"));
    assert!(!looks_like_repo_id("a/b/c"));
    assert!(!looks_like_repo_id("/etc/passwd"));
    assert!(!looks_like_repo_id("--json"));
    assert!(!looks_like_repo_id("has space/x"));
}

#[test]
fn weight_bytes_come_from_the_dtype_breakdown() {
    let f = parse("meta-llama/Llama-3.1-8B", API, CFG).unwrap();
    assert_eq!(f.spec.params, 8_030_261_248);
    assert_eq!(f.weight_bytes, 8_030_261_248 * 2, "BF16 is two bytes");
    assert_eq!(f.dtypes, "BF16");
    assert_eq!(f.spec.n_layers, 32);
    assert_eq!(f.spec.n_ctx_train, Some(131072));
}

#[test]
fn mixed_dtypes_are_summed_separately() {
    let api = r#"{"safetensors":{"parameters":{"BF16":1000,"F32":10}}}"#;
    let f = parse("a/b", api, CFG).unwrap();
    assert_eq!(f.weight_bytes, 1000 * 2 + 10 * 4);
    assert_eq!(f.spec.params, 1010);
    assert_eq!(f.dtypes, "BF16 + F32", "largest share first");
}

#[test]
fn missing_metadata_is_refused_rather_than_guessed() {
    assert!(parse("a/b", r#"{"safetensors":{}}"#, CFG).is_err());
    assert!(parse("a/b", API, r#"{"hidden_size":4096}"#).is_err());
    let no_heads = r#"{"num_hidden_layers":32,"hidden_size":4096,"vocab_size":128256}"#;
    assert!(parse("a/b", API, no_heads).is_err());
}

#[test]
fn a_disabled_sliding_window_is_ignored() {
    let on = format!("{}{}", &CFG[..CFG.len() - 1], r#","sliding_window":4096}"#);
    assert!(matches!(
        parse("a/b", API, &on).unwrap().spec.attention,
        Attention::Swa { window: 4096, .. }
    ));
    let off = format!(
        "{}{}",
        &CFG[..CFG.len() - 1],
        r#","sliding_window":4096,"use_sliding_window":false}"#
    );
    assert!(matches!(
        parse("a/b", API, &off).unwrap().spec.attention,
        Attention::Gqa { .. }
    ));
}

#[test]
fn head_dim_is_derived_when_absent() {
    let f = parse("a/b", API, CFG).unwrap();
    assert!(matches!(
        f.spec.attention,
        Attention::Gqa {
            n_kv_heads: 8,
            head_dim: 128
        }
    ));
}

#[test]
fn a_near_miss_command_is_suggested() {
    assert_eq!(did_you_mean("chekc"), Some("check"));
    assert_eq!(did_you_mean("verift"), Some("verify"));
    assert_eq!(did_you_mean("doctr"), Some("doctor"));
    assert_eq!(did_you_mean("gat"), Some("gate"));
    assert_eq!(did_you_mean("shre"), Some("share"));
    assert_eq!(did_you_mean("xyzzy"), None);
    assert_eq!(did_you_mean(""), None);
}

#[test]
fn flags_are_scoped_to_the_commands_that_read_them() {
    for (cmd, flag) in [
        ("check", "--json"),
        ("check", "--all"),
        ("check", "--tui"),
        ("check", "--no-tui"),
        ("verify", "--runtime"),
        ("verify", "--kv"),
        ("doctor", "--kv"),
        ("share", "--record"),
        ("share", "--print"),
    ] {
        assert!(accepts(cmd, flag), "{cmd} should accept {flag}");
    }
    for (cmd, flag) in [
        ("doctor", "--json"),
        ("doctor", "--top"),
        ("doctor", "--tui"),
        ("gate", "--no-tui"),
        ("fit", "--json"),
        ("fit", "--kv"),
        ("gate", "--json"),
        ("share", "--json"),
        ("check", "--runtime"),
        ("check", "--print"),
        ("verify", "--top"),
    ] {
        assert!(!accepts(cmd, flag), "{cmd} must refuse {flag}");
    }
}

#[test]
fn context_accepts_plain_and_k_suffixed_numbers() {
    assert_eq!(parse_ctx("4096"), Some(4096));
    assert_eq!(parse_ctx("32k"), Some(32768));
    assert_eq!(parse_ctx("32K"), Some(32768));
    assert_eq!(parse_ctx(" 8K "), Some(8192));
    assert_eq!(parse_ctx("0"), None);
    assert_eq!(parse_ctx("K"), None);
    assert_eq!(parse_ctx("-1"), None);
    assert_eq!(parse_ctx("abc"), None);
    assert_eq!(parse_ctx("999999999K"), None);
}

fn named_spec(id: &str) -> ModelSpec {
    ModelSpec {
        id: id.into(),
        n_layers: 1,
        n_embd: 1,
        n_vocab: 1,
        params: 1,
        attention: Attention::Gqa {
            n_kv_heads: 1,
            head_dim: 1,
        },
        moe: None,
        n_ctx_train: None,
        quants: vec![],
    }
}

#[test]
fn an_ambiguous_prefix_is_refused_not_guessed() {
    let specs = vec![named_spec("qwen3-8b"), named_spec("qwen3-4b"), named_spec("llama-3.1-8b")];
    assert_eq!(resolve(&specs, "qwen3-8b").unwrap().id, "qwen3-8b");
    assert_eq!(resolve(&specs, "llama").unwrap().id, "llama-3.1-8b");
    let err = resolve(&specs, "qwen3").unwrap_err();
    assert!(err.contains("matches 2"), "{err}");
    assert!(resolve(&specs, "nothing-like-this").is_err());
}

#[test]
fn an_exact_id_beats_an_ambiguous_prefix() {
    let specs = vec![named_spec("qwen3-8b"), named_spec("qwen3-8b-instruct")];
    assert_eq!(resolve(&specs, "qwen3-8b").unwrap().id, "qwen3-8b");
}

#[test]
fn the_browser_argument_keeps_the_whole_url() {
    let url = share_url("8bc574063a10f63c-921a62a1.jsonl", REC);
    assert!(url.contains('&'), "the URL must carry the separator");
    let (prog, args) = browser_command(&url, Desktop::Windows);
    assert!(!prog.is_empty());
    assert!(
        args.iter().any(|a| a == &url),
        "no argument carried the whole URL: {args:?}"
    );
    let after = url.split_once('&').expect("separator").1;
    assert!(
        args.iter().any(|a| a.ends_with(after)),
        "the payload after '&' was lost: {args:?}"
    );
    assert!(
        !prog.eq_ignore_ascii_case("cmd") && !prog.eq_ignore_ascii_case("sh"),
        "{prog} would parse the URL again"
    );
}

const REC: &str = r#"{"hw":"8bc574063a10f63c","os":"macos","virt":"none","backend":"Metal","runtime":"ollama","ram_bw_gbs":126.55,"vram_bw_gbs":0.00,"disk_bw_gbs":26.65,"gflops":427.6,"threads":4,"kv":"f16","model":"qwen3:1.7b","quant":"Q4_K_M","ctx":4096,"prompt_tokens":979,"eval_tokens":128,"predicted_lo":34.409,"predicted_hi":80.287,"actual_decode_tok_s":85.831,"actual_prefill_tok_s":2750.43,"assumed_eta":0.6160,"implied_eta":0.9220,"implied_prefill_scale":26.1399,"active_params":2031739904,"error_pct":-33.2,"within_range":false}"#;

fn decode(s: &str) -> String {
    let b = s.as_bytes();
    let mut out = Vec::new();
    let mut i = 0;
    while i < b.len() {
        if b[i] == b'%' && i + 2 < b.len() {
            let hex = std::str::from_utf8(&b[i + 1..i + 3]).unwrap();
            out.push(u8::from_str_radix(hex, 16).unwrap());
            i += 3;
        } else {
            out.push(b[i]);
            i += 1;
        }
    }
    String::from_utf8(out).unwrap()
}

#[test]
fn the_same_record_always_gets_the_same_filename() {
    let a = dest_filename(REC).expect("filename");
    assert_eq!(a, dest_filename(REC).expect("filename"));
    assert_eq!(
        a,
        format!("8bc574063a10f63c-{}.jsonl", &fingerprint(REC)[..8])
    );
}

#[test]
fn one_changed_digit_changes_the_filename() {
    let changed = REC.replace("85.831", "85.832");
    assert_ne!(dest_filename(REC).unwrap(), dest_filename(&changed).unwrap());
}

#[test]
fn encoding_round_trips_a_hostile_record() {
    let nasty = REC.replace("qwen3:1.7b", "a&b+c\\\"d/é");
    let url = share_url("x-y.jsonl", &nasty);
    let value = url.split("&value=").nth(1).expect("value parameter");
    assert_eq!(decode(value), nasty);
    assert_eq!(url.matches('&').count(), 1);
}

#[test]
fn every_field_in_the_record_is_disclosed() {
    let described = describe(REC);
    for key in REC.split(",\"").skip(1).filter_map(|s| s.split('"').next()) {
        assert!(described.contains(key), "field {key} is in the record but not disclosed");
    }
    assert!(described.contains("8bc574063a10f63c"), "hw value missing");
}

#[test]
fn a_line_that_is_not_a_record_is_rejected() {
    assert!(dest_filename("hello").is_err());
    assert!(dest_filename(r#"{"hw":"nothex","error_pct":1.0}"#).is_err());
}

fn texts(v: &[&str]) -> Vec<String> {
    v.iter().map(|s| s.to_string()).collect()
}

#[test]
fn falls_back_to_local_when_no_curated_dataset() {
    assert_eq!(dataset("d", false), "d/local.jsonl");
}

#[test]
fn curated_dataset_wins_when_present() {
    assert_eq!(dataset("d", true), "d/gate.jsonl");
}

#[test]
fn a_directory_named_like_the_dataset_is_not_the_dataset() {
    assert_eq!(path(None, "d", false, false), "d/local.jsonl");
}

#[test]
fn verify_writes_to_local_even_when_a_curated_dataset_exists() {
    assert_eq!(dataset("d", true), "d/gate.jsonl", "reader takes curated");
    assert_eq!(record_in("d", false), "d/local.jsonl", "zc verify must append to local.jsonl, never to the curated gate.jsonl");
    assert_eq!(record_path(None, "d", false), "d/local.jsonl");
    assert_eq!(record_path(Some("elsewhere.jsonl"), "d", false), "elsewhere.jsonl");
}

#[test]
fn a_checkout_uses_its_own_dataset() {
    assert_eq!(choose_base("d", true, Some("d/user-data")), "d");
}

#[test]
fn outside_a_checkout_the_records_belong_to_the_user() {
    assert_eq!(choose_base("d", false, Some("d/user-data")), "d/user-data");
    assert_eq!(choose_base("d", false, None), "d");
}

fn homes(xdg: Option<&str>, local: Option<&str>, profile: Option<&str>, home: Option<&str>) -> Homes {
    Homes {
        xdg_data_home: xdg.map(String::from),
        local_app_data: local.map(String::from),
        user_profile: profile.map(String::from),
        home: home.map(String::from),
    }
}

#[test]
fn the_user_directory_is_absolute_and_namespaced() {
    let h = homes(None, None, None, Some("/home/alice"));
    assert_eq!(user_data_dir(&h, Platform::Other).as_deref(), Some("/home/alice/.local/share/zerocloud"));
    assert_eq!(
        user_data_dir(&h, Platform::MacOs).as_deref(),
        Some("/home/alice/Library/Application Support/zerocloud")
    );
    let x = homes(Some("/data"), Some("C:/L"), Some("C:/U"), Some("/home/alice"));
    for p in [Platform::Other, Platform::MacOs, Platform::Windows] {
        let want = if p == Platform::Windows { r"/data\zerocloud" } else { "/data/zerocloud" };
        assert_eq!(user_data_dir(&x, p).as_deref(), Some(want));
    }
    let w = homes(Some(""), Some(""), Some("C:/U"), None);
    assert_eq!(user_data_dir(&w, Platform::Windows).as_deref(), Some(r"C:/U\AppData\Local\zerocloud"));
    assert_eq!(user_data_dir(&homes(None, Some("C:/L"), None, None), Platform::Windows).as_deref(), Some(r"C:/L\zerocloud"));
    assert_eq!(user_data_dir(&w, Platform::Other), None);
}

#[test]
fn community_records_join_the_curated_file() {
    let found = texts(&["b-2.jsonl", "a-1.jsonl", "README.md", ".jsonl"]);
    assert_eq!(
        sources_in("d", true, &found, false),
        texts(&["d/gate.jsonl", "d/community/a-1.jsonl", "d/community/b-2.jsonl"]),
        "curated first, then community sorted, and only .jsonl"
    );
    assert_eq!(sources(Some("one.jsonl"), "d", true, &found, false), texts(&["one.jsonl"]));
    assert_eq!(sources(None, "d", false, &found, false)[0], "d/local.jsonl");
}

#[test]
fn a_missing_community_directory_is_not_an_error() {
    assert_eq!(sources_in("d", true, &Vec::new(), false), texts(&["d/gate.jsonl"]));
}

#[test]
fn a_record_present_in_both_tiers_is_counted_once() {
    let rec = "{\"hw\":\"a\",\"error_pct\":1.0}";
    assert_eq!(read_text(&texts(&[&format!("{rec}\n"), &format!("{rec}\n")])), format!("{rec}\n"));
}

#[test]
fn concatenation_separates_records_that_lack_a_trailing_newline() {
    assert_eq!(read_text(&texts(&["{\"a\":1}", "{\"b\":2}\n"])), "{\"a\":1}\n{\"b\":2}\n");
    assert_eq!(read_text(&texts(&["  {\"a\":1} \r\n\n", ""])), "{\"a\":1}\n");
}

#[test]
fn the_dataset_is_described_by_what_exists() {
    let one = texts(&["/home/alice/data/gate.jsonl"]);
    let three = texts(&["/home/alice/data/gate.jsonl", "b", "c"]);
    assert_eq!(describe_sources(&Vec::new(), None), "no dataset");
    assert_eq!(describe_sources(&one, Some("/home/alice")), "~/data/gate.jsonl");
    assert_eq!(describe_sources(&three, Some("/home/alice")), "~/data/gate.jsonl, plus 2 community record(s)");
    assert_eq!(
        describe_dataset(&one, true, Some("/home/alice")),
        "~/data/gate.jsonl, plus the dataset shipped in this binary"
    );
    assert_eq!(describe_dataset(&one, false, None), "the dataset shipped in this binary");
}

fn double(x: f64) -> Double {
    Double::from_bits(x.to_bits())
}

fn bucket(key: &str, eta: f64, spread: f64, samples: usize, machines: usize) -> Named<Coefficient> {
    Named { key: key.to_string(), value: Coefficient::measured(double(eta), double(spread), samples, machines) }
}

#[test]
fn the_summary_leads_with_the_most_evidence() {
    let mut fit = Fit::empty();
    let none = summary_text(&fit, &texts(&["x"]), true, None);
    assert_eq!(
        none,
        "No calibration data at x.\n\nEvery tok/s number zc reports is currently a shipped prior.\n\
         To replace priors with measurements:\n    ollama pull qwen3:4b && zc verify\n"
    );
    fit.buckets.push(bucket("Cpu/legacy", 0.5, 0.3, 3, 1));
    fit.buckets.push(bucket("Metal/k_quant", 0.8125, 0.1, 40, 12));
        let t = summary_text(&fit, &texts(&["x"]), false, None);
    let mut want = String::from("== fitted coefficients ==\n  the dataset shipped in this binary\n\n");
    want += &format!("  {:<24} {:>7} {:>9} {:>9} {:>9}  confidence\n", "bucket", "runs", "machines", "eta", "spread");
    want += &format!("  {:<24} {:>7} {:>9} {:>9.3} {:>8.0}%  {}\n", "Metal/k_quant", 40, 12, 0.8125, 10.0, "high");
    want += &format!("  {:<24} {:>7} {:>9} {:>9.3} {:>8.0}%  {}\n", "Cpu/legacy", 3, 1, 0.5, 30.0, "low");
    want += "\n  Thin evidence in: Cpu/legacy\n  8 machines per bucket reaches medium confidence, 30 reaches high.\n";
    want += "  More runs on a machine already counted sharpen eta, never the tier:\n  they measure that machine again, not the next one.\n";
    assert_eq!(t, want);
}

#[test]
fn an_options_error_says_which_option() {
    let args = |s: &str| s.split_whitespace().map(String::from).collect::<Vec<String>>();
    let err = |s: &str| match parse_options(args(s)) {
        Ok(o) => command(&o).err().unwrap(),
        Err(e) => e,
    };
    assert_eq!(err("check --kv f8"), "unknown --kv value 'f8' (expected f16, q8 or q4)");
    assert_eq!(err("check --top"), "--top needs a value");
    assert_eq!(err("check --top 0"), "--top needs a positive number, got '0'");
    assert_eq!(err("check --josn"), "unknown option '--josn' -- run `zc --help`");
    assert_eq!(err("doctor --json"), "`zc doctor` does not take --json -- run `zc --help`");
    assert_eq!(err("chekc"), "unknown command 'chekc' -- did you mean `zc check`?");
    assert_eq!(err("xyzzy"), "unknown command 'xyzzy' -- run `zc --help`");
    let o = parse_options(args("verify qwen3 --runtime ollama")).unwrap();
    assert!(matches!(command(&o), Ok(Command::Verify)));
    assert_eq!(o.runtime.as_deref(), Some("ollama"));
    assert_eq!(o.args, args("verify qwen3"));
    assert_eq!(parse_options(args("")).unwrap().top, Some(20));
    assert_eq!(parse_options(args("check --all")).unwrap().top, None);
    assert_eq!(parse_options(args("check --all --top 3")).unwrap().top, Some(3));
    assert!(matches!(command(&parse_options(args("--help")).unwrap()), Ok(Command::Help)));
}

#[test]
fn an_edit_distance_is_symmetric() {
    assert_eq!(distance("kitten", "sitting"), 3);
    assert_eq!(distance("sitting", "kitten"), 3);
    assert_eq!(distance("", "abc"), 3);
    assert_eq!(distance("same", "same"), 0);
}

#[test]
fn the_screen_opens_only_between_two_terminals() {
    let o = |s: &str| parse_options(s.split_whitespace().map(String::from).collect()).unwrap();
    assert!(is_interactive(true, true, &o("check"), false));
    assert!(!is_interactive(false, true, &o("check"), false));
    assert!(!is_interactive(true, false, &o("check"), false));
    assert!(!is_interactive(true, true, &o("check --json"), false));
    assert!(!is_interactive(true, true, &o("check --no-tui"), false));
    assert!(!is_interactive(true, true, &o("check"), true));
}

#[test]
fn a_failed_fetch_names_what_it_cannot_tell_apart() {
    assert!(fetch_failure("u", "curl: (22) 401").starts_with("u\n  returned 401."));
    assert_eq!(fetch_failure("u", "error: 404"), "no such repo, or it has no config.json:\n  u");
    assert_eq!(fetch_failure("u", ""), "u could not be read");
    assert_eq!(fetch_failure("u", "timeout"), "timeout");
    let (api, config) = repo_urls("Qwen/Qwen3-4B");
    assert_eq!(api, "https://huggingface.co/api/models/Qwen/Qwen3-4B");
    assert_eq!(config, "https://huggingface.co/Qwen/Qwen3-4B/raw/main/config.json");
    let failed = fetch_model("a/b", Err("no network".to_string()), Ok(CFG.to_string()));
    assert_eq!(failed.err().as_deref(), Some("no network"));
    assert!(fetch_model("a/b", Ok(API.to_string()), Ok(CFG.to_string())).is_ok());
    assert_eq!(dtype_bytes("BF16"), Some(2));
    assert_eq!(dtype_bytes("Q4"), None);
}

#[test]
fn a_fetched_model_is_weighed_against_the_budget() {
    let f = parse("meta-llama/Llama-3.1-8B", API, CFG).unwrap();
    let fits = render_hf(&f, 32 << 30, KvPrecision::F16, 512);
    assert!(fits.contains("== meta-llama/Llama-3.1-8B ==  (published weights, not a quantisation)\n"), "{fits}");
    assert!(fits.contains("  geometry     32L  n_embd 4096  vocab 128256  GQA 8x128\n"), "{fits}");
    assert!(fits.contains("  parameters   8.03B  from the repo's safetensors metadata\n"), "{fits}");
    assert!(fits.contains("  weights      14.96 GiB  as published in BF16\n"), "{fits}");
    assert!(fits.contains("  KV           0.12 MiB/token at F16\n"), "{fits}");
    let over = render_hf(&f, 8 << 30, KvPrecision::F16, 512);
    assert!(over.contains("WON'T FIT    the published weights alone are "), "{over}");
}

#[test]
fn a_plan_is_laid_out_in_columns() {
    let spec = zerocloud::spec::ModelSpec {
        n_layers: 32,
        n_embd: 4096,
        n_vocab: 128256,
        params: 8_030_000_000,
        attention: Attention::Gqa { n_kv_heads: 8, head_dim: 128 },
        quants: vec![Quant { name: "Q4_K_M".into(), bytes: 4 << 30, family: QuantFamily::KQuant }],
        n_ctx_train: Some(8192),
        ..named_spec("llama-3.1-8b")
    };
    let rows = vec![Planned { quant: 0, need_bw: double(70.4), low: double(12.0), high: double(20.0) }];
    let shown = Coefficient::shipped(double(0.616));
    let text = |budget: u64| {
        plan_text(&spec, &rows, 4096, KvPrecision::F16, double(10.0), budget, double(132.0), Backend::Metal, &shown)
    };
    let req = requirement(&spec, &spec.quants[0], 4096, KvPrecision::F16, 512);
    let gib = |b: u64| b as f64 / (1u64 << 30) as f64;
    let mut want = String::from("== plan ==  llama-3.1-8b at 4K context, KV F16, target 10 tok/s\n\n");
    want += "  this machine   12.00 GiB budget, 132 GB/s measured, Metal\n\n";
    want += &format!("  {:<8} {:>8} {:>7} {:>8}  {:>12}   {}\n", "quant", "weights", "KV", "total", "needs", "on this machine");
    want += &format!(
        "  {:<8} {:>8.2} {:>7.2} {:>8.2}  {:>7.0} GB/s   {}\n",
        "Q4_K_M", gib(req.weights), gib(req.kv), gib(req.total), 70.4, "fits, 12-20 t/s"
    );
    want += "\n  GiB is memory, however it is provided -- RAM, VRAM or unified.\n";
    want += "  'needs' is the bandwidth for 10 tok/s at eta 0.616, prior confidence.\n";
    want += "  Bandwidth is checkable against a spec sheet. A GPU model name\n";
    want += "  would be a lookup, and this tool puts no lookup under a number.\n";
    assert_eq!(text(12 << 30), want);
    let over = format!("over by {:.2} GiB\n", gib(req.total - (4 << 30)));
    assert!(text(4 << 30).contains(&over), "{}", text(4 << 30));
    assert_eq!(check_training(&spec, 8192), None);
    assert_eq!(
        check_training(&spec, 8193).as_deref(),
        Some("llama-3.1-8b was trained for 8192 tokens of context; 8193 is past that.")
    );
    assert_eq!(choose_quants(&spec.quants, None), vec![0]);
    assert_eq!(choose_quants(&spec.quants, Some("q4_k_m")), vec![0]);
    assert!(choose_quants(&spec.quants, Some("Q8_0")).is_empty());
    assert_eq!(no_quant(&spec, "Q8_0"), "llama-3.1-8b has no quantisation named 'Q8_0'. It has: Q4_K_M");
}

#[test]
fn many_matches_are_cut_to_eight() {
    let specs: Vec<ModelSpec> = (0..9).map(|i| named_spec(&format!("m{i}"))).collect();
    assert_eq!(
        resolve(&specs, "M").err().as_deref(),
        Some("'M' matches 9 models: m0, m1, m2, m3, m4, m5, m6, m7, ...")
    );
    assert_eq!(
        resolve(&specs, "none").err().as_deref(),
        Some("no catalog model matches 'none'. `zc check --all` lists every one,\nand `zc check <hf-repo-id>` answers for a model that is not in it.")
    );
}

fn seen(name: &str, calibratable: bool) -> Seen {
    Seen { name: name.into(), endpoint: "127.0.0.1:1".into(), calibratable }
}

#[test]
fn a_runtime_without_timings_is_seen_and_refused() {
    let found = vec![seen("vllm", false), seen("ollama", true)];
    assert_eq!(precheck(&found, None), Ok(1));
    assert_eq!(precheck(&found, Some("ollama")), Ok(1));
    assert!(precheck(&found, Some("vllm")).unwrap_err().starts_with("vllm is running at 127.0.0.1:1 but does not report"));
    assert_eq!(precheck(&found, Some("mlx")), Err("No runtime named 'mlx' is running.".to_string()));
    assert!(precheck(&vec![seen("vllm", false)], None).unwrap_err().starts_with("No usable runtime found.\n"));
    assert_eq!(
        notes(&found),
        texts(&["  note: vllm at 127.0.0.1:1 cannot report a prefill/decode split - skipping it"])
    );
}

#[test]
fn the_smallest_model_is_measured_by_default() {
    let m = vec![
        InstalledModel::new("big:70b", 40_000_000_000, "Q4_K_M"),
        InstalledModel::new("unknown", 0, "Q4_K_M"),
        InstalledModel::new("small:4b", 2_600_000_000, "Q4_K_M"),
    ];
    assert_eq!(choose_model(&m, None), Some(2));
    assert_eq!(choose_model(&m, Some("big")), Some(0));
    assert_eq!(choose_model(&m, Some("nope")), None);
    assert_eq!(choose_model(&vec![InstalledModel::new("x", 0, "Q8_0")], None), Some(0));
    assert_eq!(choose_model(&Vec::new(), None), None);
    assert_eq!(
        no_model("nope", &m[2..].iter().map(|x| InstalledModel::new(&x.name, x.size_bytes, &x.quant)).collect()),
        "No installed model matches 'nope'. Available:\n    small:4b  (2.60 GiB)\n"
    );
}

#[test]
fn a_run_is_held_against_its_prediction() {
    let p = Prediction {
        resident_fraction: double(0.5),
        decode_tok_s: (double(15.0), double(25.0)),
        prefill_tok_s: None,
        ttft_s: None,
        prefill_confidence: Confidence::Prior,
        max_context: 4096,
        kv_bytes_per_token: 1,
        verdict: Verdict::Good,
        raw_seconds_per_token: double(0.04),
        assumed_eta: double(0.616),
        confidence: Confidence::Prior,
    };
    let run = RunStats {
        model: "m".into(),
        prompt_tokens: 1200,
        eval_tokens: 128,
        prefill_tok_s: double(250.0),
        decode_tok_s: double(30.0),
        load_s: double(0.0),
        n_ctx: None,
    };
    let cal = compare("m", "Q4_K_M", &p, &run, 8_000_000_000, double(400.0));
    let mut want = format!("\n  {:<12} {:>18}  {:>16}\n", "", "predicted", "actual");
    want += &format!("  {:<12} {:>18} {:>15.1}   {}\n", "decode", "15.0-25.0 tok/s", 30.0, "MISS (-33%)");
    want += &format!("  {:<12} {:>18} {:>15.1}   scale {:.2}x vs f32 peak\n", "prefill", "not yet measured", 250.0, 10.0);
    want += &format!("  {:<12} {:>18} {:>15.3}   <- the calibration constant\n", "eta", "assumed 0.616", 1.2);
    want += "\n  note: predicted only 50% resident, so this also exercises the streaming path\n";
    assert_eq!(comparison(&p, &cal), want);
    assert!(closing(&cal).starts_with("\n  A miss is data, not a failure."));
    let hit = RunStats { decode_tok_s: double(20.0), ..run };
    let whole = Prediction { resident_fraction: double(1.0), prefill_tok_s: Some(double(99.5)), ..p };
    let cal = compare("m", "Q4_K_M", &whole, &hit, 8_000_000_000, double(400.0));
    let t = comparison(&whole, &cal);
    assert!(t.contains("   HIT\n") && t.contains("100 tok/s"), "{t}");
    assert!(!t.contains("note:"), "{t}");
    assert_eq!(closing(&cal), "");
}

#[test]
fn the_verify_heading_names_what_is_measured() {
    let m = InstalledModel::new("qwen3:4b", 2_600_000_000, "Q4_K_M");
    let t = head(&seen("ollama", true), &m, &ModelSpec { params: 4_020_000_000, ..named_spec("x") }, "Q4_K_M");
    assert_eq!(
        t,
        "== verify ==\n  runtime      ollama at 127.0.0.1:1\n  model        qwen3:4b   Q4_K_M   2.42 GiB\n  spec         1L  n_embd 1  vocab 1  dense 4.0B\n"
    );
    let moe = Moe { n_expert: 128, n_active: 8, expert_params: 100_000_000, shared_params: 2_550_000_000 };
    let t = head(&seen("ollama", true), &m, &ModelSpec { moe: Some(moe), params: 30_500_000_000, ..named_spec("x") }, "Q4_K_M");
    assert!(t.ends_with("vocab 1  MoE 128x top-8 (3.35B active of 30.5B)\n"), "{t}");
    assert!(no_geometry("vllm", "m").starts_with("vllm does not describe m and it matches no catalog entry"));
}

#[test]
fn the_last_line_of_a_file_is_the_record_to_share() {
    let text = format!("{{}}\n{REC}\n\n");
    assert_eq!(last_record("f", &text), Ok(REC.to_string()));
    assert_eq!(last_record("f", "\n"), Err("f has no records yet -- run `zc verify` first".to_string()));
    assert_eq!(last_record("f", "{}"), Err("the last line of f is not a calibration record".to_string()));
    assert_eq!(encode("a b&c/\u{e9}-_.~"), "a%20b%26c%2F%C3%A9-_.~");
    for d in [Desktop::MacOs, Desktop::Unix, Desktop::Windows, Desktop::Other] {
        let (_, args) = browser_command("https://x?a&b", d);
        assert!(args.is_empty() || args.iter().any(|a| a == "https://x?a&b"));
    }
}
