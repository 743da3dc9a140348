//! The accuracy gate.

use zerocloud::double::Double;
use zerocloud::fit::Record;
use zerocloud::gate::Gate;
use zerocloud::spec::QuantFamily;

fn d(x: f64) -> Double {
    Double::from_bits(x.to_bits())
}

fn f(x: Double) -> f64 {
    f64::from_bits(x.bits)
}

const MAX_MEDIAN_ERROR_PCT: f64 = 25.0;

fn gate(records: &[Record]) -> Gate {
    Gate::from_records(&records.iter().map(copy_of).collect())
}

fn copy_of(r: &Record) -> Record {
    Record {
        hw: r.hw.clone(),
        backend: r.backend.clone(),
        model: r.model.clone(),
        quant: r.quant.clone(),
        virt: r.virt.clone(),
        quant_family: r.quant_family,
        implied_eta: r.implied_eta,
        error_pct: r.error_pct,
        within_range: r.within_range,
        implied_prefill_scale: r.implied_prefill_scale,
    }
}
fn rec(hw: &str, err: f64, within: bool) -> Record {
    Record {
        hw: hw.into(),
        backend: "Metal".into(),
        model: "qwen3:4b".into(),
        quant: "Q4_K_M".into(),
        virt: Some("none".into()),
        quant_family: QuantFamily::KQuant,
        implied_eta: d(0.8),
        error_pct: Some(d(err)),
        within_range: Some(within),
        implied_prefill_scale: None,
    }
}

fn machines(n: usize, err: f64) -> Vec<Record> {
    (0..n).map(|i| rec(&format!("hw{i}"), err, true)).collect()
}

#[test]
fn one_machine_cannot_pass_however_accurate() {
    let rs: Vec<Record> = (0..50).map(|_| rec("only", 0.5, true)).collect();
    let g = gate(&rs);
    assert!(!g.passed);
    assert_eq!(g.machines.len(), 1);
    assert!(g.blockers()[0].contains("of 5 machines"), "{:?}", g.blockers());
}

#[test]
fn a_single_prolific_machine_cannot_carry_the_gate() {
    let mut rs: Vec<Record> = (0..40).map(|_| rec("dev-laptop", 2.0, true)).collect();
    rs.extend((0..4).map(|i| rec(&format!("other{i}"), 60.0, false)));

    let g = gate(&rs);
    assert_eq!(g.machines.len(), 5);
    assert!(f(g.pooled_median_pct) < MAX_MEDIAN_ERROR_PCT, "{}", f(g.pooled_median_pct));
    assert!(f(g.median_pct) >= MAX_MEDIAN_ERROR_PCT, "{}", f(g.median_pct));
    assert!(!g.passed, "pooling would have passed this; a gate must not");
}

#[test]
fn passes_on_five_accurate_machines() {
    let g = gate(&machines(5, 12.0));
    assert!(g.passed);
    assert!((f(g.median_pct) - 12.0).abs() < 1e-9);
    assert!(g.blockers().is_empty());
}

#[test]
fn errors_are_absolute_before_aggregation() {
    let rs = vec![rec("a", 40.0, false), rec("a", -40.0, false)];
    let g = gate(&rs);
    assert!((f(g.pooled_median_pct) - 40.0).abs() < 1e-9, "{}", f(g.pooled_median_pct));
}

#[test]
fn within_range_rate_is_reported() {
    let rs = vec![
        rec("a", 5.0, true),
        rec("a", 5.0, true),
        rec("b", 5.0, false),
        rec("b", 5.0, true),
    ];
    assert!((f(gate(&rs).within_range_pct) - 75.0).abs() < 1e-9);
}

#[test]
fn records_without_an_error_are_skipped_not_zeroed() {
    let mut rs = machines(5, 30.0);
    rs.push(Record { error_pct: None, ..rec("legacy", 0.0, true) });

    let g = gate(&rs);
    assert_eq!(g.runs, 5);
    assert_eq!(g.skipped, 1);
    assert_eq!(g.machines.len(), 5, "the unscored machine must not count toward the 5");
    assert!(!g.passed);
}

#[test]
fn empty_dataset_is_a_clean_fail() {
    let g = gate(&[]);
    assert!(!g.passed);
    assert_eq!(g.runs, 0);
    assert!(f(g.median_pct).is_finite());
    assert!(g.blockers()[0].contains("zc verify"));
}

#[test]
fn worst_offenders_are_ranked_by_magnitude() {
    let mut rs = machines(3, 5.0);
    rs.push(Record { model: "llama-3.3-70b".into(), ..rec("a", -88.0, false) });
    let g = gate(&rs);
    assert_eq!(g.worst[0].model, "llama-3.3-70b");
    assert!((f(g.worst[0].error_pct) + 88.0).abs() < 1e-9, "sign is preserved for reading");
}

#[test]
fn virtual_machines_alone_do_not_pass() {
    let mut rs = machines(5, 12.0);
    for r in rs.iter_mut().skip(1) {
        r.virt = Some("hypervisor".into());
    }
    let g = gate(&rs);
    assert!(!g.passed);
    assert_eq!(g.blockers(), vec!["1 of 2 bare-metal machines - need 1 more".to_string()]);
    for r in rs.iter_mut() {
        r.virt = None;
    }
    assert!(!gate(&rs).passed);
}

#[test]
fn the_report_of_a_passing_gate_reads_in_full() {
    let g = gate(&machines(5, 12.0));
    let t = zerocloud::cli::gate_cmd::report(&g, "~/gate.jsonl", true);
    assert!(t.starts_with("== phase 0 gate ==  (~/gate.jsonl)\n\n  5 runs on 5 machine(s)\n\n"), "{t}");
    assert!(t.contains(&format!("  {:<20} {:>7} {:>18}\n", "machine", "runs", "median |error|")), "{t}");
    assert!(t.contains(&format!("  {:<20} {:>7} {:>17.1}%\n", "hw0", 1, 12.0)), "{t}");
    assert!(t.contains(&format!("  {:<24} {:<10} {:>+8.1}%\n", "qwen3:4b", "Q4_K_M", 12.0)), "{t}");
    assert!(t.ends_with("\n  PASS  median 12.0% < 25% across 5 machines.\n"), "{t}");
    assert_eq!(zerocloud::cli::gate_cmd::exit_code(&g), 0);
}

#[test]
fn the_report_of_a_blocked_gate_says_why() {
    let mut rs = machines(1, -40.0);
    rs.extend((0..3).map(|_| rec("hw0", -40.0, true)));
    rs.extend((0..2).map(|i| rec(&format!("bad{i}"), 70.0, true)));
    rs.push(Record { error_pct: None, ..rec("legacy", 0.0, true) });
    let g = gate(&rs);
    let t = zerocloud::cli::gate_cmd::report(&g, "x", false);
    assert!(t.contains("6 runs on 3 machine(s), 1 older record(s) without an error field skipped\n"), "{t}");
    assert!(t.contains("  !  per-machine and pooled medians disagree by more than 10 points.\n"), "{t}");
    assert!(t.contains(&format!("{:>+8.1}%\n", -40.0)), "{t}");
    assert!(t.contains("\n  note: these errors were produced by shipped priors, not a fit.\n"), "{t}");
    assert!(t.ends_with("\n  BLOCKED  median error 70.0% exceeds the 25% ceiling\n"), "{t}");
    assert_eq!(zerocloud::cli::gate_cmd::exit_code(&g), 1);
    let empty = gate(&[]);
    assert!(zerocloud::cli::gate_cmd::report(&empty, "x", false).ends_with("  BLOCKED  no measured runs at all - run `zc verify`\n"));
    assert!(zerocloud::cli::gate_cmd::no_dataset("here").starts_with("No calibration data at here.\n\nThe Phase 0 gate is: median decode error < 25% across >= 5 machines.\n"));
}
