//! Fitting coefficients from records.

use zerocloud::double::Double;
use zerocloud::fit::{Coefficient, Confidence, Fit};
use zerocloud::spec::QuantFamily;

fn d(x: f64) -> Double {
    Double::from_bits(x.to_bits())
}

fn f(x: Double) -> f64 {
    f64::from_bits(x.bits)
}

struct Fitted(Fit);

impl Fitted {
    fn default() -> Fitted {
        Fitted(Fit::empty())
    }

    fn from_records(records: &[Record]) -> Fitted {
        Fitted(Fit::from_records(&records.iter().map(library_record).collect()))
    }
}

#[derive(Debug, Clone)]
struct Record {
    hw: String,
    backend: String,
    model: String,
    quant: String,
    virt: Option<String>,
    quant_family: QuantFamily,
    implied_eta: f64,
    error_pct: Option<f64>,
    within_range: Option<bool>,
    implied_prefill_scale: Option<f64>,
}

fn library_record(r: &Record) -> zerocloud::fit::Record {
    zerocloud::fit::Record {
        hw: r.hw.clone(),
        backend: r.backend.clone(),
        model: r.model.clone(),
        quant: r.quant.clone(),
        virt: r.virt.clone(),
        quant_family: r.quant_family,
        implied_eta: d(r.implied_eta),
        error_pct: r.error_pct.map(d),
        within_range: r.within_range,
        implied_prefill_scale: r.implied_prefill_scale.map(d),
    }
}

struct Found {
    eta: f64,
    spread: f64,
    confidence: Confidence,
    samples: usize,
}

fn found(c: Coefficient) -> Found {
    Found { eta: f(c.eta), spread: f(c.spread), confidence: c.confidence, samples: c.samples }
}

impl Fitted {
    fn lookup(&self, backend: &str, family: QuantFamily, prior: f64) -> Found {
        found(self.0.lookup(backend, family, d(prior)))
    }

    fn prefill_scale(&self, backend: &str) -> Option<Found> {
        self.0.prefill_scale(backend).map(found)
    }

    fn is_empty(&self) -> bool {
        self.0.is_empty()
    }

    fn summary(&self) -> Vec<(String, Found)> {
        self.0.summary().into_iter().map(|n| (n.key, found(n.value))).collect()
    }
}

fn median(v: &mut [f64]) -> f64 {
    f(zerocloud::fit::median(&v.iter().map(|x| d(*x)).collect()))
}

fn parse_records(text: &str) -> Vec<Record> {
    zerocloud::fit::parse_records(text)
        .into_iter()
        .map(|r| Record {
            implied_eta: f(r.implied_eta),
            error_pct: r.error_pct.map(f),
            implied_prefill_scale: r.implied_prefill_scale.map(f),
            hw: r.hw,
            backend: r.backend,
            model: r.model,
            quant: r.quant,
            virt: r.virt,
            quant_family: r.quant_family,
            within_range: r.within_range,
        })
        .collect()
}
fn rec(backend: &str, quant: &str, eta: f64) -> Record {
        Record {
            hw: "abc".into(),
            backend: backend.into(),
            model: "m".into(),
            quant: quant.into(),
            virt: Some("none".into()),
            quant_family: QuantFamily::from_gguf_label(quant),
            implied_eta: eta,
            error_pct: None,
            within_range: None,
            implied_prefill_scale: None,
        }
    }

    fn rec_p(backend: &str, quant: &str, eta: f64, scale: f64) -> Record {
        Record {
            implied_prefill_scale: Some(scale),
            ..rec(backend, quant, eta)
        }
    }

    #[test]
    fn prefill_is_unknown_without_measurements() {
        assert!(Fitted::default().prefill_scale("Metal").is_none());
        let rs: Vec<Record> = (0..30).map(|_| rec("Metal", "Q4_K_M", 0.85)).collect();
        assert!(Fitted::from_records(&rs).prefill_scale("Metal").is_none());
    }

    #[test]
    fn prefill_scale_may_exceed_one_and_is_grouped_by_backend() {
        let mut rs: Vec<Record> = (0..12).map(|_| rec_p("Metal", "Q4_K_M", 0.85, 8.0)).collect();
        rs.extend((0..3).map(|_| rec_p("Cpu", "Q4_K_M", 0.60, 0.9)));
        let fit = Fitted::from_records(&rs);

        let metal = fit.prefill_scale("Metal").expect("metal");
        assert!((metal.eta - 8.0).abs() < 1e-9, "{}", metal.eta);
        assert_eq!(metal.confidence, Confidence::Medium);

        let cpu = fit.prefill_scale("Cpu").expect("cpu");
        assert!((cpu.eta - 0.9).abs() < 1e-9);
        assert_eq!(cpu.confidence, Confidence::Low);

        assert!(fit.prefill_scale("Cuda").is_none());
    }

    #[test]
    fn prefill_fit_is_robust_to_outliers() {
        let mut rs: Vec<Record> = (0..9).map(|_| rec_p("Metal", "Q4_K_M", 0.85, 8.0)).collect();
        rs.push(rec_p("Metal", "Q4_K_M", 0.85, 0.4));
        let s = Fitted::from_records(&rs).prefill_scale("Metal").expect("metal");
        assert!((s.eta - 8.0).abs() < 1e-9, "{}", s.eta);
    }

    #[test]
    fn a_published_range_is_a_ninety_percent_interval_not_one_sigma() {
        let rs: Vec<Record> = (0..40)
            .map(|i| rec("Metal", "Q4_K_M", if i % 2 == 0 { 0.75 } else { 0.85 }))
            .collect();
        let c = Fitted::from_records(&rs).lookup("Metal", QuantFamily::KQuant, 0.62);

        assert_eq!(c.confidence, Confidence::High);
        assert!((c.eta - 0.80).abs() < 1e-9, "eta {}", c.eta);
        assert!(
            (c.spread - 0.152_430).abs() < 1e-5,
            "spread {} should be 1.645 sigma, not 1 sigma",
            c.spread
        );
    }

    #[test]
    fn the_prior_range_covers_the_one_miss_on_record() {
        let observed_error = 0.859 / 0.616 - 1.0;
        assert!(
            f(Confidence::Prior.min_spread()) >= observed_error,
            "prior floor {} cannot cover a measured error of {observed_error:.4}",
            f(Confidence::Prior.min_spread())
        );
        let c = Fitted::default().lookup("Metal", QuantFamily::KQuant, 0.616);
        assert_eq!(c.confidence, Confidence::Prior);
        assert!(c.spread >= observed_error, "spread {}", c.spread);
    }

    #[test]
    fn median_handles_odd_and_even() {
        assert_eq!(median(&mut [3.0, 1.0, 2.0]), 2.0);
        assert_eq!(median(&mut [4.0, 1.0, 3.0, 2.0]), 2.5);
        assert_eq!(median(&mut []), 0.0);
    }

    #[test]
    fn median_is_robust_to_a_throttled_outlier() {
        let mut rs: Vec<Record> = (0..9).map(|_| rec("Metal", "Q4_K_M", 0.80)).collect();
        rs.push(rec("Metal", "Q4_K_M", 0.10));

        let fit = Fitted::from_records(&rs);
        let c = fit.lookup("Metal", QuantFamily::KQuant, 0.62);
        assert!((c.eta - 0.80).abs() < 1e-9, "eta {}", c.eta);

        let mean: f64 = rs.iter().map(|r| r.implied_eta).sum::<f64>() / rs.len() as f64;
        assert!(mean < 0.74, "mean {mean} should have been dragged down");
    }

    #[test]
    fn confidence_and_spread_track_sample_count() {
        for (n, want) in [
            (1, Confidence::Low),
            (7, Confidence::Low),
            (8, Confidence::Medium),
            (29, Confidence::Medium),
            (30, Confidence::High),
        ] {
            let rs: Vec<Record> = (0..n).map(|_| rec("Cpu", "Q4_K_M", 0.7)).collect();
            let c = Fitted::from_records(&rs).lookup("Cpu", QuantFamily::KQuant, 0.62);
            assert_eq!(c.confidence, want, "n={n}");
            assert_eq!(c.samples, n);
        }
        let wide = Fitted::default().lookup("Cpu", QuantFamily::KQuant, 0.62);
        let narrow: Vec<Record> = (0..40).map(|_| rec("Cpu", "Q4_K_M", 0.7)).collect();
        let narrow = Fitted::from_records(&narrow).lookup("Cpu", QuantFamily::KQuant, 0.62);
        assert!(narrow.spread < wide.spread, "{} vs {}", narrow.spread, wide.spread);
    }

    #[test]
    fn observed_spread_overrides_the_floor_when_wider() {
        let rs: Vec<Record> = (0..40)
            .map(|i| rec("Cpu", "Q4_K_M", if i % 2 == 0 { 0.4 } else { 0.9 }))
            .collect();
        let c = Fitted::from_records(&rs).lookup("Cpu", QuantFamily::KQuant, 0.62);
        assert_eq!(c.confidence, Confidence::High);
        assert!(c.spread > f(Confidence::High.min_spread()), "spread {}", c.spread);
    }

    #[test]
    fn falls_back_to_backend_parent_then_prior() {
        let rs: Vec<Record> = (0..30).map(|_| rec("Metal", "Q4_K_M", 0.85)).collect();
        let fit = Fitted::from_records(&rs);

        let exact = fit.lookup("Metal", QuantFamily::KQuant, 0.62);
        assert_eq!(exact.confidence, Confidence::High);

        let parent = fit.lookup("Metal", QuantFamily::IQuant, 0.62);
        assert_eq!(parent.confidence, Confidence::Low);
        let expected = 0.85 * f(QuantFamily::IQuant.efficiency()) / f(QuantFamily::KQuant.efficiency());
        assert!((parent.eta - expected).abs() < 1e-9, "{} vs {expected}", parent.eta);
        assert!(parent.eta < 0.85, "i-quant must scale below the k-quant parent");

        let prior = fit.lookup("Cuda", QuantFamily::KQuant, 0.62);
        assert_eq!(prior.confidence, Confidence::Prior);
        assert_eq!(prior.eta, 0.62);
    }

    #[test]
    fn impossible_records_are_discarded() {
        let rs = vec![
            rec("Cpu", "Q4_K_M", 0.7),
            rec("Cpu", "Q4_K_M", 0.7),
            rec("Cpu", "Q4_K_M", 9.9),
            rec("Cpu", "Q4_K_M", 0.0),
            rec("Cpu", "Q4_K_M", f64::NAN),
            rec("Cpu", "Q4_K_M", -1.0),
        ];
        let c = Fitted::from_records(&rs).lookup("Cpu", QuantFamily::KQuant, 0.62);
        assert_eq!(c.samples, 2);
        assert!((c.eta - 0.7).abs() < 1e-9);
    }

    #[test]
    fn parses_real_record_lines() {
        let text = r#"
{"hw":"deadbeef","os":"macos","backend":"Metal","ram_bw_gbs":132.00,"gflops":420.0,"model":"qwen3:4b","quant":"Q4_K_M","ctx":4096,"actual_decode_tok_s":41.200,"assumed_eta":0.6160,"implied_eta":0.8300,"error_pct":-26.0,"within_range":false}
{"hw":"deadbeef","os":"macos","backend":"Metal","ram_bw_gbs":132.00,"gflops":420.0,"model":"qwen3:30b","quant":"IQ3_XXS","ctx":4096,"actual_decode_tok_s":46.000,"assumed_eta":0.5040,"implied_eta":0.5100,"error_pct":1.2,"within_range":true}
"#;
        let rs = parse_records(text);
        assert_eq!(rs.len(), 2);
        assert_eq!(rs[0].quant_family, QuantFamily::KQuant);
        assert_eq!(rs[1].quant_family, QuantFamily::IQuant);
        assert!((rs[0].implied_eta - 0.83).abs() < 1e-9);

        assert_eq!(rs[0].error_pct, Some(-26.0));
        assert_eq!(rs[0].within_range, Some(false));
        assert_eq!(rs[1].within_range, Some(true));
        assert_eq!(rs[0].model, "qwen3:4b");

        let fit = Fitted::from_records(&rs);
        let k = fit.lookup("Metal", QuantFamily::KQuant, 0.62);
        let i = fit.lookup("Metal", QuantFamily::IQuant, 0.62);
        assert!((k.eta - 0.83).abs() < 1e-9);
        assert!((i.eta - 0.51).abs() < 1e-9);
    }

    #[test]
    fn parent_fallback_is_not_biased_by_its_family_mix() {
        let rs: Vec<Record> = (0..20).map(|_| rec("Metal", "IQ3_XXS", 0.50)).collect();
        let fit = Fitted::from_records(&rs);

        let legacy = fit.lookup("Metal", QuantFamily::Legacy, 0.62);
        assert!(legacy.eta > 0.50, "legacy {} should exceed i-quant parent 0.50", legacy.eta);
        let expected = 0.50 * f(QuantFamily::Legacy.efficiency()) / f(QuantFamily::IQuant.efficiency());
        assert!((legacy.eta - expected).abs() < 1e-9);

        let same = fit.lookup("Metal", QuantFamily::IQuant, 0.62);
        assert!((same.eta - 0.50).abs() < 1e-9);
    }

    #[test]
    fn empty_dataset_yields_prior_only() {
        let fit = Fitted::from_records(&[]);
        assert!(fit.is_empty());
        assert_eq!(
            fit.lookup("Metal", QuantFamily::KQuant, 0.62).confidence,
            Confidence::Prior
        );
        assert!(fit.summary().is_empty());
    }

    #[test]
    fn summary_ranks_by_evidence_and_hides_parents() {
        let mut rs: Vec<Record> = (0..5).map(|_| rec("Metal", "Q4_K_M", 0.8)).collect();
        rs.extend((0..12).map(|_| rec("Metal", "IQ3_XXS", 0.5)));
        let s = Fitted::from_records(&rs).summary();
        assert_eq!(s.len(), 2, "parent bucket should be hidden");
        assert_eq!(s[0].0, "Metal/i_quant");
        assert_eq!(s[0].1.samples, 12);
    }

#[test]
fn machines_are_counted_apart_from_runs() {
    let mut rs: Vec<Record> = (0..5).map(|_| rec("Cpu", "Q4_K_M", 0.7)).collect();
    rs.push(Record { hw: "other".into(), ..rec("Cpu", "Q4_K_M", 0.6) });
    let fit = Fitted::from_records(&rs);
    assert_eq!(fit.0.buckets.len(), 1);
    assert_eq!(fit.0.buckets[0].value.machines, 2);
    assert_eq!(fit.0.buckets[0].value.samples, 6);
}

#[test]
fn a_shipped_prior_is_the_widest_range() {
    let c = Coefficient::shipped(d(0.5));
    assert_eq!(f(c.spread), 0.40);
    assert_eq!(f(Confidence::High.min_spread()), 0.08);
    assert_eq!(f(Confidence::Medium.min_spread()), 0.15);
    assert_eq!(f(Confidence::Low.min_spread()), 0.25);
    assert_eq!(Confidence::from_count(0), Confidence::Prior);
}

#[test]
fn a_line_without_its_fields_is_no_record() {
    assert!(zerocloud::fit::parse_record("{}").is_none());
    assert!(zerocloud::fit::parse_record("{\"hw\":\"a\",\"backend\":\"Cpu\",\"quant\":\"Q4\"}").is_none());
    let r = zerocloud::fit::parse_record("{\"hw\":\"a\",\"backend\":\"Cpu\",\"quant\":\"iq2_xs\",\"implied_eta\":0.5}").unwrap();
    assert_eq!(r.quant_family, QuantFamily::IQuant);
    assert_eq!(r.model, "");
    assert_eq!(r.virt, None);
    assert_eq!(f(r.implied_eta), 0.5);
    let r = zerocloud::fit::parse_record("{\"hw\":\"a\",\"backend\":\"Cpu\",\"quant\":\"Q4\",\"implied_eta\":0.5,\"error_pct\":1e999,\"implied_prefill_scale\":-1}").unwrap();
    assert_eq!((r.error_pct, r.implied_prefill_scale), (None, None));
}

#[test]
fn a_fit_of_a_text_is_a_fit_of_its_records() {
    let line = "{\"hw\":\"a\",\"backend\":\"Cpu\",\"quant\":\"Q4_K_M\",\"implied_eta\":0.75}\n";
    let fit = Fit::from_text(&format!("{line}garbage\n{line}"));
    assert_eq!(fit.buckets.len(), 1);
    assert_eq!(fit.buckets[0].key, "Cpu/k_quant");
    assert_eq!((f(fit.buckets[0].value.eta), fit.buckets[0].value.samples), (0.75, 2));
    assert_eq!(f(fit.parents[0].value.mean_prior_efficiency), (0.88 + 0.88) / 2.0);
}
