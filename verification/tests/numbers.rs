//! Numbers, benchmarks and tags.

use zerocloud::bench::{dot_i8, sum_ilp, summarise, Rng, ThreadRate};
use zerocloud::cli::machine::choose_bandwidth;
use zerocloud::double::{round_to_double, Double};
use zerocloud::kv::KvPrecision;
use zerocloud::predict::Backend;
use zerocloud::spec::QuantFamily;

fn d(x: f64) -> Double {
    Double::from_bits(x.to_bits())
}

#[test]
fn a_number_prints_as_the_standard_formatter_prints_it() {
    let values = [
        0.0, -0.0, 0.5, 1.5, 2.5, 0.125, 0.375, 1.0, -1.25, 9.995, 99.95, 100.0, 1e-7, 123456.789, 1e15, 1e21, 1.7e308, 5e-324,
        0.1, 0.2, 0.3, 2.675, 1.005, 0.0005, 33.333333333, f64::NAN, f64::INFINITY, f64::NEG_INFINITY,
    ];
    for v in values {
        for places in 0..=6u8 {
            let want = format!("{:.*}", places as usize, v);
            assert_eq!(d(v).fixed(places), want, "{v:?} with {places}");
        }
    }
    let mut x: u64 = 0x9E3779B97F4A7C15;
    for _ in 0..500 {
        x ^= x << 13;
        x ^= x >> 7;
        x ^= x << 17;
        let v = f64::from_bits(x);
        assert_eq!(d(v).fixed(3), format!("{v:.3}"));
        let small = (x % 1_000_000) as f64 / 1000.0;
        assert_eq!(d(small).fixed(1), format!("{small:.1}"));
    }
}

#[test]
fn numbers_compare_as_the_processor_compares_them() {
    let values = [0.0, -0.0, 1.0, -1.0, 1e-300, 1e300, f64::INFINITY, f64::NEG_INFINITY, f64::NAN, 0.5];
    for a in values {
        for b in values {
            assert_eq!(d(a).lt(d(b)), a < b, "{a} < {b}");
            assert_eq!(d(a).le(d(b)), a <= b, "{a} <= {b}");
            assert_eq!(d(a).max(d(b)).is_nan(), a.max(b).is_nan(), "{a} max {b}");
            if !a.max(b).is_nan() {
                assert_eq!(f64::from_bits(d(a).max(d(b)).bits), a.max(b), "{a} max {b}");
            }
        }
        assert_eq!(d(a).is_nan(), a.is_nan());
        assert_eq!(d(a).is_finite(), a.is_finite());
        assert_eq!(d(a).abs().bits, a.abs().to_bits());
    }
}

#[test]
fn whole_numbers_are_exact() {
    for n in [0u32, 1, 2, 3, 192, 360, 1008, 65535, 1 << 31, u32::MAX] {
        assert_eq!(Double::of_count(n as u64).bits, (n as f64).to_bits(), "{n}");
    }
    for n in [0u64, 1, (1 << 53) - 1, (1 << 53) + 1, (1 << 53) + 3, u64::MAX, 1 << 63, (1 << 60) + 65] {
        assert_eq!(round_to_double(n), n as f64 as u128, "{n}");
    }
}

#[test]
fn bandwidth_falls_back_to_the_peak() {
    let rates = vec![ThreadRate { threads: 1, gbs: d(50.0) }, ThreadRate { threads: 4, gbs: d(90.0) }, ThreadRate { threads: 8, gbs: d(80.0) }];
    let r = summarise(rates, 512);
    assert_eq!((f64::from_bits(r.peak_gbs.bits), r.peak_threads, r.working_set), (90.0, 4, 512));
    assert_eq!(f64::from_bits(r.at_threads(8).bits), 80.0);
    assert_eq!(f64::from_bits(r.at_threads(3).bits), 90.0);
    assert_eq!(f64::from_bits(choose_bandwidth(&r, Backend::Metal, 8).bits), 90.0);
    assert_eq!(f64::from_bits(choose_bandwidth(&r, Backend::Cpu, 8).bits), 80.0);
}

#[test]
fn the_kernels_sum_what_they_read() {
    let v: Vec<u64> = (0..1003).map(|i| i * 7 + 1).collect();
    assert_eq!(sum_ilp(&v), v.iter().sum::<u64>());
    assert_eq!(sum_ilp(&[u64::MAX, 2]), 1);
    let a: Vec<i8> = (0..100).map(|i| (i as i8).wrapping_mul(3)).collect();
    let b: Vec<i8> = (0..100).map(|i| 50 - i as i8).collect();
    let want: i32 = a.iter().zip(&b).map(|(x, y)| *x as i32 * *y as i32).sum();
    assert_eq!(dot_i8(&a, &b), want);
}

#[test]
fn the_generator_is_the_usual_one() {
    let mut g = Rng { state: 1 };
    let mut x: u64 = 1;
    for _ in 0..100 {
        x ^= x >> 12;
        x ^= x << 25;
        x ^= x >> 27;
        assert_eq!(g.next(), x.wrapping_mul(0x2545_F491_4F6C_DD1D));
        assert_ne!(g.state, 0);
    }
}

#[test]
fn precisions_have_tags_of_their_own() {
    for p in [KvPrecision::F16, KvPrecision::Q8, KvPrecision::Q4] {
        assert_eq!(KvPrecision::parse(p.tag()), Some(p));
    }
    assert_eq!(KvPrecision::parse("f8"), None);
    for f in [QuantFamily::Legacy, QuantFamily::KQuant, QuantFamily::IQuant, QuantFamily::BlockFloat, QuantFamily::Float] {
        assert_eq!(QuantFamily::from_data_tag(f.tag()), f);
    }
}

fn samples() -> Vec<f64> {
    let mut v = vec![
        0.0, -0.0, 1.0, -1.0, 0.1, 0.2, 0.3, 1.5, 2.5, 1e9, 0.7, 1.4826, 1.645, 100.0, 1000.0, 1e-300, 1e300, 5e-324, 2.2250738585072014e-308,
        1.7976931348623157e308, f64::INFINITY, f64::NEG_INFINITY, f64::NAN, 9007199254740993.0, 4503599627370497.5, 0.29, 3.0, -7.25,
    ];
    let mut x: u64 = 0x9E37_79B9_7F4A_7C15;
    for i in 0..400u64 {
        x ^= x << 13;
        x ^= x >> 7;
        x ^= x << 17;
        v.push(f64::from_bits(x));
        // Numbers of like size, where digits cancel and ties occur.
        v.push((x % 100_000) as f64 / 64.0 - (i as f64));
        v.push(f64::from_bits((x >> 12) | (1023 - (x & 3)) << 52));
    }
    v
}

fn agree(got: Double, want: f64, what: &str, a: f64, b: f64) {
    if want.is_nan() {
        assert!(got.is_nan(), "{a:?} {what} {b:?}");
    } else {
        assert_eq!(got.bits, want.to_bits(), "{a:?} {what} {b:?} gave {:?}, not {want:?}", f64::from_bits(got.bits));
    }
}

#[test]
fn arithmetic_is_what_the_processor_does() {
    let v = samples();
    for (i, a) in v.iter().enumerate() {
        for j in 0..60 {
            let b = v[(i * 7 + j * 13) % v.len()];
            let a = *a;
            agree(d(a).plus(d(b)), a + b, "+", a, b);
            agree(d(a).less(d(b)), a - b, "-", a, b);
            agree(d(a).times(d(b)), a * b, "*", a, b);
            agree(d(a).over(d(b)), a / b, "/", a, b);
        }
    }
}

#[test]
fn a_decimal_is_read_as_the_nearest_double() {
    let texts = [
        "0", "-0", "0.0", "1", "+5", "-1", ".5", "5.", "0.1", "0.2", "0.3", "1e5", "1E-5", "123456789012345678901234567890", "1e308", "1.8e308",
        "1e309", "1e-400", "4.9e-324", "2.4e-324", "2.5e-324", "2.2250738585072014e-308", "2.2250738585072011e-308", "9007199254740993",
        "9007199254740992.9999999999999999999999", "9007199254740993.0000000000000000000001", "0.1e-5", "1e999999999999999999999999",
        "1e-999999999999999999999999", "0e999999999999999999999999", "85.831", "2750.43", "26.1399", "-33.2", "0.9220", "17976931348623157e292",
    ];
    for t in texts {
        let want: f64 = t.parse().unwrap();
        let got = Double::parse(t).expect(t);
        assert_eq!(got.bits, want.to_bits(), "{t} gave {:?}, not {want:?}", f64::from_bits(got.bits));
    }
    for t in ["", "+", "-", ".", "e5", "1e", "1e+", "1.2.3", "abc", "1x", "--1", "0x10"] {
        assert!(Double::parse(t).is_none(), "{t}");
        assert!(t.parse::<f64>().is_err(), "{t}");
    }
    for v in samples() {
        if v.is_finite() && v.abs() < 1e30 && v.abs() > 1e-30 {
            let t = format!("{v}");
            assert_eq!(Double::parse(&t).unwrap().bits, v.to_bits(), "{t}");
            let t = format!("{v:.6}");
            assert_eq!(Double::parse(&t).unwrap().bits, t.parse::<f64>().unwrap().to_bits(), "{t}");
            let t = format!("{v:e}");
            assert_eq!(Double::parse(&t).unwrap().bits, v.to_bits(), "{t}");
        }
    }
}

#[test]
fn whole_parts_are_what_a_cast_gives() {
    for a in samples() {
        assert_eq!(d(a).as_count(), a as u64, "{a:?}");
        assert_eq!(d(a).as_integer(), a as i64, "{a:?}");
    }
    for n in [0u64, 1, 3, (1 << 53) - 1, 1 << 53, (1 << 53) + 1, (1 << 53) + 3, u64::MAX, 1 << 63, (1 << 60) + 65] {
        assert_eq!(Double::of_count(n).bits, (n as f64).to_bits(), "{n}");
    }
}
