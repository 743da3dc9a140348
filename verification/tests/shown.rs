//! Numbers in their shortest form.

use zerocloud::double::Double;

fn d(x: f64) -> Double {
    Double::from_bits(x.to_bits())
}

#[test]
fn the_shortest_form_is_the_one_that_is_printed() {
    let values = [
        0.0, -0.0, 1.0, -1.0, 0.1, 0.2, 0.3, 0.1 + 0.2, 17.7, 132.0, 55.5, 1e9, 123456.789, 0.6160, 100.0, 1e15, 1e16, 1e17, 1e21, 1e22, 1e23,
        9007199254740991.0, 9007199254740993.0, 5e-324, 1e-5, 1e-7, 2.5e-8, f64::MAX, f64::MIN_POSITIVE, 1.7976931348623157e308, 4.35, 0.5,
        f64::NAN, f64::INFINITY, f64::NEG_INFINITY,
    ];
    for v in values {
        assert_eq!(d(v).shown(), format!("{v}"), "{v:?}");
    }
}

#[test]
fn of_two_forms_as_close_the_larger_is_printed() {
    for v in [1125899906842624.25, 1125899906842625.75, 1125899906842626.25, 2251799813685248.5, 562949953421312.125] {
        assert_eq!(d(v).shown(), format!("{v}"), "{v:?}");
    }
}

#[test]
fn powers_of_two_have_an_uneven_neighbourhood() {
    for e in [-1074, -1022, -300, -60, -44, -24, -1, 0, 1, 10, 52, 53, 54, 60, 63, 64, 100, 300, 1000, 1023] {
        let v = 2f64.powi(e);
        assert_eq!(d(v).shown(), format!("{v}"), "2^{e}");
    }
}

#[test]
fn any_number_is_printed_in_its_shortest_form() {
    let mut x: u64 = 0x1234_5678_9ABC_DEF1;
    for _ in 0..60 {
        x ^= x << 13;
        x ^= x >> 7;
        x ^= x << 17;
        let v = f64::from_bits(x);
        assert_eq!(d(v).shown(), format!("{v}"), "{v:?}");
        let small = (x % 10_000_000) as f64 / 10_000.0;
        assert_eq!(d(small).shown(), format!("{small}"));
        assert_eq!(Double::parse(&d(small).shown()), Some(d(small)));
    }
}
