use openmetrics_parser::number::{as_i64, key_of_int, lt_number, parse_i64, MetricNumber};

fn chars(s: &str) -> Vec<char> {
    s.chars().collect()
}

#[test]
fn parse_i64_reads_like_std() {
    for t in ["0", "+5", "-0", "42", "-9223372036854775808", "9223372036854775807", "007"] {
        assert_eq!(parse_i64(&chars(t)), t.parse::<i64>().ok(), "{}", t);
    }
    for t in ["", "-", "+", "1.0", "9223372036854775808", "-9223372036854775809", "1e3", " 1", "NaN"] {
        assert_eq!(parse_i64(&chars(t)), None, "{}", t);
    }
}

#[test]
fn int_keys_are_the_bits_of_the_int_as_f64() {
    for i in [1i64, 2, 3, 1023, (1 << 53) + 1, (1 << 53) + 3, (1 << 54) + 2, i64::MAX, 123456789123456789] {
        assert_eq!(key_of_int(i), (i as f64).to_bits() as i64, "{}", i);
        assert_eq!(key_of_int(-i), -((i as f64).to_bits() as i64), "{}", i);
    }
    assert_eq!(key_of_int(i64::MIN), -(((i64::MIN as f64).to_bits() & !(1u64 << 63)) as i64));
    assert_eq!(key_of_int(0), 0);
}

#[test]
fn numbers_compare_as_floats() {
    let f = |x: f64| MetricNumber::Float(x.to_bits());
    assert!(lt_number(MetricNumber::Int(1), f(1.5)));
    assert!(lt_number(f(-0.5), MetricNumber::Int(0)));
    assert!(!lt_number(f(f64::NAN), MetricNumber::Int(0)));
    assert!(!lt_number(MetricNumber::Int(0), f(-0.0)));
    assert!(lt_number(f(f64::NEG_INFINITY), MetricNumber::Int(i64::MIN)));
    assert!(!lt_number(MetricNumber::Int((1 << 53) + 1), MetricNumber::Int(1 << 53)));
}

#[test]
fn as_i64_of_floats() {
    let f = |x: f64| MetricNumber::Float(x.to_bits());
    assert_eq!(as_i64(f(1.0)), Some(1));
    assert_eq!(as_i64(f(-3.0)), Some(-3));
    assert_eq!(as_i64(f(1.5)), None);
    assert_eq!(as_i64(f(0.25)), None);
    assert_eq!(as_i64(f(-0.0)), Some(0));
    assert_eq!(as_i64(f(f64::NAN)), None);
    assert_eq!(as_i64(f(f64::INFINITY)), Some(i64::MAX));
    assert_eq!(as_i64(f(f64::NEG_INFINITY)), Some(i64::MIN));
    assert_eq!(as_i64(f(1e300)), Some(i64::MAX));
    assert_eq!(as_i64(f(4503599627370497.0)), Some(4503599627370497));
    assert_eq!(as_i64(MetricNumber::Int(-7)), Some(-7));
}
