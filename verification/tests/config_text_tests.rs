//! Tests for configuration value formatting.

use trackio_tui::config_text::{config_line, config_lines, fmt_i64, fmt_u64, fmt_value};
use trackio_tui::models::{Config, ConfigValue, VALUE_SCALE};

fn fx(v: f64) -> i64 {
    (v * VALUE_SCALE as f64).round() as i64
}

#[test]
fn test_fmt_integers() {
    assert_eq!(fmt_u64(0), "0");
    assert_eq!(fmt_u64(7), "7");
    assert_eq!(fmt_u64(10), "10");
    assert_eq!(fmt_u64(90210), "90210");
    assert_eq!(fmt_i64(-42), "-42");
    assert_eq!(fmt_i64(1234567890), "1234567890");
    assert_eq!(fmt_i64(i64::MIN), "-9223372036854775808");
}

#[test]
fn test_fmt_value_int_bool_null_str() {
    assert_eq!(fmt_value(&ConfigValue::Int(10)), "10");
    assert_eq!(fmt_value(&ConfigValue::Int(-3)), "-3");
    assert_eq!(fmt_value(&ConfigValue::Bool(true)), "true");
    assert_eq!(fmt_value(&ConfigValue::Bool(false)), "false");
    assert_eq!(fmt_value(&ConfigValue::Null), "null");
    assert_eq!(fmt_value(&ConfigValue::Str("adam".to_string())), "adam");
}

#[test]
fn test_fmt_value_float_four_decimals() {
    // Within [0.001, 1000): four decimal places, zero padded.
    assert_eq!(fmt_value(&ConfigValue::Float(fx(1.2345))), "1.2345");
    assert_eq!(fmt_value(&ConfigValue::Float(fx(0.001))), "0.0010");
    assert_eq!(fmt_value(&ConfigValue::Float(fx(999.9999))), "999.9999");
    assert_eq!(fmt_value(&ConfigValue::Float(fx(-1.5))), "-1.5000");
    assert_eq!(fmt_value(&ConfigValue::Float(fx(42.0))), "42.0000");
}

#[test]
fn test_fmt_value_float_scientific() {
    // Below 0.001 or at least 1000: scientific notation, two decimals.
    assert_eq!(fmt_value(&ConfigValue::Float(0)), "0.00e0");
    assert_eq!(fmt_value(&ConfigValue::Float(fx(0.0003))), "3.00e-4");
    assert_eq!(fmt_value(&ConfigValue::Float(fx(0.0001))), "1.00e-4");
    assert_eq!(fmt_value(&ConfigValue::Float(fx(1000.0))), "1.00e3");
    assert_eq!(fmt_value(&ConfigValue::Float(fx(1500.0))), "1.50e3");
    assert_eq!(fmt_value(&ConfigValue::Float(fx(123456.0))), "1.23e5");
    // Rounding of the third significant digit, ties away from zero.
    assert_eq!(fmt_value(&ConfigValue::Float(fx(1995.0))), "2.00e3");
    assert_eq!(fmt_value(&ConfigValue::Float(fx(-2500.0))), "-2.50e3");
}

#[test]
fn test_config_line_renders_key_and_value() {
    let c = Config { key: "epochs".to_string(), value: ConfigValue::Int(10) };
    assert_eq!(config_line(&c), "epochs: 10");
    let f = Config { key: "lr".to_string(), value: ConfigValue::Float(fx(0.01)) };
    assert_eq!(config_line(&f), "lr: 0.0100");
}

#[test]
fn test_config_lines_in_order() {
    let cfg = vec![
        Config { key: "epochs".to_string(), value: ConfigValue::Int(10) },
        Config { key: "name".to_string(), value: ConfigValue::Str("Test".to_string()) },
    ];
    let lines = config_lines(&cfg);
    assert_eq!(lines, vec!["epochs: 10".to_string(), "name: Test".to_string()]);
}
