//! Type-guessing tests: the heuristic that turns attribute and text values
//! into booleans, integers, floats, strings and unit pairs.

use xml::{type_guess, type_guess_val, Value};

fn assert_float(v: &Value, expected: f32) {
    match v {
        Value::Float(t) => assert_eq!(t.parse::<f32>().unwrap(), expected),
        other => panic!("expected a float, got {:?}", other),
    }
}

fn assert_str(v: &Value, expected: &str) {
    match v {
        Value::Str(t) => assert_eq!(t, expected),
        other => panic!("expected a string, got {:?}", other),
    }
}

#[test]
fn test_type_guess_number() {
    let mut result: Vec<(String, Value)> = Vec::new();

    type_guess("dose", "42.5", &mut result);

    assert_eq!(result[0].0, "dose");
    assert_float(&result[0].1, 42.5);
    assert_eq!(result.len(), 1);
}

#[test]
fn test_type_guess_number_unit() {
    let mut result: Vec<(String, Value)> = Vec::new();

    type_guess("dose", "200 MG", &mut result);

    assert_eq!(result[0].0, "dose");
    assert_float(&result[0].1, 200.0);
    assert_eq!(result[1].0, "dose_unit");
    assert_str(&result[1].1, "mg");
    assert_eq!(result.len(), 2);
}

#[test]
fn test_type_guess_string_fallback() {
    let mut result: Vec<(String, Value)> = Vec::new();

    type_guess("name", "Aspirin", &mut result);

    assert_eq!(result[0].0, "name");
    assert_str(&result[0].1, "Aspirin");
    assert_eq!(result.len(), 1);
}

#[test]
fn test_type_guess_mixed_case_unit() {
    let mut result: Vec<(String, Value)> = Vec::new();

    type_guess("dose", "100 Mg", &mut result);

    assert_eq!(result[0].0, "dose");
    assert_float(&result[0].1, 100.0);
    assert_eq!(result[1].0, "dose_unit");
    assert_str(&result[1].1, "mg");
    assert_eq!(result.len(), 2);
}

#[test]
fn test_type_guess_invalid_number_unit() {
    let mut result: Vec<(String, Value)> = Vec::new();

    type_guess("dose", "abc MG", &mut result);

    assert_eq!(result[0].0, "dose");
    assert_str(&result[0].1, "abc MG");
    assert_eq!(result.len(), 1);
}

#[test]
fn guess_zero_is_unsigned() {
    assert!(matches!(type_guess_val("0"), Value::UInt(0)));
}

#[test]
fn guess_true_is_boolean() {
    assert!(matches!(type_guess_val("true"), Value::Bool(true)));
    assert!(matches!(type_guess_val("false"), Value::Bool(false)));
}

#[test]
fn guess_fraction_is_float() {
    assert_float(&type_guess_val("0.1"), 0.1);
    assert_float(&type_guess_val(".5"), 0.5);
    assert_float(&type_guess_val("-3e2"), -300.0);
    assert_float(&type_guess_val("inf"), f32::INFINITY);
}

#[test]
fn guess_overflowing_integer_is_float() {
    assert!(matches!(type_guess_val("18446744073709551615"), Value::UInt(u64::MAX)));
    assert_float(&type_guess_val("18446744073709551616"), 18446744073709551616.0);
}

#[test]
fn guess_garbage_stays_text() {
    assert_str(&type_guess_val("1e"), "1e");
    assert_str(&type_guess_val("."), ".");
    assert_str(&type_guess_val("1.2.3"), "1.2.3");
    assert_str(&type_guess_val(""), "");
}

#[test]
fn unit_split_needs_exactly_two_tokens() {
    let mut result: Vec<(String, Value)> = Vec::new();
    type_guess("dose", "1 2 3", &mut result);
    assert_eq!(result.len(), 1);
    assert_str(&result[0].1, "1 2 3");

    let mut result2: Vec<(String, Value)> = Vec::new();
    type_guess("dose", "  7.5   ml ", &mut result2);
    assert_eq!(result2.len(), 2);
    assert_float(&result2[0].1, 7.5);
    assert_str(&result2[1].1, "ml");
}
