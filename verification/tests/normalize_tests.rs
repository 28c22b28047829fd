use stepreduce::normalize::{
    extract_uncertainty, normalize_entity_name, normalize_number, normalize_numbers_in_line,
    round_number,
};

fn bv(s: &str) -> Vec<u8> {
    s.as_bytes().to_vec()
}

fn sv(v: Vec<u8>) -> String {
    String::from_utf8(v).unwrap()
}

#[test]
fn simple() {
    assert_eq!(sv(normalize_number(&bv("1.0"))), "1.");
    assert_eq!(sv(normalize_number(&bv("3.14"))), "3.14");
    assert_eq!(sv(normalize_number(&bv("-0.5"))), "-0.5");
}

#[test]
fn scientific() {
    assert_eq!(sv(normalize_number(&bv("1.0E-3"))), "0.001");
    assert_eq!(sv(normalize_number(&bv("2.5e+2"))), "250.");
}

#[test]
fn leading_dot() {
    assert_eq!(sv(normalize_number(&bv(".5"))), "0.5");
}

#[test]
fn negative_zero() {
    assert_eq!(sv(normalize_number(&bv("-0.0"))), "0.");
}

#[test]
fn trailing_zeros() {
    assert_eq!(sv(normalize_number(&bv("1.200"))), "1.2");
}

#[test]
fn truncation() {
    assert_eq!(sv(round_number(&bv("3.14159"), 3)), "3.141");
    assert_eq!(sv(round_number(&bv("3.14159"), 0)), "3.");
}

#[test]
fn shorter_than_limit() {
    assert_eq!(sv(round_number(&bv("3.14"), 5)), "3.14");
}

#[test]
fn normalize_basic() {
    let input = bv("CARTESIAN_POINT('',-1.200E+1,3.0,0.00)");
    let result = normalize_numbers_in_line(&input, None);
    assert_eq!(sv(result), "CARTESIAN_POINT('',-12.,3.,0.)");
}

#[test]
fn with_rounding() {
    let input = bv("CARTESIAN_POINT('',1.23456,7.89012)");
    let result = normalize_numbers_in_line(&input, Some(3));
    assert_eq!(sv(result), "CARTESIAN_POINT('',1.234,7.89)");
}

#[test]
fn strips_name() {
    let input = bv("PRODUCT('My Part',extra)");
    let result = normalize_entity_name(&input);
    assert_eq!(sv(result), "PRODUCT('',extra)");
}

#[test]
fn no_match() {
    let input = bv("CARTESIAN_POINT('',0.,0.,0.)");
    let result = normalize_entity_name(&input);
    assert_eq!(sv(result), "CARTESIAN_POINT('',0.,0.,0.)");
}

#[test]
fn found() {
    let lines = vec![bv("UNCERTAINTY_MEASURE_WITH_UNIT(LENGTH_MEASURE(0.001))")];
    assert_eq!(extract_uncertainty(&lines), Some(4));
}

#[test]
fn not_found() {
    let lines = vec![bv("CARTESIAN_POINT('',0.,0.,0.)")];
    assert_eq!(extract_uncertainty(&lines), None);
}

#[test]
fn integer_with_exponent_form() {
    assert_eq!(sv(normalize_number(&bv("2E+5"))), "200000.");
    assert_eq!(sv(normalize_number(&bv("7E-2"))), "0.07");
}

#[test]
fn guard_blocks_identifier_suffix() {
    // Digits glued to an identifier or a reference token never start a
    // literal, so `#12` is left alone while `2.50` is normalized.
    let input = bv("FOO(#12,2.50)");
    let result = normalize_numbers_in_line(&input, None);
    assert_eq!(sv(result), "FOO(#12,2.5)");
    // The guard rejects only the match that starts at the guarded digit; a
    // dotted tail starting after the digit still matches on its own.
    let tail = normalize_numbers_in_line(&bv("X1.5"), None);
    assert_eq!(sv(tail), "X10.5");
}

#[test]
fn uncertainty_case_insensitive_and_spaced() {
    let lines = vec![bv("uncertainty_measure_with_unit ( length_measure ( 0.01 ) )")];
    assert_eq!(extract_uncertainty(&lines), Some(3));
}

#[test]
fn uncertainty_value_of_one() {
    let lines = vec![bv("UNCERTAINTY_MEASURE_WITH_UNIT(LENGTH_MEASURE(1.0))")];
    assert_eq!(extract_uncertainty(&lines), Some(1));
}

#[test]
fn uncertainty_negative_rejected() {
    let lines = vec![bv("UNCERTAINTY_MEASURE_WITH_UNIT(LENGTH_MEASURE(-0.001))")];
    assert_eq!(extract_uncertainty(&lines), None);
}

#[test]
fn uncertainty_first_in_line_order_wins() {
    let lines = vec![
        bv("FOO"),
        bv("UNCERTAINTY_MEASURE_WITH_UNIT(LENGTH_MEASURE(0.1))"),
        bv("UNCERTAINTY_MEASURE_WITH_UNIT(LENGTH_MEASURE(0.00001))"),
    ];
    assert_eq!(extract_uncertainty(&lines), Some(2));
}

#[test]
fn unreadable_exponent_is_ignored() {
    // An exponent that does not fit a 32-bit parse counts as zero.
    assert_eq!(sv(normalize_number(&bv("1E9999999999"))), "1.");
    assert_eq!(sv(normalize_number(&bv("2.5E-99999999999"))), "2.5");
}

#[test]
fn round_keeps_sign_and_zero_collapse() {
    assert_eq!(sv(round_number(&bv("-0.0004"), 3)), "0.");
    assert_eq!(sv(round_number(&bv("-1.23456"), 2)), "-1.23");
}
