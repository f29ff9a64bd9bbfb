use minikv::types::TypedValue;

fn numeric(s: &str) -> TypedValue {
    TypedValue::Numeric(String::from(s))
}

fn text(s: &str) -> TypedValue {
    TypedValue::Text(String::from(s))
}

#[test]
fn token_one_is_numeric_one() {
    assert_eq!(TypedValue::from_str("1"), numeric("1.0"));
}

#[test]
fn token_bar_is_text() {
    assert_eq!(TypedValue::from_str("bar"), text("bar"));
}

#[test]
fn empty_token_is_empty_text() {
    assert_eq!(TypedValue::from_str(""), text(""));
}

#[test]
fn grammar_accepts_signs_dots_and_exponents() {
    assert_eq!(TypedValue::from_str("+3"), numeric("3.0"));
    assert_eq!(TypedValue::from_str("-2.5"), numeric("-2.5"));
    assert_eq!(TypedValue::from_str(".5"), numeric("0.5"));
    assert_eq!(TypedValue::from_str("5."), numeric("5.0"));
    assert_eq!(TypedValue::from_str("1e3"), numeric("1000.0"));
    assert_eq!(TypedValue::from_str("1.5E+2"), numeric("150.0"));
    assert_eq!(TypedValue::from_str("15e-1"), numeric("1.5"));
}

#[test]
fn grammar_rejects_malformed_tokens() {
    assert_eq!(TypedValue::from_str("."), text("."));
    assert_eq!(TypedValue::from_str("1e"), text("1e"));
    assert_eq!(TypedValue::from_str("e5"), text("e5"));
    assert_eq!(TypedValue::from_str("--1"), text("--1"));
    assert_eq!(TypedValue::from_str("1.2.3"), text("1.2.3"));
    assert_eq!(TypedValue::from_str("0x10"), text("0x10"));
    assert_eq!(TypedValue::from_str("1_000"), text("1_000"));
}

#[test]
fn infinite_and_nan_words_fall_back_to_text() {
    assert_eq!(TypedValue::from_str("inf"), text("inf"));
    assert_eq!(TypedValue::from_str("infinity"), text("infinity"));
    assert_eq!(TypedValue::from_str("NaN"), text("NaN"));
    assert_eq!(TypedValue::from_str("-inf"), text("-inf"));
}

#[test]
fn overflowing_magnitudes_fall_back_to_text() {
    assert_eq!(TypedValue::from_str("1e309"), text("1e309"));
    assert_eq!(TypedValue::from_str("2e308"), text("2e308"));
    assert_eq!(
        TypedValue::from_str("1.7976931348623159e308"),
        text("1.7976931348623159e308")
    );
    assert_eq!(TypedValue::from_str("1e99999999999999999999"), text("1e99999999999999999999"));
}

#[test]
fn largest_finite_magnitude_stays_numeric() {
    assert_eq!(
        TypedValue::from_str("1.7976931348623157e308"),
        numeric("1.7976931348623157e308")
    );
}

#[test]
fn underflow_to_zero_is_numeric() {
    assert_eq!(TypedValue::from_str("1e-400"), numeric("0.0"));
    assert_eq!(TypedValue::from_str("-1e-99999999999999999999"), numeric("-0.0"));
}

#[test]
fn zeros_keep_their_sign() {
    assert_eq!(TypedValue::from_str("0"), numeric("0.0"));
    assert_eq!(TypedValue::from_str("-0"), numeric("-0.0"));
    assert_eq!(TypedValue::from_str("-0.00e7"), numeric("-0.0"));
}

#[test]
fn canonical_form_strips_redundant_zeros() {
    assert_eq!(TypedValue::from_str("00012.300"), numeric("12.3"));
    assert_eq!(TypedValue::from_str("1.000"), numeric("1.0"));
    assert_eq!(TypedValue::from_str("0.5e1"), numeric("5.0"));
}

#[test]
fn spellings_of_one_value_share_a_canonical_form() {
    assert_eq!(TypedValue::from_str("1"), TypedValue::from_str("1.0"));
    assert_eq!(TypedValue::from_str("1"), TypedValue::from_str("0.1e1"));
    assert_eq!(TypedValue::from_str("1500"), TypedValue::from_str("1.5e3"));
}

#[test]
fn wide_positions_render_scientifically() {
    assert_eq!(TypedValue::from_str("1e16"), numeric("1.0e16"));
    assert_eq!(TypedValue::from_str("25e30"), numeric("2.5e31"));
    assert_eq!(TypedValue::from_str("0.0000001"), numeric("1.0e-7"));
    assert_eq!(TypedValue::from_str("-3e-320"), numeric("-3.0e-320"));
}

#[test]
fn moderate_fractions_render_plainly() {
    assert_eq!(TypedValue::from_str("0.0001"), numeric("0.0001"));
    assert_eq!(TypedValue::from_str("123.456"), numeric("123.456"));
}
