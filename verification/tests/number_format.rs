use value_unit::decimal::Decimal;
use value_unit::number::{
    dec_in_scientific_notation, format_number, max_precision, number_format, scientific,
    NumberFormat,
};
use value_unit::value::ValueKind;

fn decimal(unscaled: &str, scale: i64) -> Decimal {
    Decimal::new(unscaled, scale).unwrap()
}

fn shown(unscaled: &str, scale: i64) -> String {
    ValueKind::Number(decimal(unscaled, scale)).to_string()
}

fn fraction_digits(text: &str) -> usize {
    match text.find('.') {
        Some(point) => text.len() - point - 1,
        None => 0,
    }
}

#[test]
fn four_decimals_at_exponent_zero_are_all_shown() {
    let text = shown("12345", 4);
    assert_eq!(text, "1.2345");
    assert_eq!(fraction_digits(&text), 4);
    assert_eq!(number_format(4, 0), NumberFormat::Fixed(4));
}

#[test]
fn hundredths_keep_their_leading_zeros() {
    let text = shown("12", 3);
    assert_eq!(text, "0.012");
    assert_eq!(fraction_digits(&text), 3);
    assert_eq!(number_format(1, -2), NumberFormat::Fixed(3));
}

#[test]
fn a_whole_million_is_shown_as_a_power_of_ten() {
    assert_eq!(shown("1000000", 0), "1x10^6");
    assert_eq!(shown("1", -6), "1x10^6");
    assert_eq!(number_format(0, 6), NumberFormat::Scientific);
}

#[test]
fn truth_values_are_shown_as_words() {
    assert_eq!(ValueKind::Bool(true).to_string(), "true");
    assert_eq!(ValueKind::Bool(false).to_string(), "false");
}

#[test]
fn functions_are_shown_by_name() {
    assert_eq!(ValueKind::FunctionRef("foo".to_string()).to_string(), "<function foo>");
    assert_eq!(ValueKind::FunctionRef("".to_string()).to_string(), "<function >");
}

#[test]
fn notation_follows_exponent_and_digit_count() {
    // ones and above: fractional digits left after the integer part
    assert_eq!(number_format(0, 0), NumberFormat::Fixed(0));
    assert_eq!(number_format(2, 0), NumberFormat::Fixed(2));
    assert_eq!(number_format(9, 0), NumberFormat::Fixed(4));
    assert_eq!(number_format(0, 3), NumberFormat::Fixed(0));
    assert_eq!(number_format(1, 3), NumberFormat::Fixed(0));
    assert_eq!(number_format(2, 3), NumberFormat::Fixed(0));
    assert_eq!(number_format(3, 3), NumberFormat::Fixed(0));
    assert_eq!(number_format(4, 3), NumberFormat::Fixed(1));
    assert_eq!(number_format(7, 3), NumberFormat::Fixed(1));
    assert_eq!(number_format(3, 2), NumberFormat::Fixed(1));
    assert_eq!(number_format(usize::MAX, 1), NumberFormat::Fixed(3));
    // below one: the zeros behind the point count
    assert_eq!(number_format(0, -1), NumberFormat::Fixed(1));
    assert_eq!(number_format(2, -1), NumberFormat::Fixed(3));
    assert_eq!(number_format(3, -1), NumberFormat::Fixed(4));
    assert_eq!(number_format(0, -3), NumberFormat::Fixed(3));
    assert_eq!(number_format(1, -3), NumberFormat::Fixed(4));
    assert_eq!(number_format(usize::MAX, -3), NumberFormat::Fixed(4));
    // outside the window
    assert_eq!(number_format(0, 4), NumberFormat::Scientific);
    assert_eq!(number_format(3, 4), NumberFormat::Scientific);
    assert_eq!(number_format(0, -4), NumberFormat::Scientific);
    assert_eq!(number_format(5, i128::MAX), NumberFormat::Scientific);
    assert_eq!(number_format(5, i128::MIN), NumberFormat::Scientific);
}

#[test]
fn familiar_magnitudes_are_shown_in_fixed_point() {
    assert_eq!(shown("0", 0), "0");
    assert_eq!(shown("1", 0), "1");
    assert_eq!(shown("-7", 0), "-7");
    assert_eq!(shown("5", 1), "0.5");
    assert_eq!(shown("-5", 1), "-0.5");
    assert_eq!(shown("12", 0), "12");
    assert_eq!(shown("125", 1), "12.5");
    assert_eq!(shown("1200", 0), "1200");
    assert_eq!(shown("12", -2), "1200");
    assert_eq!(shown("12505", 1), "1250.5");
    assert_eq!(shown("9999", 0), "9999");
    assert_eq!(shown("1", 3), "0.001");
    assert_eq!(shown("-1", 3), "-0.001");
}

#[test]
fn long_fractions_are_rounded_to_four_digits_behind_the_leading_one() {
    assert_eq!(shown("12345678", 4), "1234.6");
    assert_eq!(shown("-12345678", 4), "-1234.6");
    assert_eq!(shown("123456789", 8), "1.2346");
    assert_eq!(shown("123456", 7), "0.0123");
    assert_eq!(shown("123456", 8), "0.0012");
    assert_eq!(shown("99999", 4), "9.9999");
    assert_eq!(shown("999996", 5), "10.0000");
}

#[test]
fn trailing_zeros_do_not_count_as_digits() {
    assert_eq!(shown("15000", 4), "1.5");
    assert_eq!(shown("10", 1), "1");
    assert_eq!(shown("1200000", 3), "1200");
    assert_eq!(shown("0", 5), "0");
    assert_eq!(shown("0", -5), "0");
}

#[test]
fn large_and_small_magnitudes_are_shown_with_a_power_of_ten() {
    assert_eq!(shown("10000", 0), "1x10^4");
    assert_eq!(shown("12345678", 0), "1.234x10^7");
    assert_eq!(shown("12999999", 0), "1.299x10^7");
    assert_eq!(shown("-1500000", 0), "-1.5x10^6");
    assert_eq!(shown("12", 5), "1.2x10^-4");
    assert_eq!(shown("1", 4), "1x10^-4");
    assert_eq!(shown("-1", 10), "-1x10^-10");
    assert_eq!(shown("123", -40), "1.23x10^42");
    assert_eq!(shown("1", i64::MAX), format!("1x10^-{}", i64::MAX));
    assert_eq!(shown("15", i64::MIN + 2), "1.5x10^9223372036854775807");
    assert_eq!(shown("1", i64::MIN + 1), "1x10^9223372036854775807");
    assert_eq!(shown("100", i64::MIN + 3), "1x10^9223372036854775807");
}

#[test]
fn format_number_is_what_a_number_value_shows() {
    for (unscaled, scale) in [("12345", 4), ("12", 3), ("1000000", 0), ("-12345678", 2)] {
        assert_eq!(format_number(&decimal(unscaled, scale)), shown(unscaled, scale));
    }
}

#[test]
fn scientific_parts_are_sign_and_leading_digit_the_rest_and_the_power() {
    let parts = |unscaled: &str, scale: i64| dec_in_scientific_notation(&decimal(unscaled, scale));
    assert_eq!(parts("12345678", 4), ("1".to_string(), "2345678".to_string(), 3));
    assert_eq!(parts("12", 3), ("1".to_string(), "2".to_string(), -2));
    assert_eq!(parts("1", -6), ("1".to_string(), "".to_string(), 6));
    assert_eq!(parts("-15", -5), ("-1".to_string(), "5".to_string(), 6));
    assert_eq!(parts("0", 0), ("0".to_string(), "".to_string(), 0));
    assert_eq!(parts("7", i64::MAX), ("7".to_string(), "".to_string(), -(i64::MAX as i128)));
    assert_eq!(
        parts("70", i64::MIN + 2),
        ("7".to_string(), "0".to_string(), 1 - (i64::MIN as i128 + 2))
    );
}

#[test]
fn digits_are_cut_not_rounded() {
    assert_eq!(max_precision("12345", 3), "123");
    assert_eq!(max_precision("9999", 3), "999");
    assert_eq!(max_precision("123", 3), "123");
    assert_eq!(max_precision("12", 3), "12");
    assert_eq!(max_precision("", 3), "");
    assert_eq!(max_precision("12", 0), "");
}

#[test]
fn scientific_text_is_built_from_its_parts() {
    assert_eq!(scientific("1", "", 6), "1x10^6");
    assert_eq!(scientific("1", "2345678", 7), "1.234x10^7");
    assert_eq!(scientific("-1", "5", -12), "-1.5x10^-12");
    assert_eq!(scientific("1", "", 0), "1");
    assert_eq!(scientific("1", "5", 0), "1.5");
}
