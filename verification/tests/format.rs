//! End-to-end checks of the formatting engine: SI scaling, width budgets,
//! bar rendering, unit conversion, text padding and truncation.

use statfmt::decimal::Decimal;
use statfmt::number::format_number;
use statfmt::suffix::Suffix;
use statfmt::unit::Unit;
use statfmt::value::{Value, Variable};

fn var() -> Variable {
    Variable::default()
}

#[test]
fn number_scales_to_kilo_with_one_decimal() {
    // 1536 at width 3: integer part 1 digit, budget leaves one decimal.
    let d = Decimal::new(false, 1536, 0);
    assert_eq!(format_number(&d, 3, &Suffix::One), "1.5K");
}

#[test]
fn number_zero_renders_at_the_floor_suffix() {
    let d = Decimal::new(false, 0, 0);
    assert_eq!(format_number(&d, 3, &Suffix::One), "0.0");
    assert_eq!(format_number(&d, 3, &Suffix::Kilo), "0.0K");
}

#[test]
fn number_small_value_clamps_to_minimum_suffix() {
    // 0.5 with floor One keeps the One suffix and renders the fraction.
    let half = Decimal::new(false, 5, -1);
    assert_eq!(format_number(&half, 3, &Suffix::One), "0.5");
    // With floor Nano the magnitude picks Milli instead.
    assert_eq!(format_number(&half, 3, &Suffix::Nano), "500m");
}

#[test]
fn number_large_value_clamps_at_tera() {
    // 5 * 10^15 is beyond Tera: the suffix stays Tera, digits overflow.
    let d = Decimal::new(false, 5, 15);
    assert_eq!(format_number(&d, 3, &Suffix::One), "5000T");
}

#[test]
fn number_rounds_half_to_even() {
    // 1.25 and 1.35 at one decimal: ties go to the even digit.
    assert_eq!(format_number(&Decimal::new(false, 125, -2), 3, &Suffix::One), "1.2");
    assert_eq!(format_number(&Decimal::new(false, 135, -2), 3, &Suffix::One), "1.4");
}

#[test]
fn number_prints_bare_point_when_one_column_is_left() {
    // Width 3 for a 2-digit integer: the leftover column is a bare point.
    let d = Decimal::new(false, 42, 0);
    assert_eq!(format_number(&d, 3, &Suffix::One), "42.");
}

#[test]
fn number_negative_value_keeps_its_sign() {
    let d = Decimal::new(true, 5, 0);
    assert_eq!(format_number(&d, 1, &Suffix::One), "-5");
}

#[test]
fn number_integer_part_dominates_the_budget() {
    // 999.9 rounds up to 1000: four digits despite the width 3 budget.
    let d = Decimal::new(false, 9999, -1);
    assert_eq!(format_number(&d, 3, &Suffix::One), "1000");
}

#[test]
fn number_scaling_by_1000_shifts_the_suffix_once() {
    let one_k = Decimal::new(false, 1, 3);
    let one_m = Decimal::new(false, 1, 6);
    let one_g = Decimal::new(false, 1, 9);
    assert_eq!(format_number(&one_k, 3, &Suffix::One), "1.0K");
    assert_eq!(format_number(&one_m, 3, &Suffix::One), "1.0M");
    assert_eq!(format_number(&one_g, 3, &Suffix::One), "1.0G");
}

#[test]
fn scenario_float_1536_bytes_formats_as_kilo() {
    let v = Value::from_float(Decimal::new(false, 1536, 0)).bytes();
    let request = Variable { min_suffix: Some(Suffix::One), ..var() };
    assert_eq!(v.format(&request), "1.5KB");
}

#[test]
fn scenario_integer_42_pads_to_width_5() {
    let v = Value::from_integer(42);
    let request = Variable { min_width: Some(5), ..var() };
    assert_eq!(v.format(&request), "   42");
}

#[test]
fn scenario_half_bar_of_length_4() {
    let v = Value::from_float(Decimal::new(false, 5, -1));
    let request = Variable {
        bar_max_value: Some(Decimal::new(false, 1, 0)),
        min_width: Some(4),
        ..var()
    };
    assert_eq!(v.format(&request), "\u{2588}\u{2588}  ");
}

#[test]
fn integer_default_width_pads_single_digit() {
    // from_integer defaults to width 2.
    assert_eq!(Value::from_integer(7).format(&var()), " 7");
}

#[test]
fn integer_custom_pad_character() {
    let request = Variable { min_width: Some(3), pad_with: Some('_'), ..var() };
    assert_eq!(Value::from_integer(7).format(&request), "__7");
}

#[test]
fn integer_negative_renders_with_sign() {
    let request = Variable { min_width: Some(5), ..var() };
    assert_eq!(Value::from_integer(-42).format(&request), "  -42");
}

#[test]
fn bytes_requested_as_bits_multiply_by_eight() {
    let v = Value::from_integer(100).bytes_per_second();
    let request = Variable { unit: Some(Unit::BitsPerSecond), ..var() };
    assert_eq!(v.format(&request), "800b/s");
}

#[test]
fn bits_requested_as_bytes_divide_by_eight() {
    let v = Value::from_integer(100).bits_per_second();
    let request = Variable { unit: Some(Unit::BytesPerSecond), ..var() };
    assert_eq!(v.format(&request), "12B/s");
}

#[test]
fn rate_round_trip_matches_pretagged_bits() {
    // from_integer(x).bytes_per_second() asked in bits equals
    // from_integer(8x).bits_per_second() with no override.
    let left = Value::from_integer(100).bytes_per_second();
    let request = Variable { unit: Some(Unit::BitsPerSecond), ..var() };
    let right = Value::from_integer(800).bits_per_second();
    assert_eq!(left.format(&request), right.format(&var()));
}

#[test]
fn float_bytes_requested_as_bits_multiply_by_eight() {
    let v = Value::from_float(Decimal::new(false, 1, 0)).bytes_per_second();
    let request = Variable { unit: Some(Unit::BitsPerSecond), ..var() };
    assert_eq!(v.format(&request), "8.0b/s");
}

#[test]
fn unrelated_units_do_not_convert() {
    // Degrees asked as seconds: the value passes through unchanged.
    let v = Value::from_integer(30).degrees();
    let request = Variable { unit: Some(Unit::Seconds), ..var() };
    assert_eq!(v.format(&request), "30s");
}

#[test]
fn text_is_padded_and_never_suffix_decorated() {
    // A unit override and a minimum suffix leave the text untouched; the
    // unit contributes only its trailing symbol.
    let v = Value::from_string(String::from("ab"));
    let request = Variable {
        min_width: Some(4),
        min_suffix: Some(Suffix::Kilo),
        unit: Some(Unit::Bytes),
        ..var()
    };
    assert_eq!(v.format(&request), "ab  B");
}

#[test]
fn text_truncates_to_max_width_characters() {
    let v = Value::from_string(String::from("hello"));
    let request = Variable { max_width: Some(3), ..var() };
    assert_eq!(v.format(&request), "hel");
}

#[test]
fn text_ignores_a_bar_request() {
    let v = Value::from_string(String::from("hi"));
    let request = Variable {
        bar_max_value: Some(Decimal::new(false, 1, 0)),
        min_width: Some(3),
        ..var()
    };
    assert_eq!(v.format(&request), "hi ");
}

#[test]
fn icon_precedes_value_and_unit() {
    let v = Value::from_integer(5).degrees().icon(String::from("T"));
    assert_eq!(v.format(&var()), "T 5\u{00b0}");
}

#[test]
fn suffix_symbols_cover_every_level() {
    assert_eq!(format_number(&Decimal::new(false, 2, -9), 1, &Suffix::Nano), "2n");
    assert_eq!(format_number(&Decimal::new(false, 2, -6), 1, &Suffix::Nano), "2u");
    assert_eq!(format_number(&Decimal::new(false, 2, -3), 1, &Suffix::Nano), "2m");
    assert_eq!(format_number(&Decimal::new(false, 2, 0), 1, &Suffix::Nano), "2");
    assert_eq!(format_number(&Decimal::new(false, 2, 3), 1, &Suffix::Nano), "2K");
    assert_eq!(format_number(&Decimal::new(false, 2, 6), 1, &Suffix::Nano), "2M");
    assert_eq!(format_number(&Decimal::new(false, 2, 9), 1, &Suffix::Nano), "2G");
    assert_eq!(format_number(&Decimal::new(false, 2, 12), 1, &Suffix::Nano), "2T");
}

#[test]
fn number_wide_budget_expands_decimals() {
    let d = Decimal::new(false, 1536, 0);
    assert_eq!(format_number(&d, 6, &Suffix::One), "1.5360K");
}

#[test]
fn bar_path_bypasses_icon_and_unit() {
    let v = Value::from_float(Decimal::new(false, 5, -1)).percents().icon(String::from("I"));
    let request = Variable {
        bar_max_value: Some(Decimal::new(false, 1, 0)),
        min_width: Some(2),
        ..var()
    };
    assert_eq!(v.format(&request), "\u{2588} ");
}

#[test]
fn text_output_is_independent_of_min_suffix() {
    let v = Value::from_string(String::from("cpu"));
    let with_suffix = Variable { min_suffix: Some(Suffix::Mega), ..var() };
    assert_eq!(v.format(&with_suffix), v.format(&var()));
}

#[test]
fn tiny_magnitudes_collapse_to_nano() {
    // Below Nano there is no smaller suffix: the value renders Nano-scaled.
    let d = Decimal::new(false, 5, -12);
    assert_eq!(format_number(&d, 3, &Suffix::Nano), "0.0n");
}
