//! Bar rendering: clamping, length, and eighth-character resolution.

use statfmt::bar::format_bar;
use statfmt::decimal::Decimal;

fn dec(neg: bool, mantissa: u64, exp: i32) -> Decimal {
    Decimal::new(neg, mantissa, exp)
}

#[test]
fn bar_zero_ratio_is_all_blank() {
    let r = format_bar(&dec(false, 0, 0), &dec(false, 1, 0), 5);
    assert_eq!(r, "     ");
}

#[test]
fn bar_full_ratio_is_all_blocks() {
    let r = format_bar(&dec(false, 1, 0), &dec(false, 1, 0), 5);
    assert_eq!(r, "\u{2588}\u{2588}\u{2588}\u{2588}\u{2588}");
}

#[test]
fn bar_ratio_above_one_clamps_to_full() {
    let r = format_bar(&dec(false, 25, -1), &dec(false, 1, 0), 3);
    assert_eq!(r, "\u{2588}\u{2588}\u{2588}");
}

#[test]
fn bar_negative_ratio_clamps_to_blank() {
    let r = format_bar(&dec(true, 3, 0), &dec(false, 1, 0), 3);
    assert_eq!(r, "   ");
}

#[test]
fn bar_zero_denominator_fills_positive_values() {
    let r = format_bar(&dec(false, 3, 0), &dec(false, 0, 0), 4);
    assert_eq!(r, "\u{2588}\u{2588}\u{2588}\u{2588}");
}

#[test]
fn bar_zero_over_zero_is_blank() {
    let r = format_bar(&dec(false, 0, 0), &dec(false, 0, 0), 4);
    assert_eq!(r, "    ");
}

#[test]
fn bar_half_over_three_cells_has_a_half_block() {
    // ratio 0.5 over 3 cells: 12 eighths; one full cell, one half, one blank.
    let r = format_bar(&dec(false, 5, -1), &dec(false, 1, 0), 3);
    assert_eq!(r, "\u{2588}\u{258c} ");
}

#[test]
fn bar_third_of_one_cell_rounds_down_to_quarter() {
    // ratio 1/3 of a single cell: floor(8/3) = 2 eighths.
    let r = format_bar(&dec(false, 1, 0), &dec(false, 3, 0), 1);
    assert_eq!(r, "\u{258e}");
}

#[test]
fn bar_length_is_always_honoured() {
    for len in 0..10usize {
        let full = format_bar(&dec(false, 7, 0), &dec(false, 2, 0), len);
        let blank = format_bar(&dec(true, 7, 0), &dec(false, 2, 0), len);
        let partial = format_bar(&dec(false, 1, 0), &dec(false, 7, 0), len);
        assert_eq!(full.chars().count(), len);
        assert_eq!(blank.chars().count(), len);
        assert_eq!(partial.chars().count(), len);
    }
}

#[test]
fn bar_huge_denominator_is_blank() {
    let r = format_bar(&dec(false, 1, 0), &dec(false, 1, 300), 4);
    assert_eq!(r, "    ");
}
