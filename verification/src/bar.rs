//! Proportional bars at eighth-character resolution.
//!
//! A ratio `num / den` clamped into `[0, 1]` is drawn over `length` cells.
//! Writing `c8` for the total number of filled eighths over the whole bar,
//! `floor(8 * length * num / den)`, cell `i` shows `clamp(c8 - 8*i, 0, 8)`
//! eighths: that equals `floor(clamp(8 * (num/den * length - i), 0, 8))`,
//! the fill of cell `i`, because `8*i` is an integer and so commutes with
//! the floor.

use vstd::prelude::*;

use crate::decimal::DecModel;
use crate::decimal::Decimal;
use crate::digits::digits10;
use crate::digits::digits10_u64;
use crate::digits::lemma_digits10_at_most;
use crate::digits::lemma_digits10_bounds;
use crate::digits::lemma_digits10_mul_pow10;
use crate::digits::lemma_pow10_adds;
use crate::digits::lemma_pow10_concrete;
use crate::digits::lemma_pow10_increases;
use crate::digits::lemma_pow10_pos;
use crate::digits::pow10;
use crate::digits::pow10_u128;
use crate::digits::push_repeat;
use crate::digits::repeat_char;
use crate::text::chars_to_string;

verus! {

/// The glyph for a cell filled to `l` eighths: blank, seven partial block
/// characters, then the full block.
pub open spec fn bar_glyph(l: int) -> char {
    if l <= 0 {
        ' '
    } else if l == 1 {
        '\u{258f}'
    } else if l == 2 {
        '\u{258e}'
    } else if l == 3 {
        '\u{258d}'
    } else if l == 4 {
        '\u{258c}'
    } else if l == 5 {
        '\u{258b}'
    } else if l == 6 {
        '\u{258a}'
    } else if l == 7 {
        '\u{2589}'
    } else {
        '\u{2588}'
    }
}

/// The numerator of `num / den` written over a common power of ten.
pub open spec fn ratio_num(nm: nat, ne: int, dm: nat, de: int) -> nat {
    if ne >= de {
        nm * pow10((ne - de) as nat)
    } else {
        nm
    }
}

/// The denominator of `num / den` written over a common power of ten.
pub open spec fn ratio_den(nm: nat, ne: int, dm: nat, de: int) -> nat {
    if ne >= de {
        dm
    } else {
        dm * pow10((de - ne) as nat)
    }
}

/// The eighths filled over the whole bar: `floor(8 * length * (x / m))`.
pub open spec fn spec_eighths(x: nat, m: nat, len: nat) -> nat {
    (8 * x * len) / m
}

/// The fill level of cell `i`: `c8 - 8*i`, clamped into `[0, 8]`.
pub open spec fn bar_level(c8: int, i: int) -> int {
    if c8 - 8 * i >= 8 {
        8
    } else if c8 - 8 * i <= 0 {
        0
    } else {
        c8 - 8 * i
    }
}

/// The bar drawn for the ratio `num / den` over `len` cells.  A zero or
/// negative ratio (zero numerator, or signs that differ) gives a blank bar;
/// a ratio of one or more (including a positive numerator over a zero
/// denominator) gives a full bar.
pub open spec fn spec_format_bar(num: DecModel, den: DecModel, len: nat) -> Seq<char> {
    if num.mantissa == 0 || num.neg != den.neg {
        repeat_char(' ', len)
    } else if den.mantissa == 0 {
        repeat_char('\u{2588}', len)
    } else {
        let x = ratio_num(num.mantissa, num.exp, den.mantissa, den.exp);
        let m = ratio_den(num.mantissa, num.exp, den.mantissa, den.exp);
        if x >= m {
            repeat_char('\u{2588}', len)
        } else {
            Seq::new(len, |i: int| bar_glyph(bar_level(spec_eighths(x, m, len) as int, i)))
        }
    }
}

/// The bar always has exactly the requested length, whatever the ratio.
pub proof fn lemma_bar_len(num: DecModel, den: DecModel, len: nat)
    ensures
        spec_format_bar(num, den, len).len() == len,
{
}

/// A zero value draws an all-blank bar over any denominator.
pub proof fn lemma_bar_blank(den: DecModel, len: nat)
    ensures
        spec_format_bar(DecModel { neg: false, mantissa: 0, exp: 0 }, den, len) == repeat_char(
            ' ',
            len,
        ),
{
}

/// A value equal to the bar's maximum draws an all-full bar.
pub proof fn lemma_bar_full(d: DecModel, len: nat)
    ensures
        d.mantissa > 0 ==> spec_format_bar(d, d, len) == repeat_char('\u{2588}', len),
{
    if d.mantissa > 0 {
        assert(pow10(0) == 1);
        assert(ratio_num(d.mantissa, d.exp, d.mantissa, d.exp) == d.mantissa * pow10(0));
        assert(d.mantissa * 1 == d.mantissa) by (nonlinear_arith);
    }
}

/// The glyph for a fill level.
fn bar_glyph_of(l: u64) -> (c: char)
    requires
        l <= 8,
    ensures
        c == bar_glyph(l as int),
{
    if l == 0 {
        ' '
    } else if l == 1 {
        '\u{258f}'
    } else if l == 2 {
        '\u{258e}'
    } else if l == 3 {
        '\u{258d}'
    } else if l == 4 {
        '\u{258c}'
    } else if l == 5 {
        '\u{258b}'
    } else if l == 6 {
        '\u{258a}'
    } else if l == 7 {
        '\u{2589}'
    } else {
        '\u{2588}'
    }
}

/// Whether the ratio `num / den` is at least one, for positive mantissas:
/// compares the magnitudes first and aligns the mantissas only when the
/// leading digits share a position.
fn ratio_ge(nm: u64, ne: i32, dm: u64, de: i32) -> (b: bool)
    requires
        1 <= nm,
        1 <= dm,
    ensures
        b == (ratio_num(nm as nat, ne as int, dm as nat, de as int) >= ratio_den(
            nm as nat,
            ne as int,
            dm as nat,
            de as int,
        )),
{
    proof {
        lemma_pow10_concrete();
        lemma_digits10_bounds(nm as nat);
        lemma_digits10_bounds(dm as nat);
        lemma_digits10_at_most(nm as nat, 20);
        lemma_digits10_at_most(dm as nat, 20);
    }
    let dn = digits10_u64(nm);
    let dd = digits10_u64(dm);
    let ln: i64 = dn as i64 + ne as i64;
    let ld: i64 = dd as i64 + de as i64;
    let ghost x = ratio_num(nm as nat, ne as int, dm as nat, de as int);
    let ghost m = ratio_den(nm as nat, ne as int, dm as nat, de as int);
    proof {
        if ne >= de {
            lemma_pow10_pos((ne - de) as nat);
            lemma_digits10_mul_pow10(nm as nat, (ne - de) as nat);
            assert(x >= 1) by (nonlinear_arith)
                requires
                    x == nm as nat * pow10((ne - de) as nat),
                    nm >= 1,
                    pow10((ne - de) as nat) >= 1,
            ;
            lemma_digits10_bounds(x);
            assert(digits10(x) as int == ln - de);
            assert(digits10(m) as int == ld - de);
        } else {
            lemma_pow10_pos((de - ne) as nat);
            lemma_digits10_mul_pow10(dm as nat, (de - ne) as nat);
            assert(m >= 1) by (nonlinear_arith)
                requires
                    m == dm as nat * pow10((de - ne) as nat),
                    dm >= 1,
                    pow10((de - ne) as nat) >= 1,
            ;
            lemma_digits10_bounds(m);
            assert(digits10(x) as int == ln - ne);
            assert(digits10(m) as int == ld - ne);
        }
        lemma_digits10_bounds(x);
        lemma_digits10_bounds(m);
    }
    if ln > ld {
        proof {
            lemma_pow10_increases(digits10(m), (digits10(x) - 1) as nat);
        }
        true
    } else if ln < ld {
        proof {
            lemma_pow10_increases(digits10(x), (digits10(m) - 1) as nat);
        }
        false
    } else {
        if ne >= de {
            let sh = ((ne as i64) - (de as i64)) as usize;
            proof {
                lemma_pow10_adds(digits10(nm as nat), sh as nat);
                lemma_pow10_increases(digits10(x), 20);
                assert(nm as nat * pow10(sh as nat) < pow10(digits10(nm as nat)) * pow10(
                    sh as nat,
                )) by (nonlinear_arith)
                    requires
                        (nm as nat) < pow10(digits10(nm as nat)),
                        pow10(sh as nat) >= 1,
                ;
            }
            let xx: u128 = (nm as u128) * pow10_u128(sh);
            xx >= (dm as u128)
        } else {
            let sh = ((de as i64) - (ne as i64)) as usize;
            proof {
                lemma_pow10_adds(digits10(dm as nat), sh as nat);
                lemma_pow10_increases(digits10(m), 20);
                assert(dm as nat * pow10(sh as nat) < pow10(digits10(dm as nat)) * pow10(
                    sh as nat,
                )) by (nonlinear_arith)
                    requires
                        (dm as nat) < pow10(digits10(dm as nat)),
                        pow10(sh as nat) >= 1,
                ;
            }
            let mm: u128 = (dm as u128) * pow10_u128(sh);
            (nm as u128) >= mm
        }
    }
}

/// Renders the ratio `num / den`, clamped into `[0, 1]`, as a bar of
/// exactly `length` cells filled left to right at eighth resolution.
pub fn format_bar(num: &Decimal, den: &Decimal, length: usize) -> (r: String)
    requires
        num@.inv(),
        den@.inv(),
    ensures
        r@ == spec_format_bar(num@, den@, length as nat),
        r@.len() == length as nat,
{
    proof {
        lemma_pow10_concrete();
    }
    let mut out: Vec<char> = Vec::new();
    if num.mantissa == 0 || num.neg != den.neg {
        push_repeat(&mut out, ' ', length);
        assert(out@ =~= spec_format_bar(num@, den@, length as nat));
    } else if den.mantissa == 0 {
        push_repeat(&mut out, '\u{2588}', length);
        assert(out@ =~= spec_format_bar(num@, den@, length as nat));
    } else if ratio_ge(num.mantissa, num.exp, den.mantissa, den.exp) {
        push_repeat(&mut out, '\u{2588}', length);
        assert(out@ =~= spec_format_bar(num@, den@, length as nat));
    } else {
        let ghost x = ratio_num(num@.mantissa, num@.exp, den@.mantissa, den@.exp);
        let ghost m = ratio_den(num@.mantissa, num@.exp, den@.mantissa, den@.exp);
        let len64: u64 = length as u64;
        let c8: u128 = bar_eighths(num, den, length);
        assert(c8 as nat == spec_eighths(x, m, length as nat));
        let mut i: usize = 0;
        while i < length
            invariant
                i <= length,
                c8 as nat == spec_eighths(x, m, length as nat),
                x == ratio_num(num@.mantissa, num@.exp, den@.mantissa, den@.exp),
                m == ratio_den(num@.mantissa, num@.exp, den@.mantissa, den@.exp),
                out@ == Seq::new(
                    i as nat,
                    |j: int| bar_glyph(bar_level(spec_eighths(x, m, length as nat) as int, j)),
                ),
            decreases length - i,
        {
            let e8: u128 = 8 * (i as u128);
            let lv: u64 = if c8 >= e8 + 8 {
                8
            } else if c8 <= e8 {
                0
            } else {
                (c8 - e8) as u64
            };
            assert(lv as int == bar_level(c8 as int, i as int));
            out.push(bar_glyph_of(lv));
            proof {
                assert(out@ =~= Seq::new(
                    (i + 1) as nat,
                    |j: int| bar_glyph(bar_level(spec_eighths(x, m, length as nat) as int, j)),
                ));
            }
            i = i + 1;
        }
        assert(out@ =~= spec_format_bar(num@, den@, length as nat));
    }
    let r = chars_to_string(out);
    r
}

/// Computes `floor(8 * length * num / den)` for a ratio strictly between
/// zero and one.  When the denominator is too large for a machine word the
/// result is zero, because the numerator product is bounded by `10^38`.
fn bar_eighths(num: &Decimal, den: &Decimal, length: usize) -> (c8: u128)
    requires
        num@.inv(),
        den@.inv(),
        1 <= num@.mantissa,
        1 <= den@.mantissa,
        ratio_num(num@.mantissa, num@.exp, den@.mantissa, den@.exp) < ratio_den(
            num@.mantissa,
            num@.exp,
            den@.mantissa,
            den@.exp,
        ),
    ensures
        c8 as nat == spec_eighths(
            ratio_num(num@.mantissa, num@.exp, den@.mantissa, den@.exp),
            ratio_den(num@.mantissa, num@.exp, den@.mantissa, den@.exp),
            length as nat,
        ),
{
    proof {
        lemma_pow10_concrete();
    }
    let ghost x = ratio_num(num@.mantissa, num@.exp, den@.mantissa, den@.exp);
    let ghost m = ratio_den(num@.mantissa, num@.exp, den@.mantissa, den@.exp);
    let len128: u128 = (length as u64) as u128;
    if num.exp >= den.exp {
        // x = nm * 10^sh < m = dm < 10^17, so the shift is small and
        // everything fits comfortably.
        let sh64 = ((num.exp as i64) - (den.exp as i64)) as u64;
        proof {
            lemma_pow10_pos(sh64 as nat);
            assert(m == den@.mantissa);
            assert(x >= pow10(sh64 as nat)) by (nonlinear_arith)
                requires
                    x == num@.mantissa * pow10(sh64 as nat),
                    num@.mantissa >= 1,
                    pow10(sh64 as nat) >= 1,
            ;
            if sh64 > 17 {
                lemma_pow10_increases(18, sh64 as nat);
                assert(pow10(18) == 10 * pow10(17));
                assert(false);
            }
            lemma_mul_bound_8xl(x, len128 as nat);
        }
        let xx: u128 = (num.mantissa as u128) * pow10_u128(sh64 as usize);
        assert(xx as nat == x);
        let t: u128 = 8 * xx * len128;
        assert(t as nat == 8 * x * (length as nat));
        let c8 = t / (den.mantissa as u128);
        c8
    } else {
        let sh64 = ((den.exp as i64) - (num.exp as i64)) as u64;
        proof {
            assert(x == num@.mantissa);
            lemma_pow10_pos(sh64 as nat);
            lemma_mul_bound_8xl(x, len128 as nat);
        }
        if sh64 >= 38 {
            proof {
                lemma_pow10_increases(38, sh64 as nat);
                assert(m >= pow10(sh64 as nat)) by (nonlinear_arith)
                    requires
                        m == den@.mantissa * pow10(sh64 as nat),
                        den@.mantissa >= 1,
                        pow10(sh64 as nat) >= 1,
                ;
                vstd::arithmetic::div_mod::lemma_basic_div(
                    (8 * x * (length as nat)) as int,
                    m as int,
                );
            }
            0
        } else {
            let pw: u128 = pow10_u128(sh64 as usize);
            if (den.mantissa as u128) > u128::MAX / pw {
                proof {
                    vstd::arithmetic::div_mod::lemma_fundamental_div_mod(
                        u128::MAX as int,
                        pw as int,
                    );
                    let q = (u128::MAX as int) / (pw as int);
                    assert((q + 1) * (pw as int) > u128::MAX as int) by (nonlinear_arith)
                        requires
                            u128::MAX as int == (pw as int) * q + (u128::MAX as int) % (pw as int),
                            (u128::MAX as int) % (pw as int) < pw as int,
                    ;
                    assert(m > u128::MAX as nat) by (nonlinear_arith)
                        requires
                            m == den@.mantissa * (pw as nat),
                            den@.mantissa >= q + 1,
                            q >= 0,
                            pw >= 1,
                            (q + 1) * (pw as int) > u128::MAX as int,
                    ;
                    vstd::arithmetic::div_mod::lemma_basic_div(
                        (8 * x * (length as nat)) as int,
                        m as int,
                    );
                }
                0
            } else {
                proof {
                    vstd::arithmetic::div_mod::lemma_fundamental_div_mod(
                        u128::MAX as int,
                        pw as int,
                    );
                    let q = (u128::MAX as int) / (pw as int);
                    assert((den.mantissa as int) * (pw as int) <= q * (pw as int))
                        by (nonlinear_arith)
                        requires
                            den.mantissa as int <= q,
                            pw >= 1,
                            den.mantissa as int >= 0,
                    ;
                }
                let mm: u128 = (den.mantissa as u128) * pw;
                assert(mm as nat == m);
                let t: u128 = 8 * (num.mantissa as u128) * len128;
                assert(t as nat == 8 * x * (length as nat));
                let c8 = t / mm;
                c8
            }
        }
    }
}

/// `8 * x * len` stays far below `10^38` when `x < 10^17`.
proof fn lemma_mul_bound_8xl(x: nat, len: nat)
    requires
        x < pow10(17),
        len < 0x1_0000_0000_0000_0000,
    ensures
        8 * x * len < pow10(38),
        8 * x * len <= u128::MAX,
{
    lemma_pow10_concrete();
    assert(8 * x * len < pow10(38)) by (nonlinear_arith)
        requires
            x < pow10(17),
            len < 0x1_0000_0000_0000_0000,
            pow10(17) == 100_000_000_000_000_000,
            pow10(38) == 100_000_000_000_000_000_000_000_000_000_000_000_000,
    ;
}

} // verus!
