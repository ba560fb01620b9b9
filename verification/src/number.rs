//! SI-scaled rendering of decimal numbers.
//!
//! `format_number` picks the largest power-of-1000 suffix that minimises the
//! integer part of the scaled value (floored at a caller-given minimum suffix
//! and capped at Tera), then spends whatever remains of `min_width` on
//! fractional digits.

use vstd::prelude::*;

use crate::decimal::half_even;
use crate::decimal::DecModel;
use crate::decimal::Decimal;
use crate::decimal::MANTISSA_LIMIT;
use crate::digits::count_digits;
use crate::digits::dec_str;
use crate::digits::digits10;
use crate::digits::digits10_u64;
use crate::digits::lemma_dec_str_len;
use crate::digits::lemma_dec_str_mul_pow10;
use crate::digits::lemma_digits10_at_most;
use crate::digits::lemma_pow10_adds;
use crate::digits::lemma_pow10_concrete;
use crate::digits::lemma_pow10_increases;
use crate::digits::lemma_pow10_pos;
use crate::digits::pow10;
use crate::digits::pow10_u64;
use crate::digits::push_decimal;
use crate::digits::push_repeat;
use crate::digits::repeat_char;
use crate::suffix::suffix_for_level;
use crate::suffix::suffix_level;
use crate::suffix::suffix_of_level;
use crate::suffix::suffix_symbol;
use crate::suffix::Suffix;
use crate::text::chars_to_string;

verus! {

/// The floor of the base-10 logarithm of `m * 10^e`, for `m > 0`.
pub open spec fn floor_log10(m: nat, e: int) -> int {
    digits10(m) as int - 1 + e
}

/// Clamps an exponent level into `[lo, 4]` (4 is Tera, the largest suffix).
pub open spec fn clamp_level(x: int, lo: int) -> int {
    if x < lo {
        lo
    } else if x > 4 {
        4
    } else {
        x
    }
}

/// The exponent level `format_number` selects: the floor of a third of the
/// magnitude, clamped into `[min_level, 4]`.  A zero value has no magnitude
/// and falls to the floor; a negative value has no defined magnitude and is
/// treated as level 0 before clamping.
pub open spec fn spec_exp_level(d: DecModel, min_level: int) -> int {
    if d.mantissa == 0 {
        min_level
    } else if d.neg {
        clamp_level(0, min_level)
    } else {
        clamp_level(floor_log10(d.mantissa, d.exp) / 3, min_level)
    }
}

/// The integer-part digit count of the scaled value `m * 10^p` (at least 1;
/// 1 for zero and for negative values, whose magnitude is undefined).
pub open spec fn spec_digits(d: DecModel, p: int) -> int {
    if d.mantissa == 0 || d.neg {
        1
    } else if digits10(d.mantissa) as int + p < 1 {
        1
    } else {
        digits10(d.mantissa) as int + p
    }
}

/// `s` left-padded with zeros to `d` characters.
pub open spec fn pad_zeros(s: Seq<char>, d: nat) -> Seq<char> {
    if s.len() >= d {
        s
    } else {
        repeat_char('0', (d - s.len()) as nat) + s
    }
}

/// `m * 10^p` rounded (half-to-even) to `d` decimal places, as the integer
/// `round(m * 10^(p+d))`.
pub open spec fn spec_round(m: nat, p: int, d: nat) -> nat {
    if p + d >= 0 {
        m * pow10((p + d) as nat)
    } else {
        half_even(m, pow10((-(p + d)) as nat))
    }
}

/// The unsigned decimal rendering of `m * 10^p` with exactly `d` digits
/// after the point (no point at all when `d == 0`).
pub open spec fn spec_render_udec(m: nat, p: int, d: nat) -> Seq<char> {
    let n = spec_round(m, p, d);
    let ip = n / pow10(d);
    let fp = n % pow10(d);
    if d == 0 {
        dec_str(ip)
    } else {
        dec_str(ip) + seq!['.'] + pad_zeros(dec_str(fp), d)
    }
}

/// The rendering of `(-1)^neg * m * 10^p` with `d` decimal places.
pub open spec fn spec_render(neg: bool, m: nat, p: int, d: nat) -> Seq<char> {
    if neg {
        seq!['-'] + spec_render_udec(m, p, d)
    } else {
        spec_render_udec(m, p, d)
    }
}

/// Everything `format_number` prints before the suffix symbol: the scaled
/// value with as many decimal places as the width budget allows, and a bare
/// trailing point when exactly one character is left over.
pub open spec fn spec_number_body(d: DecModel, min_width: int, min_suffix: Suffix) -> Seq<char> {
    let lvl = spec_exp_level(d, suffix_level(min_suffix));
    let p = d.exp - 3 * lvl;
    let digits = spec_digits(d, p);
    if min_width <= digits {
        spec_render(d.neg, d.mantissa, p, 0)
    } else if min_width == digits + 1 {
        spec_render(d.neg, d.mantissa, p, 0) + seq!['.']
    } else {
        spec_render(d.neg, d.mantissa, p, (min_width - digits - 1) as nat)
    }
}

/// The full result of `format_number`: the body followed by the symbol of
/// the selected suffix.
pub open spec fn spec_format_number(d: DecModel, min_width: int, min_suffix: Suffix) -> Seq<
    char,
> {
    spec_number_body(d, min_width, min_suffix) + suffix_symbol(
        suffix_of_level(spec_exp_level(d, suffix_level(min_suffix))),
    )
}

/// Floor division by three on machine integers.
fn floor_div3(x: i64) -> (q: i64)
    requires
        -0x4000_0000_0000_0000 <= x <= 0x4000_0000_0000_0000,
    ensures
        q == (x as int) / 3,
{
    if x >= 0 {
        let q = ((x as u64) / 3) as i64;
        proof {
            vstd::arithmetic::div_mod::lemma_fundamental_div_mod(x as int, 3);
        }
        q
    } else {
        let a = (-x) as u64;
        let g = (a + 2) / 3;
        proof {
            vstd::arithmetic::div_mod::lemma_fundamental_div_mod(a as int, 3);
            vstd::arithmetic::div_mod::lemma_fundamental_div_mod_converse(
                x as int,
                3,
                -(g as int),
                3 * (g as int) - (a as int),
            );
        }
        -(g as i64)
    }
}

/// Appends `d` zeros, the first one preceded by a point: the whole zero
/// fraction, `pad_zeros(dec_str(0), d)`.
fn push_zero_fraction(out: &mut Vec<char>, d: usize)
    requires
        d >= 1,
    ensures
        final (out)@ == old(out)@ + seq!['.'] + pad_zeros(dec_str(0), d as nat),
{
    out.push('.');
    push_repeat(out, '0', d - 1);
    out.push('0');
    assert(out@ =~= old(out)@ + seq!['.'] + (repeat_char('0', (d - 1) as nat) + seq!['0']));
    assert(pad_zeros(dec_str(0), d as nat) =~= repeat_char('0', (d - 1) as nat) + seq!['0']);
}

/// Renders zero: `"0"`, or `"0.00...0"` with `d` zeros.
fn push_udec_zero(out: &mut Vec<char>, d: usize, Ghost(p): Ghost<int>)
    ensures
        final (out)@ == old(out)@ + spec_render_udec(0, p, d as nat),
{
    proof {
        lemma_pow10_pos(d as nat);
        lemma_round_zero(p, d as nat);
    }
    out.push('0');
    if d > 0 {
        push_zero_fraction(out, d);
    }
    assert(out@ =~= old(out)@ + spec_render_udec(0, p, d as nat));
}

/// Renders `m * 10^p` for positive `m` and `p >= 0`: the digits of `m`,
/// `p` zeros, and a zero fraction of `d` digits.
fn push_udec_scale_up(out: &mut Vec<char>, m: u64, p: usize, d: usize)
    requires
        1 <= m < MANTISSA_LIMIT,
    ensures
        final (out)@ == old(out)@ + spec_render_udec(m as nat, p as int, d as nat),
{
    proof {
        lemma_pow10_pos(d as nat);
        lemma_pow10_pos(p as nat);
        lemma_pow10_adds(p as nat, d as nat);
        assert((m as nat) * pow10((p + d) as nat) == ((m as nat) * pow10(p as nat)) * pow10(
            d as nat,
        )) by (nonlinear_arith)
            requires
                pow10((p + d) as nat) == pow10(p as nat) * pow10(d as nat),
        ;
        lemma_mul_div_exact((m as nat) * pow10(p as nat), pow10(d as nat));
        lemma_dec_str_mul_pow10(m as nat, p as nat);
    }
    push_decimal(out, m);
    push_repeat(out, '0', p);
    if d > 0 {
        push_zero_fraction(out, d);
    }
    assert(out@ =~= old(out)@ + spec_render_udec(m as nat, p as int, d as nat));
}

/// Renders `m * 10^(-k)` with `d >= k` decimal places: no digit is dropped;
/// the low `k` digits of `m` open the fraction and zeros fill the rest.
fn push_udec_exact(out: &mut Vec<char>, m: u64, k: usize, d: usize)
    requires
        1 <= m < MANTISSA_LIMIT,
        1 <= k <= d,
    ensures
        final (out)@ == old(out)@ + spec_render_udec(m as nat, -(k as int), d as nat),
{
    proof {
        lemma_pow10_concrete();
        lemma_pow10_pos(d as nat);
        lemma_pow10_pos(k as nat);
        lemma_render_exact_split(m as nat, k as nat, d as nat);
        assert(((d as int) - (k as int)) == (d - k) as int);
    }
    let (q, r) = if k <= 19 {
        let t = pow10_u64(k);
        proof {
            lemma_pow10_pos(k as nat);
        }
        (m / t, m % t)
    } else {
        proof {
            lemma_pow10_increases(18, k as nat);
            vstd::arithmetic::div_mod::lemma_basic_div(m as int, pow10(k as nat) as int);
            vstd::arithmetic::div_mod::lemma_small_mod(m as nat, pow10(k as nat));
        }
        (0u64, m)
    };
    let ghost n = spec_round(m as nat, -(k as int), d as nat);
    assert(n == (m as nat) * pow10((d - k) as nat));
    assert(n / pow10(d as nat) == q as nat);
    assert(n % pow10(d as nat) == (r as nat) * pow10((d - k) as nat));
    push_decimal(out, q);
    out.push('.');
    if r == 0 {
        push_repeat(out, '0', d - 1);
        out.push('0');
        assert((0 as nat) * pow10((d - k) as nat) == 0);
        assert(pad_zeros(dec_str(0), d as nat) =~= repeat_char('0', (d - 1) as nat) + seq!['0']);
    } else {
        let dr = digits10_u64(r);
        proof {
            lemma_digits10_at_most(r as nat, k as nat);
            lemma_dec_str_mul_pow10(r as nat, (d - k) as nat);
            lemma_dec_str_len(r as nat);
            lemma_dec_str_len((r as nat) * pow10((d - k) as nat));
        }
        push_repeat(out, '0', k - dr);
        push_decimal(out, r);
        push_repeat(out, '0', d - k);
        assert(pad_zeros(dec_str((r as nat) * pow10((d - k) as nat)), d as nat) =~= repeat_char(
            '0',
            (k - dr) as nat,
        ) + dec_str(r as nat) + repeat_char('0', (d - k) as nat));
    }
    assert(out@ =~= old(out)@ + spec_render_udec(m as nat, -(k as int), d as nat));
}

/// Renders `m * 10^(-k)` with `d < k` decimal places: the low `k - d` digits
/// of `m` are dropped, rounding half-to-even.
fn push_udec_round(out: &mut Vec<char>, m: u64, k: usize, d: usize)
    requires
        1 <= m < MANTISSA_LIMIT,
        d < k,
    ensures
        final (out)@ == old(out)@ + spec_render_udec(m as nat, -(k as int), d as nat),
{
    proof {
        lemma_pow10_concrete();
        lemma_pow10_pos(d as nat);
        assert(((d as int) - (k as int)) < 0);
        assert((-((d as int) - (k as int))) == (k - d) as int);
    }
    let drop = k - d;
    let n: u64 = if drop >= 18 {
        proof {
            lemma_pow10_increases(18, drop as nat);
            lemma_pow10_pos(drop as nat);
            vstd::arithmetic::div_mod::lemma_basic_div(m as int, pow10(drop as nat) as int);
            vstd::arithmetic::div_mod::lemma_small_mod(m as nat, pow10(drop as nat));
            assert(pow10(18) == 10 * pow10(17));
        }
        0
    } else {
        let t = pow10_u64(drop);
        proof {
            lemma_pow10_pos(drop as nat);
            lemma_pow10_increases(drop as nat, 17);
        }
        let q = m / t;
        let r = m % t;
        proof {
            vstd::arithmetic::div_mod::lemma_fundamental_div_mod(m as int, t as int);
            assert(10 * (q as int) <= (t as int) * (q as int)) by (nonlinear_arith)
                requires
                    t >= 10,
                    q >= 0,
            ;
        }
        if 2 * r > t || (2 * r == t && q % 2 == 1) {
            q + 1
        } else {
            q
        }
    };
    assert(n as nat == spec_round(m as nat, -(k as int), d as nat));
    assert(n < MANTISSA_LIMIT);
    if d == 0 {
        proof {
            vstd::arithmetic::div_mod::lemma_fundamental_div_mod(n as int, 1);
        }
        push_decimal(out, n);
        assert(out@ =~= old(out)@ + spec_render_udec(m as nat, -(k as int), d as nat));
    } else {
        let (ip, fp) = if d <= 19 {
            let t2 = pow10_u64(d);
            proof {
                lemma_pow10_pos(d as nat);
            }
            (n / t2, n % t2)
        } else {
            proof {
                lemma_pow10_increases(18, d as nat);
                vstd::arithmetic::div_mod::lemma_basic_div(n as int, pow10(d as nat) as int);
                vstd::arithmetic::div_mod::lemma_small_mod(n as nat, pow10(d as nat));
            }
            (0u64, n)
        };
        push_decimal(out, ip);
        out.push('.');
        if fp == 0 {
            push_repeat(out, '0', d - 1);
            out.push('0');
            assert(pad_zeros(dec_str(0), d as nat) =~= repeat_char('0', (d - 1) as nat) + seq![
                '0',
            ]);
        } else {
            let df = digits10_u64(fp);
            proof {
                lemma_digits10_at_most(fp as nat, d as nat);
                lemma_dec_str_len(fp as nat);
            }
            push_repeat(out, '0', d - df);
            push_decimal(out, fp);
            assert(pad_zeros(dec_str(fp as nat), d as nat) =~= repeat_char('0', (d - df) as nat)
                + dec_str(fp as nat));
        }
        assert(out@ =~= old(out)@ + spec_render_udec(m as nat, -(k as int), d as nat));
    }
}

/// Appends the rendering of `(-1)^neg * m * 10^p` with `d` decimal places.
fn push_render(out: &mut Vec<char>, neg: bool, m: u64, p: i64, d: usize)
    requires
        m < MANTISSA_LIMIT,
        -1_100_000_000 <= p <= 1_100_000_000,
    ensures
        final (out)@ == old(out)@ + spec_render(neg, m as nat, p as int, d as nat),
{
    if neg {
        out.push('-');
    }
    if m == 0 {
        push_udec_zero(out, d, Ghost(p as int));
    } else if p >= 0 {
        push_udec_scale_up(out, m, p as usize, d);
    } else {
        let k = ((-p) as u64) as usize;
        if k <= d {
            push_udec_exact(out, m, k, d);
        } else {
            push_udec_round(out, m, k, d);
        }
    }
    assert(out@ =~= old(out)@ + spec_render(neg, m as nat, p as int, d as nat));
}

/// Rounding zero gives zero, whatever the scale.
proof fn lemma_round_zero(p: int, d: nat)
    ensures
        spec_round(0, p, d) == 0,
        spec_round(0, p, d) / pow10(d) == 0,
        spec_round(0, p, d) % pow10(d) == 0,
{
    lemma_pow10_pos(d);
    if p + d >= 0 {
        assert(0 * pow10((p + d) as nat) == 0);
    } else {
        let t = pow10((-(p + d)) as nat);
        lemma_pow10_pos((-(p + d)) as nat);
        vstd::arithmetic::div_mod::lemma_basic_div(0, t as int);
        vstd::arithmetic::div_mod::lemma_small_mod(0, t);
    }
    vstd::arithmetic::div_mod::lemma_basic_div(0, pow10(d) as int);
    vstd::arithmetic::div_mod::lemma_small_mod(0, pow10(d));
}

/// `(a * t) / t == a` and `(a * t) % t == 0` for positive `t`.
proof fn lemma_mul_div_exact(a: nat, t: nat)
    requires
        t > 0,
    ensures
        (a * t) / t == a,
        (a * t) % t == 0,
{
    vstd::arithmetic::div_mod::lemma_fundamental_div_mod_converse(
        (a * t) as int,
        t as int,
        a as int,
        0,
    );
}

/// Splitting `m` at digit `k` describes the rendering of `m * 10^(d-k)`
/// with `d` decimal places: integer part `m / 10^k`, fraction numerator
/// `(m % 10^k) * 10^(d-k)`.
proof fn lemma_render_exact_split(m: nat, k: nat, d: nat)
    requires
        k <= d,
    ensures
        (m * pow10((d - k) as nat)) / pow10(d) == m / pow10(k),
        (m * pow10((d - k) as nat)) % pow10(d) == (m % pow10(k)) * pow10((d - k) as nat),
{
    let q = m / pow10(k);
    let r = m % pow10(k);
    lemma_pow10_pos(k);
    lemma_pow10_pos(d);
    lemma_pow10_pos((d - k) as nat);
    vstd::arithmetic::div_mod::lemma_fundamental_div_mod(m as int, pow10(k) as int);
    lemma_pow10_adds(k, (d - k) as nat);
    assert(m * pow10((d - k) as nat) == q * pow10(d) + r * pow10((d - k) as nat))
        by (nonlinear_arith)
        requires
            m == pow10(k) * q + r,
            pow10(d) == pow10(k) * pow10((d - k) as nat),
    ;
    assert(r * pow10((d - k) as nat) < pow10(d)) by (nonlinear_arith)
        requires
            r < pow10(k),
            pow10((d - k) as nat) > 0,
            pow10(d) == pow10(k) * pow10((d - k) as nat),
    ;
    vstd::arithmetic::div_mod::lemma_fundamental_div_mod_converse(
        (m * pow10((d - k) as nat)) as int,
        pow10(d) as int,
        q as int,
        (r * pow10((d - k) as nat)) as int,
    );
}

/// Renders a decimal number as `"<scaled value><suffix symbol>"`, choosing
/// the largest power-of-1000 suffix between `min_suffix` and Tera that
/// minimises the integer part, then filling the remaining width budget with
/// fractional digits (a bare trailing point when exactly one column is
/// left).
pub fn format_number(value: &Decimal, min_width: usize, min_suffix: &Suffix) -> (r: String)
    requires
        value@.bounded(),
    ensures
        r@ == spec_format_number(value@, min_width as int, *min_suffix),
{
    let min_level = min_suffix.level();
    let m = value.mantissa;
    let neg = value.neg;
    let lvl: i64 = if m == 0 {
        min_level as i64
    } else if neg {
        if min_level > 0 {
            min_level as i64
        } else {
            0
        }
    } else {
        let dg = digits10_u64(m);
        let fl: i64 = dg as i64 - 1 + value.exp as i64;
        let q = floor_div3(fl);
        if q < min_level as i64 {
            min_level as i64
        } else if q > 4 {
            4
        } else {
            q
        }
    };
    assert(lvl == spec_exp_level(value@, suffix_level(*min_suffix)));
    let p: i64 = value.exp as i64 - 3 * lvl;
    let digits: usize = if m == 0 || neg {
        1
    } else {
        let dg = digits10_u64(m);
        let t: i64 = dg as i64 + p;
        if t < 1 {
            1
        } else {
            t as usize
        }
    };
    assert(digits as int == spec_digits(value@, p as int));
    let mut out: Vec<char> = Vec::new();
    if min_width <= digits {
        push_render(&mut out, neg, m, p, 0);
    } else if min_width == digits + 1 {
        push_render(&mut out, neg, m, p, 0);
        out.push('.');
        assert(out@ =~= spec_render(value@.neg, value@.mantissa, p as int, 0) + seq!['.']);
    } else {
        push_render(&mut out, neg, m, p, min_width - digits - 1);
    }
    assert(out@ == spec_number_body(value@, min_width as int, *min_suffix));
    let sfx = suffix_for_level(lvl);
    sfx.push_symbol(&mut out);
    let r = chars_to_string(out);
    proof {
        assert(r@ =~= spec_format_number(value@, min_width as int, *min_suffix));
    }
    r
}

/// The decimal-place budget `format_number` spends after the integer part.
pub open spec fn spec_number_decimals(d: DecModel, min_width: int, min_suffix: Suffix) -> nat {
    let digits = spec_digits(d, d.exp - 3 * spec_exp_level(d, suffix_level(min_suffix)));
    if min_width <= digits + 1 {
        0
    } else {
        (min_width - digits - 1) as nat
    }
}

/// The integer part `format_number` prints (after rounding).
pub open spec fn spec_number_int_part(d: DecModel, min_width: int, min_suffix: Suffix) -> nat {
    let p = d.exp - 3 * spec_exp_level(d, suffix_level(min_suffix));
    let db = spec_number_decimals(d, min_width, min_suffix);
    spec_round(d.mantissa, p, db) / pow10(db)
}

/// The rendering of `m * 10^p` with `dd` decimals carries exactly the
/// integer part's digits plus `dd` digit characters.
proof fn lemma_count_digits_udec(m: nat, p: int, dd: nat)
    ensures
        count_digits(spec_render_udec(m, p, dd)) == dec_str(spec_round(m, p, dd) / pow10(dd)).len()
            + dd,
{
    lemma_pow10_pos(dd);
    let n = spec_round(m, p, dd);
    let ip = n / pow10(dd);
    let fp = n % pow10(dd);
    crate::digits::lemma_dec_str_count_digits(ip);
    assert(count_digits(Seq::<char>::empty()) == 0);
    if dd > 0 {
        assert(0 <= fp < pow10(dd));
        lemma_digits10_at_most(fp, dd);
        lemma_dec_str_len(fp);
        crate::digits::lemma_dec_str_count_digits(fp);
        let pad = repeat_char('0', (dd - dec_str(fp).len()) as nat);
        crate::digits::lemma_count_digits_repeat('0', (dd - dec_str(fp).len()) as nat);
        crate::digits::lemma_count_digits_concat(pad, dec_str(fp));
        assert(seq!['.'].drop_last() =~= Seq::<char>::empty());
        crate::digits::lemma_count_digits_concat(dec_str(ip), seq!['.']);
        crate::digits::lemma_count_digits_concat(dec_str(ip) + seq!['.'], pad_zeros(dec_str(fp), dd));
        assert(pad_zeros(dec_str(fp), dd) == pad + dec_str(fp));
    }
}

/// The value rounded to `dd` decimals stays within the magnitude its digit
/// count predicts: `round(m * 10^(p+dd)) <= 10^(digits + dd)`.
proof fn lemma_round_magnitude(m: nat, p: int, dd: nat, digits: int)
    requires
        m >= 1,
        digits10(m) as int + p <= digits,
        digits >= 1,
    ensures
        spec_round(m, p, dd) <= pow10((digits + dd) as nat),
{
    crate::digits::lemma_digits10_bounds(m);
    if p + dd >= 0 {
        lemma_pow10_pos((p + dd) as nat);
        lemma_pow10_adds((p + dd) as nat, digits10(m));
        lemma_pow10_increases((digits10(m) as int + p + dd) as nat, (digits + dd) as nat);
        assert(m * pow10((p + dd) as nat) < pow10(digits10(m)) * pow10((p + dd) as nat))
            by (nonlinear_arith)
            requires
                m < pow10(digits10(m)),
                pow10((p + dd) as nat) >= 1,
        ;
        assert(pow10(digits10(m)) * pow10((p + dd) as nat) == pow10(
            (digits10(m) as int + p + dd) as nat,
        )) by {
            lemma_pow10_adds(digits10(m), (p + dd) as nat);
        }
    } else {
        let b = (-(p + dd)) as nat;
        let t = pow10(b);
        lemma_pow10_pos(b);
        let q = m / t;
        vstd::arithmetic::div_mod::lemma_fundamental_div_mod(m as int, t as int);
        if digits10(m) >= b {
            let a = (digits10(m) - b) as nat;
            lemma_pow10_adds(b, a);
            assert(q < pow10(a)) by (nonlinear_arith)
                requires
                    m == t * q + m % t,
                    m % t >= 0,
                    m < pow10(b) * pow10(a),
                    t == pow10(b),
                    t > 0,
                    q >= 0,
            ;
            lemma_pow10_pos(a);
            lemma_pow10_increases(a, (digits + dd) as nat);
            assert(half_even(m, t) <= q + 1);
        } else {
            lemma_pow10_increases(digits10(m), b);
            vstd::arithmetic::div_mod::lemma_basic_div(m as int, t as int);
            lemma_pow10_pos((digits + dd) as nat);
            assert(half_even(m, t) <= 1);
        }
    }
}

/// Law: `format_number` never prints more digit characters before the
/// suffix than `min_width` allows, except that the integer part is always
/// printed whole; the count is bounded by the larger of `min_width` and the
/// integer part's own length.
pub proof fn lemma_number_width(d: DecModel, min_width: int, min_suffix: Suffix)
    requires
        d.inv(),
        !d.neg,
        min_width >= 1,
    ensures
        count_digits(spec_number_body(d, min_width, min_suffix)) <= (if min_width >= dec_str(
            spec_number_int_part(d, min_width, min_suffix),
        ).len() as int {
            min_width
        } else {
            dec_str(spec_number_int_part(d, min_width, min_suffix)).len() as int
        }),
{
    let lvl = spec_exp_level(d, suffix_level(min_suffix));
    let p = d.exp - 3 * lvl;
    let m = d.mantissa;
    let digits = spec_digits(d, p);
    let db = spec_number_decimals(d, min_width, min_suffix);
    let n = spec_round(m, p, db);
    let ip = n / pow10(db);
    lemma_count_digits_udec(m, p, db);
    lemma_dec_str_len(ip);
    lemma_pow10_pos(db);
    if min_width == digits + 1 {
        assert(seq!['.'].drop_last() =~= Seq::<char>::empty());
        assert(count_digits(Seq::<char>::empty()) == 0);
        assert(count_digits(seq!['.']) == 0);
        crate::digits::lemma_count_digits_concat(spec_render_udec(m, p, 0), seq!['.']);
        assert(count_digits(spec_number_body(d, min_width, min_suffix)) == count_digits(
            spec_render_udec(m, p, 0),
        ));
    }
    assert(count_digits(spec_render_udec(m, p, db)) == dec_str(ip).len() + db);
    if m == 0 {
        lemma_round_zero(p, db);
        assert(dec_str(0).len() == 1);
    } else {
        lemma_round_magnitude(m, p, db, digits);
        assert(ip <= pow10(digits as nat)) by {
            lemma_pow10_adds(digits as nat, db);
            lemma_mul_div_exact(pow10(digits as nat), pow10(db));
            vstd::arithmetic::div_mod::lemma_div_is_ordered(
                n as int,
                (pow10(digits as nat) * pow10(db)) as int,
                pow10(db) as int,
            );
        }
        assert(pow10((digits + 1) as nat) == 10 * pow10(digits as nat));
        lemma_pow10_pos(digits as nat);
        lemma_digits10_at_most(ip, (digits + 1) as nat);
        assert(dec_str(ip).len() <= digits + 1);
    }
    if min_width <= digits {
        assert(count_digits(spec_number_body(d, min_width, min_suffix)) == dec_str(ip).len());
    } else if min_width == digits + 1 {
        assert(count_digits(spec_number_body(d, min_width, min_suffix)) <= min_width);
    } else {
        assert(db == min_width - digits - 1);
        assert(count_digits(spec_number_body(d, min_width, min_suffix)) <= min_width);
    }
}

/// Law: `format_number` is monotonic in scale.  Scaling a positive value by
/// 1000 moves the chosen suffix up exactly one level, provided the value's
/// own magnitude chose the suffix (the minimum-suffix floor was not hit)
/// and the level is not already clamped at Tera.  A value whose magnitude
/// lies below the floor keeps the floor's suffix instead.
pub proof fn lemma_scale_shifts_suffix(d: DecModel, scaled: DecModel, min_suffix: Suffix)
    requires
        !d.neg,
        d.mantissa > 0,
        scaled == (DecModel { neg: d.neg, mantissa: d.mantissa, exp: d.exp + 3 }),
        suffix_level(min_suffix) <= floor_log10(d.mantissa, d.exp) / 3,
        spec_exp_level(d, suffix_level(min_suffix)) < 4,
    ensures
        spec_exp_level(scaled, suffix_level(min_suffix)) == spec_exp_level(
            d,
            suffix_level(min_suffix),
        ) + 1,
        suffix_of_level(spec_exp_level(scaled, suffix_level(min_suffix))) == suffix_of_level(
            spec_exp_level(d, suffix_level(min_suffix)) + 1,
        ),
{
    let fl = floor_log10(d.mantissa, d.exp);
    vstd::arithmetic::div_mod::lemma_div_plus_one(fl, 3);
    assert(floor_log10(d.mantissa, d.exp + 3) == fl + 3);
    assert((fl + 3) / 3 == fl / 3 + 1);
}

} // verus!
