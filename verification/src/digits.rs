//! Decimal digit strings and powers of ten.
//!
//! Spec-level notation for the decimal rendering of natural numbers, and the
//! verified executable routines that produce those digit sequences.

use vstd::prelude::*;

verus! {

/// 10 to the power `e`.
pub open spec fn pow10(e: nat) -> nat
    decreases e,
{
    if e == 0 {
        1
    } else {
        10 * pow10((e - 1) as nat)
    }
}

/// The number of digits in the decimal notation of `n` (one digit for 0).
pub open spec fn digits10(n: nat) -> nat
    decreases n,
{
    if n < 10 {
        1
    } else {
        1 + digits10(n / 10)
    }
}

/// The character for the decimal digit `d`.
pub open spec fn digit_char(d: nat) -> char {
    if d == 0 {
        '0'
    } else if d == 1 {
        '1'
    } else if d == 2 {
        '2'
    } else if d == 3 {
        '3'
    } else if d == 4 {
        '4'
    } else if d == 5 {
        '5'
    } else if d == 6 {
        '6'
    } else if d == 7 {
        '7'
    } else if d == 8 {
        '8'
    } else {
        '9'
    }
}

/// The decimal notation of `n`: most significant digit first, no sign, no
/// leading zeros (except the single digit of 0 itself).
pub open spec fn dec_str(n: nat) -> Seq<char>
    decreases n,
{
    if n < 10 {
        seq![digit_char(n)]
    } else {
        dec_str(n / 10).push(digit_char(n % 10))
    }
}

/// `n` copies of the character `c`.
pub open spec fn repeat_char(c: char, n: nat) -> Seq<char> {
    Seq::new(n, |i: int| c)
}

/// Whether `c` is a decimal digit character.
pub open spec fn is_digit(c: char) -> bool {
    c == '0' || c == '1' || c == '2' || c == '3' || c == '4' || c == '5' || c == '6' || c == '7'
        || c == '8' || c == '9'
}

/// How many characters of `s` are decimal digits.
pub open spec fn count_digits(s: Seq<char>) -> nat
    decreases s.len(),
{
    if s.len() == 0 {
        0
    } else {
        count_digits(s.drop_last()) + (if is_digit(s.last()) {
            1nat
        } else {
            0nat
        })
    }
}

pub proof fn lemma_pow10_pos(e: nat)
    ensures
        pow10(e) >= 1,
    decreases e,
{
    if e > 0 {
        lemma_pow10_pos((e - 1) as nat);
    }
}

pub proof fn lemma_pow10_adds(a: nat, b: nat)
    ensures
        pow10(a + b) == pow10(a) * pow10(b),
    decreases a,
{
    if a == 0 {
    } else {
        lemma_pow10_adds((a - 1) as nat, b);
        assert((a + b - 1) as nat == (a - 1) as nat + b);
        assert(10 * (pow10((a - 1) as nat) * pow10(b)) == (10 * pow10((a - 1) as nat)) * pow10(b))
            by (nonlinear_arith);
    }
}

pub proof fn lemma_pow10_increases(a: nat, b: nat)
    requires
        a <= b,
    ensures
        pow10(a) <= pow10(b),
{
    lemma_pow10_adds(a, (b - a) as nat);
    lemma_pow10_pos((b - a) as nat);
    lemma_pow10_pos(a);
    assert(pow10(a) * pow10((b - a) as nat) >= pow10(a) * 1) by (nonlinear_arith)
        requires
            pow10((b - a) as nat) >= 1,
            pow10(a) >= 1,
    ;
}

/// Concrete values of the powers of ten that bound the machine words used
/// by the executable code.
pub proof fn lemma_pow10_concrete()
    ensures
        pow10(3) == 1000,
        pow10(16) == 10_000_000_000_000_000,
        pow10(17) == 100_000_000_000_000_000,
        pow10(19) == 10_000_000_000_000_000_000,
        pow10(20) == 100_000_000_000_000_000_000,
        pow10(38) == 100_000_000_000_000_000_000_000_000_000_000_000_000,
{
    reveal_with_fuel(pow10, 40);
}

/// For positive `n`, the decimal notation of `n` has `digits10(n)` digits:
/// `n` lies between the two neighbouring powers of ten.
pub proof fn lemma_digits10_bounds(n: nat)
    requires
        n > 0,
    ensures
        pow10((digits10(n) - 1) as nat) <= n < pow10(digits10(n)),
    decreases n,
{
    if n < 10 {
    } else {
        let q = n / 10;
        vstd::arithmetic::div_mod::lemma_fundamental_div_mod(n as int, 10);
        lemma_digits10_bounds(q);
        let d = digits10(q);
        assert(n >= 10 * q);
        assert(10 * q >= 10 * pow10((d - 1) as nat)) by (nonlinear_arith)
            requires
                q >= pow10((d - 1) as nat),
        ;
        assert(n < 10 * (q + 1));
        assert(10 * (q + 1) <= 10 * pow10(d)) by (nonlinear_arith)
            requires
                q < pow10(d),
        ;
    }
}

/// A number below `pow10(k)` has at most `k` digits.
pub proof fn lemma_digits10_at_most(n: nat, k: nat)
    requires
        n < pow10(k),
        k >= 1,
    ensures
        digits10(n) <= k,
{
    if n == 0 {
    } else {
        lemma_digits10_bounds(n);
        if digits10(n) > k {
            lemma_pow10_increases(k, (digits10(n) - 1) as nat);
        }
    }
}

/// Appending `j` zeros multiplies a positive number by `pow10(j)`.
pub proof fn lemma_digits10_mul_pow10(a: nat, j: nat)
    requires
        a >= 1,
    ensures
        digits10(a * pow10(j)) == digits10(a) + j,
    decreases j,
{
    if j == 0 {
        assert(a * 1 == a);
    } else {
        lemma_digits10_mul_pow10(a, (j - 1) as nat);
        let b = a * pow10((j - 1) as nat);
        lemma_pow10_pos((j - 1) as nat);
        assert(b >= 1) by (nonlinear_arith)
            requires
                a >= 1,
                pow10((j - 1) as nat) >= 1,
                b == a * pow10((j - 1) as nat),
        ;
        assert(a * pow10(j) == b * 10) by (nonlinear_arith)
            requires
                pow10(j) == 10 * pow10((j - 1) as nat),
                b == a * pow10((j - 1) as nat),
        ;
        assert((b * 10) / 10 == b && (b * 10) % 10 == 0) by (nonlinear_arith)
            requires
                b >= 1,
        ;
        assert(b * 10 >= 10);
        assert(digits10(b * 10) == 1 + digits10(b));
    }
}

/// The decimal notation of `n` has exactly `digits10(n)` characters.
pub proof fn lemma_dec_str_len(n: nat)
    ensures
        dec_str(n).len() == digits10(n),
    decreases n,
{
    if n >= 10 {
        lemma_dec_str_len(n / 10);
    }
}

/// Appending `j` zeros to the notation of a positive number is the notation
/// of that number times `pow10(j)`.
pub proof fn lemma_dec_str_mul_pow10(a: nat, j: nat)
    requires
        a >= 1,
    ensures
        dec_str(a * pow10(j)) == dec_str(a) + repeat_char('0', j),
    decreases j,
{
    if j == 0 {
        assert(a * 1 == a);
        assert(dec_str(a) + repeat_char('0', 0) =~= dec_str(a));
    } else {
        lemma_dec_str_mul_pow10(a, (j - 1) as nat);
        let b = a * pow10((j - 1) as nat);
        lemma_pow10_pos((j - 1) as nat);
        assert(b >= 1) by (nonlinear_arith)
            requires
                a >= 1,
                pow10((j - 1) as nat) >= 1,
                b == a * pow10((j - 1) as nat),
        ;
        assert(a * pow10(j) == b * 10) by (nonlinear_arith)
            requires
                pow10(j) == 10 * pow10((j - 1) as nat),
                b == a * pow10((j - 1) as nat),
        ;
        assert((b * 10) / 10 == b && (b * 10) % 10 == 0) by (nonlinear_arith)
            requires
                b >= 1,
        ;
        assert(b * 10 >= 10);
        assert(dec_str(b * 10) == dec_str(b).push('0'));
        assert(dec_str(a) + repeat_char('0', (j - 1) as nat) + seq!['0'] =~= dec_str(a)
            + repeat_char('0', j));
        assert(dec_str(b).push('0') =~= dec_str(b) + seq!['0']);
    }
}

/// Every character of a decimal notation is a digit.
pub proof fn lemma_dec_str_count_digits(n: nat)
    ensures
        count_digits(dec_str(n)) == dec_str(n).len(),
    decreases n,
{
    if n < 10 {
        reveal_with_fuel(count_digits, 3);
        assert(is_digit(digit_char(n)));
        assert(dec_str(n).drop_last() =~= Seq::<char>::empty());
        assert(dec_str(n).last() == digit_char(n));
    } else {
        lemma_dec_str_count_digits(n / 10);
        assert(is_digit(digit_char(n % 10)));
        assert(dec_str(n).drop_last() =~= dec_str(n / 10));
        assert(dec_str(n).last() == digit_char(n % 10));
    }
}

/// Digit counting distributes over concatenation.
pub proof fn lemma_count_digits_concat(a: Seq<char>, b: Seq<char>)
    ensures
        count_digits(a + b) == count_digits(a) + count_digits(b),
    decreases b.len(),
{
    if b.len() == 0 {
        assert(a + b =~= a);
    } else {
        lemma_count_digits_concat(a, b.drop_last());
        assert((a + b).drop_last() =~= a + b.drop_last());
        assert((a + b).last() == b.last());
    }
}

/// A repeated character contributes its length if it is a digit, else nothing.
pub proof fn lemma_count_digits_repeat(c: char, n: nat)
    ensures
        count_digits(repeat_char(c, n)) == (if is_digit(c) {
            n
        } else {
            0
        }),
    decreases n,
{
    if n > 0 {
        lemma_count_digits_repeat(c, (n - 1) as nat);
        assert(repeat_char(c, n).drop_last() =~= repeat_char(c, (n - 1) as nat));
    }
}

/// 10 to the power `k`, as a machine word.
pub fn pow10_u64(k: usize) -> (r: u64)
    requires
        k <= 19,
    ensures
        r as nat == pow10(k as nat),
{
    let mut r: u64 = 1;
    let mut i: usize = 0;
    while i < k
        invariant
            i <= k <= 19,
            r as nat == pow10(i as nat),
        decreases k - i,
    {
        proof {
            lemma_pow10_concrete();
            lemma_pow10_increases((i + 1) as nat, 19);
        }
        r = r * 10;
        i = i + 1;
    }
    r
}

/// 10 to the power `k`, as a wide machine word.
pub fn pow10_u128(k: usize) -> (r: u128)
    requires
        k <= 38,
    ensures
        r as nat == pow10(k as nat),
{
    let mut r: u128 = 1;
    let mut i: usize = 0;
    while i < k
        invariant
            i <= k <= 38,
            r as nat == pow10(i as nat),
        decreases k - i,
    {
        proof {
            lemma_pow10_concrete();
            lemma_pow10_increases((i + 1) as nat, 38);
        }
        r = r * 10;
        i = i + 1;
    }
    r
}

/// The number of decimal digits of `n`.
pub fn digits10_u64(n: u64) -> (d: usize)
    ensures
        d as nat == digits10(n as nat),
        1 <= d <= 20,
{
    proof {
        lemma_pow10_concrete();
        lemma_digits10_at_most(n as nat, 20);
    }
    let mut x: u64 = n;
    let mut d: usize = 1;
    while x >= 10
        invariant
            digits10(n as nat) == digits10(x as nat) + d - 1,
            d >= 1,
            digits10(x as nat) >= 1,
            digits10(n as nat) <= 20,
        decreases x,
    {
        x = x / 10;
        d = d + 1;
    }
    d
}

/// The character for the decimal digit `d`.
pub fn digit_char_u64(d: u64) -> (c: char)
    requires
        d < 10,
    ensures
        c == digit_char(d as nat),
{
    if d == 0 {
        '0'
    } else if d == 1 {
        '1'
    } else if d == 2 {
        '2'
    } else if d == 3 {
        '3'
    } else if d == 4 {
        '4'
    } else if d == 5 {
        '5'
    } else if d == 6 {
        '6'
    } else if d == 7 {
        '7'
    } else if d == 8 {
        '8'
    } else {
        '9'
    }
}

/// Appends the decimal notation of `n` to `out`.
pub fn push_decimal(out: &mut Vec<char>, n: u64)
    ensures
        final (out)@ == old(out)@ + dec_str(n as nat),
    decreases n,
{
    if n < 10 {
        out.push(digit_char_u64(n));
        assert(out@ =~= old(out)@ + dec_str(n as nat));
    } else {
        push_decimal(out, n / 10);
        out.push(digit_char_u64(n % 10));
        assert(out@ =~= old(out)@ + dec_str(n as nat));
    }
}

/// Appends `n` copies of `c` to `out`.
pub fn push_repeat(out: &mut Vec<char>, c: char, n: usize)
    ensures
        final (out)@ == old(out)@ + repeat_char(c, n as nat),
{
    let mut i: usize = 0;
    while i < n
        invariant
            i <= n,
            out@ == old(out)@ + repeat_char(c, i as nat),
        decreases n - i,
    {
        out.push(c);
        assert(out@ =~= old(out)@ + repeat_char(c, (i + 1) as nat));
        i = i + 1;
    }
}

} // verus!
