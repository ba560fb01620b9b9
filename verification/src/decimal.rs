//! Decimal fixed-point numbers.
//!
//! A [`Decimal`] stands for `mantissa * 10^exp`, negated when `neg` is set.
//! Its invariant keeps the mantissa below seventeen significant digits, the
//! precision at which the display's measurements arrive; construction and the
//! rate conversions round half-to-even when a result would be wider.

use vstd::prelude::*;

use crate::digits::digits10;
use crate::digits::digits10_u64;
use crate::digits::lemma_digits10_at_most;
use crate::digits::lemma_digits10_bounds;
use crate::digits::lemma_pow10_adds;
use crate::digits::lemma_pow10_increases;
use crate::digits::lemma_pow10_concrete;
use crate::digits::lemma_pow10_pos;
use crate::digits::pow10;
use crate::digits::pow10_u64;

verus! {

/// Exclusive upper bound on a mantissa: `10^17`.
pub const MANTISSA_LIMIT: u64 = 100_000_000_000_000_000;

/// Bound on the decimal exponent a constructor accepts; far wider than any
/// magnitude a measurement can carry.
pub const EXP_LIMIT: i32 = 1_000_000_000;

/// A decimal fixed-point number: `mantissa * 10^exp`, negated if `neg`.
#[derive(Clone, Copy, Debug)]
pub struct Decimal {
    pub neg: bool,
    pub mantissa: u64,
    pub exp: i32,
}

/// The mathematical content of a [`Decimal`]: an unbounded mantissa and
/// exponent, plus the sign.
pub struct DecModel {
    pub neg: bool,
    pub mantissa: nat,
    pub exp: int,
}

impl View for Decimal {
    type V = DecModel;

    open spec fn view(&self) -> DecModel {
        DecModel { neg: self.neg, mantissa: self.mantissa as nat, exp: self.exp as int }
    }
}

impl DecModel {
    /// The representation invariant: at most seventeen significant digits,
    /// and zero is never negative.
    pub open spec fn inv(self) -> bool {
        self.mantissa < MANTISSA_LIMIT && (self.mantissa == 0 ==> !self.neg)
    }

    /// A freshly constructed value also has its exponent within the
    /// constructor bound, with a little slack for normalization.
    pub open spec fn wf(self) -> bool {
        self.inv() && -(EXP_LIMIT as int) - 16 <= self.exp <= EXP_LIMIT as int + 16
    }

    /// The invariant plus a slightly wider exponent bound: what a value looks
    /// like after at most one rate conversion of a well-formed value.
    pub open spec fn bounded(self) -> bool {
        self.inv() && -(EXP_LIMIT as int) - 32 <= self.exp <= EXP_LIMIT as int + 32
    }
}

/// `m / t` rounded to the nearest integer, ties to the even neighbour.
pub open spec fn half_even(m: nat, t: nat) -> nat {
    let q = m / t;
    let r = m % t;
    if 2 * r > t {
        q + 1
    } else if 2 * r == t && q % 2 == 1 {
        q + 1
    } else {
        q
    }
}

/// How many trailing digits normalization removes from `m`.
pub open spec fn norm_shift(m: nat) -> nat {
    if digits10(m) > 17 {
        (digits10(m) - 17) as nat
    } else {
        0
    }
}

/// The mantissa before the final carry check.
pub open spec fn norm_rounded(m: nat) -> nat {
    half_even(m, pow10(norm_shift(m)))
}

/// The normal form of the pair `(m, e)`: a mantissa below `10^17` and the
/// matching exponent, after rounding half-to-even.
pub open spec fn norm(neg: bool, m: nat, e: int) -> DecModel {
    if norm_rounded(m) == MANTISSA_LIMIT {
        DecModel { neg: neg && m != 0, mantissa: pow10(16), exp: e + norm_shift(m) + 1 }
    } else {
        DecModel { neg: neg && m != 0, mantissa: norm_rounded(m), exp: e + norm_shift(m) }
    }
}

/// Rounding to seventeen digits keeps the invariant and preserves zeroness.
pub proof fn lemma_norm_inv(neg: bool, m: nat, e: int)
    ensures
        norm(neg, m, e).inv(),
        norm(neg, m, e).mantissa == 0 <==> m == 0,
        e <= norm(neg, m, e).exp <= e + norm_shift(m) + 1,
{
    lemma_pow10_concrete();
    let k = norm_shift(m);
    let t = pow10(k);
    lemma_pow10_pos(k);
    vstd::arithmetic::div_mod::lemma_fundamental_div_mod(m as int, t as int);
    let q = m / t;
    if m == 0 {
        assert(q == 0);
        assert(half_even(0, t) == 0);
    } else {
        lemma_digits10_bounds(m);
        let d = digits10(m);
        if d > 17 {
            assert(k == d - 17);
            lemma_pow10_adds(k, 17);
            assert(m < pow10(k) * pow10(17));
            assert(q < pow10(17)) by (nonlinear_arith)
                requires
                    m < pow10(k) * pow10(17),
                    m == t * q + (m % t),
                    m % t >= 0,
                    t == pow10(k),
                    t > 0,
                    q >= 0,
            ;
            lemma_pow10_adds(k, 16);
            assert(pow10((d - 1) as nat) == pow10(k) * pow10(16)) by {
                assert((d - 1) as nat == k + 16);
            }
            lemma_pow10_pos(16);
            assert(q >= pow10(16)) by (nonlinear_arith)
                requires
                    m == t * q + (m % t),
                    m % t < t,
                    m >= t * pow10(16),
                    t > 0,
                    q >= 0,
            ;
        } else {
            lemma_norm_small(m);
            lemma_pow10_increases(d, 17);
            assert(m < pow10(17));
        }
    }
}

/// A mantissa of at most seventeen digits is already normal: nothing is
/// dropped and nothing is rounded.
pub proof fn lemma_norm_small(m: nat)
    requires
        digits10(m) <= 17,
    ensures
        norm_shift(m) == 0,
        norm_rounded(m) == m,
{
    assert(pow10(0) == 1);
    assert(m % 1 == 0) by {
        vstd::arithmetic::div_mod::lemma_fundamental_div_mod(m as int, 1);
    }
    assert(m / 1 == m) by {
        vstd::arithmetic::div_mod::lemma_fundamental_div_mod(m as int, 1);
    }
}

/// `norm_shift` of a machine word is at most three digits.
pub proof fn lemma_norm_shift_u64(m: u64)
    ensures
        norm_shift(m as nat) <= 3,
{
    lemma_pow10_concrete();
    lemma_digits10_at_most(m as nat, 20);
}

impl Decimal {
    /// The sign flag.
    pub fn is_negative(&self) -> (r: bool)
        ensures
            r == self@.neg,
    {
        self.neg
    }

    /// The mantissa.
    pub fn mantissa(&self) -> (r: u64)
        ensures
            r as nat == self@.mantissa,
    {
        self.mantissa
    }

    /// The decimal exponent.
    pub fn exponent(&self) -> (r: i32)
        ensures
            r as int == self@.exp,
    {
        self.exp
    }

    /// Builds the decimal `(-1)^neg * mantissa * 10^exp`, rounding the
    /// mantissa half-to-even if it is seventeen digits or wider.
    pub fn new(neg: bool, mantissa: u64, exp: i32) -> (d: Decimal)
        requires
            -EXP_LIMIT <= exp <= EXP_LIMIT,
        ensures
            d@ == norm(neg, mantissa as nat, exp as int),
            d@.wf(),
            d@.bounded(),
    {
        let d = Self::normalize(neg, mantissa, exp);
        proof {
            lemma_norm_inv(neg, mantissa as nat, exp as int);
            lemma_norm_shift_u64(mantissa);
        }
        d
    }

    /// The decimal with the value of the machine integer `i`.
    pub fn from_i64(i: i64) -> (d: Decimal)
        ensures
            d@ == norm(i < 0, abs_i64(i as int), 0),
            d@.wf(),
            d@.bounded(),
    {
        let m: u64 = if i >= 0 {
            i as u64
        } else {
            (-(i as i128)) as u64
        };
        let d = Self::normalize(i < 0, m, 0);
        proof {
            lemma_norm_inv(i < 0, m as nat, 0);
            lemma_norm_shift_u64(m);
        }
        d
    }

    /// This value times eight (for the bytes-to-bits rate conversion).
    pub fn times_8(&self) -> (d: Decimal)
        requires
            self@.wf(),
        ensures
            d@ == norm(self@.neg, 8 * self@.mantissa, self@.exp),
            d@.bounded(),
    {
        let m8 = 8 * self.mantissa;
        let d = Self::normalize(self.neg, m8, self.exp);
        proof {
            lemma_norm_inv(self@.neg, 8 * self@.mantissa, self@.exp);
            lemma_norm_shift_u64(m8);
        }
        d
    }

    /// This value divided by eight (for the bits-to-bytes rate conversion):
    /// exactly `125 * mantissa * 10^(exp - 3)` before normalization.
    pub fn div_8(&self) -> (d: Decimal)
        requires
            self@.wf(),
        ensures
            d@ == norm(self@.neg, 125 * self@.mantissa, self@.exp - 3),
            d@.bounded(),
    {
        let m125 = 125 * self.mantissa;
        let d = Self::normalize(self.neg, m125, self.exp - 3);
        proof {
            lemma_norm_inv(self@.neg, 125 * self@.mantissa, self@.exp - 3);
            lemma_norm_shift_u64(m125);
        }
        d
    }

    /// Rounds `m` below `10^17` (half-to-even) and adjusts the exponent.
    fn normalize(neg: bool, m: u64, e: i32) -> (d: Decimal)
        requires
            -EXP_LIMIT - 32 <= e <= EXP_LIMIT + 32,
        ensures
            d@ == norm(neg, m as nat, e as int),
    {
        proof {
            lemma_pow10_concrete();
            lemma_norm_shift_u64(m);
            lemma_norm_inv(neg, m as nat, e as int);
        }
        let dg = digits10_u64(m);
        if dg <= 17 {
            proof {
                lemma_norm_small(m as nat);
                if m > 0 {
                    lemma_digits10_bounds(m as nat);
                    lemma_pow10_increases(digits10(m as nat), 17);
                }
                assert(norm_rounded(m as nat) < MANTISSA_LIMIT);
            }
            Decimal { neg: neg && m > 0, mantissa: m, exp: e }
        } else {
            let k = dg - 17;
            let t = pow10_u64(k);
            proof {
                lemma_pow10_pos(k as nat);
                crate::digits::lemma_pow10_increases(k as nat, 3);
            }
            let q = m / t;
            let r = m % t;
            let bump: bool = 2 * r > t || (2 * r == t && q % 2 == 1);
            let q2 = if bump {
                q + 1
            } else {
                q
            };
            proof {
                assert(k as nat == norm_shift(m as nat));
                assert(t as nat == pow10(norm_shift(m as nat)));
                assert(q2 as nat == norm_rounded(m as nat));
            }
            if q2 == MANTISSA_LIMIT {
                Decimal { neg, mantissa: 10_000_000_000_000_000, exp: e + (k as i32) + 1 }
            } else {
                Decimal { neg, mantissa: q2, exp: e + (k as i32) }
            }
        }
    }
}

/// The absolute value of a machine integer.
pub open spec fn abs_i64(i: int) -> nat {
    if i < 0 {
        (-i) as nat
    } else {
        i as nat
    }
}

} // verus!
