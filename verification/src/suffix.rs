//! SI magnitude suffixes.

use vstd::prelude::*;

verus! {

/// An SI magnitude step, totally ordered from smallest to largest; each step
/// is a factor of 1000 away from its neighbours.
#[derive(Clone, Copy, Debug, PartialEq, Eq, Structural)]
pub enum Suffix {
    Nano,
    Micro,
    Milli,
    One,
    Kilo,
    Mega,
    Giga,
    Tera,
}

/// The exponent level of a suffix: the power of 1000 it stands for.
pub open spec fn suffix_level(s: Suffix) -> int {
    match s {
        Suffix::Tera => 4,
        Suffix::Giga => 3,
        Suffix::Mega => 2,
        Suffix::Kilo => 1,
        Suffix::One => 0,
        Suffix::Milli => -1,
        Suffix::Micro => -2,
        Suffix::Nano => -3,
    }
}

/// The suffix shown for an exponent level; levels below Micro collapse to
/// Nano, levels above Tera never arise (the caller clamps).
pub open spec fn suffix_of_level(l: int) -> Suffix {
    if l == 4 {
        Suffix::Tera
    } else if l == 3 {
        Suffix::Giga
    } else if l == 2 {
        Suffix::Mega
    } else if l == 1 {
        Suffix::Kilo
    } else if l == 0 {
        Suffix::One
    } else if l == -1 {
        Suffix::Milli
    } else if l == -2 {
        Suffix::Micro
    } else {
        Suffix::Nano
    }
}

/// The symbol printed after a scaled number (empty for `One`).
pub open spec fn suffix_symbol(s: Suffix) -> Seq<char> {
    match s {
        Suffix::Tera => seq!['T'],
        Suffix::Giga => seq!['G'],
        Suffix::Mega => seq!['M'],
        Suffix::Kilo => seq!['K'],
        Suffix::One => Seq::empty(),
        Suffix::Milli => seq!['m'],
        Suffix::Micro => seq!['u'],
        Suffix::Nano => seq!['n'],
    }
}

impl Suffix {
    /// The exponent level of this suffix.
    pub fn level(&self) -> (l: i32)
        ensures
            l as int == suffix_level(*self),
    {
        match self {
            Suffix::Tera => 4,
            Suffix::Giga => 3,
            Suffix::Mega => 2,
            Suffix::Kilo => 1,
            Suffix::One => 0,
            Suffix::Milli => -1,
            Suffix::Micro => -2,
            Suffix::Nano => -3,
        }
    }

    /// Appends this suffix's symbol to `out`.
    pub fn push_symbol(&self, out: &mut Vec<char>)
        ensures
            final (out)@ == old(out)@ + suffix_symbol(*self),
    {
        match self {
            Suffix::Tera => out.push('T'),
            Suffix::Giga => out.push('G'),
            Suffix::Mega => out.push('M'),
            Suffix::Kilo => out.push('K'),
            Suffix::One => (),
            Suffix::Milli => out.push('m'),
            Suffix::Micro => out.push('u'),
            Suffix::Nano => out.push('n'),
        }
        assert(out@ =~= old(out)@ + suffix_symbol(*self));
    }
}

/// The suffix for a (clamped) exponent level.
pub fn suffix_for_level(l: i64) -> (s: Suffix)
    ensures
        s == suffix_of_level(l as int),
{
    if l == 4 {
        Suffix::Tera
    } else if l == 3 {
        Suffix::Giga
    } else if l == 2 {
        Suffix::Mega
    } else if l == 1 {
        Suffix::Kilo
    } else if l == 0 {
        Suffix::One
    } else if l == -1 {
        Suffix::Milli
    } else if l == -2 {
        Suffix::Micro
    } else {
        Suffix::Nano
    }
}

} // verus!
