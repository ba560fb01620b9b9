//! Display units.

use vstd::prelude::*;

verus! {

/// The unit a measurement is displayed in.  A unit only contributes its
/// symbol, plus the bits-per-second / bytes-per-second conversion rule.
#[derive(Clone, Copy, Debug, PartialEq, Eq, Structural)]
pub enum Unit {
    Plain,
    Degrees,
    Percents,
    BitsPerSecond,
    BytesPerSecond,
    Seconds,
    Watts,
    Hertz,
    Bytes,
}

/// The symbol appended after a formatted value.
pub open spec fn unit_symbol(u: Unit) -> Seq<char> {
    match u {
        Unit::Plain => Seq::empty(),
        Unit::Degrees => seq!['\u{00b0}'],
        Unit::Percents => seq!['%'],
        Unit::BitsPerSecond => seq!['b', '/', 's'],
        Unit::BytesPerSecond => seq!['B', '/', 's'],
        Unit::Seconds => seq!['s'],
        Unit::Watts => seq!['W'],
        Unit::Hertz => seq!['H', 'z'],
        Unit::Bytes => seq!['B'],
    }
}

impl Unit {
    /// Appends this unit's symbol to `out`.
    pub fn push_symbol(&self, out: &mut Vec<char>)
        ensures
            final (out)@ == old(out)@ + unit_symbol(*self),
    {
        match self {
            Unit::Plain => (),
            Unit::Degrees => out.push('\u{00b0}'),
            Unit::Percents => out.push('%'),
            Unit::BitsPerSecond => {
                out.push('b');
                out.push('/');
                out.push('s');
            },
            Unit::BytesPerSecond => {
                out.push('B');
                out.push('/');
                out.push('s');
            },
            Unit::Seconds => out.push('s'),
            Unit::Watts => out.push('W'),
            Unit::Hertz => {
                out.push('H');
                out.push('z');
            },
            Unit::Bytes => out.push('B'),
        }
        assert(out@ =~= old(out)@ + unit_symbol(*self));
    }
}

} // verus!
