//! Scalar value formatting for a system-status display.
//!
//! A [`value::Value`] holds one measurement (text, integer, or decimal
//! number), an optional display unit and icon, and a default minimum width.
//! A [`value::Variable`] carries per-render overrides.  `Value::format`
//! renders the measurement as a compact string: SI-scaled numbers with a
//! magnitude suffix, unit-converted rates, padded or truncated text, or a
//! proportional bar drawn with eighth-block glyphs.
//!
//! Numeric measurements are decimal fixed-point values ([`decimal::Decimal`]):
//! a sign, a mantissa of at most seventeen significant digits, and a decimal
//! exponent.  All scaling, rounding and digit selection is exact integer
//! arithmetic.

pub mod bar;
pub mod decimal;
pub mod digits;
pub mod number;
pub mod suffix;
pub mod text;
pub mod unit;
pub mod value;
