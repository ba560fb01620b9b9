//! Measurements and their rendering requests.
//!
//! A [`Value`] holds one measurement (text, machine integer, or decimal
//! number) with its display unit, optional icon and default minimum width.
//! A [`Variable`] is the per-render request: every field overrides the
//! value's own setting when present.  [`Value::format`] resolves the request
//! and renders the measurement.

use vstd::prelude::*;
use vstd::string::StrSliceExecFns;
use vstd::string::StringExecFns;
use vstd::string::StringSliceAdditionalSpecFns;

use crate::bar::format_bar;
use crate::bar::spec_format_bar;
use crate::decimal::abs_i64;
use crate::decimal::norm;
use crate::decimal::DecModel;
use crate::decimal::Decimal;
use crate::digits::dec_str;
use crate::digits::push_decimal;
use crate::digits::push_repeat;
use crate::digits::repeat_char;
use crate::number::format_number;
use crate::number::spec_format_number;
use crate::suffix::Suffix;
use crate::text::chars_to_string;
use crate::unit::unit_symbol;
use crate::unit::Unit;
use vstd::utf8::encode_utf8;

verus! {

/// The measurement a [`Value`] holds; the active variant is fixed at
/// construction.
#[derive(Clone, Debug)]
pub enum InternalValue {
    Text(String),
    Integer(i64),
    Float(Decimal),
}

/// A measurement with its display settings, immutable once built.
#[derive(Clone, Debug)]
pub struct Value {
    pub unit: Unit,
    pub min_width: usize,
    pub icon: Option<String>,
    pub value: InternalValue,
}

/// A per-render request: each present field overrides the value's own
/// setting (or the hardcoded default) for this one render.
#[derive(Clone, Debug)]
pub struct Variable {
    pub min_width: Option<usize>,
    pub max_width: Option<usize>,
    pub pad_with: Option<char>,
    pub unit: Option<Unit>,
    pub min_suffix: Option<Suffix>,
    pub bar_max_value: Option<Decimal>,
}

impl Default for Variable {
    /// The empty request: no overrides at all.
    fn default() -> (r: Variable)
        ensures
            r == (Variable {
                min_width: None,
                max_width: None,
                pad_with: None,
                unit: None,
                min_suffix: None,
                bar_max_value: None,
            }),
    {
        Variable {
            min_width: None,
            max_width: None,
            pad_with: None,
            unit: None,
            min_suffix: None,
            bar_max_value: None,
        }
    }
}

/// Truncating division by eight, as machine integer division behaves.
pub open spec fn trunc_div8(i: int) -> int {
    if i >= 0 {
        i / 8
    } else {
        -((-i) / 8)
    }
}

/// The bits/bytes rate conversion on an integer measurement: bytes
/// requested as bits are multiplied by eight, bits requested as bytes are
/// divided by eight, and every other pair is left unchanged.
pub open spec fn spec_convert_int(i: int, from: Unit, to: Unit) -> int {
    if from == Unit::BytesPerSecond && to == Unit::BitsPerSecond {
        8 * i
    } else if from == Unit::BitsPerSecond && to == Unit::BytesPerSecond {
        trunc_div8(i)
    } else {
        i
    }
}

/// The same conversion on a decimal measurement (dividing by eight is
/// multiplying the mantissa by 125 and stepping the exponent down three).
pub open spec fn spec_convert_dec(d: DecModel, from: Unit, to: Unit) -> DecModel {
    if from == Unit::BytesPerSecond && to == Unit::BitsPerSecond {
        norm(d.neg, 8 * d.mantissa, d.exp)
    } else if from == Unit::BitsPerSecond && to == Unit::BytesPerSecond {
        norm(d.neg, 125 * d.mantissa, d.exp - 3)
    } else {
        d
    }
}

/// The decimal notation of a signed machine integer.
pub open spec fn dec_str_i64(i: int) -> Seq<char> {
    if i < 0 {
        seq!['-'] + dec_str((-i) as nat)
    } else {
        dec_str(i as nat)
    }
}

/// `s` left-padded with `pad` up to `w` characters.
pub open spec fn left_pad(s: Seq<char>, w: int, pad: char) -> Seq<char> {
    if s.len() >= w {
        s
    } else {
        repeat_char(pad, (w - s.len()) as nat) + s
    }
}

/// The byte length of a text, as the machine reports it.
pub open spec fn spec_byte_len(t: Seq<char>) -> int {
    (encode_utf8(t).len() as usize) as int
}

/// A text body: right-padded with `pad` up to `w` (measured in encoded
/// bytes, as the width budget is), then cut to `maxw` characters.
pub open spec fn spec_text_body(t: Seq<char>, w: int, pad: char, maxw: Option<usize>) -> Seq<
    char,
> {
    let padded = if spec_byte_len(t) >= w {
        t
    } else {
        t + repeat_char(pad, (w - spec_byte_len(t)) as nat)
    };
    match maxw {
        Some(mw) => if padded.len() > mw {
            padded.take(mw as int)
        } else {
            padded
        },
        None => padded,
    }
}

/// The unit a render resolves to: the request's override, else the value's.
pub open spec fn spec_eff_unit(v: Value, var: Variable) -> Unit {
    match var.unit {
        Some(u) => u,
        None => v.unit,
    }
}

/// The width a render resolves to.
pub open spec fn spec_eff_width(v: Value, var: Variable) -> int {
    match var.min_width {
        Some(w) => w as int,
        None => v.min_width as int,
    }
}

/// The pad character a render resolves to (space by default).
pub open spec fn spec_eff_pad(var: Variable) -> char {
    match var.pad_with {
        Some(c) => c,
        None => ' ',
    }
}

/// The icon prefix of a value (empty when none is set).
pub open spec fn spec_icon(v: Value) -> Seq<char> {
    match v.icon {
        Some(s) => s@,
        None => Seq::empty(),
    }
}

/// Whether this render takes the bar path: a bar maximum is requested and
/// the measurement is numeric.
pub open spec fn spec_is_bar(v: Value, var: Variable) -> bool {
    var.bar_max_value is Some && !(v.value is Text)
}

/// The body between icon and unit symbol on the scalar path.
pub open spec fn spec_scalar_body(v: Value, var: Variable) -> Seq<char> {
    let w = spec_eff_width(v, var);
    let pad = spec_eff_pad(var);
    let u = spec_eff_unit(v, var);
    match v.value {
        InternalValue::Text(t) => spec_text_body(t@, w, pad, var.max_width),
        InternalValue::Integer(i) => left_pad(
            dec_str_i64(spec_convert_int(i as int, v.unit, u)),
            w,
            pad,
        ),
        InternalValue::Float(d) => spec_format_number(
            spec_convert_dec(d@, v.unit, u),
            w,
            match var.min_suffix {
                Some(s) => s,
                None => Suffix::Nano,
            },
        ),
    }
}

/// Everything `Value::format` returns: on the bar path only the bar glyphs;
/// otherwise icon, body and unit symbol.
pub open spec fn spec_format(v: Value, var: Variable) -> Seq<char> {
    if spec_is_bar(v, var) {
        let den = var.bar_max_value->Some_0;
        match v.value {
            InternalValue::Integer(i) => spec_format_bar(
                norm(i < 0, abs_i64(i as int), 0),
                den@,
                spec_eff_width(v, var) as nat,
            ),
            InternalValue::Float(d) => spec_format_bar(
                d@,
                den@,
                spec_eff_width(v, var) as nat,
            ),
            InternalValue::Text(_) => Seq::empty(),
        }
    } else {
        spec_icon(v) + spec_scalar_body(v, var) + unit_symbol(spec_eff_unit(v, var))
    }
}

impl Value {
    /// The numeric measurement, if any, is in representable form.
    pub open spec fn wf(self) -> bool {
        match self.value {
            InternalValue::Float(d) => d@.wf(),
            _ => true,
        }
    }

    /// The one conversion that can leave the machine-integer range is the
    /// bytes-to-bits multiplication on the scalar path; the caller keeps
    /// its operand small enough.
    pub open spec fn int_conversion_ok(self, var: Variable) -> bool {
        match self.value {
            InternalValue::Integer(i) => (var.bar_max_value is None && self.unit
                == Unit::BytesPerSecond && spec_eff_unit(self, var) == Unit::BitsPerSecond)
                ==> (i64::MIN <= 8 * i && 8 * i <= i64::MAX),
            _ => true,
        }
    }

    /// A text measurement with no unit, no icon, and no minimum width.
    pub fn from_string(text: String) -> (v: Value)
        ensures
            v == (Value {
                icon: None,
                min_width: 0,
                unit: Unit::Plain,
                value: InternalValue::Text(text),
            }),
            v.wf(),
    {
        Value { icon: None, min_width: 0, unit: Unit::Plain, value: InternalValue::Text(text) }
    }

    /// An integer measurement with a default minimum width of two digits.
    pub fn from_integer(value: i64) -> (v: Value)
        ensures
            v == (Value {
                icon: None,
                min_width: 2,
                unit: Unit::Plain,
                value: InternalValue::Integer(value),
            }),
            v.wf(),
    {
        Value { icon: None, min_width: 2, unit: Unit::Plain, value: InternalValue::Integer(value) }
    }

    /// A decimal measurement with a default minimum width of three columns.
    pub fn from_float(value: Decimal) -> (v: Value)
        requires
            value@.wf(),
        ensures
            v == (Value {
                icon: None,
                min_width: 3,
                unit: Unit::Plain,
                value: InternalValue::Float(value),
            }),
            v.wf(),
    {
        Value { icon: None, min_width: 3, unit: Unit::Plain, value: InternalValue::Float(value) }
    }

    /// Sets the icon shown before the value.
    pub fn icon(self, icon: String) -> (v: Value)
        ensures
            v == (Value { icon: Some(icon), ..self }),
    {
        Value { icon: Some(icon), ..self }
    }

    /// Tags the value as degrees.
    pub fn degrees(self) -> (v: Value)
        ensures
            v == (Value { unit: Unit::Degrees, ..self }),
    {
        Value { unit: Unit::Degrees, ..self }
    }

    /// Tags the value as a percentage.
    pub fn percents(self) -> (v: Value)
        ensures
            v == (Value { unit: Unit::Percents, ..self }),
    {
        Value { unit: Unit::Percents, ..self }
    }

    /// Tags the value as a bit rate.
    pub fn bits_per_second(self) -> (v: Value)
        ensures
            v == (Value { unit: Unit::BitsPerSecond, ..self }),
    {
        Value { unit: Unit::BitsPerSecond, ..self }
    }

    /// Tags the value as a byte rate.
    pub fn bytes_per_second(self) -> (v: Value)
        ensures
            v == (Value { unit: Unit::BytesPerSecond, ..self }),
    {
        Value { unit: Unit::BytesPerSecond, ..self }
    }

    /// Tags the value as seconds.
    pub fn seconds(self) -> (v: Value)
        ensures
            v == (Value { unit: Unit::Seconds, ..self }),
    {
        Value { unit: Unit::Seconds, ..self }
    }

    /// Tags the value as watts.
    pub fn watts(self) -> (v: Value)
        ensures
            v == (Value { unit: Unit::Watts, ..self }),
    {
        Value { unit: Unit::Watts, ..self }
    }

    /// Tags the value as a frequency.
    pub fn hertz(self) -> (v: Value)
        ensures
            v == (Value { unit: Unit::Hertz, ..self }),
    {
        Value { unit: Unit::Hertz, ..self }
    }

    /// Tags the value as bytes.
    pub fn bytes(self) -> (v: Value)
        ensures
            v == (Value { unit: Unit::Bytes, ..self }),
    {
        Value { unit: Unit::Bytes, ..self }
    }

    /// Renders the measurement under the request `var`: a bar when
    /// `bar_max_value` is set and the measurement is numeric, otherwise the
    /// padded text / padded integer / SI-scaled number, wrapped in the icon
    /// and the unit symbol.
    pub fn format(&self, var: &Variable) -> (r: String)
        requires
            self.wf(),
            match var.bar_max_value {
                Some(d) => d@.wf(),
                None => true,
            },
            self.int_conversion_ok(*var),
        ensures
            r@ == spec_format(*self, *var),
    {
        let min_width: usize = match var.min_width {
            Some(w) => w,
            None => self.min_width,
        };
        let pad_with: char = match var.pad_with {
            Some(c) => c,
            None => ' ',
        };
        let unit: Unit = match var.unit {
            Some(u) => u,
            None => self.unit,
        };
        // Bar path: numeric measurements only; text falls through.
        match (&var.bar_max_value, &self.value) {
            (Some(bar_max), InternalValue::Integer(i)) => {
                let num = Decimal::from_i64(*i);
                return format_bar(&num, bar_max, min_width);
            },
            (Some(bar_max), InternalValue::Float(d)) => {
                return format_bar(d, bar_max, min_width);
            },
            _ => {},
        }
        let body: String = match &self.value {
            InternalValue::Text(t) => format_text(t, min_width, pad_with, &var.max_width),
            InternalValue::Integer(i) => format_integer(*i, self.unit, unit, min_width, pad_with),
            InternalValue::Float(d) => {
                let converted = convert_dec(d, self.unit, unit);
                let min_suffix: Suffix = match var.min_suffix {
                    Some(s) => s,
                    None => Suffix::Nano,
                };
                format_number(&converted, min_width, &min_suffix)
            },
        };
        let mut r = String::new();
        match &self.icon {
            Some(icon) => r.append(icon.as_str()),
            None => (),
        }
        r.append(body.as_str());
        let mut sym: Vec<char> = Vec::new();
        unit.push_symbol(&mut sym);
        let sym_s = chars_to_string(sym);
        r.append(sym_s.as_str());
        proof {
            assert(r@ =~= spec_format(*self, *var));
        }
        r
    }
}

/// Pads `t` with `pad` up to `w` bytes, then cuts to `maxw` characters.
fn format_text(t: &String, w: usize, pad: char, maxw: &Option<usize>) -> (r: String)
    ensures
        r@ == spec_text_body(t@, w as int, pad, *maxw),
{
    let ghost padded: Seq<char> = if spec_byte_len(t@) >= w as int {
        t@
    } else {
        t@ + repeat_char(pad, (w - spec_byte_len(t@)) as nat)
    };
    let mut s = String::new();
    s.append(t.as_str());
    let ts = t.as_str();
    let byte_len = ts.len();
    assert(ts.spec_bytes() == encode_utf8(t@));
    assert(byte_len as int == spec_byte_len(t@));
    if byte_len < w {
        let mut padv: Vec<char> = Vec::new();
        push_repeat(&mut padv, pad, w - byte_len);
        let pad_s = chars_to_string(padv);
        s.append(pad_s.as_str());
    }
    assert(s@ =~= padded);
    match maxw {
        Some(mw) => {
            let char_len = s.as_str().unicode_len();
            if *mw < char_len {
                let cut = s.as_str().substring_char(0, *mw);
                let r = String::from_str(cut);
                assert(r@ =~= padded.take(*mw as int));
                assert(r@ =~= spec_text_body(t@, w as int, pad, *maxw));
                r
            } else {
                assert(s@ =~= spec_text_body(t@, w as int, pad, *maxw));
                s
            }
        },
        None => {
            assert(s@ =~= spec_text_body(t@, w as int, pad, *maxw));
            s
        },
    }
}

/// Applies the rate conversion and renders the integer left-padded.
fn format_integer(i: i64, from: Unit, to: Unit, w: usize, pad: char) -> (r: String)
    requires
        (from == Unit::BytesPerSecond && to == Unit::BitsPerSecond) ==> (i64::MIN <= 8 * i && 8
            * i <= i64::MAX),
    ensures
        r@ == left_pad(dec_str_i64(spec_convert_int(i as int, from, to)), w as int, pad),
{
    let c = convert_int(i, from, to);
    let mut digits: Vec<char> = Vec::new();
    if c < 0 {
        digits.push('-');
        let a: u64 = (-(c as i128)) as u64;
        push_decimal(&mut digits, a);
        assert(digits@ =~= dec_str_i64(c as int));
    } else {
        push_decimal(&mut digits, c as u64);
    }
    let n = digits.len();
    let mut out: Vec<char> = Vec::new();
    if n < w {
        push_repeat(&mut out, pad, w - n);
    }
    out.append(&mut digits);
    assert(out@ =~= left_pad(dec_str_i64(spec_convert_int(i as int, from, to)), w as int, pad));
    chars_to_string(out)
}

/// The rate conversion on a machine integer.
fn convert_int(i: i64, from: Unit, to: Unit) -> (r: i64)
    requires
        (from == Unit::BytesPerSecond && to == Unit::BitsPerSecond) ==> (i64::MIN <= 8 * i && 8
            * i <= i64::MAX),
    ensures
        r as int == spec_convert_int(i as int, from, to),
{
    if from == Unit::BytesPerSecond && to == Unit::BitsPerSecond {
        8 * i
    } else if from == Unit::BitsPerSecond && to == Unit::BytesPerSecond {
        if i >= 0 {
            ((i as u64) / 8) as i64
        } else {
            let a: u64 = (-(i as i128)) as u64;
            -((a / 8) as i64)
        }
    } else {
        i
    }
}

/// The rate conversion on a decimal.
fn convert_dec(d: &Decimal, from: Unit, to: Unit) -> (r: Decimal)
    requires
        d@.wf(),
    ensures
        r@ == spec_convert_dec(d@, from, to),
        r@.bounded(),
{
    if from == Unit::BytesPerSecond && to == Unit::BitsPerSecond {
        d.times_8()
    } else if from == Unit::BitsPerSecond && to == Unit::BytesPerSecond {
        d.div_8()
    } else {
        *d
    }
}

/// Law: an integer byte rate formatted with a bits-per-second override
/// renders exactly as eight times that integer tagged bits-per-second and
/// formatted with the same request minus the unit override.
pub proof fn lemma_rate_round_trip(x: i64, x8: i64, var1: Variable, var2: Variable)
    requires
        x8 as int == 8 * (x as int),
        var1.unit == Some(Unit::BitsPerSecond),
        var1.bar_max_value is None,
        var2 == (Variable { unit: None, ..var1 }),
    ensures
        spec_format(
            (Value {
                icon: None,
                min_width: 2,
                unit: Unit::BytesPerSecond,
                value: InternalValue::Integer(x),
            }),
            var1,
        ) == spec_format(
            (Value {
                icon: None,
                min_width: 2,
                unit: Unit::BitsPerSecond,
                value: InternalValue::Integer(x8),
            }),
            var2,
        ),
{
}

/// Law: a text measurement is never unit-converted nor suffix-decorated.
/// Its body is the text itself, only padded and truncated; the minimum
/// suffix and the bar maximum of the request play no part at all, and the
/// unit contributes nothing but its trailing symbol.
pub proof fn lemma_text_ignores_numeric_options(v: Value, var: Variable)
    requires
        v.value is Text,
    ensures
        spec_format(v, var) == spec_icon(v) + spec_text_body(
            v.value->Text_0@,
            spec_eff_width(v, var),
            spec_eff_pad(var),
            var.max_width,
        ) + unit_symbol(spec_eff_unit(v, var)),
        spec_format(v, var) == spec_format(
            v,
            (Variable { min_suffix: None, bar_max_value: None, ..var }),
        ),
{
}

} // verus!
