//! Humanize numbers: compact, word and metric magnitude notation
//! (`1.2K`, `1.2 million`, `1.2 k`), English ordinals (`22nd`), and reading
//! humanized strings back into a mantissa and a power of ten.
//!
//! An integer is humanized as the `f64` nearest to it: divided by `1000.0` (in
//! binary64, rounding at each step) while a larger suffix is left, then written
//! from its exact binary value, rounded half to even at the formatter's
//! precision. Beyond the suffix table it is written in scientific notation with
//! the shortest digits that read back as that `f64`.

pub mod decimal;
pub mod double;
pub mod format;
pub mod number;
pub mod ordinal;
pub mod parse;
pub mod render;
pub mod round_trip;
pub mod shortest;
pub mod text;

pub use format::{Formatter, Notation};
pub use number::Integer;
pub use ordinal::ordinal;
pub use parse::{parse_parts, ParseError, ParsedParts};

use vstd::prelude::*;
use format::preset;
use number::abs;

verus! {

/// Format an integer in **compact** notation: `1_234` → `"1.2K"`.
///
/// Shorthand for [`Formatter::compact`]`().format(value)`.
pub fn compact<N: Integer>(value: N) -> (s: String)
    ensures
        s@ == preset(Notation::Compact).formatted(value.value() < 0, abs(value.value())),
{
    Formatter::compact().format(value)
}

/// Format an integer in **word** notation: `1_200_000` → `"1.2 million"`.
///
/// Shorthand for [`Formatter::word`]`().format(value)`.
pub fn word<N: Integer>(value: N) -> (s: String)
    ensures
        s@ == preset(Notation::Word).formatted(value.value() < 0, abs(value.value())),
{
    Formatter::word().format(value)
}

/// Format an integer in **SI metric** notation: `1_500` → `"1.5 k"`.
///
/// Shorthand for [`Formatter::metric`]`().format(value)`.
pub fn metric<N: Integer>(value: N) -> (s: String)
    ensures
        s@ == preset(Notation::Metric).formatted(value.value() < 0, abs(value.value())),
{
    Formatter::metric().format(value)
}

} // verus!
