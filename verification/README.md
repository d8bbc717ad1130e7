# numan

Humanize numbers — `1.2K`, `1.2 million`, `1.2 k`, `22nd` — and read such
strings back, as a Verus-verified library.

Layout:

- `src/` — the verified library.
  - `format.rs`: `Notation`, `Formatter` and its builders; the specification of
    what a formatter writes for an integer (`FormatterView::formatted`) and the
    laws on sign, rounding and the suffix table.
  - `double.rs`: positive `f64` values as exact integers `M * 2^E`: the nearest
    `f64` to an integer, division by `1000.0`, comparison with 1000.
  - `render.rs`: what `{:.p$}` writes for such a value (long division, rounded
    half to even).
  - `shortest.rs`: the shortest digits that read back as such a value (what
    `{:e}` writes).
  - `decimal.rs`: powers of ten, rounding half to even, fixed-point rendering.
  - `text.rs`: decimal digits and the character-sequence helpers (trimming
    zeros, checking for zero).
  - `number.rs`: the sealed `Integer` trait for the primitive integers.
  - `ordinal.rs`: English ordinals.
  - `parse.rs`: `parse_parts`, which decides everything about reading a
    humanized string (blank input, malformed numbers, unknown suffixes) and
    returns the mantissa text and the suffix's power of ten.
  - `round_trip.rs`: what reading gives back of what formatting writes.
- `tests/` — behaviour on concrete values.
- `app/` — the floating-point side: humanizing `f32`/`f64` and converting a
  read mantissa into an `f64`.
