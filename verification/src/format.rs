//! Magnitude formatting: the [`Formatter`] builder and [`Notation`] styles.

use vstd::prelude::*;
use crate::decimal::{
    fixed, lemma_pow10_positive, lemma_pow10_small, lemma_round_half_even_lower,
    lemma_round_half_even_upper, lemma_width_digits_len, lemma_width_digits_zero, pow10,
    round_half_even,
    width_digits,
};
use crate::double::{
    at_least, at_least_1000, div1000, div1000_u128, lemma_div1000_valid, lemma_pow2_add,
    lemma_pow2_monotonic, lemma_pow2_positive, lemma_pow2_values, nearest_double,
    nearest_double_u128, pow2, valid_double,
};
use crate::render::render_double;
use crate::render::render_value;
use crate::shortest::{shortest, shortest_form};
use crate::number::{abs, Integer};
use crate::parse::is_ascii_alphabetic;
use crate::text::{
    all_zero_chars, digits, is_all_zero, lemma_digits_zero, lemma_trimmed_zero, pop_while,
    push_digits, push_str, string_from_chars, strip_end, trim_trailing_zeros, trimmed,
};

verus! {

/// Which family of suffixes to use when shortening a number.
#[derive(Debug, Clone, Copy, PartialEq, Eq, Hash)]
#[non_exhaustive]
pub enum Notation {
    /// Short business suffixes: `K`, `M`, `B`, `T` (e.g. `1.2K`). The default.
    Compact,
    /// Full short-scale words: `thousand`, `million`, `billion`, … (e.g. `1.2 million`).
    Word,
    /// SI metric prefixes: `k`, `M`, `G`, `T`, … (e.g. `1.2 k`).
    Metric,
}

impl Default for Notation {
    fn default() -> (n: Self)
        ensures
            n == Notation::Compact,
    {
        Notation::Compact
    }
}

/// Largest precision honoured; larger requests are clamped to it.
pub const MAX_PRECISION: usize = 65535;

/// Index of the largest suffix of a notation (the length of its table, minus one).
pub open spec fn max_index(n: Notation) -> nat {
    match n {
        Notation::Compact => 4,
        Notation::Word => 11,
        Notation::Metric => 10,
    }
}

/// The suffix for `1000^i` in notation `n` (empty for `i == 0`).
pub open spec fn suffix_text(n: Notation, i: nat) -> Seq<char> {
    if i == 0 {
        Seq::empty()
    } else {
        match n {
            Notation::Compact => {
                if i == 1 {
                    "K"@
                } else if i == 2 {
                    "M"@
                } else if i == 3 {
                    "B"@
                } else {
                    "T"@
                }
            },
            Notation::Word => {
                if i == 1 {
                    "thousand"@
                } else if i == 2 {
                    "million"@
                } else if i == 3 {
                    "billion"@
                } else if i == 4 {
                    "trillion"@
                } else if i == 5 {
                    "quadrillion"@
                } else if i == 6 {
                    "quintillion"@
                } else if i == 7 {
                    "sextillion"@
                } else if i == 8 {
                    "septillion"@
                } else if i == 9 {
                    "octillion"@
                } else if i == 10 {
                    "nonillion"@
                } else {
                    "decillion"@
                }
            },
            Notation::Metric => {
                if i == 1 {
                    "k"@
                } else if i == 2 {
                    "M"@
                } else if i == 3 {
                    "G"@
                } else if i == 4 {
                    "T"@
                } else if i == 5 {
                    "P"@
                } else if i == 6 {
                    "E"@
                } else if i == 7 {
                    "Z"@
                } else if i == 8 {
                    "Y"@
                } else if i == 9 {
                    "R"@
                } else {
                    "Q"@
                }
            },
        }
    }
}

/// The sign written before a body: none for a body that reads as zero, `-` for a
/// negative value, `+` for a non-negative one when asked for.
pub open spec fn sign_prefix(negative: bool, is_zero: bool, sign_plus: bool) -> Seq<char> {
    if is_zero {
        Seq::empty()
    } else if negative {
        seq!['-']
    } else if sign_plus {
        seq!['+']
    } else {
        Seq::empty()
    }
}

/// The `f64` `d` divided by `1000.0` while it is at least 1000, at most `max`
/// times: how many divisions were made, and the value left.
pub open spec fn scaled(d: (nat, int), max: nat) -> (nat, (nat, int))
    decreases max,
{
    if max > 0 && at_least(d, 1000) {
        let (i, v) = scaled(div1000(d), (max - 1) as nat);
        (i + 1, v)
    } else {
        (0, d)
    }
}

/// `n * 10^j` in scientific notation as `{:e}` writes it: the first digit, then
/// a point and the other digits unless they are all zeros, then `e` and the
/// power of ten: `1e36`, `1.5e15`.
pub open spec fn scientific(n: nat, j: nat) -> Seq<char> {
    let ds = digits(n);
    let tail = strip_end(ds.drop_first(), '0');
    seq![ds[0]] + (if tail.len() == 0 {
        Seq::<char>::empty()
    } else {
        seq!['.'] + tail
    }) + seq!['e'] + digits((ds.len() - 1 + j) as nat)
}

/// What `format!("{:e}", m as f64)` writes: the shortest digits that read back
/// as the `f64` nearest to `m`, in scientific notation.
pub open spec fn scientific_magnitude(m: nat) -> Seq<char> {
    let (n, j) = shortest_form(nearest_double(m));
    scientific(n, j)
}

/// The preset of a notation: one decimal, trailing zeros trimmed, no explicit
/// `+`, and a space before the suffix except in compact notation.
pub open spec fn preset(n: Notation) -> FormatterView {
    FormatterView {
        notation: n,
        precision: 1,
        trim_zeros: true,
        space: n != Notation::Compact,
        sign_plus: false,
    }
}

/// The settings of a [`Formatter`].
pub struct FormatterView {
    pub notation: Notation,
    pub precision: usize,
    pub trim_zeros: bool,
    pub space: bool,
    pub sign_plus: bool,
}

impl FormatterView {
    /// The number of fractional digits actually rendered.
    pub open spec fn effective_precision(self) -> nat {
        if self.precision < MAX_PRECISION {
            self.precision as nat
        } else {
            MAX_PRECISION as nat
        }
    }

    /// The `f64` nearest to the magnitude `m`, divided by 1000 while it is at
    /// least 1000 and a larger suffix is left: the suffix index and the value.
    pub open spec fn scaled_value(self, m: nat) -> (nat, (nat, int)) {
        scaled(nearest_double(m), max_index(self.notation))
    }

    /// The digits written for the `f64` `v` at the effective precision (`v`
    /// times `10^precision`, rounded half to even).
    pub open spec fn rendered_value(self, v: (nat, int)) -> nat {
        render_value(v, self.effective_precision())
    }

    /// Whether `v` written at the effective precision reads 1000 or more.
    pub open spec fn rounds_to_1000(self, v: (nat, int)) -> bool {
        self.rendered_value(v) >= 1000 * pow10(self.effective_precision())
    }

    /// Whether the magnitude `m` is written in scientific notation: it is still
    /// at least 1000 at the largest suffix, or it would be written as 1000 there.
    pub open spec fn scientific_fallback(self, m: nat) -> bool {
        let (i, v) = self.scaled_value(m);
        at_least(v, 1000) || (i == max_index(self.notation) && self.rounds_to_1000(v))
    }

    /// The suffix index and the `f64` mantissa written for `m`: the scaled
    /// value, divided once more and moved to the next suffix when it would be
    /// written as 1000.
    pub open spec fn chosen(self, m: nat) -> (nat, (nat, int)) {
        let (i, v) = self.scaled_value(m);
        if self.rounds_to_1000(v) {
            (i + 1, div1000(v))
        } else {
            (i, v)
        }
    }

    /// A rendered mantissa as it is shown: trimmed if asked.
    pub open spec fn shown(self, rendered: Seq<char>) -> Seq<char> {
        if self.trim_zeros {
            trimmed(rendered)
        } else {
            rendered
        }
    }

    /// The unsigned text for a rendered mantissa at suffix index `idx`: the
    /// mantissa, trimmed if asked, followed by the suffix (after a space if asked).
    pub open spec fn body(self, idx: nat, rendered: Seq<char>) -> Seq<char> {
        let shown = self.shown(rendered);
        let suffix = suffix_text(self.notation, idx);
        if suffix.len() == 0 {
            shown
        } else {
            shown + (if self.space {
                seq![' ']
            } else {
                Seq::<char>::empty()
            }) + suffix
        }
    }

    /// The output for a rendered mantissa at suffix index `idx`: its body,
    /// signed unless the body reads as zero.
    pub open spec fn finished(self, negative: bool, idx: nat, rendered: Seq<char>) -> Seq<char> {
        let body = self.body(idx, rendered);
        sign_prefix(negative, all_zero_chars(body), self.sign_plus) + body
    }

    /// The humanized form of the integer whose sign is `negative` and whose
    /// magnitude is `m`, which is first converted to the nearest `f64`.
    pub open spec fn formatted(self, negative: bool, m: nat) -> Seq<char> {
        if self.scientific_fallback(m) {
            sign_prefix(negative, false, self.sign_plus) + scientific_magnitude(m)
        } else {
            let (idx, v) = self.chosen(m);
            self.finished(negative, idx, fixed(self.rendered_value(v), self.effective_precision()))
        }
    }
}

/// A configurable number humanizer.
///
/// Construct one of the presets ([`Formatter::compact`], [`Formatter::word`],
/// [`Formatter::metric`]) and tweak it with the builder methods, then call
/// [`Formatter::format`].
#[derive(Debug, Clone, Copy, PartialEq, Eq, Hash)]
pub struct Formatter {
    notation: Notation,
    precision: usize,
    trim_zeros: bool,
    space: bool,
    sign_plus: bool,
}

impl View for Formatter {
    type V = FormatterView;

    closed spec fn view(&self) -> FormatterView {
        FormatterView {
            notation: self.notation,
            precision: self.precision,
            trim_zeros: self.trim_zeros,
            space: self.space,
            sign_plus: self.sign_plus,
        }
    }
}

impl Default for Formatter {
    /// The [`Formatter::compact`] preset.
    fn default() -> (f: Self)
        ensures
            f@ == preset(Notation::Compact),
    {
        Self::compact()
    }
}

impl Formatter {
    /// Compact preset: `1.2K`, 1 decimal, trailing zeros trimmed, no space.
    pub fn compact() -> (f: Self)
        ensures
            f@ == preset(Notation::Compact),
    {
        Self { notation: Notation::Compact, precision: 1, trim_zeros: true, space: false, sign_plus: false }
    }

    /// Word preset: `1.2 million`, 1 decimal, trailing zeros trimmed, with space.
    pub fn word() -> (f: Self)
        ensures
            f@ == preset(Notation::Word),
    {
        Self { notation: Notation::Word, precision: 1, trim_zeros: true, space: true, sign_plus: false }
    }

    /// Metric (SI) preset: `1.2 k`, 1 decimal, trailing zeros trimmed, with space.
    pub fn metric() -> (f: Self)
        ensures
            f@ == preset(Notation::Metric),
    {
        Self { notation: Notation::Metric, precision: 1, trim_zeros: true, space: true, sign_plus: false }
    }

    /// Start from a [`Notation`] with that notation's preset defaults.
    pub fn new(notation: Notation) -> (f: Self)
        ensures
            f@ == preset(notation),
    {
        match notation {
            Notation::Compact => Self::compact(),
            Notation::Word => Self::word(),
            Notation::Metric => Self::metric(),
        }
    }

    /// Set the maximum number of fractional digits (default `1`).
    pub fn precision(self, precision: usize) -> (f: Self)
        ensures
            f@ == (FormatterView { precision: precision, ..self@ }),
    {
        Self { precision, ..self }
    }

    /// Whether to trim trailing zeros (and a dangling `.`). Default `true`.
    pub fn trim_zeros(self, trim: bool) -> (f: Self)
        ensures
            f@ == (FormatterView { trim_zeros: trim, ..self@ }),
    {
        Self { trim_zeros: trim, ..self }
    }

    /// Whether to put a space between the number and its suffix.
    pub fn space(self, space: bool) -> (f: Self)
        ensures
            f@ == (FormatterView { space: space, ..self@ }),
    {
        Self { space, ..self }
    }

    /// Whether to prefix non-negative numbers with an explicit `+`.
    pub fn sign_plus(self, sign_plus: bool) -> (f: Self)
        ensures
            f@ == (FormatterView { sign_plus: sign_plus, ..self@ }),
    {
        Self { sign_plus, ..self }
    }

    /// The notation of this formatter.
    pub fn notation(&self) -> (n: Notation)
        ensures
            n == self@.notation,
    {
        self.notation
    }

    /// The number of fractional digits rendered (the precision, clamped).
    pub fn effective_precision(&self) -> (p: usize)
        ensures
            p as nat == self@.effective_precision(),
    {
        if self.precision < MAX_PRECISION {
            self.precision
        } else {
            MAX_PRECISION
        }
    }

    /// Index of the largest suffix of this formatter's notation.
    pub fn max_index(&self) -> (m: usize)
        ensures
            m as nat == max_index(self@.notation),
    {
        match self.notation {
            Notation::Compact => 4,
            Notation::Word => 11,
            Notation::Metric => 10,
        }
    }

    /// The suffix for `1000^idx`.
    fn suffix(&self, idx: usize) -> (s: &'static str)
        requires
            idx <= max_index(self@.notation),
        ensures
            s@ == suffix_text(self@.notation, idx as nat),
    {
        if idx == 0 {
            proof {
                reveal_strlit("");
            }
            assert(""@ =~= Seq::<char>::empty());
            return "";
        }
        match self.notation {
            Notation::Compact => {
                if idx == 1 {
                    "K"
                } else if idx == 2 {
                    "M"
                } else if idx == 3 {
                    "B"
                } else {
                    "T"
                }
            },
            Notation::Word => {
                if idx == 1 {
                    "thousand"
                } else if idx == 2 {
                    "million"
                } else if idx == 3 {
                    "billion"
                } else if idx == 4 {
                    "trillion"
                } else if idx == 5 {
                    "quadrillion"
                } else if idx == 6 {
                    "quintillion"
                } else if idx == 7 {
                    "sextillion"
                } else if idx == 8 {
                    "septillion"
                } else if idx == 9 {
                    "octillion"
                } else if idx == 10 {
                    "nonillion"
                } else {
                    "decillion"
                }
            },
            Notation::Metric => {
                if idx == 1 {
                    "k"
                } else if idx == 2 {
                    "M"
                } else if idx == 3 {
                    "G"
                } else if idx == 4 {
                    "T"
                } else if idx == 5 {
                    "P"
                } else if idx == 6 {
                    "E"
                } else if idx == 7 {
                    "Z"
                } else if idx == 8 {
                    "Y"
                } else if idx == 9 {
                    "R"
                } else {
                    "Q"
                }
            },
        }
    }

    /// Prefix `body` with the appropriate sign. A body that reads as zero is
    /// never signed (no `-0`, no `+0`).
    pub fn with_sign(&self, negative: bool, is_zero: bool, body: &Vec<char>) -> (s: String)
        ensures
            s@ == sign_prefix(negative, is_zero, self@.sign_plus) + body@,
    {
        let mut out: Vec<char> = Vec::new();
        if is_zero {
        } else if negative {
            out.push('-');
        } else if self.sign_plus {
            out.push('+');
        }
        let ghost prefix = out@;
        let mut i: usize = 0;
        while i < body.len()
            invariant
                i <= body.len(),
                out@ == prefix + body@.take(i as int),
            decreases body.len() - i,
        {
            out.push(body[i]);
            i = i + 1;
            assert(prefix + body@.take(i as int) =~= (prefix + body@.take((i - 1) as int)).push(
                body@[i - 1],
            ));
        }
        assert(body@.take(body.len() as int) =~= body@);
        string_from_chars(&out)
    }

    /// Finish a rendered mantissa at suffix index `idx`: trim it if asked, append
    /// the suffix (after a space if asked) and sign it.
    pub fn finish(&self, negative: bool, idx: usize, rendered: Vec<char>) -> (s: String)
        requires
            idx <= max_index(self@.notation),
        ensures
            s@ == self@.finished(negative, idx as nat, rendered@),
    {
        let mut body = rendered;
        if self.trim_zeros {
            trim_trailing_zeros(&mut body);
        }
        let ghost shown = body@;
        let suffix = self.suffix(idx);
        if !suffix.is_empty() {
            if self.space {
                body.push(' ');
            }
            push_str(&mut body, suffix);
            proof {
                if self.space {
                    assert(body@ =~= shown + seq![' '] + suffix@);
                } else {
                    assert(body@ =~= shown + Seq::<char>::empty() + suffix@);
                }
            }
        }
        let zero = is_all_zero(&body);
        self.with_sign(negative, zero, &body)
    }

    /// `n * 10^j` in scientific notation, signed.
    fn scientific_signed(&self, negative: bool, n: u128, j: u32) -> (s: String)
        ensures
            s@ == sign_prefix(negative, false, self@.sign_plus) + scientific(n as nat, j as nat),
    {
        let mut ds: Vec<char> = Vec::new();
        push_digits(&mut ds, n);
        proof {
            lemma_digits_nonempty(n as nat);
        }
        assert(ds@ == digits(n as nat));
        let mut tail: Vec<char> = Vec::new();
        let mut i: usize = 1;
        while i < ds.len()
            invariant
                1 <= i <= ds.len(),
                tail@ == ds@.subrange(1, i as int),
            decreases ds.len() - i,
        {
            tail.push(ds[i]);
            i = i + 1;
            assert(tail@ =~= ds@.subrange(1, i as int));
        }
        assert(tail@ =~= ds@.drop_first());
        pop_while(&mut tail, '0');
        let mut out: Vec<char> = Vec::new();
        out.push(ds[0]);
        if tail.len() > 0 {
            out.push('.');
            let mut k: usize = 0;
            let ghost before = out@;
            while k < tail.len()
                invariant
                    k <= tail.len(),
                    out@ == before + tail@.take(k as int),
                decreases tail.len() - k,
            {
                out.push(tail[k]);
                k = k + 1;
                assert(before + tail@.take(k as int) =~= (before + tail@.take((k - 1) as int)).push(
                    tail@[k - 1],
                ));
            }
            assert(tail@.take(tail.len() as int) =~= tail@);
        }
        out.push('e');
        let exponent = (ds.len() - 1) as u128 + j as u128;
        push_digits(&mut out, exponent);
        assert(out@ =~= scientific(n as nat, j as nat));
        self.with_sign(negative, false, &out)
    }

    /// `m` as `{:e}` writes the `f64` nearest to it, signed.
    fn scientific_magnitude_signed(&self, negative: bool, m: u128) -> (s: String)
        ensures
            s@ == sign_prefix(negative, false, self@.sign_plus) + scientific_magnitude(m as nat),
    {
        let d = nearest_double_u128(m);
        proof {
            lemma_pow2_values();
            crate::double::lemma_nearest_double_valid(m as nat);
            if d.1 < 0 {
                let k = (-d.1) as nat;
                lemma_pow2_positive(k);
                assert(m >= 1);
                assert(d.0 as nat == (m as nat) * pow2(k));
                vstd::arithmetic::div_mod::lemma_mod_multiples_basic(m as int, pow2(k) as int);
                assert((d.0 as nat) % pow2(k) == 0);
            }
        }
        let (n, j) = shortest(d);
        self.scientific_signed(negative, n, j)
    }

    /// Humanize the integer with sign `negative` and magnitude `magnitude`.
    pub fn format_magnitude(&self, negative: bool, magnitude: u128) -> (s: String)
        ensures
            s@ == self@.formatted(negative, magnitude as nat),
    {
        let p = self.effective_precision();
        let max = self.max_index();
        let d = nearest_double_u128(magnitude);
        let ghost d0 = (d.0 as nat, d.1 as int);
        let mut v = d;
        let mut idx: usize = 0;
        while idx < max && at_least_1000(v)
            invariant
                idx <= max,
                max as nat == max_index(self@.notation),
                max <= 11,
                valid_double((v.0 as nat, v.1 as int)),
                v.0 == 0 || v.1 >= -53,
                d0 == nearest_double(magnitude as nat),
                scaled(d0, max as nat) == ((idx + scaled((v.0 as nat, v.1 as int), (max - idx) as nat).0) as nat,
                    scaled((v.0 as nat, v.1 as int), (max - idx) as nat).1),
            decreases max - idx,
        {
            proof {
                lemma_at_least_exponent((v.0 as nat, v.1 as int));
                lemma_div1000_valid((v.0 as nat, v.1 as int));
            }
            v = div1000_u128(v);
            idx = idx + 1;
        }
        let ghost vv = (v.0 as nat, v.1 as int);
        assert(self@.scaled_value(magnitude as nat) == (idx as nat, vv));
        if at_least_1000(v) {
            return self.scientific_magnitude_signed(negative, magnitude);
        }
        proof {
            if v.0 != 0 {
                lemma_below_1000_exponent(vv);
            }
        }
        let (ip, rendered) = render_double(v, p);
        proof {
            let rv = self@.rendered_value(vv);
            let e = pow10(p as nat);
            lemma_pow10_positive(p as nat);
            vstd::arithmetic::div_mod::lemma_fundamental_div_mod(rv as int, e as int);
            assert((ip >= 1000) == (rv >= 1000 * e)) by (nonlinear_arith)
                requires
                    ip == rv / e,
                    rv == e * (rv / e) + rv % e,
                    rv % e < e,
                    e >= 1,
            ;
        }
        if ip >= 1000 {
            if idx < max {
                proof {
                    lemma_div1000_valid(vv);
                }
                let w = div1000_u128(v);
                let (_, promoted) = render_double(w, p);
                self.finish(negative, idx + 1, promoted)
            } else {
                self.scientific_magnitude_signed(negative, magnitude)
            }
        } else {
            self.finish(negative, idx, rendered)
        }
    }

    /// Humanize `value` into a [`String`] using this formatter's settings.
    pub fn format<N: Integer>(&self, value: N) -> (s: String)
        ensures
            s@ == self@.formatted(value.value() < 0, abs(value.value())),
    {
        let (negative, magnitude) = value.sign_magnitude();
        self.format_magnitude(negative, magnitude)
    }
}

/// Every suffix past the first is a non-empty word of ASCII letters.
pub proof fn lemma_suffix_letters(n: Notation, i: nat)
    requires
        1 <= i <= max_index(n),
    ensures
        suffix_text(n, i).len() > 0,
        forall|j: int|
            0 <= j < suffix_text(n, i).len() ==> is_ascii_alphabetic(#[trigger] suffix_text(n, i)[j]),
{
    reveal_strlit("K");
    reveal_strlit("M");
    reveal_strlit("B");
    reveal_strlit("T");
    reveal_strlit("thousand");
    reveal_strlit("million");
    reveal_strlit("billion");
    reveal_strlit("trillion");
    reveal_strlit("quadrillion");
    reveal_strlit("quintillion");
    reveal_strlit("sextillion");
    reveal_strlit("septillion");
    reveal_strlit("octillion");
    reveal_strlit("nonillion");
    reveal_strlit("decillion");
    reveal_strlit("k");
    reveal_strlit("G");
    reveal_strlit("P");
    reveal_strlit("E");
    reveal_strlit("Z");
    reveal_strlit("Y");
    reveal_strlit("R");
    reveal_strlit("Q");
}

proof fn lemma_digits_nonempty(n: nat)
    ensures
        digits(n).len() >= 1,
    decreases n,
{
}

/// A value of at least 1000 is nonzero, with an exponent of at least -43.
proof fn lemma_at_least_exponent(v: (nat, int))
    requires
        valid_double(v),
        at_least(v, 1000),
    ensures
        v.0 != 0,
        v.1 >= -43,
{
    lemma_pow2_values();
    if v.1 < -43 {
        let k = (-v.1) as nat;
        lemma_pow2_monotonic(44, k);
        lemma_pow2_add(44, 9);
        assert(1000 * pow2(k) >= pow2(53)) by (nonlinear_arith)
            requires
                pow2(k) >= pow2(44),
                pow2(53) == pow2(44) * 512,
        ;
    }
}

/// A nonzero value below 1000 has an exponent of at most -43.
proof fn lemma_below_1000_exponent(v: (nat, int))
    requires
        valid_double(v),
        !at_least(v, 1000),
        v.0 != 0,
    ensures
        v.1 <= -43,
{
    lemma_pow2_values();
    if v.1 >= 0 {
        lemma_pow2_positive(v.1 as nat);
        assert(v.0 * pow2(v.1 as nat) >= v.0) by (nonlinear_arith)
            requires
                pow2(v.1 as nat) >= 1,
        ;
    } else if v.1 > -43 {
        let k = (-v.1) as nat;
        lemma_pow2_monotonic(k, 42);
        lemma_pow2_add(42, 10);
        lemma_pow2_positive(42);
        assert(1000 * pow2(k) < pow2(52)) by (nonlinear_arith)
            requires
                pow2(42) >= 1,
                pow2(k) <= pow2(42),
                pow2(52) == pow2(42) * 1024,
        ;
    }
}

/// Dividing by 1000 while at least 1000 keeps a value valid, its exponent at
/// least -53, and makes at most `max` divisions.
proof fn lemma_scaled_valid(d: (nat, int), max: nat)
    requires
        valid_double(d),
        d.0 == 0 || d.1 >= -53,
    ensures
        scaled(d, max).0 <= max,
        valid_double(scaled(d, max).1),
        scaled(d, max).1.0 == 0 || scaled(d, max).1.1 >= -53,
        scaled(d, max).0 == 0 ==> scaled(d, max).1 == d,
    decreases max,
{
    if max > 0 && at_least(d, 1000) {
        lemma_at_least_exponent(d);
        lemma_div1000_valid(d);
        lemma_scaled_valid(div1000(d), (max - 1) as nat);
    }
}

/// The digits written for the `f64` nearest to a positive integer are not zero.
proof fn lemma_nearest_render_positive(m: nat, p: nat)
    requires
        1 <= m < pow2(128),
    ensures
        render_value(nearest_double(m), p) >= 1,
{
    let d = nearest_double(m);
    crate::double::lemma_nearest_double_valid(m);
    lemma_pow10_positive(p);
    lemma_pow2_values();
    if d.1 < 0 {
        let k = (-d.1) as nat;
        lemma_pow2_positive(k);
        assert(d.0 * pow10(p) >= pow2(k)) by (nonlinear_arith)
            requires
                d.0 == m * pow2(k),
                m >= 1,
                pow10(p) >= 1,
                pow2(k) >= 1,
        ;
        lemma_round_half_even_lower(d.0 * pow10(p), pow2(k));
    } else {
        lemma_pow2_positive(d.1 as nat);
        assert(d.0 * pow2(d.1 as nat) * pow10(p) >= 1) by (nonlinear_arith)
            requires
                d.0 >= 1,
                pow10(p) >= 1,
                pow2(d.1 as nat) >= 1,
        ;
    }
}

/// The mantissa written with a suffix is never 1000 or more, at any suffix:
/// rounding that would reach 1000 moves to the next suffix, and at the largest
/// one the number goes to scientific notation instead (no `1000K`, no `1000T`).
pub proof fn lemma_mantissa_below_1000(f: FormatterView, m: nat)
    requires
        m < pow2(128),
        !f.scientific_fallback(m),
    ensures
        f.chosen(m).0 <= max_index(f.notation),
        f.rendered_value(f.chosen(m).1) < 1000 * pow10(f.effective_precision()),
        valid_double(f.chosen(m).1),
        f.chosen(m).1.0 != 0 ==> f.chosen(m).1.1 < 0,
{
    let max = max_index(f.notation);
    let p = f.effective_precision();
    crate::double::lemma_nearest_double_valid(m);
    lemma_scaled_valid(nearest_double(m), max);
    let (i, v) = f.scaled_value(m);
    if v.0 != 0 {
        lemma_below_1000_exponent(v);
    }
    if f.rounds_to_1000(v) {
        lemma_pow10_positive(p);
        lemma_pow2_values();
        if v.0 == 0 {
            assert(v == (0nat, 0int));
            assert(0nat * pow2(0) * pow10(p) == 0) by (nonlinear_arith);
            assert(f.rendered_value(v) == 0);
        }
        lemma_below_1000_exponent(v);
        lemma_div1000_valid(v);
        let w = div1000(v);
        let k = (-w.1) as nat;
        lemma_pow2_monotonic(51, k);
        lemma_pow2_add(51, 2);
        assert(w.0 * pow10(p) < (4 * pow10(p)) * pow2(k)) by (nonlinear_arith)
            requires
                w.0 < pow2(53),
                pow2(53) == pow2(51) * 4,
                pow2(k) >= pow2(51),
                pow10(p) >= 1,
        ;
        lemma_round_half_even_upper(w.0 * pow10(p), pow2(k), 4 * pow10(p));
    }
}

/// A positive magnitude written with a suffix never renders as a body that
/// reads as zero.
pub proof fn lemma_body_nonzero(f: FormatterView, m: nat)
    requires
        1 <= m < pow2(128),
        !f.scientific_fallback(m),
    ensures
        !all_zero_chars(
            f.body(f.chosen(m).0, fixed(f.rendered_value(f.chosen(m).1), f.effective_precision())),
        ),
{
    let max = max_index(f.notation);
    let p = f.effective_precision();
    let (idx, v) = f.chosen(m);
    let r = f.rendered_value(v);
    let rendered = fixed(r, p);
    let body = f.body(idx, rendered);
    lemma_mantissa_below_1000(f, m);
    crate::double::lemma_nearest_double_valid(m);
    lemma_scaled_valid(nearest_double(m), max);
    if idx >= 1 {
        lemma_suffix_letters(f.notation, idx);
        let suffix = suffix_text(f.notation, idx);
        assert(body[body.len() - 1] == suffix[suffix.len() - 1]);
        assert(is_ascii_alphabetic(suffix[suffix.len() - 1]));
    } else {
        lemma_pow10_small();
        lemma_pow10_positive(p);
        assert(v == nearest_double(m));
        lemma_nearest_render_positive(m, p);
        assert(r >= 1);
        if all_zero_chars(rendered) {
            if p == 0 {
                lemma_digits_zero(r);
            } else {
                let ip = r / pow10(p);
                let w = width_digits(r % pow10(p), p);
                lemma_width_digits_len(r % pow10(p), p);
                assert(rendered == digits(ip) + seq!['.'] + w);
                assert forall|i: int| 0 <= i < digits(ip).len() implies (#[trigger] digits(ip)[i]
                    == '0' || digits(ip)[i] == '.') by {
                    assert(rendered[i] == digits(ip)[i]);
                }
                lemma_digits_zero(ip);
                assert forall|i: int| 0 <= i < w.len() implies #[trigger] w[i] == '0' by {
                    assert(rendered[digits(ip).len() + 1 + i] == w[i]);
                    assert(w[i] != '.');
                }
                lemma_width_digits_zero(r % pow10(p), p);
                vstd::arithmetic::div_mod::lemma_fundamental_div_mod(r as int, pow10(p) as int);
                assert(r == pow10(p) * ip + r % pow10(p));
                assert(pow10(p) * 0 == 0);
            }
        }
        if f.trim_zeros && all_zero_chars(body) {
            lemma_trimmed_zero(rendered);
        }
    }
}

/// Negative numbers keep their sign, and the sign never changes the digits: the
/// output for a non-zero value is its unsigned body after `-`, or after `+` when
/// an explicit sign is asked for.
pub proof fn lemma_sign(f: FormatterView, m: nat)
    requires
        1 <= m < pow2(128),
    ensures
        f.formatted(true, m) == seq!['-'] + (FormatterView { sign_plus: false, ..f }).formatted(
            false,
            m,
        ),
        f.formatted(false, m) == (if f.sign_plus {
            seq!['+']
        } else {
            Seq::<char>::empty()
        }) + (FormatterView { sign_plus: false, ..f }).formatted(false, m),
{
    let g = FormatterView { sign_plus: false, ..f };
    assert(g.scaled_value(m) == f.scaled_value(m));
    assert(g.chosen(m) == f.chosen(m));
    if !f.scientific_fallback(m) {
        lemma_body_nonzero(f, m);
        let (idx, v) = f.chosen(m);
        let body = f.body(idx, fixed(f.rendered_value(v), f.effective_precision()));
        assert(g.body(idx, fixed(g.rendered_value(v), g.effective_precision())) == body);
        assert(g.formatted(false, m) =~= body);
    } else {
        assert(g.formatted(false, m) =~= scientific_magnitude(m));
    }
}

/// Zero is never signed, whatever the sign flag and `sign_plus` say: its output
/// is its body, which reads as zero.
pub proof fn lemma_zero_unsigned(f: FormatterView, negative: bool)
    ensures
        f.formatted(negative, 0) == f.body(0, fixed(0, f.effective_precision())),
        all_zero_chars(f.formatted(negative, 0)),
{
    let p = f.effective_precision();
    lemma_pow10_small();
    lemma_pow10_positive(p);
    lemma_pow2_values();
    assert(nearest_double(0) == (0nat, 0int));
    assert(!at_least((0nat, 0int), 1000));
    assert(f.scaled_value(0) == (0nat, (0nat, 0int)));
    assert(render_value((0nat, 0int), p) == 0);
    assert(!f.scientific_fallback(0));
    assert(f.chosen(0) == (0nat, (0nat, 0int)));
    vstd::arithmetic::div_mod::lemma_div_of0(pow10(p) as int);
    let rendered = fixed(0, p);
    assert(all_zero_chars(rendered)) by {
        assert(digits(0) =~= seq!['0']);
        if p > 0 {
            vstd::arithmetic::div_mod::lemma_small_mod(0, pow10(p));
            lemma_width_digits_len(0, p);
            let w = width_digits(0, p);
            assert forall|i: int| 0 <= i < w.len() implies #[trigger] w[i] == '0' by {
                lemma_width_digits_of_zero(p);
            }
            assert(rendered == seq!['0'] + seq!['.'] + w);
            assert forall|i: int| 0 <= i < rendered.len() implies (#[trigger] rendered[i] == '0'
                || rendered[i] == '.') by {
                if i >= 2 {
                    assert(rendered[i] == w[i - 2]);
                }
            }
        }
    }
    if f.trim_zeros {
        crate::text::lemma_trimmed(rendered);
        let t = trimmed(rendered);
        assert forall|i: int| 0 <= i < t.len() implies (#[trigger] t[i] == '0' || t[i] == '.') by {
            assert(t[i] == rendered[i]);
        }
    }
}

/// Every character of the fixed-width digits of zero is `'0'`.
proof fn lemma_width_digits_of_zero(w: nat)
    ensures
        forall|i: int| 0 <= i < width_digits(0, w).len() ==> #[trigger] width_digits(0, w)[i] == '0',
    decreases w,
{
    if w > 0 {
        lemma_width_digits_of_zero((w - 1) as nat);
        let s = width_digits(0, w);
        let t = width_digits(0, (w - 1) as nat);
        assert(s == t.push(crate::text::digit_char(0)));
        assert forall|i: int| 0 <= i < s.len() implies #[trigger] s[i] == '0' by {
            if i < t.len() {
                assert(s[i] == t[i]);
            }
        }
    }
}

/// Precision beyond the largest one honoured changes nothing: every such
/// request renders as the largest.
pub proof fn lemma_precision_clamp(f: FormatterView, precision: usize, negative: bool, m: nat)
    requires
        precision >= MAX_PRECISION,
    ensures
        (FormatterView { precision: precision, ..f }).formatted(negative, m) == (FormatterView {
            precision: MAX_PRECISION,
            ..f
        }).formatted(negative, m),
{
    let g = FormatterView { precision: precision, ..f };
    let h = FormatterView { precision: MAX_PRECISION, ..f };
    assert(g.effective_precision() == h.effective_precision());
    assert(g.scaled_value(m) == h.scaled_value(m));
    assert(g.chosen(m) == h.chosen(m));
}

/// What rounding half to even at least `n` says of the number rounded.
proof fn lemma_round_half_even_reached(a: nat, d: nat, n: nat)
    requires
        d > 0,
        n >= 1,
        round_half_even(a, d) >= n,
    ensures
        2 * a >= (2 * n - 1) * d,
{
    let q = a / d;
    let r = a % d;
    vstd::arithmetic::div_mod::lemma_fundamental_div_mod(a as int, d as int);
    if round_half_even(a, d) == q {
        assert(2 * a >= (2 * n - 1) * d) by (nonlinear_arith)
            requires
                a == d * q + r,
                r >= 0,
                q >= n,
                n >= 1,
                d > 0,
        ;
    } else {
        assert(2 * a >= (2 * n - 1) * d) by (nonlinear_arith)
            requires
                a == d * q + r,
                2 * r >= d,
                q + 1 >= n,
                n >= 1,
                d > 0,
        ;
    }
}

/// A number more than `n - 1/2` times `d` rounds half to even to at least `n`.
proof fn lemma_round_half_even_reaches(a: nat, d: nat, n: nat)
    requires
        d > 0,
        n >= 1,
        2 * a > (2 * n - 1) * d,
    ensures
        round_half_even(a, d) >= n,
{
    let q = a / d;
    let r = a % d;
    vstd::arithmetic::div_mod::lemma_fundamental_div_mod(a as int, d as int);
    if q < n {
        assert(q == n - 1 && 2 * r > d) by (nonlinear_arith)
            requires
                a == d * q + r,
                0 <= r < d,
                q < n,
                2 * a > (2 * n - 1) * d,
        ;
    }
}

/// An `f64` of at least 1000 divided by `1000.0` is at least 1.
proof fn lemma_div1000_at_least_one(d: (nat, int))
    requires
        valid_double(d),
        at_least(d, 1000),
    ensures
        at_least(div1000(d), 1),
{
    lemma_at_least_exponent(d);
    lemma_pow2_values();
    lemma_div1000_valid(d);
    let t: nat = if d.0 * 1024 < 1000 * pow2(53) {
        10
    } else {
        9
    };
    let x = d.0 * pow2(t);
    let n = round_half_even(x, 1000);
    let w = div1000(d);
    assert(w.0 >= pow2(52));
    if w.1 >= 0 {
        lemma_pow2_positive(w.1 as nat);
        assert(w.0 * pow2(w.1 as nat) >= 1) by (nonlinear_arith)
            requires
                w.0 >= 1,
                pow2(w.1 as nat) >= 1,
        ;
    } else {
        let k = (-w.1) as nat;
        if d.1 >= 0 {
            lemma_pow2_monotonic(k, 10);
            lemma_pow2_monotonic(10, 52);
        } else {
            let kd = (-d.1) as nat;
            lemma_pow2_add(kd, t);
            assert(x >= 1000 * pow2(kd + t)) by (nonlinear_arith)
                requires
                    d.0 >= 1000 * pow2(kd),
                    x == d.0 * pow2(t),
                    pow2(kd + t) == pow2(kd) * pow2(t),
            ;
            lemma_pow2_positive(kd + t);
            assert(x >= pow2(kd + t) * 1000) by (nonlinear_arith)
                requires
                    x >= 1000 * pow2(kd + t),
            ;
            vstd::arithmetic::div_mod::lemma_div_is_ordered((pow2(kd + t) * 1000) as int, x as int, 1000);
            vstd::arithmetic::div_mod::lemma_div_multiples_vanish(pow2(kd + t) as int, 1000);
            assert(n >= x / 1000);
            if n == pow2(53) {
                lemma_pow2_add((kd + t - 1) as nat, 1);
                assert(pow2(1) == 2);
                assert(pow2(52) >= pow2((kd + t - 1) as nat));
                assert(w == (pow2(52), d.1 - t + 1));
                assert(k == kd + t - 1);
            } else {
                assert(w == (n, d.1 - t));
                assert(k == kd + t);
            }
        }
    }
}

/// After at least one division the scaled value is at least 1.
proof fn lemma_scaled_at_least_one(d: (nat, int), max: nat)
    requires
        valid_double(d),
        d.0 == 0 || d.1 >= -53,
        scaled(d, max).0 >= 1,
    ensures
        at_least(scaled(d, max).1, 1),
    decreases max,
{
    lemma_at_least_exponent(d);
    lemma_div1000_valid(d);
    let e = div1000(d);
    if scaled(e, (max - 1) as nat).0 == 0 {
        lemma_div1000_at_least_one(d);
    } else {
        lemma_scaled_at_least_one(e, (max - 1) as nat);
    }
}

/// With a suffix, the mantissa written is at least 1: a value scaled down by
/// 1000 is still at least 1, and one moved to the next suffix because it would
/// be written as 1000 is written as at least 1 there.
pub proof fn lemma_mantissa_at_least_one(f: FormatterView, m: nat)
    requires
        m < pow2(128),
        !f.scientific_fallback(m),
        f.chosen(m).0 >= 1,
    ensures
        f.rendered_value(f.chosen(m).1) >= pow10(f.effective_precision()),
{
    let max = max_index(f.notation);
    let p = f.effective_precision();
    let e = pow10(p);
    crate::double::lemma_nearest_double_valid(m);
    lemma_scaled_valid(nearest_double(m), max);
    lemma_pow10_positive(p);
    lemma_pow2_values();
    let (i, v) = f.scaled_value(m);
    if !f.rounds_to_1000(v) {
        lemma_scaled_at_least_one(nearest_double(m), max);
        lemma_at_least_exponent_one(v);
        if v.0 != 0 {
            lemma_below_1000_exponent(v);
        }
        let k = (-v.1) as nat;
        lemma_pow2_positive(k);
        assert(2 * (v.0 * e) > (2 * e - 1) * pow2(k)) by (nonlinear_arith)
            requires
                v.0 >= pow2(k),
                pow2(k) >= 1,
                e >= 1,
        ;
        lemma_round_half_even_reaches(v.0 * e, pow2(k), e);
    } else {
        if v.0 == 0 {
            assert(v == (0nat, 0int));
            assert(0nat * pow2(0) * pow10(p) == 0) by (nonlinear_arith);
            assert(f.rendered_value(v) == 0);
        }
        lemma_below_1000_exponent(v);
        let kv = (-v.1) as nat;
        let pv = pow2(kv);
        lemma_pow2_positive(kv);
        lemma_round_half_even_reached(v.0 * e, pv, 1000 * e);
        assert(2 * (v.0 * e) >= (2000 * e - 1) * pv);
        if p >= 16 {
            crate::decimal::lemma_pow10_monotonic(16, p);
            assert(pow10(16) == 10_000_000_000_000_000) by {
                reveal_with_fuel(pow10, 17);
            }
            lemma_pow2_monotonic(kv, 53);
            assert(v.0 < 1000 * pv);
            assert(false) by (nonlinear_arith)
                requires
                    2 * (v.0 * e) >= (2000 * e - 1) * pv,
                    v.0 + 1 <= 1000 * pv,
                    e >= 10_000_000_000_000_000,
                    pv <= 0x20_0000_0000_0000,
                    pv >= 1,
            ;
        }
        crate::decimal::lemma_pow10_monotonic(p, 15);
        assert(pow10(15) == 1_000_000_000_000_000) by {
            reveal_with_fuel(pow10, 16);
        }
        let t: nat = if v.0 * 1024 < 1000 * pow2(53) {
            10
        } else {
            9
        };
        let pt = pow2(t);
        let x = v.0 * pt;
        let n = round_half_even(x, 1000);
        crate::decimal::lemma_round_half_even_error(x, 1000);
        let big_k = kv + t;
        lemma_pow2_add(kv, t);
        let d = pow2(big_k);
        lemma_pow2_monotonic(52, big_k);
        assert(pt >= 1);
        assert(2000 * n * e >= (2000 * e - 1) * d - 1000 * e) by (nonlinear_arith)
            requires
                2 * (x - n * 1000) <= 1000,
                x == v.0 * pt,
                2 * (v.0 * e) >= (2000 * e - 1) * pv,
                d == pv * pt,
                pt >= 1,
                e >= 1,
        ;
        assert(2 * (n * e) > (2 * e - 1) * d) by (nonlinear_arith)
            requires
                2000 * n * e >= (2000 * e - 1) * d - 1000 * e,
                d >= 0x10_0000_0000_0000,
                e <= 1_000_000_000_000_000,
                e >= 1,
        ;
        let w = div1000(v);
        if n == pow2(53) {
            lemma_pow2_add((big_k - 1) as nat, 1);
            assert(pow2(1) == 2);
            assert(w == (pow2(52), v.1 - t + 1));
            assert(2 * (pow2(52) * e) > (2 * e - 1) * pow2((big_k - 1) as nat)) by (nonlinear_arith)
                requires
                    2 * (n * e) > (2 * e - 1) * d,
                    n == 2 * pow2(52),
                    d == pow2((big_k - 1) as nat) * 2,
            ;
            lemma_pow2_positive((big_k - 1) as nat);
            lemma_round_half_even_reaches(pow2(52) * e, pow2((big_k - 1) as nat), e);
        } else {
            assert(w == (n, v.1 - t));
            lemma_round_half_even_reaches(n * e, d, e);
        }
    }
}

/// A value of at least 1 below 1000 is nonzero with a negative exponent, and
/// its mantissa is at least the power of two it is divided by.
proof fn lemma_at_least_exponent_one(v: (nat, int))
    requires
        valid_double(v),
        at_least(v, 1),
        !at_least(v, 1000),
    ensures
        v.0 != 0,
        v.1 < 0,
        v.0 >= pow2((-v.1) as nat),
{
    lemma_pow2_values();
    if v.0 == 0 {
        assert(v == (0nat, 0int));
    }
    lemma_below_1000_exponent(v);
}

} // verus!
