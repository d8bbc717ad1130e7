//! What reading gives back of what formatting writes.

use vstd::prelude::*;
use crate::decimal::{fixed, lemma_width_digits_len, pow10, width_digits};
use crate::double::{nearest_double, pow2};
use crate::format::{
    lemma_suffix_letters, max_index, scientific, sign_prefix, suffix_text, FormatterView, MAX_PRECISION,
    Notation,
};
use crate::shortest::shortest_form;
use crate::parse::{
    all_digits, exp_start, is_ascii_alphabetic, is_decimal_mantissa, is_digit, is_exp_marker,
    is_float_literal, is_sign, is_white_space, number_len, parse_outcome,
    scan_number, suffix_exponent, to_ascii_lower, trim, trim_end, trim_start, unsigned_part,
    without_separators, ParseErrorView,
};
use crate::text::{all_zero_chars, digit_char, digits, lemma_strip_end, strip_end, trimmed};

verus! {

/// Digits with at most one decimal point, starting with a digit.
pub open spec fn is_plain_decimal(x: Seq<char>) -> bool {
    &&& x.len() > 0
    &&& is_digit(x[0])
    &&& forall|i: int| 0 <= i < x.len() ==> is_digit(#[trigger] x[i]) || x[i] == '.'
    &&& forall|i: int, j: int| 0 <= i < j < x.len() && x[i] == '.' ==> x[j] != '.'
}

/// Whether `t[i..k]` holds a decimal point.
pub open spec fn has_dot(t: Seq<char>, i: int, k: int) -> bool {
    exists|x: int| i <= x < k && #[trigger] t[x] == '.'
}

proof fn lemma_digits_chars(n: nat)
    ensures
        digits(n).len() >= 1,
        forall|i: int| 0 <= i < digits(n).len() ==> is_digit(#[trigger] digits(n)[i]),
    decreases n,
{
    if n >= 10 {
        lemma_digits_chars(n / 10);
        let s = digits(n);
        let t = digits(n / 10);
        assert forall|i: int| 0 <= i < s.len() implies is_digit(#[trigger] s[i]) by {
            if i < t.len() {
                assert(s[i] == t[i]);
            }
        }
    }
}

proof fn lemma_fixed_plain(r: nat, p: nat)
    ensures
        is_plain_decimal(fixed(r, p)),
        p > 0 ==> fixed(r, p).last() != '.',
{
    if p == 0 {
        lemma_digits_chars(r);
    } else {
        let ip = r / pow10(p);
        let d = digits(ip);
        let w = width_digits(r % pow10(p), p);
        lemma_digits_chars(ip);
        lemma_width_digits_len(r % pow10(p), p);
        let x = fixed(r, p);
        assert(x == d + seq!['.'] + w);
        assert forall|i: int| 0 <= i < x.len() implies is_digit(#[trigger] x[i]) || x[i] == '.' by {
            if i < d.len() {
                assert(x[i] == d[i]);
            } else if i > d.len() {
                assert(x[i] == w[i - d.len() - 1]);
            }
        }
        assert forall|i: int, j: int| 0 <= i < j < x.len() && x[i] == '.' implies x[j] != '.' by {
            if i < d.len() {
                assert(x[i] == d[i]);
            } else if i > d.len() {
                assert(x[i] == w[i - d.len() - 1]);
            }
            assert(x[j] == w[j - d.len() - 1]);
        }
        assert(x[0] == d[0]);
        assert(x.last() == w[w.len() - 1]);
    }
}

proof fn lemma_trimmed_plain(x: Seq<char>)
    requires
        is_plain_decimal(x),
    ensures
        is_plain_decimal(trimmed(x)),
        trimmed(x).last() != '.',
{
    if x.contains('.') {
        let dot = choose|d: int| 0 <= d < x.len() && x[d] == '.';
        let a = strip_end(x, '0');
        lemma_strip_end(x, '0');
        lemma_strip_end(a, '.');
        let ka = a.len() as int;
        let b = strip_end(a, '.');
        let kb = b.len() as int;
        assert(dot > 0);
        assert(ka > dot) by {
            if ka <= dot {
                assert(x[dot] == '0');
            }
        }
        assert(a[dot] == x[dot]);
        assert(kb >= ka - 1) by {
            if kb < ka - 1 {
                assert(a[ka - 1] == '.');
                assert(a[ka - 2] == '.');
                assert(x[ka - 1] == a[ka - 1]);
                assert(x[ka - 2] == a[ka - 2]);
            }
        }
        assert(b =~= x.take(kb));
        assert(kb >= 1);
        assert forall|i: int| 0 <= i < b.len() implies is_digit(#[trigger] b[i]) || b[i] == '.' by {
            assert(b[i] == x[i]);
        }
        assert forall|i: int, j: int| 0 <= i < j < b.len() && b[i] == '.' implies b[j] != '.' by {
            assert(b[i] == x[i]);
            assert(b[j] == x[j]);
        }
        assert(b[0] == x[0]);
    } else {
        assert(x.last() != '.') by {
            assert(x.contains(x[x.len() - 1]));
        }
    }
}

/// A run of digits with at most one decimal point moves the scanner to its end,
/// noting the decimal point.
proof fn lemma_scan_run(t: Seq<char>, i: nat, k: nat, dot: bool, exp: bool)
    requires
        i <= k <= t.len(),
        forall|x: int| i <= x < k ==> is_digit(#[trigger] t[x]) || t[x] == '.',
        forall|x: int, y: int| i <= x < y < k && t[x] == '.' ==> t[y] != '.',
        (dot || exp) ==> !has_dot(t, i as int, k as int),
    ensures
        scan_number(t, i, dot, exp) == scan_number(t, k, dot || has_dot(t, i as int, k as int), exp),
    decreases k - i,
{
    if i < k {
        if t[i as int] == '.' {
            assert(has_dot(t, i as int, k as int));
            assert(!has_dot(t, i + 1 as int, k as int));
            lemma_scan_run(t, i + 1, k, true, exp);
        } else {
            assert(has_dot(t, i + 1 as int, k as int) == has_dot(t, i as int, k as int)) by {
                if has_dot(t, i as int, k as int) {
                    let x = choose|x: int| i <= x < k && #[trigger] t[x] == '.';
                    assert(x != i);
                }
            }
            lemma_scan_run(t, i + 1, k, dot, exp);
        }
    } else {
        assert(!has_dot(t, i as int, k as int));
    }
}

proof fn lemma_without_separators_id(x: Seq<char>)
    requires
        forall|i: int| 0 <= i < x.len() ==> #[trigger] x[i] != ',' && x[i] != '_',
    ensures
        without_separators(x) == x,
    decreases x.len(),
{
    if x.len() > 0 {
        lemma_without_separators_id(x.drop_last());
        assert(x.drop_last().push(x.last()) =~= x);
    }
}

proof fn lemma_exp_start(x: Seq<char>, k: nat)
    requires
        k <= x.len(),
        forall|i: int| 0 <= i < k ==> !is_exp_marker(#[trigger] x[i]),
        k == x.len() || is_exp_marker(x[k as int]),
    ensures
        exp_start(x) == k,
    decreases k,
{
    if k > 0 {
        assert forall|i: int| 0 <= i < k - 1 implies !is_exp_marker(#[trigger] x.drop_first()[i]) by {
            assert(x.drop_first()[i] == x[i + 1]);
        }
        lemma_exp_start(x.drop_first(), (k - 1) as nat);
    }
}

proof fn lemma_plain_mantissa(x: Seq<char>)
    requires
        is_plain_decimal(x),
    ensures
        is_decimal_mantissa(x),
{
    assert(is_digit(x[0]));
}

/// `trim` leaves alone a sequence that neither starts nor ends with white space.
proof fn lemma_trim_id(x: Seq<char>)
    requires
        x.len() > 0 ==> !is_white_space(x[0]) && !is_white_space(x.last()),
    ensures
        trim(x) == x,
{
}

/// The lower-case suffix names the power of ten of its index, except SI exa.
proof fn lemma_suffix_exponent(n: Notation, i: nat)
    requires
        1 <= i <= max_index(n),
    ensures
        suffix_exponent(suffix_text(n, i).map_values(|c: char| to_ascii_lower(c))) == (if n
            == Notation::Metric && i == 6 {
            None::<nat>
        } else {
            Some(3 * i)
        }),
        is_exp_marker(suffix_text(n, i)[0]) ==> n == Notation::Metric && i == 6 && suffix_text(
            n,
            i,
        ).len() == 1,
{
    reveal_strlit("K");
    reveal_strlit("M");
    reveal_strlit("B");
    reveal_strlit("T");
    reveal_strlit("thousand");
    reveal_strlit("million");
    reveal_strlit("billion");
    reveal_strlit("trillion");
    reveal_strlit("quadrillion");
    reveal_strlit("quintillion");
    reveal_strlit("sextillion");
    reveal_strlit("septillion");
    reveal_strlit("octillion");
    reveal_strlit("nonillion");
    reveal_strlit("decillion");
    reveal_strlit("k");
    reveal_strlit("G");
    reveal_strlit("P");
    reveal_strlit("E");
    reveal_strlit("Z");
    reveal_strlit("Y");
    reveal_strlit("R");
    reveal_strlit("Q");
    reveal_strlit("m");
    reveal_strlit("mn");
    reveal_strlit("b");
    reveal_strlit("bn");
    reveal_strlit("g");
    reveal_strlit("t");
    reveal_strlit("p");
    reveal_strlit("z");
    reveal_strlit("y");
    reveal_strlit("r");
    reveal_strlit("q");
    let s = suffix_text(n, i);
    let l = s.map_values(|c: char| to_ascii_lower(c));
    if n == Notation::Compact {
        if i == 1 {
            assert(l =~= "k"@);
            assert(l.len() == 1 && l[0] == 'k');
            assert(suffix_exponent(l) == Some(3 * i));
        } else if i == 2 {
            assert(l =~= "m"@);
            assert(l.len() == 1 && l[0] == 'm');
            assert(suffix_exponent(l) == Some(3 * i));
        } else if i == 3 {
            assert(l =~= "b"@);
            assert(l.len() == 1 && l[0] == 'b');
            assert(suffix_exponent(l) == Some(3 * i));
        } else {
            assert(l =~= "t"@);
            assert(l.len() == 1 && l[0] == 't');
            assert(suffix_exponent(l) == Some(3 * i));
        }
    } else if n == Notation::Word {
        if i == 1 {
            assert(l =~= "thousand"@);
            assert(l.len() == 8 && l[0] == 't');
            assert(suffix_exponent(l) == Some(3 * i));
        } else if i == 2 {
            assert(l =~= "million"@);
            assert(l.len() == 7 && l[0] == 'm');
            assert(suffix_exponent(l) == Some(3 * i));
        } else if i == 3 {
            assert(l =~= "billion"@);
            assert(l.len() == 7 && l[0] == 'b');
            assert(l[0] != "million"@[0]);
            assert(suffix_exponent(l) == Some(3 * i));
        } else if i == 4 {
            assert(l =~= "trillion"@);
            assert(l.len() == 8 && l[0] == 't');
            assert(l[1] != "thousand"@[1]);
            assert(suffix_exponent(l) == Some(3 * i));
        } else if i == 5 {
            assert(l =~= "quadrillion"@);
            assert(l.len() == 11 && l[0] == 'q');
            assert(suffix_exponent(l) == Some(3 * i));
        } else if i == 6 {
            assert(l =~= "quintillion"@);
            assert(l.len() == 11 && l[0] == 'q');
            assert(l[2] != "quadrillion"@[2]);
            assert(suffix_exponent(l) == Some(3 * i));
        } else if i == 7 {
            assert(l =~= "sextillion"@);
            assert(l.len() == 10 && l[0] == 's');
            assert(suffix_exponent(l) == Some(3 * i));
        } else if i == 8 {
            assert(l =~= "septillion"@);
            assert(l.len() == 10 && l[0] == 's');
            assert(l[2] != "sextillion"@[2]);
            assert(suffix_exponent(l) == Some(3 * i));
        } else if i == 9 {
            assert(l =~= "octillion"@);
            assert(l.len() == 9 && l[0] == 'o');
            assert(suffix_exponent(l) == Some(3 * i));
        } else if i == 10 {
            assert(l =~= "nonillion"@);
            assert(l.len() == 9 && l[0] == 'n');
            assert(suffix_exponent(l) == Some(3 * i));
        } else {
            assert(l =~= "decillion"@);
            assert(l.len() == 9 && l[0] == 'd');
            assert(suffix_exponent(l) == Some(3 * i));
        }
    } else if n == Notation::Metric {
        if i == 1 {
            assert(l =~= "k"@);
            assert(l.len() == 1 && l[0] == 'k');
            assert(suffix_exponent(l) == Some(3 * i));
        } else if i == 2 {
            assert(l =~= "m"@);
            assert(l.len() == 1 && l[0] == 'm');
            assert(suffix_exponent(l) == Some(3 * i));
        } else if i == 3 {
            assert(l =~= "g"@);
            assert(l.len() == 1 && l[0] == 'g');
            assert(suffix_exponent(l) == Some(3 * i));
        } else if i == 4 {
            assert(l =~= "t"@);
            assert(l.len() == 1 && l[0] == 't');
            assert(suffix_exponent(l) == Some(3 * i));
        } else if i == 5 {
            assert(l =~= "p"@);
            assert(l.len() == 1 && l[0] == 'p');
            assert(suffix_exponent(l) == Some(3 * i));
        } else if i == 6 {
            assert(l =~= seq!['e']);
            assert(l.len() == 1 && l[0] == 'e');
            assert(suffix_exponent(l) == None::<nat>);
        } else if i == 7 {
            assert(l =~= "z"@);
            assert(l.len() == 1 && l[0] == 'z');
            assert(suffix_exponent(l) == Some(3 * i));
        } else if i == 8 {
            assert(l =~= "y"@);
            assert(l.len() == 1 && l[0] == 'y');
            assert(suffix_exponent(l) == Some(3 * i));
        } else if i == 9 {
            assert(l =~= "r"@);
            assert(l.len() == 1 && l[0] == 'r');
            assert(suffix_exponent(l) == Some(3 * i));
        } else {
            assert(l =~= "q"@);
            assert(l.len() == 1 && l[0] == 'q');
            assert(suffix_exponent(l) == Some(3 * i));
        }
    }
}

/// A sign of at most one character: empty, `+` or `-`.
pub open spec fn is_sign_text(sign: Seq<char>) -> bool {
    sign.len() == 0 || (sign.len() == 1 && is_sign(sign[0]))
}

/// A unit suffix as formatting writes it: empty, or ASCII letters that start
/// with an exponent marker only when that is the whole suffix.
pub open spec fn is_unit_text(suffix: Seq<char>) -> bool {
    &&& forall|i: int| 0 <= i < suffix.len() ==> is_ascii_alphabetic(#[trigger] suffix[i])
    &&& suffix.len() > 0 && is_exp_marker(suffix[0]) ==> suffix.len() == 1
}

/// What follows the mantissa: nothing, or the suffix after an optional space.
pub open spec fn tail_text(suffix: Seq<char>, spaced: bool) -> Seq<char> {
    if suffix.len() == 0 {
        Seq::empty()
    } else if spaced {
        seq![' '] + suffix
    } else {
        suffix
    }
}

proof fn lemma_number_len(sign: Seq<char>, shown: Seq<char>, suffix: Seq<char>, spaced: bool)
    requires
        is_sign_text(sign),
        is_plain_decimal(shown),
        is_unit_text(suffix),
    ensures
        number_len(sign + shown + tail_text(suffix, spaced)) == sign.len() + shown.len(),
{
    let rest = tail_text(suffix, spaced);
    let out = sign + shown + rest;
    let start = sign.len();
    let k = start + shown.len();
    assert(out[0] == (if start == 1 {
        sign[0]
    } else {
        shown[0]
    }));
    assert forall|x: int| start <= x < k implies is_digit(#[trigger] out[x]) || out[x] == '.' by {
        assert(out[x] == shown[x - start]);
    }
    assert forall|x: int, y: int| start <= x < y < k && out[x] == '.' implies out[y] != '.' by {
        assert(out[x] == shown[x - start]);
        assert(out[y] == shown[y - start]);
    }
    lemma_scan_run(out, start, k, false, false);
    if suffix.len() > 0 {
        let c = out[k as int];
        if spaced {
            assert(c == ' ');
        } else {
            assert(c == suffix[0]);
            assert(is_ascii_alphabetic(c));
            if is_exp_marker(c) {
                assert(k + 1 == out.len());
            }
        }
    } else {
        assert(out.len() == k);
    }
}

proof fn lemma_trim_pieces(sign: Seq<char>, shown: Seq<char>, suffix: Seq<char>, spaced: bool)
    requires
        is_sign_text(sign),
        is_plain_decimal(shown),
        is_unit_text(suffix),
    ensures
        trim(sign + shown + tail_text(suffix, spaced)) == sign + shown + tail_text(suffix, spaced),
        trim(tail_text(suffix, spaced)) == suffix,
{
    let rest = tail_text(suffix, spaced);
    let out = sign + shown + rest;
    assert(out[0] == (if sign.len() == 1 {
        sign[0]
    } else {
        shown[0]
    }));
    if suffix.len() > 0 {
        assert(out.last() == suffix.last());
        assert(is_ascii_alphabetic(suffix.last()));
        assert(is_ascii_alphabetic(suffix[0]));
        assert(trim_start(suffix) == suffix);
        if spaced {
            assert(rest.drop_first() =~= suffix);
        }
        assert(trim_start(rest) == suffix);
        assert(trim_end(suffix) == suffix);
    } else {
        assert(out.last() == shown.last());
        assert(is_digit(shown.last()) || shown.last() == '.');
    }
    lemma_trim_id(out);
}

proof fn lemma_float_literal(sign: Seq<char>, shown: Seq<char>)
    requires
        is_sign_text(sign),
        is_plain_decimal(shown),
    ensures
        without_separators(sign + shown) == sign + shown,
        is_float_literal(sign + shown),
{
    let start = sign.len();
    assert forall|i: int| 0 <= i < (sign + shown).len() implies #[trigger] (sign + shown)[i] != ','
        && (sign + shown)[i] != '_' by {
        if i >= start {
            assert((sign + shown)[i] == shown[i - start]);
        }
    }
    lemma_without_separators_id(sign + shown);
    if start == 1 {
        assert(unsigned_part(sign + shown) =~= shown);
    } else {
        assert(sign + shown =~= shown);
    }
    lemma_exp_start(shown, shown.len());
    assert(shown.take(shown.len() as int) =~= shown);
    lemma_plain_mantissa(shown);
}

/// Reading a signed plain decimal followed by a unit suffix gives back the
/// signed decimal and the power of ten of the suffix.
proof fn lemma_parse_pieces(sign: Seq<char>, shown: Seq<char>, suffix: Seq<char>, spaced: bool)
    requires
        is_sign_text(sign),
        is_plain_decimal(shown),
        is_unit_text(suffix),
    ensures
        parse_outcome(sign + shown + tail_text(suffix, spaced)) == (match suffix_exponent(
            suffix.map_values(|c: char| to_ascii_lower(c)),
        ) {
            None => Err::<(Seq<char>, nat), ParseErrorView>(ParseErrorView::UnknownSuffix(suffix)),
            Some(e) => Ok::<(Seq<char>, nat), ParseErrorView>((sign + shown, e)),
        }),
{
    let out = sign + shown + tail_text(suffix, spaced);
    lemma_trim_pieces(sign, shown, suffix, spaced);
    lemma_number_len(sign, shown, suffix, spaced);
    let k = sign.len() + shown.len();
    assert(out.take(k as int) =~= sign + shown);
    assert(out.skip(k as int) =~= tail_text(suffix, spaced));
    lemma_float_literal(sign, shown);
}

/// The output of a formatter, taken apart: sign, mantissa as shown, and what
/// follows it.
proof fn lemma_formatted_pieces(f: FormatterView, negative: bool, m: nat)
    requires
        m < pow2(128),
        !f.scientific_fallback(m),
    ensures
        ({
            let (idx, v) = f.chosen(m);
            let rendered = fixed(f.rendered_value(v), f.effective_precision());
            let body = f.body(idx, rendered);
            let sign = sign_prefix(negative, all_zero_chars(body), f.sign_plus);
            &&& f.formatted(negative, m) == sign + f.shown(rendered) + tail_text(
                suffix_text(f.notation, idx),
                f.space,
            )
            &&& is_sign_text(sign)
            &&& is_plain_decimal(f.shown(rendered))
            &&& is_unit_text(suffix_text(f.notation, idx))
            &&& idx <= max_index(f.notation)
        }),
{
    let p = f.effective_precision();
    let (idx, v) = f.chosen(m);
    let r = f.rendered_value(v);
    crate::format::lemma_mantissa_below_1000(f, m);
    let rendered = fixed(r, p);
    lemma_fixed_plain(r, p);
    let shown = f.shown(rendered);
    if f.trim_zeros {
        lemma_trimmed_plain(rendered);
    }
    let suffix = suffix_text(f.notation, idx);
    let body = f.body(idx, rendered);
    if idx >= 1 {
        lemma_suffix_letters(f.notation, idx);
        lemma_suffix_exponent(f.notation, idx);
    }
    assert(body =~= shown + tail_text(suffix, f.space));
}

/// Reading back what a formatter writes gives the signed mantissa it wrote and
/// the power of ten of the suffix it chose (what that mantissa is worth:
/// `lemma_read_value`). The one exception is SI exa (`E`), which is refused as
/// an unknown suffix rather than misread as an exponent.
pub proof fn lemma_parse_reads_format(f: FormatterView, negative: bool, m: nat)
    requires
        m < pow2(128),
        !f.scientific_fallback(m),
    ensures
        ({
            let (idx, v) = f.chosen(m);
            let rendered = fixed(f.rendered_value(v), f.effective_precision());
            let body = f.body(idx, rendered);
            let sign = sign_prefix(negative, all_zero_chars(body), f.sign_plus);
            parse_outcome(f.formatted(negative, m)) == if f.notation == Notation::Metric && idx
                == 6 {
                Err::<(Seq<char>, nat), ParseErrorView>(
                    ParseErrorView::UnknownSuffix(suffix_text(Notation::Metric, 6)),
                )
            } else {
                Ok::<(Seq<char>, nat), ParseErrorView>((sign + f.shown(rendered), 3 * idx))
            }
        }),
{
    let (idx, v) = f.chosen(m);
    let rendered = fixed(f.rendered_value(v), f.effective_precision());
    let body = f.body(idx, rendered);
    let sign = sign_prefix(negative, all_zero_chars(body), f.sign_plus);
    let shown = f.shown(rendered);
    let suffix = suffix_text(f.notation, idx);
    lemma_formatted_pieces(f, negative, m);
    lemma_parse_pieces(sign, shown, suffix, f.space);
    if idx >= 1 {
        lemma_suffix_exponent(f.notation, idx);
    } else {
        assert(suffix.map_values(|c: char| to_ascii_lower(c)) =~= Seq::<char>::empty());
    }
}

proof fn lemma_scientific_number_len(sign: Seq<char>, mant: Seq<char>, ex: Seq<char>)
    requires
        is_sign_text(sign),
        is_plain_decimal(mant),
        ex.len() > 0,
        all_digits(ex),
    ensures
        number_len(sign + mant + seq!['e'] + ex) == (sign + mant + seq!['e'] + ex).len(),
{
    let out = sign + mant + seq!['e'] + ex;
    let start = sign.len();
    let k = start + mant.len();
    assert(out[0] == (if start == 1 {
        sign[0]
    } else {
        mant[0]
    }));
    assert forall|x: int| start <= x < k implies is_digit(#[trigger] out[x]) || out[x] == '.' by {
        assert(out[x] == mant[x - start]);
    }
    assert forall|x: int, y: int| start <= x < y < k && out[x] == '.' implies out[y] != '.' by {
        assert(out[x] == mant[x - start]);
        assert(out[y] == mant[y - start]);
    }
    lemma_scan_run(out, start, k, false, false);
    let dot = has_dot(out, start as int, k as int);
    assert(out[k as int] == 'e');
    assert(out[k + 1 as int] == ex[0]);
    assert(is_digit(ex[0]));
    assert(scan_number(out, k, dot, false) == scan_number(out, k + 1, dot, true));
    assert forall|x: int| k + 1 <= x < out.len() implies is_digit(#[trigger] out[x]) || out[x]
        == '.' by {
        assert(out[x] == ex[x - k - 1]);
    }
    assert(!has_dot(out, k + 1 as int, out.len() as int)) by {
        if has_dot(out, k + 1 as int, out.len() as int) {
            let x = choose|x: int| k + 1 <= x < out.len() && #[trigger] out[x] == '.';
            assert(out[x] == ex[x - k - 1]);
        }
    }
    lemma_scan_run(out, k + 1, out.len(), dot, true);
}

proof fn lemma_scientific_literal(sign: Seq<char>, mant: Seq<char>, ex: Seq<char>)
    requires
        is_sign_text(sign),
        is_plain_decimal(mant),
        ex.len() > 0,
        all_digits(ex),
    ensures
        without_separators(sign + mant + seq!['e'] + ex) == sign + mant + seq!['e'] + ex,
        is_float_literal(sign + mant + seq!['e'] + ex),
        trim(sign + mant + seq!['e'] + ex) == sign + mant + seq!['e'] + ex,
{
    let sci = mant + seq!['e'] + ex;
    let out = sign + mant + seq!['e'] + ex;
    assert(out =~= sign + sci);
    let start = sign.len();
    let k = start + mant.len();
    assert(out[0] == (if start == 1 {
        sign[0]
    } else {
        mant[0]
    }));
    assert(out.last() == ex.last());
    assert(is_digit(ex[ex.len() - 1]));
    lemma_trim_id(out);
    assert forall|i: int| 0 <= i < out.len() implies #[trigger] out[i] != ',' && out[i] != '_' by {
        if start <= i < k {
            assert(out[i] == mant[i - start]);
        } else if i > k {
            assert(out[i] == ex[i - k - 1]);
        }
    }
    lemma_without_separators_id(out);
    if start == 1 {
        assert(unsigned_part(out) =~= sci);
    } else {
        assert(out =~= sci);
    }
    assert forall|i: int| 0 <= i < mant.len() implies !is_exp_marker(#[trigger] sci[i]) by {
        assert(sci[i] == mant[i]);
    }
    lemma_exp_start(sci, mant.len());
    assert(sci.take(mant.len() as int) =~= mant);
    lemma_plain_mantissa(mant);
    assert(sci.skip(mant.len() + 1 as int) =~= ex);
    assert(unsigned_part(ex) == ex);
}

/// Reading a signed number in scientific notation gives it back whole, with no
/// suffix.
proof fn lemma_parse_scientific(sign: Seq<char>, mant: Seq<char>, ex: Seq<char>)
    requires
        is_sign_text(sign),
        is_plain_decimal(mant),
        ex.len() > 0,
        all_digits(ex),
    ensures
        parse_outcome(sign + mant + seq!['e'] + ex) == Ok::<(Seq<char>, nat), ParseErrorView>(
            (sign + mant + seq!['e'] + ex, 0),
        ),
{
    let out = sign + mant + seq!['e'] + ex;
    lemma_scientific_number_len(sign, mant, ex);
    lemma_scientific_literal(sign, mant, ex);
    assert(out.take(out.len() as int) =~= out);
    assert(out.skip(out.len() as int) =~= Seq::<char>::empty());
    assert(Seq::<char>::empty().map_values(|c: char| to_ascii_lower(c)) =~= Seq::<char>::empty());
}

/// The parts of the scientific form: a plain mantissa, `e`, and a digit exponent.
proof fn lemma_scientific_pieces(m: nat, j: nat)
    ensures
        ({
            let ds = digits(m);
            let tail = strip_end(ds.drop_first(), '0');
            let mant = seq![ds[0]] + (if tail.len() == 0 {
                Seq::<char>::empty()
            } else {
                seq!['.'] + tail
            });
            let ex = digits((ds.len() - 1 + j) as nat);
            &&& scientific(m, j) == mant + seq!['e'] + ex
            &&& is_plain_decimal(mant)
            &&& ex.len() > 0
            &&& all_digits(ex)
        }),
{
    let ds = digits(m);
    lemma_digits_chars(m);
    let rest = ds.drop_first();
    lemma_strip_end(rest, '0');
    let tail = strip_end(rest, '0');
    let mant = seq![ds[0]] + (if tail.len() == 0 {
        Seq::<char>::empty()
    } else {
        seq!['.'] + tail
    });
    assert forall|i: int| 0 <= i < tail.len() implies is_digit(#[trigger] tail[i]) by {
        assert(tail[i] == rest[i]);
        assert(rest[i] == ds[i + 1]);
    }
    assert forall|i: int| 0 <= i < mant.len() implies is_digit(#[trigger] mant[i]) || mant[i] == '.' by {
        if i > 1 {
            assert(mant[i] == tail[i - 2]);
        }
    }
    assert forall|i: int, j: int| 0 <= i < j < mant.len() && mant[i] == '.' implies mant[j] != '.' by {
        assert(mant[j] == tail[j - 2]);
    }
    let ex = digits((ds.len() - 1 + j) as nat);
    lemma_digits_chars((ds.len() - 1 + j) as nat);
}

/// Reading back a number written in scientific notation (beyond the suffix
/// table) gives it back whole, at power of ten zero.
pub proof fn lemma_parse_reads_scientific(f: FormatterView, negative: bool, m: nat)
    requires
        f.scientific_fallback(m),
    ensures
        parse_outcome(f.formatted(negative, m)) == Ok::<(Seq<char>, nat), ParseErrorView>(
            (f.formatted(negative, m), 0),
        ),
{
    let sign = sign_prefix(negative, false, f.sign_plus);
    let (n, j) = shortest_form(nearest_double(m));
    let ds = digits(n);
    let tail = strip_end(ds.drop_first(), '0');
    let mant = seq![ds[0]] + (if tail.len() == 0 {
        Seq::<char>::empty()
    } else {
        seq!['.'] + tail
    });
    let ex = digits((ds.len() - 1 + j) as nat);
    lemma_scientific_pieces(n, j);
    assert(f.formatted(negative, m) =~= sign + mant + seq!['e'] + ex);
    lemma_parse_scientific(sign, mant, ex);
}

/// The digit that a decimal digit character stands for.
pub open spec fn char_digit(c: char) -> nat {
    ((c as u32) - 48) as nat
}

/// The digits of a decimal text read as one integer, the point skipped:
/// `"1.25"` reads 125.
pub open spec fn text_digits(s: Seq<char>) -> nat
    decreases s.len(),
{
    if s.len() == 0 {
        0
    } else if s.last() == '.' {
        text_digits(s.drop_last())
    } else {
        text_digits(s.drop_last()) * 10 + char_digit(s.last())
    }
}

/// How many digits follow the decimal point (none without one). A decimal text
/// `s` stands for `text_digits(s) / 10^fraction_len(s)`.
pub open spec fn fraction_len(s: Seq<char>) -> nat
    decreases s.len(),
{
    if s.len() == 0 || s.last() == '.' {
        0
    } else if s.drop_last().contains('.') {
        1 + fraction_len(s.drop_last())
    } else {
        0
    }
}

proof fn lemma_no_point_fraction(s: Seq<char>)
    requires
        !s.contains('.'),
    ensures
        fraction_len(s) == 0,
{
    if s.len() > 0 {
        assert(s.last() == s[s.len() - 1]);
        if s.drop_last().contains('.') {
            let i = choose|i: int| 0 <= i < s.drop_last().len() && s.drop_last()[i] == '.';
            assert(s[i] == '.');
        }
    }
}

/// The decimal digits of `n` read back as `n`, with no point.
proof fn lemma_text_digits_of_digits(n: nat)
    ensures
        text_digits(digits(n)) == n,
        !digits(n).contains('.'),
    decreases n,
{
    lemma_digits_chars(n);
    let s = digits(n);
    if n >= 10 {
        lemma_text_digits_of_digits(n / 10);
        assert(s.drop_last() =~= digits(n / 10));
    } else {
        assert(s.drop_last() =~= Seq::<char>::empty());
    }
    assert(s.last() == digit_char(n % 10));
    assert((digit_char(n % 10) as u32) as nat == n % 10 + 48);
    assert(s.last() != '.');
    assert(!s.contains('.')) by {
        if s.contains('.') {
            let i = choose|i: int| 0 <= i < s.len() && s[i] == '.';
            assert(is_digit(s[i]));
        }
    }
    if n < 10 {
        assert(text_digits(s) == text_digits(s.drop_last()) * 10 + char_digit(s.last()));
        assert(text_digits(Seq::<char>::empty()) == 0);
    }
}

/// The fixed-width digits of `v` read back as `v % 10^w`, with no point.
proof fn lemma_text_digits_of_width(v: nat, w: nat)
    ensures
        text_digits(width_digits(v, w)) == v % pow10(w),
        !width_digits(v, w).contains('.'),
        width_digits(v, w).len() == w,
    decreases w,
{
    crate::decimal::lemma_pow10_positive(w);
    if w == 0 {
        assert(width_digits(v, w) =~= Seq::<char>::empty());
        crate::decimal::lemma_pow10_small();
        assert(v % 1 == 0);
    } else {
        lemma_text_digits_of_width(v / 10, (w - 1) as nat);
        let s = width_digits(v, w);
        let t = width_digits(v / 10, (w - 1) as nat);
        assert(s == t.push(digit_char(v % 10)));
        assert(s.drop_last() =~= t);
        assert((digit_char(v % 10) as u32) as nat == v % 10 + 48);
        crate::decimal::lemma_pow10_positive((w - 1) as nat);
        assert(pow10(w) == 10 * pow10((w - 1) as nat));
        vstd::arithmetic::div_mod::lemma_breakdown(v as int, 10, pow10((w - 1) as nat) as int);
        assert(!s.contains('.')) by {
            if s.contains('.') {
                let i = choose|i: int| 0 <= i < s.len() && s[i] == '.';
                if i < t.len() {
                    assert(t[i] == s[i]);
                }
            }
        }
    }
}

/// Appending digits without a point: the integer read grows by their count in
/// powers of ten, and so does the fraction when there is a point before them.
proof fn lemma_text_digits_concat(a: Seq<char>, b: Seq<char>)
    requires
        !b.contains('.'),
    ensures
        text_digits(a + b) == text_digits(a) * pow10(b.len()) + text_digits(b),
        a.contains('.') ==> fraction_len(a + b) == fraction_len(a) + b.len(),
    decreases b.len(),
{
    crate::decimal::lemma_pow10_small();
    if b.len() == 0 {
        assert(a + b =~= a);
        assert(text_digits(a) * 1 == text_digits(a));
    } else {
        let bl = b.drop_last();
        assert(!bl.contains('.')) by {
            if bl.contains('.') {
                let i = choose|i: int| 0 <= i < bl.len() && bl[i] == '.';
                assert(b[i] == '.');
            }
        }
        lemma_text_digits_concat(a, bl);
        assert((a + b).drop_last() =~= a + bl);
        assert((a + b).last() == b.last());
        assert(b.last() != '.') by {
            assert(b[b.len() - 1] == b.last());
        }
        assert(b.drop_last() =~= bl);
        let x = text_digits(a);
        let y = text_digits(bl);
        let e = pow10((b.len() - 1) as nat);
        let d = char_digit(b.last());
        assert((x * e + y) * 10 + d == x * (10 * e) + (y * 10 + d)) by (nonlinear_arith);
        if a.contains('.') {
            let i = choose|i: int| 0 <= i < a.len() && a[i] == '.';
            assert((a + bl)[i] == '.');
        }
    }
}

/// `fixed(r, p)` reads back as `r / 10^p`: its digits read `r`, and `p` of
/// them follow the point.
pub proof fn lemma_fixed_value(r: nat, p: nat)
    ensures
        text_digits(fixed(r, p)) == r,
        fraction_len(fixed(r, p)) == p,
{
    if p == 0 {
        lemma_text_digits_of_digits(r);
        lemma_no_point_fraction(digits(r));
    } else {
        crate::decimal::lemma_pow10_positive(p);
        let ip = r / pow10(p);
        let frac = r % pow10(p);
        let a = digits(ip) + seq!['.'];
        let b = width_digits(frac, p);
        lemma_text_digits_of_digits(ip);
        lemma_text_digits_of_width(frac, p);
        assert(a.drop_last() =~= digits(ip));
        assert(a.last() == '.');
        assert(a[a.len() - 1] == '.');
        assert(fixed(r, p) == a + b);
        lemma_text_digits_concat(a, b);
        vstd::arithmetic::div_mod::lemma_small_mod(frac, pow10(p));
        vstd::arithmetic::div_mod::lemma_fundamental_div_mod(r as int, pow10(p) as int);
        assert(ip * pow10(p) == pow10(p) * ip) by (nonlinear_arith);
    }
}

/// Dropping trailing zeros after a point leaves the value read unchanged.
proof fn lemma_strip_zeros_value(s: Seq<char>)
    requires
        s.contains('.'),
    ensures
        strip_end(s, '0').contains('.'),
        text_digits(s) * pow10(fraction_len(strip_end(s, '0'))) == text_digits(strip_end(s, '0'))
            * pow10(fraction_len(s)),
        fraction_len(strip_end(s, '0')) <= fraction_len(s),
    decreases s.len(),
{
    let t = strip_end(s, '0');
    if s.len() > 0 && s.last() == '0' {
        let sl = s.drop_last();
        let i = choose|i: int| 0 <= i < s.len() && s[i] == '.';
        assert(s[s.len() - 1] == '0');
        assert(sl[i] == '.');
        lemma_strip_zeros_value(sl);
        assert(t == strip_end(sl, '0'));
        assert(char_digit('0') == 0);
        let e = pow10(fraction_len(t));
        let f = pow10(fraction_len(sl));
        assert(fraction_len(s) == 1 + fraction_len(sl));
        assert(pow10(fraction_len(s)) == 10 * f);
        assert((text_digits(sl) * 10 + 0) * e == text_digits(t) * (10 * f)) by (nonlinear_arith)
            requires
                text_digits(sl) * e == text_digits(t) * f,
        ;
    }
}

/// Trimming a plain decimal leaves the value it reads unchanged.
pub proof fn lemma_trimmed_value(s: Seq<char>)
    requires
        is_plain_decimal(s),
    ensures
        text_digits(s) * pow10(fraction_len(trimmed(s))) == text_digits(trimmed(s)) * pow10(
            fraction_len(s),
        ),
{
    if s.contains('.') {
        lemma_strip_zeros_value(s);
        let t = strip_end(s, '0');
        lemma_strip_end(s, '0');
        lemma_strip_end(t, '.');
        let u = strip_end(t, '.');
        if t.len() > 0 && t.last() == '.' {
            let tl = t.drop_last();
            assert(t[t.len() - 1] == '.');
            assert(t[t.len() - 1] == s[t.len() - 1]);
            assert(!tl.contains('.')) by {
                if tl.contains('.') {
                    let i = choose|i: int| 0 <= i < tl.len() && tl[i] == '.';
                    assert(s[i] == t[i]);
                    assert(s[i] == '.');
                }
            }
            assert(tl.len() == 0 || tl.last() != '.') by {
                if tl.len() > 0 {
                    assert(tl[tl.len() - 1] == tl.last());
                }
            }
            assert(u == tl);
            lemma_no_point_fraction(tl);
            assert(fraction_len(t) == 0);
            assert(text_digits(t) == text_digits(tl));
        } else {
            assert(u == t);
        }
    }
}

/// Reading back what a formatter writes below the scientific fallback gives a
/// mantissa text whose value is the written digits exactly, `r / 10^p` (trimming
/// changes no value), where `r` is the `f64` mantissa times `10^p` rounded half
/// to even: the value read misses the `f64` mantissa by at most half a unit in
/// the last place written, and its power of ten is that of the suffix.
pub proof fn lemma_read_value(f: FormatterView, negative: bool, m: nat)
    requires
        m < pow2(128),
        !f.scientific_fallback(m),
    ensures
        ({
            let (idx, v) = f.chosen(m);
            let p = f.effective_precision();
            let r = f.rendered_value(v);
            let shown = f.shown(fixed(r, p));
            let sign = sign_prefix(negative, all_zero_chars(f.body(idx, fixed(r, p))), f.sign_plus);
            &&& !(f.notation == Notation::Metric && idx == 6) ==> parse_outcome(f.formatted(negative, m))
                == Ok::<(Seq<char>, nat), ParseErrorView>((sign + shown, 3 * idx))
            &&& text_digits(shown) * pow10(p) == r * pow10(fraction_len(shown))
            &&& v.0 == 0 ==> r == 0
            &&& v.0 != 0 ==> v.1 < 0 && 2 * (r * pow2((-v.1) as nat) - v.0 * pow10(p)) <= pow2(
                (-v.1) as nat,
            ) && 2 * (v.0 * pow10(p) - r * pow2((-v.1) as nat)) <= pow2((-v.1) as nat)
        }),
{
    let (idx, v) = f.chosen(m);
    let p = f.effective_precision();
    let r = f.rendered_value(v);
    let rendered = fixed(r, p);
    lemma_parse_reads_format(f, negative, m);
    crate::format::lemma_mantissa_below_1000(f, m);
    lemma_fixed_value(r, p);
    if f.trim_zeros {
        lemma_fixed_plain(r, p);
        lemma_trimmed_value(rendered);
    }
    crate::double::lemma_pow2_values();
    if v.0 == 0 {
        assert(v == (0nat, 0int));
        assert(r == 0);
    } else {
        let k = (-v.1) as nat;
        crate::double::lemma_pow2_positive(k);
        crate::decimal::lemma_round_half_even_error(v.0 * pow10(p), pow2(k));
    }
}

/// No output is a sign before a number that reads as zero: never `-0` or `+0`
/// (nor `-0.0`, `+0.00`, ...), whatever the sign and the settings.
pub proof fn lemma_no_signed_zero(f: FormatterView, negative: bool, m: nat)
    requires
        m < pow2(128),
    ensures
        ({
            let out = f.formatted(negative, m);
            out.len() > 0 && (out[0] == '-' || out[0] == '+') ==> !all_zero_chars(out.drop_first())
        }),
{
    let out = f.formatted(negative, m);
    if m == 0 {
        crate::format::lemma_zero_unsigned(f, negative);
        if out.len() > 0 {
            assert(out[0] == '0' || out[0] == '.');
        }
    } else if f.scientific_fallback(m) {
        let sign = sign_prefix(negative, false, f.sign_plus);
        let (n, j) = shortest_form(nearest_double(m));
        lemma_scientific_pieces(n, j);
        let ds = digits(n);
        let tail = strip_end(ds.drop_first(), '0');
        let mant = seq![ds[0]] + (if tail.len() == 0 {
            Seq::<char>::empty()
        } else {
            seq!['.'] + tail
        });
        let ex = digits((ds.len() - 1 + j) as nat);
        let sci = mant + seq!['e'] + ex;
        assert(out =~= sign + sci);
        assert(sci[mant.len() as int] == 'e');
        assert(is_digit(mant[0]));
        if sign.len() > 0 {
            assert(out.drop_first() =~= sci);
        } else {
            assert(out[0] == mant[0]);
        }
    } else {
        let (idx, v) = f.chosen(m);
        let p = f.effective_precision();
        let rendered = fixed(f.rendered_value(v), p);
        let body = f.body(idx, rendered);
        crate::format::lemma_body_nonzero(f, m);
        lemma_formatted_pieces(f, negative, m);
        let sign = sign_prefix(negative, all_zero_chars(body), f.sign_plus);
        let shown = f.shown(rendered);
        assert(body =~= shown + tail_text(suffix_text(f.notation, idx), f.space));
        assert(out =~= sign + body);
        if sign.len() > 0 {
            assert(out.drop_first() =~= body);
        } else {
            assert(out[0] == shown[0]);
            assert(is_digit(shown[0]));
        }
    }
}

/// The mantissa shown has at most `p` digits after its point, `p` the
/// precision honoured. Untrimmed it has exactly `p` of them, and a point just
/// when `p > 0`; trimmed it never ends with a point, nor with a zero after one.
pub proof fn lemma_fraction_digits(f: FormatterView, m: nat)
    requires
        m < pow2(128),
        !f.scientific_fallback(m),
    ensures
        ({
            let p = f.effective_precision();
            let shown = f.shown(fixed(f.rendered_value(f.chosen(m).1), p));
            &&& fraction_len(shown) <= p
            &&& !f.trim_zeros ==> fraction_len(shown) == p && (shown.contains('.') <==> p > 0)
            &&& f.trim_zeros ==> shown.last() != '.' && (shown.contains('.') ==> shown.last() != '0')
        }),
{
    let p = f.effective_precision();
    let r = f.rendered_value(f.chosen(m).1);
    let rendered = fixed(r, p);
    lemma_fixed_value(r, p);
    lemma_fixed_plain(r, p);
    if p == 0 {
        lemma_text_digits_of_digits(r);
    } else {
        let d = digits(r / pow10(p));
        assert(rendered[d.len() as int] == '.');
    }
    if f.trim_zeros {
        lemma_trimmed_plain(rendered);
        if rendered.contains('.') {
            lemma_strip_zeros_value(rendered);
            let t = strip_end(rendered, '0');
            lemma_strip_end(rendered, '0');
            lemma_strip_end(t, '.');
            let u = strip_end(t, '.');
            if t.len() > 0 && t.last() == '.' {
                let tl = t.drop_last();
                assert(t[t.len() - 1] == '.');
                assert(t[t.len() - 1] == rendered[t.len() - 1]);
                assert(!tl.contains('.')) by {
                    if tl.contains('.') {
                        let i = choose|i: int| 0 <= i < tl.len() && tl[i] == '.';
                        assert(rendered[i] == t[i]);
                    }
                }
                assert(tl.len() == 0 || tl.last() != '.') by {
                    if tl.len() > 0 {
                        assert(tl[tl.len() - 1] == tl.last());
                    }
                }
                assert(u == tl);
                lemma_no_point_fraction(tl);
            } else {
                assert(u == t);
            }
        }
    }
}


/// The precision honoured is the one asked for, clamped only at
/// `MAX_PRECISION`, whatever the notation; untrimmed, that many digits follow
/// the point of the mantissa written.
pub proof fn lemma_precision_honoured(f: FormatterView, n: Notation, m: nat)
    ensures
        (FormatterView { notation: n, ..f }).effective_precision() == f.effective_precision(),
        f.precision <= MAX_PRECISION ==> f.effective_precision() == f.precision,
        f.precision >= MAX_PRECISION ==> f.effective_precision() == MAX_PRECISION,
        m < pow2(128) && !f.scientific_fallback(m) && !f.trim_zeros && f.precision
            <= MAX_PRECISION ==> fraction_len(
            f.shown(fixed(f.rendered_value(f.chosen(m).1), f.effective_precision())),
        ) == f.precision,
{
    if m < pow2(128) && !f.scientific_fallback(m) {
        lemma_fraction_digits(f, m);
    }
}

} // verus!
