//! Reading humanized magnitude strings: everything that decides whether an
//! input is a number with a known magnitude suffix, and which one.
//!
//! The floating-point conversion of the mantissa is left to the caller;
//! [`parse_parts`] hands back the mantissa text (a decimal literal that
//! `str::parse::<f64>` accepts) and the power of ten of the suffix.

use vstd::prelude::*;
use crate::text::{push_str, string_from_chars};

verus! {

/// Error returned when the input is not a recognizable number.
#[derive(Debug, Clone, PartialEq, Eq)]
#[non_exhaustive]
pub enum ParseError {
    /// The input was empty or only whitespace.
    Empty,
    /// The numeric portion could not be parsed as a number.
    InvalidNumber(String),
    /// The trailing suffix was not a recognized magnitude unit.
    UnknownSuffix(String),
}

/// The content of a [`ParseError`].
pub enum ParseErrorView {
    Empty,
    InvalidNumber(Seq<char>),
    UnknownSuffix(Seq<char>),
}

impl View for ParseError {
    type V = ParseErrorView;

    open spec fn view(&self) -> ParseErrorView {
        match self {
            ParseError::Empty => ParseErrorView::Empty,
            ParseError::InvalidNumber(s) => ParseErrorView::InvalidNumber(s@),
            ParseError::UnknownSuffix(s) => ParseErrorView::UnknownSuffix(s@),
        }
    }
}

/// What `{:?}` writes for a string: the string in double quotes, with std's
/// escapes.
pub uninterp spec fn debug_quoted(s: Seq<char>) -> Seq<char>;

/// The `Debug` rendering of a string (`format!("{:?}", s)`). Its result is named
/// by [`debug_quoted`]; nothing more is stated of it.
#[verifier::external_body]
fn debug_quote(s: &String) -> (r: String)
    ensures
        r@ == debug_quoted(s@),
{
    format!("{:?}", s)
}

impl ParseError {
    /// The message of the error: `empty input`, `invalid number: "…"` or
    /// `unknown magnitude suffix: "…"`.
    pub fn message(&self) -> (r: String)
        ensures
            r@ == (match self@ {
                ParseErrorView::Empty => "empty input"@,
                ParseErrorView::InvalidNumber(s) => "invalid number: "@ + debug_quoted(s),
                ParseErrorView::UnknownSuffix(s) => "unknown magnitude suffix: "@ + debug_quoted(s),
            }),
    {
        match self {
            ParseError::Empty => String::from_str("empty input"),
            ParseError::InvalidNumber(s) => {
                let mut out = String::from_str("invalid number: ");
                let quoted = debug_quote(s);
                out.append(quoted.as_str());
                out
            },
            ParseError::UnknownSuffix(s) => {
                let mut out = String::from_str("unknown magnitude suffix: ");
                let quoted = debug_quote(s);
                out.append(quoted.as_str());
                out
            },
        }
    }
}

/// A recognized humanized number: its mantissa and the power of ten that its
/// suffix stands for. Its value is `mantissa * 10^exponent`.
#[derive(Debug, Clone, PartialEq, Eq)]
pub struct ParsedParts {
    /// The numeric text without thousands separators; a decimal literal.
    pub mantissa: String,
    /// The power of ten of the magnitude suffix (`0` when there is none).
    pub exponent: u32,
}

/// Whether `c` has the Unicode `White_Space` property (what `char::is_whitespace`
/// and `str::trim` go by).
pub open spec fn is_white_space(c: char) -> bool {
    ('\u{9}' <= c && c <= '\u{d}') || c == ' ' || c == '\u{85}' || c == '\u{a0}' || c
        == '\u{1680}' || ('\u{2000}' <= c && c <= '\u{200a}') || c == '\u{2028}' || c
        == '\u{2029}' || c == '\u{202f}' || c == '\u{205f}' || c == '\u{3000}'
}

/// `s` without leading white space.
pub open spec fn trim_start(s: Seq<char>) -> Seq<char>
    decreases s.len(),
{
    if s.len() > 0 && is_white_space(s[0]) {
        trim_start(s.drop_first())
    } else {
        s
    }
}

/// `s` without trailing white space.
pub open spec fn trim_end(s: Seq<char>) -> Seq<char>
    decreases s.len(),
{
    if s.len() > 0 && is_white_space(s.last()) {
        trim_end(s.drop_last())
    } else {
        s
    }
}

/// `s` without leading and trailing white space.
pub open spec fn trim(s: Seq<char>) -> Seq<char> {
    trim_end(trim_start(s))
}

pub open spec fn is_digit(c: char) -> bool {
    '0' <= c && c <= '9'
}

pub open spec fn is_sign(c: char) -> bool {
    c == '+' || c == '-'
}

pub open spec fn is_exp_marker(c: char) -> bool {
    c == 'e' || c == 'E'
}

pub open spec fn is_ascii_alphabetic(c: char) -> bool {
    ('a' <= c && c <= 'z') || ('A' <= c && c <= 'Z')
}

/// The ASCII lower-case form of `c`.
pub open spec fn to_ascii_lower(c: char) -> char {
    if 'A' <= c && c <= 'Z' {
        ((c as u32) + 32) as char
    } else {
        c
    }
}

/// Where the numeric text of `t` starting at `i` ends: digits and the separators
/// `,` `_` are taken, one `.` before any exponent, and one exponent `e`/`E` only
/// when an optional sign and a digit follow it.
pub open spec fn scan_number(t: Seq<char>, i: nat, seen_dot: bool, seen_exp: bool) -> nat
    decreases t.len() - i,
{
    if i >= t.len() {
        i
    } else {
        let c = t[i as int];
        if is_digit(c) || c == ',' || c == '_' {
            scan_number(t, i + 1, seen_dot, seen_exp)
        } else if c == '.' && !seen_dot && !seen_exp {
            scan_number(t, i + 1, true, seen_exp)
        } else if is_exp_marker(c) && !seen_exp {
            let j: nat = if i + 1 < t.len() && is_sign(t[i + 1 as int]) {
                i + 2
            } else {
                i + 1
            };
            if j < t.len() && is_digit(t[j as int]) {
                scan_number(t, j, seen_dot, true)
            } else {
                i
            }
        } else {
            i
        }
    }
}

/// Length of the leading numeric text of `t`: an optional sign, then
/// [`scan_number`].
pub open spec fn number_len(t: Seq<char>) -> nat {
    let start: nat = if t.len() > 0 && is_sign(t[0]) {
        1
    } else {
        0
    };
    scan_number(t, start, false, false)
}

/// `s` without the thousands separators `,` and `_`.
pub open spec fn without_separators(s: Seq<char>) -> Seq<char>
    decreases s.len(),
{
    if s.len() == 0 {
        s
    } else {
        let rest = without_separators(s.drop_last());
        if s.last() == ',' || s.last() == '_' {
            rest
        } else {
            rest.push(s.last())
        }
    }
}

/// Index of the first exponent marker of `s` (its length when there is none).
pub open spec fn exp_start(s: Seq<char>) -> nat
    decreases s.len(),
{
    if s.len() == 0 {
        0
    } else if is_exp_marker(s[0]) {
        0
    } else {
        1 + exp_start(s.drop_first())
    }
}

/// `Digit+ | Digit+ '.' Digit* | Digit* '.' Digit+`.
pub open spec fn is_decimal_mantissa(m: Seq<char>) -> bool {
    &&& forall|i: int| 0 <= i < m.len() ==> is_digit(#[trigger] m[i]) || m[i] == '.'
    &&& forall|i: int, j: int| 0 <= i < j < m.len() && m[i] == '.' ==> m[j] != '.'
    &&& exists|i: int| 0 <= i < m.len() && is_digit(#[trigger] m[i])
}

/// `s` without its leading sign, if it has one.
pub open spec fn unsigned_part(s: Seq<char>) -> Seq<char> {
    if s.len() > 0 && is_sign(s[0]) {
        s.drop_first()
    } else {
        s
    }
}

/// Whether every character of `d` is a decimal digit.
pub open spec fn all_digits(d: Seq<char>) -> bool {
    forall|i: int| 0 <= i < d.len() ==> is_digit(#[trigger] d[i])
}

/// `Sign? Digit+`.
pub open spec fn is_signed_digits(s: Seq<char>) -> bool {
    unsigned_part(s).len() > 0 && all_digits(unsigned_part(s))
}

/// Whether `s` is a decimal floating-point literal as `str::parse::<f64>`
/// reads one: `Sign? Mantissa (('e' | 'E') Sign? Digit+)?`. (The forms `inf`
/// and `nan` never reach this check: numeric text holds no other letters.)
pub open spec fn is_float_literal(s: Seq<char>) -> bool {
    let body = unsigned_part(s);
    let k = exp_start(body);
    &&& is_decimal_mantissa(body.take(k as int))
    &&& (k == body.len() || is_signed_digits(body.skip(k as int + 1)))
}

/// The power of ten a lower-case magnitude suffix stands for. `m` is million,
/// never milli; SI exa (`e`) is not recognized, as it would clash with exponents.
pub open spec fn suffix_exponent(s: Seq<char>) -> Option<nat> {
    if s.len() == 0 {
        Some(0)
    } else if s == "k"@ || s == "thousand"@ {
        Some(3)
    } else if s == "m"@ || s == "mn"@ || s == "million"@ {
        Some(6)
    } else if s == "b"@ || s == "bn"@ || s == "g"@ || s == "billion"@ {
        Some(9)
    } else if s == "t"@ || s == "trillion"@ {
        Some(12)
    } else if s == "p"@ || s == "quadrillion"@ {
        Some(15)
    } else if s == "quintillion"@ {
        Some(18)
    } else if s == "z"@ || s == "sextillion"@ {
        Some(21)
    } else if s == "y"@ || s == "septillion"@ {
        Some(24)
    } else if s == "r"@ || s == "octillion"@ {
        Some(27)
    } else if s == "q"@ || s == "nonillion"@ {
        Some(30)
    } else if s == "decillion"@ {
        Some(33)
    } else {
        None
    }
}

/// What reading `s` gives: the mantissa text and the suffix's power of ten, or
/// the error.
pub open spec fn parse_outcome(s: Seq<char>) -> Result<(Seq<char>, nat), ParseErrorView> {
    let t = trim(s);
    if t.len() == 0 {
        Err(ParseErrorView::Empty)
    } else {
        let n = number_len(t);
        let number = t.take(n as int);
        let suffix = trim(t.skip(n as int));
        if suffix.len() > 0 && !(forall|i: int|
            0 <= i < suffix.len() ==> is_ascii_alphabetic(#[trigger] suffix[i])) {
            Err(ParseErrorView::InvalidNumber(t))
        } else {
            let cleaned = without_separators(number);
            if !is_float_literal(cleaned) {
                Err(ParseErrorView::InvalidNumber(t))
            } else {
                match suffix_exponent(suffix.map_values(|c: char| to_ascii_lower(c))) {
                    None => Err(ParseErrorView::UnknownSuffix(suffix)),
                    Some(e) => Ok((cleaned, e)),
                }
            }
        }
    }
}

/// The characters of `s`.
fn chars_of(s: &str) -> (v: Vec<char>)
    ensures
        v@ == s@,
{
    let mut v: Vec<char> = Vec::new();
    push_str(&mut v, s);
    v
}

fn is_white_space_char(c: char) -> (b: bool)
    ensures
        b == is_white_space(c),
{
    ('\u{9}' <= c && c <= '\u{d}') || c == ' ' || c == '\u{85}' || c == '\u{a0}' || c
        == '\u{1680}' || ('\u{2000}' <= c && c <= '\u{200a}') || c == '\u{2028}' || c
        == '\u{2029}' || c == '\u{202f}' || c == '\u{205f}' || c == '\u{3000}'
}

fn is_digit_char(c: char) -> (b: bool)
    ensures
        b == is_digit(c),
{
    '0' <= c && c <= '9'
}

fn lower(c: char) -> (r: char)
    ensures
        r == to_ascii_lower(c),
{
    if 'A' <= c && c <= 'Z' {
        ((c as u8) + 32u8) as char
    } else {
        c
    }
}

/// The characters `v[from..to]`.
fn slice_chars(v: &Vec<char>, from: usize, to: usize) -> (r: Vec<char>)
    requires
        from <= to <= v.len(),
    ensures
        r@ == v@.subrange(from as int, to as int),
{
    let mut r: Vec<char> = Vec::new();
    let mut i = from;
    while i < to
        invariant
            from <= i <= to <= v.len(),
            r@ == v@.subrange(from as int, i as int),
        decreases to - i,
    {
        r.push(v[i]);
        i = i + 1;
        assert(r@ =~= v@.subrange(from as int, i as int));
    }
    r
}

/// `v` without leading and trailing white space.
fn trim_chars(v: &Vec<char>) -> (r: Vec<char>)
    ensures
        r@ == trim(v@),
{
    let mut a: usize = 0;
    assert(v@.skip(0) =~= v@);
    while a < v.len() && is_white_space_char(v[a])
        invariant
            a <= v.len(),
            trim_start(v@) == trim_start(v@.skip(a as int)),
        decreases v.len() - a,
    {
        assert(v@.skip(a as int).drop_first() =~= v@.skip(a + 1));
        a = a + 1;
    }
    let mut r = slice_chars(v, a, v.len());
    assert(r@ =~= v@.skip(a as int));
    let ghost start = r@;
    while r.len() > 0 && is_white_space_char(r[r.len() - 1])
        invariant
            trim_end(r@) == trim_end(start),
        decreases r.len(),
    {
        r.pop();
    }
    r
}

/// Split a trimmed input into its leading numeric text and its trailing unit
/// suffix (itself trimmed).
fn split_number_suffix(t: &Vec<char>) -> (r: (Vec<char>, Vec<char>))
    ensures
        number_len(t@) <= t@.len(),
        r.0@ == t@.take(number_len(t@) as int),
        r.1@ == trim(t@.skip(number_len(t@) as int)),
{
    let len = t.len();
    let mut i: usize = 0;
    if i < len && (t[i] == '+' || t[i] == '-') {
        i = i + 1;
    }
    let mut seen_dot = false;
    let mut seen_exp = false;
    while i < len
        invariant
            len == t@.len(),
            i <= len,
            scan_number(t@, i as nat, seen_dot, seen_exp) == number_len(t@),
        ensures
            i <= len,
            scan_number(t@, i as nat, seen_dot, seen_exp) == number_len(t@),
            scan_number(t@, i as nat, seen_dot, seen_exp) == i,
        decreases len - i,
    {
        let c = t[i];
        if is_digit_char(c) || c == ',' || c == '_' {
            i = i + 1;
        } else if c == '.' && !seen_dot && !seen_exp {
            seen_dot = true;
            i = i + 1;
        } else if (c == 'e' || c == 'E') && !seen_exp {
            let mut j = i + 1;
            if j < len && (t[j] == '+' || t[j] == '-') {
                j = j + 1;
            }
            if j < len && is_digit_char(t[j]) {
                seen_exp = true;
                i = j;
            } else {
                break;
            }
        } else {
            break;
        }
    }
    proof {
        lemma_scan_number_bounds(t@, i as nat, seen_dot, seen_exp);
    }
    let number = slice_chars(t, 0, i);
    let rest = slice_chars(t, i, len);
    assert(number@ =~= t@.take(i as int));
    assert(rest@ =~= t@.skip(i as int));
    (number, trim_chars(&rest))
}

proof fn lemma_scan_number_bounds(t: Seq<char>, i: nat, seen_dot: bool, seen_exp: bool)
    requires
        i <= t.len(),
    ensures
        i <= scan_number(t, i, seen_dot, seen_exp) <= t.len(),
    decreases t.len() - i,
{
    if i < t.len() {
        let c = t[i as int];
        if is_digit(c) || c == ',' || c == '_' {
            lemma_scan_number_bounds(t, i + 1, seen_dot, seen_exp);
        } else if c == '.' && !seen_dot && !seen_exp {
            lemma_scan_number_bounds(t, i + 1, true, seen_exp);
        } else if is_exp_marker(c) && !seen_exp {
            let j: nat = if i + 1 < t.len() && is_sign(t[i + 1 as int]) {
                i + 2
            } else {
                i + 1
            };
            if j < t.len() && is_digit(t[j as int]) {
                lemma_scan_number_bounds(t, j, seen_dot, true);
            }
        }
    }
}

/// `v` without the thousands separators `,` and `_`.
fn strip_separators(v: &Vec<char>) -> (r: Vec<char>)
    ensures
        r@ == without_separators(v@),
{
    let mut r: Vec<char> = Vec::new();
    let mut i: usize = 0;
    assert(v@.take(0) =~= Seq::<char>::empty());
    while i < v.len()
        invariant
            i <= v.len(),
            r@ == without_separators(v@.take(i as int)),
        decreases v.len() - i,
    {
        assert(v@.take(i + 1).drop_last() =~= v@.take(i as int));
        if v[i] != ',' && v[i] != '_' {
            r.push(v[i]);
        }
        i = i + 1;
    }
    assert(v@.take(v.len() as int) =~= v@);
    r
}

/// Whether `m` is `Digit+ | Digit+ '.' Digit* | Digit* '.' Digit+`.
fn is_decimal_mantissa_chars(m: &Vec<char>) -> (b: bool)
    ensures
        b == is_decimal_mantissa(m@),
{
    let mut i: usize = 0;
    let mut seen_dot = false;
    let mut seen_digit = false;
    while i < m.len()
        invariant
            i <= m.len(),
            forall|x: int| 0 <= x < i ==> is_digit(#[trigger] m@[x]) || m@[x] == '.',
            forall|x: int, y: int| 0 <= x < y < i && m@[x] == '.' ==> m@[y] != '.',
            seen_dot == exists|x: int| 0 <= x < i && #[trigger] m@[x] == '.',
            seen_digit == exists|x: int| 0 <= x < i && is_digit(#[trigger] m@[x]),
        decreases m.len() - i,
    {
        let c = m[i];
        if is_digit_char(c) {
            seen_digit = true;
        } else if c == '.' {
            if seen_dot {
                proof {
                    let x = choose|x: int| 0 <= x < i && #[trigger] m@[x] == '.';
                    assert(m@[x] == '.' && m@[i as int] == '.');
                }
                return false;
            }
            seen_dot = true;
        } else {
            assert(!(is_digit(m@[i as int]) || m@[i as int] == '.'));
            return false;
        }
        i = i + 1;
    }
    seen_digit
}

/// Whether `d` is `Sign? Digit+`.
fn is_signed_digits_chars(d: &Vec<char>) -> (b: bool)
    ensures
        b == is_signed_digits(d@),
{
    let start: usize = if d.len() > 0 && (d[0] == '+' || d[0] == '-') {
        1
    } else {
        0
    };
    let ghost body = unsigned_part(d@);
    assert(body =~= d@.skip(start as int));
    if start >= d.len() {
        assert(body.len() == 0);
        return false;
    }
    let mut i = start;
    while i < d.len()
        invariant
            start <= i <= d.len(),
            body == d@.skip(start as int),
            body == unsigned_part(d@),
            forall|x: int| 0 <= x < i - start ==> is_digit(#[trigger] body[x]),
        decreases d.len() - i,
    {
        if !is_digit_char(d[i]) {
            assert(body[i - start] == d@[i as int]);
            assert(!is_digit(body[i - start]));
            assert(0 <= i - start < body.len());
            assert(!all_digits(body));
            return false;
        }
        assert(body[i - start] == d@[i as int]);
        i = i + 1;
    }
    true
}

/// Whether `s` is a decimal literal that `str::parse::<f64>` accepts.
fn is_float_literal_chars(s: &Vec<char>) -> (b: bool)
    ensures
        b == is_float_literal(s@),
{
    let start: usize = if s.len() > 0 && (s[0] == '+' || s[0] == '-') {
        1
    } else {
        0
    };
    let body = slice_chars(s, start, s.len());
    assert(body@ =~= unsigned_part(s@));
    let mut k: usize = 0;
    assert(body@.skip(0) =~= body@);
    while k < body.len() && body[k] != 'e' && body[k] != 'E'
        invariant
            k <= body.len(),
            exp_start(body@) == k + exp_start(body@.skip(k as int)),
        decreases body.len() - k,
    {
        assert(body@.skip(k as int).drop_first() =~= body@.skip(k + 1));
        k = k + 1;
    }
    assert(exp_start(body@.skip(k as int)) == 0);
    let mantissa = slice_chars(&body, 0, k);
    assert(mantissa@ =~= body@.take(k as int));
    if !is_decimal_mantissa_chars(&mantissa) {
        return false;
    }
    if k == body.len() {
        return true;
    }
    let exponent = slice_chars(&body, k + 1, body.len());
    assert(exponent@ =~= body@.skip(k + 1));
    is_signed_digits_chars(&exponent)
}

/// Whether the characters of `v` are those of `s`.
fn chars_eq_str(v: &Vec<char>, s: &str) -> (b: bool)
    ensures
        b == (v@ == s@),
{
    let w = chars_of(s);
    if v.len() != w.len() {
        return false;
    }
    let mut i: usize = 0;
    while i < v.len()
        invariant
            i <= v.len() == w.len(),
            w@ == s@,
            forall|x: int| 0 <= x < i ==> v@[x] == w@[x],
        decreases v.len() - i,
    {
        if v[i] != w[i] {
            assert(v@[i as int] != w@[i as int]);
            return false;
        }
        i = i + 1;
    }
    assert(v@ =~= w@);
    true
}

/// The power of ten that a magnitude suffix stands for, compared without
/// regard to ASCII case.
fn multiplier_exponent(suffix: &Vec<char>) -> (r: Option<u32>)
    ensures
        r matches Some(e) ==> suffix_exponent(suffix@.map_values(|c: char| to_ascii_lower(c)))
            == Some(e as nat),
        r is None ==> suffix_exponent(suffix@.map_values(|c: char| to_ascii_lower(c))) is None,
{
    let mut l: Vec<char> = Vec::new();
    let mut i: usize = 0;
    while i < suffix.len()
        invariant
            i <= suffix.len(),
            l@ == suffix@.take(i as int).map_values(|c: char| to_ascii_lower(c)),
        decreases suffix.len() - i,
    {
        l.push(lower(suffix[i]));
        i = i + 1;
        assert(l@ =~= suffix@.take(i as int).map_values(|c: char| to_ascii_lower(c)));
    }
    assert(suffix@.take(suffix.len() as int) =~= suffix@);
    if l.len() == 0 {
        Some(0)
    } else if chars_eq_str(&l, "k") || chars_eq_str(&l, "thousand") {
        Some(3)
    } else if chars_eq_str(&l, "m") || chars_eq_str(&l, "mn") || chars_eq_str(&l, "million") {
        Some(6)
    } else if chars_eq_str(&l, "b") || chars_eq_str(&l, "bn") || chars_eq_str(&l, "g")
        || chars_eq_str(&l, "billion") {
        Some(9)
    } else if chars_eq_str(&l, "t") || chars_eq_str(&l, "trillion") {
        Some(12)
    } else if chars_eq_str(&l, "p") || chars_eq_str(&l, "quadrillion") {
        Some(15)
    } else if chars_eq_str(&l, "quintillion") {
        Some(18)
    } else if chars_eq_str(&l, "z") || chars_eq_str(&l, "sextillion") {
        Some(21)
    } else if chars_eq_str(&l, "y") || chars_eq_str(&l, "septillion") {
        Some(24)
    } else if chars_eq_str(&l, "r") || chars_eq_str(&l, "octillion") {
        Some(27)
    } else if chars_eq_str(&l, "q") || chars_eq_str(&l, "nonillion") {
        Some(30)
    } else if chars_eq_str(&l, "decillion") {
        Some(33)
    } else {
        None
    }
}

/// Whether every character of `v` is an ASCII letter.
fn all_ascii_alphabetic(v: &Vec<char>) -> (b: bool)
    ensures
        b == forall|i: int| 0 <= i < v@.len() ==> is_ascii_alphabetic(#[trigger] v@[i]),
{
    let mut i: usize = 0;
    while i < v.len()
        invariant
            i <= v.len(),
            forall|x: int| 0 <= x < i ==> is_ascii_alphabetic(#[trigger] v@[x]),
        decreases v.len() - i,
    {
        let c = v[i];
        if !(('a' <= c && c <= 'z') || ('A' <= c && c <= 'Z')) {
            assert(!is_ascii_alphabetic(v@[i as int]));
            return false;
        }
        i = i + 1;
    }
    true
}

/// Read a humanized number such as `"1.2K"`, `"1.5 million"`, `"3M"` or
/// `"-2.5bn"` into its mantissa text and the power of ten of its suffix.
///
/// Recognizes, case-insensitively, the compact suffixes `K`, `M`, `B` (`bn`),
/// `T`; the short-scale words `thousand` … `decillion`; and the SI prefixes `k`,
/// `M`, `G`, `T`, `P`, `Z`, `Y`, `R`, `Q`. Thousands separators (`,` and `_`) are
/// dropped from the mantissa.
///
/// Errors: [`ParseError::Empty`] for blank input, [`ParseError::InvalidNumber`]
/// (carrying the trimmed input) when the suffix holds a non-letter or the
/// numeric part is not a decimal literal, and [`ParseError::UnknownSuffix`]
/// (carrying the suffix) for an unrecognized alphabetic suffix.
pub fn parse_parts(s: &str) -> (r: Result<ParsedParts, ParseError>)
    ensures
        match r {
            Ok(p) => parse_outcome(s@) == Ok::<(Seq<char>, nat), ParseErrorView>(
                (p.mantissa@, p.exponent as nat),
            ),
            Err(e) => parse_outcome(s@) == Err::<(Seq<char>, nat), ParseErrorView>(e@),
        },
{
    let chars = chars_of(s);
    let t = trim_chars(&chars);
    if t.len() == 0 {
        return Err(ParseError::Empty);
    }
    let (number, suffix) = split_number_suffix(&t);
    if suffix.len() > 0 && !all_ascii_alphabetic(&suffix) {
        return Err(ParseError::InvalidNumber(string_from_chars(&t)));
    }
    let cleaned = strip_separators(&number);
    if !is_float_literal_chars(&cleaned) {
        return Err(ParseError::InvalidNumber(string_from_chars(&t)));
    }
    match multiplier_exponent(&suffix) {
        None => Err(ParseError::UnknownSuffix(string_from_chars(&suffix))),
        Some(e) => Ok(ParsedParts { mantissa: string_from_chars(&cleaned), exponent: e }),
    }
}

/// A digit or a thousands separator.
pub open spec fn is_digit_or_separator(c: char) -> bool {
    is_digit(c) || c == ',' || c == '_'
}

/// One step of the automaton for numeric text, `[+-]?R(\.R)?([eE][+-]?[0-9]R)?`
/// with `R = [0-9,_]*`. States: 0 nothing read, 1 integer part, 2 fraction, 3
/// exponent marker, 4 exponent sign, 5 exponent digits, 6 no match possible.
pub open spec fn numeric_step(state: nat, c: char) -> nat {
    if state == 0 && is_sign(c) {
        1
    } else if state <= 1 && is_digit_or_separator(c) {
        1
    } else if state <= 1 && c == '.' {
        2
    } else if state == 2 && is_digit_or_separator(c) {
        2
    } else if state <= 2 && is_exp_marker(c) {
        3
    } else if state == 3 && is_sign(c) {
        4
    } else if (state == 3 || state == 4) && is_digit(c) {
        5
    } else if state == 5 && is_digit_or_separator(c) {
        5
    } else {
        6
    }
}

/// The state of the numeric-text automaton after reading `s`.
pub open spec fn numeric_state(s: Seq<char>) -> nat
    decreases s.len(),
{
    if s.len() == 0 {
        0
    } else {
        numeric_step(numeric_state(s.drop_last()), s.last())
    }
}

/// Whether `s` is numeric text: it matches `[+-]?R(\.R)?([eE][+-]?[0-9]R)?`
/// with `R = [0-9,_]*`.
pub open spec fn is_numeric_text(s: Seq<char>) -> bool {
    let st = numeric_state(s);
    st == 0 || st == 1 || st == 2 || st == 5
}

proof fn lemma_numeric_state_next(t: Seq<char>, k: int)
    requires
        0 <= k < t.len(),
    ensures
        numeric_state(t.take(k + 1)) == numeric_step(numeric_state(t.take(k)), t[k]),
{
    assert(t.take(k + 1).drop_last() =~= t.take(k));
}

/// Once no match is possible, no longer prefix matches either.
proof fn lemma_numeric_dead(t: Seq<char>, k: int, n: int)
    requires
        0 <= k <= n <= t.len(),
        numeric_state(t.take(k)) == 6,
    ensures
        numeric_state(t.take(n)) == 6,
    decreases n - k,
{
    if n > k {
        lemma_numeric_dead(t, k, n - 1);
        lemma_numeric_state_next(t, n - 1);
    }
}

/// What `scan_number` finds from a matching prefix in the state its flags
/// stand for: the longest numeric prefix.
proof fn lemma_scan_longest(t: Seq<char>, i: nat, seen_dot: bool, seen_exp: bool)
    requires
        i <= t.len(),
        ({
            let st = numeric_state(t.take(i as int));
            &&& !seen_dot && !seen_exp ==> (st == 1 || (st == 0 && i == 0 && (t.len() == 0
                || !is_sign(t[0]))))
            &&& seen_dot && !seen_exp ==> st == 2
            &&& seen_exp ==> st == 5
        }),
    ensures
        i <= scan_number(t, i, seen_dot, seen_exp) <= t.len(),
        is_numeric_text(t.take(scan_number(t, i, seen_dot, seen_exp) as int)),
        forall|n: int|
            scan_number(t, i, seen_dot, seen_exp) < n <= t.len() ==> !is_numeric_text(
                #[trigger] t.take(n),
            ),
    decreases t.len() - i,
{
    let r = scan_number(t, i, seen_dot, seen_exp);
    let ii = i as int;
    if i < t.len() {
        let c = t[ii];
        lemma_numeric_state_next(t, ii);
        if is_digit(c) || c == ',' || c == '_' {
            lemma_scan_longest(t, i + 1, seen_dot, seen_exp);
        } else if c == '.' && !seen_dot && !seen_exp {
            lemma_scan_longest(t, i + 1, true, seen_exp);
        } else if is_exp_marker(c) && !seen_exp {
            let j: nat = if i + 1 < t.len() && is_sign(t[ii + 1]) {
                i + 2
            } else {
                i + 1
            };
            let jj = j as int;
            assert(numeric_state(t.take(ii + 1)) == 3);
            if ii + 1 < t.len() {
                lemma_numeric_state_next(t, ii + 1);
            }
            if j < t.len() && is_digit(t[jj]) {
                lemma_numeric_state_next(t, jj);
                assert(numeric_state(t.take(jj)) == 3 || numeric_state(t.take(jj)) == 4);
                assert(numeric_state(t.take(jj + 1)) == 5);
                lemma_scan_longest(t, j + 1, seen_dot, true);
                assert(scan_number(t, j, seen_dot, true) == scan_number(t, j + 1, seen_dot, true));
            } else {
                assert(r == i);
                if j == i + 2 && j < t.len() {
                    assert(numeric_state(t.take(ii + 2)) == 4);
                    lemma_numeric_state_next(t, jj);
                    assert(numeric_state(t.take(jj + 1)) == 6);
                    lemma_numeric_dead_all(t, jj + 1);
                } else if j == i + 1 && j < t.len() {
                    assert(numeric_state(t.take(ii + 2)) == 6);
                    lemma_numeric_dead_all(t, ii + 2);
                }
                assert forall|n: int| r < n <= t.len() implies !is_numeric_text(
                    #[trigger] t.take(n),
                ) by {
                    if n == ii + 1 {
                    } else if n == ii + 2 && j == i + 2 {
                    }
                }
            }
        } else {
            assert(r == i);
            assert(numeric_state(t.take(ii + 1)) == 6);
            lemma_numeric_dead_all(t, ii + 1);
        }
    }
}

/// From a prefix where no match is possible, no longer prefix matches.
proof fn lemma_numeric_dead_all(t: Seq<char>, k: int)
    requires
        0 <= k <= t.len(),
        numeric_state(t.take(k)) == 6,
    ensures
        forall|n: int| k <= n <= t.len() ==> numeric_state(#[trigger] t.take(n)) == 6,
{
    assert forall|n: int| k <= n <= t.len() implies numeric_state(#[trigger] t.take(n)) == 6 by {
        lemma_numeric_dead(t, k, n);
    }
}

/// The number that reading splits off is the longest prefix of the text that
/// is numeric text (`[+-]?R(\.R)?([eE][+-]?[0-9]R)?`, `R = [0-9,_]*`): an
/// exponent marker joins it only before an optional sign and a digit, and a
/// second point, or a point after the exponent, ends it.
pub proof fn lemma_number_len_longest(t: Seq<char>)
    ensures
        number_len(t) <= t.len(),
        is_numeric_text(t.take(number_len(t) as int)),
        forall|n: int| number_len(t) < n <= t.len() ==> !is_numeric_text(#[trigger] t.take(n)),
{
    if t.len() > 0 && is_sign(t[0]) {
        lemma_numeric_state_next(t, 0);
        assert(t.take(0) =~= Seq::<char>::empty());
        lemma_scan_longest(t, 1, false, false);
    } else {
        assert(t.take(0) =~= Seq::<char>::empty());
        lemma_scan_longest(t, 0, false, false);
    }
}


/// Reading drops every thousands separator and nothing else: the cleaned text
/// holds no `,` or `_`; cleaning a concatenation cleans each part; a separator
/// leaves nothing and any other character stays.
pub proof fn lemma_without_separators(a: Seq<char>, b: Seq<char>, c: char)
    ensures
        !without_separators(a).contains(','),
        !without_separators(a).contains('_'),
        without_separators(a + b) == without_separators(a) + without_separators(b),
        without_separators(seq![c]) == (if c == ',' || c == '_' {
            Seq::<char>::empty()
        } else {
            seq![c]
        }),
    decreases a.len() + b.len(),
{
    assert(seq![c].drop_last() =~= Seq::<char>::empty());
    assert(without_separators(Seq::<char>::empty()) =~= Seq::<char>::empty());
    if a.len() > 0 {
        lemma_without_separators(a.drop_last(), Seq::<char>::empty(), c);
        let r = without_separators(a.drop_last());
        assert forall|x: char| x == ',' || x == '_' implies !without_separators(a).contains(x) by {
            if without_separators(a).contains(x) {
                let i = choose|i: int| 0 <= i < without_separators(a).len() && without_separators(a)[i] == x;
                if i < r.len() {
                    assert(r[i] == x);
                }
            }
        }
    }
    if b.len() == 0 {
        assert(a + b =~= a);
        assert(without_separators(a) + without_separators(b) =~= without_separators(a));
    } else {
        lemma_without_separators(a, b.drop_last(), c);
        assert((a + b).drop_last() =~= a + b.drop_last());
        assert((a + b).last() == b.last());
        let wa = without_separators(a);
        let wb = without_separators(b.drop_last());
        if !(b.last() == ',' || b.last() == '_') {
            assert((wa + wb).push(b.last()) =~= wa + wb.push(b.last()));
        }
    }
}

/// Lowering maps each ASCII capital to its small letter and leaves every other
/// character alone, so a letter and its capital lower alike: suffixes are read
/// without regard to case.
pub proof fn lemma_to_ascii_lower(c: char)
    ensures
        'A' <= c <= 'Z' ==> to_ascii_lower(c) as u32 == c as u32 + 32,
        !('A' <= c <= 'Z') ==> to_ascii_lower(c) == c,
        'a' <= to_ascii_lower(c) <= 'z' <==> ('A' <= c <= 'Z' || 'a' <= c <= 'z'),
        'a' <= c <= 'z' ==> to_ascii_lower(((c as u32) - 32) as char) == c,
        to_ascii_lower(to_ascii_lower(c)) == to_ascii_lower(c),
{
}

} // verus!
