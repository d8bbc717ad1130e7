//! Integers are humanized as `core::fmt` writes the nearest `f64`: compare the
//! library with the same steps done in binary64 floating point.

use numan::{Formatter, Notation};

fn suffixes(n: Notation) -> &'static [&'static str] {
    match n {
        Notation::Compact => &["", "K", "M", "B", "T"],
        Notation::Word => &[
            "", "thousand", "million", "billion", "trillion", "quadrillion", "quintillion",
            "sextillion", "septillion", "octillion", "nonillion", "decillion",
        ],
        _ => &["", "k", "M", "G", "T", "P", "E", "Z", "Y", "R", "Q"],
    }
}

fn float_steps(n: Notation, precision: usize, trim: bool, space: bool, negative: bool, magnitude: f64) -> String {
    let table = suffixes(n);
    let max_idx = table.len() - 1;
    let sign = |body: &str, zero: bool| -> String {
        if zero || !negative {
            body.to_string()
        } else {
            format!("-{body}")
        }
    };
    let mut v = magnitude;
    let mut idx = 0;
    while v >= 1000.0 && idx < max_idx {
        v /= 1000.0;
        idx += 1;
    }
    if idx == max_idx && v >= 1000.0 {
        return sign(&format!("{magnitude:e}"), false);
    }
    let mut rendered = format!("{v:.precision$}");
    if rendered.parse::<f64>().unwrap() >= 1000.0 {
        if idx < max_idx {
            idx += 1;
            v /= 1000.0;
            rendered = format!("{v:.precision$}");
        } else {
            return sign(&format!("{magnitude:e}"), false);
        }
    }
    if trim && rendered.contains('.') {
        rendered = rendered.trim_end_matches('0').trim_end_matches('.').to_string();
    }
    let body = if idx == 0 {
        rendered
    } else if space {
        format!("{rendered} {}", table[idx])
    } else {
        format!("{rendered}{}", table[idx])
    };
    let zero = body.chars().all(|c| c == '0' || c == '.');
    sign(&body, zero)
}

fn check(f: Formatter, n: Notation, precision: usize, trim: bool, space: bool, x: i128) {
    let magnitude = x.unsigned_abs() as f64;
    let expected = float_steps(n, precision, trim, space, x < 0, magnitude);
    assert_eq!(f.format(x), expected, "{x} with precision {precision}");
}

fn values() -> Vec<i128> {
    let mut out: Vec<i128> = Vec::new();
    for x in 0..3_000 {
        out.push(x);
        out.push(x * 7 + 995);
    }
    let mut p: i128 = 1;
    for _ in 0..38 {
        for d in [-1, 0, 1, 49, 50, 51, -50] {
            out.push(p * 999 + d);
            out.push(p * 1000 + d);
            out.push(p * 9995 / 10 + d);
        }
        p *= 10;
    }
    let mut s: u128 = 0x9e37_79b9_7f4a_7c15;
    for _ in 0..3_000 {
        s = s.wrapping_mul(6_364_136_223_846_793_005).wrapping_add(1_442_695_040_888_963_407);
        let bits = (s >> 64) as u32 % 127;
        let v = (s >> (127 - bits)) as i128;
        out.push(v);
        out.push(-v);
    }
    out.push(i128::MAX);
    out.push(i128::MIN + 1);
    out
}

#[test]
fn compact_agrees_with_binary64_steps() {
    for x in values() {
        check(Formatter::compact(), Notation::Compact, 1, true, false, x);
    }
}

#[test]
fn word_and_metric_agree_with_binary64_steps() {
    for x in values() {
        check(Formatter::word(), Notation::Word, 1, true, true, x);
        check(Formatter::metric(), Notation::Metric, 1, true, true, x);
    }
}

#[test]
fn other_precisions_agree_with_binary64_steps() {
    for (i, x) in values().into_iter().enumerate() {
        let p = [0, 2, 3, 5, 17, 30][i % 6];
        let f = Formatter::compact().precision(p).trim_zeros(i % 2 == 0);
        check(f, Notation::Compact, p, i % 2 == 0, false, x);
    }
}

#[test]
fn unsigned_extremes_agree_with_binary64_steps() {
    for x in [u128::MAX, u128::MAX - 1, 1 << 127, (1 << 127) + 1, 1 << 64, u64::MAX as u128] {
        let expected = float_steps(Notation::Word, 1, true, true, false, x as f64);
        assert_eq!(Formatter::word().format(x), expected, "{x}");
    }
}
