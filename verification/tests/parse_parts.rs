//! Reading humanized strings: mantissa text, power of ten, and errors.

use numan::parse::{parse_parts, ParseError, ParsedParts};
use numan::{compact, metric, word, Formatter};

fn parts(s: &str) -> (String, u32) {
    let p: ParsedParts = parse_parts(s).unwrap();
    (p.mantissa, p.exponent)
}

/// The value a humanized string reads as: its mantissa times its power of ten.
fn parse(s: &str) -> Result<f64, ParseError> {
    let p = parse_parts(s)?;
    Ok(p.mantissa.parse::<f64>().unwrap() * 10f64.powi(p.exponent as i32))
}

#[test]
fn parse_compact_suffixes() {
    assert_eq!(parse("1.2K").unwrap(), 1_200.0);
    assert_eq!(parse("3M").unwrap(), 3_000_000.0);
    assert_eq!(parse("-2.5bn").unwrap(), -2_500_000_000.0);
    assert_eq!(parse("1.2k").unwrap(), 1_200.0);
}

#[test]
fn parse_words() {
    assert_eq!(parse("1.5 million").unwrap(), 1_500_000.0);
    assert_eq!(parse("5 thousand").unwrap(), 5_000.0);
    assert_eq!(parse("2 BILLION").unwrap(), 2_000_000_000.0);
}

#[test]
fn parse_plain_and_separators() {
    assert_eq!(parse("1000").unwrap(), 1_000.0);
    assert_eq!(parse("2.5").unwrap(), 2.5);
    assert_eq!(parse("1,234").unwrap(), 1_234.0);
    assert_eq!(parse("1_000").unwrap(), 1_000.0);
    assert_eq!(parse("  7 B ").unwrap(), 7_000_000_000.0);
}

#[test]
fn parse_errors() {
    assert_eq!(parse(""), Err(ParseError::Empty));
    assert_eq!(parse("   "), Err(ParseError::Empty));
    assert!(matches!(parse("abc"), Err(ParseError::InvalidNumber(_))));
    assert!(matches!(
        parse("5 zorps"),
        Err(ParseError::UnknownSuffix(_))
    ));
}

#[test]
fn parse_round_trips_compact() {
    for v in [1_234_u64, 56_700, 8_900_000, 12_000_000_000] {
        let s = compact(v);
        let back = parse(&s).unwrap();
        // Compact keeps ~2 significant digits, so allow 5% tolerance.
        let rel_err = (back - v as f64).abs() / v as f64;
        assert!(rel_err < 0.05, "round trip {v} -> {s} -> {back}");
    }
}

#[test]
fn parse_rejects_malformed_numbers_as_invalid() {
    for s in ["1.2.3", "1k1", "1 2", "0x10", "1.2.3K"] {
        assert!(
            matches!(parse(s), Err(ParseError::InvalidNumber(_))),
            "input {s:?} -> {:?}",
            parse(s)
        );
    }
}

#[test]
fn parse_unknown_alpha_suffix_is_unknown_suffix() {
    assert!(matches!(parse("12zz"), Err(ParseError::UnknownSuffix(_))));
    assert!(matches!(
        parse("5 zorps"),
        Err(ParseError::UnknownSuffix(_))
    ));
}

#[test]
fn parts_compact_suffixes() {
    assert_eq!(parts("1.2K"), ("1.2".to_string(), 3));
    assert_eq!(parts("3M"), ("3".to_string(), 6));
    assert_eq!(parts("-2.5bn"), ("-2.5".to_string(), 9));
    assert_eq!(parts("1.2k"), ("1.2".to_string(), 3));
    assert_eq!(parts("4T"), ("4".to_string(), 12));
}

#[test]
fn parts_words() {
    assert_eq!(parts("1.5 million"), ("1.5".to_string(), 6));
    assert_eq!(parts("5 thousand"), ("5".to_string(), 3));
    assert_eq!(parts("2 BILLION"), ("2".to_string(), 9));
    assert_eq!(parts("1 decillion"), ("1".to_string(), 33));
    assert_eq!(parts("1 quintillion"), ("1".to_string(), 18));
}

#[test]
fn parts_metric_prefixes() {
    assert_eq!(parts("1 G"), ("1".to_string(), 9));
    assert_eq!(parts("1 P"), ("1".to_string(), 15));
    assert_eq!(parts("1 Z"), ("1".to_string(), 21));
    assert_eq!(parts("1 Y"), ("1".to_string(), 24));
    assert_eq!(parts("1 R"), ("1".to_string(), 27));
    assert_eq!(parts("1 Q"), ("1".to_string(), 30));
    assert_eq!(parts("2mn"), ("2".to_string(), 6));
}

#[test]
fn parts_plain_and_separators() {
    assert_eq!(parts("1000"), ("1000".to_string(), 0));
    assert_eq!(parts("2.5"), ("2.5".to_string(), 0));
    assert_eq!(parts("1,234"), ("1234".to_string(), 0));
    assert_eq!(parts("1_000"), ("1000".to_string(), 0));
    assert_eq!(parts("  7 B "), ("7".to_string(), 9));
    assert_eq!(parts("+.5"), ("+.5".to_string(), 0));
    assert_eq!(parts("5."), ("5.".to_string(), 0));
}

#[test]
fn parts_exponents() {
    assert_eq!(parts("1e3"), ("1e3".to_string(), 0));
    assert_eq!(parts("1.5E-2k"), ("1.5E-2".to_string(), 3));
    assert_eq!(parts("2e+6"), ("2e+6".to_string(), 0));
}

#[test]
fn parts_errors() {
    assert_eq!(parse_parts(""), Err(ParseError::Empty));
    assert_eq!(parse_parts("   "), Err(ParseError::Empty));
    assert_eq!(parse_parts("\t\n"), Err(ParseError::Empty));
    assert_eq!(
        parse_parts("abc"),
        Err(ParseError::InvalidNumber("abc".to_string()))
    );
    assert_eq!(
        parse_parts(" 5 zorps "),
        Err(ParseError::UnknownSuffix("zorps".to_string()))
    );
    assert_eq!(parse_parts("."), Err(ParseError::InvalidNumber(".".to_string())));
    assert_eq!(parse_parts("-"), Err(ParseError::InvalidNumber("-".to_string())));
    assert_eq!(parse_parts("e5"), Err(ParseError::InvalidNumber("e5".to_string())));
}

#[test]
fn parts_malformed_numbers_carry_the_trimmed_input() {
    for s in ["1.2.3", "1k1", "1 2", "0x10", "1.2.3K"] {
        assert_eq!(
            parse_parts(s),
            Err(ParseError::InvalidNumber(s.to_string())),
            "input {s:?}"
        );
    }
}

#[test]
fn parts_unknown_suffix_carries_the_suffix() {
    assert_eq!(
        parse_parts("12zz"),
        Err(ParseError::UnknownSuffix("zz".to_string()))
    );
    assert_eq!(
        parse_parts("5 zorps"),
        Err(ParseError::UnknownSuffix("zorps".to_string()))
    );
    // SI exa is not read, so that `1e3` stays an exponent.
    assert_eq!(parse_parts("1E"), Err(ParseError::UnknownSuffix("E".to_string())));
}

#[test]
fn error_messages() {
    assert_eq!(ParseError::Empty.message(), "empty input");
    assert_eq!(
        parse_parts("abc").unwrap_err().message(),
        "invalid number: \"abc\""
    );
    assert_eq!(
        parse_parts("5 zorps").unwrap_err().message(),
        "unknown magnitude suffix: \"zorps\""
    );
}

#[test]
fn word_round_trips() {
    let s = word(2_500_000_000_000_i64);
    assert_eq!(parts(&s), ("2.5".to_string(), 12));
    let s = word(10_u128.pow(33));
    assert_eq!(s, "1 decillion");
    assert_eq!(parts(&s), ("1".to_string(), 33));
}

#[test]
fn metric_round_trips_through_parse() {
    for e in [3_u32, 6, 9, 12, 15, 21, 24, 27, 30] {
        let p = 10_u128.pow(e);
        let s = metric(p);
        let back = parse(&s).unwrap();
        let pf = p as f64;
        assert!(
            (back - pf).abs() / pf < 1e-9,
            "metric round trip {p} -> {s} -> {back}"
        );
        assert_eq!(parts(&s), ("1".to_string(), e));
    }
}

#[test]
fn metric_exa_fails_loudly_not_silently() {
    // SI exa "E" clashes with exponent notation, so it is not parseable — but it
    // must return an error, never silently mis-parse to a wrong value.
    let s = metric(1_000_000_000_000_000_000_u64);
    assert!(parse(&s).is_err(), "expected parse error for {s:?}");
    assert_eq!(s, "1 E");
    assert_eq!(parse_parts(&s), Err(ParseError::UnknownSuffix("E".to_string())));
}

#[test]
fn compact_beyond_table_uses_scientific_and_round_trips() {
    let v = 10_i128.pow(36);
    let s = compact(v);
    assert!(!s.contains("1000"), "unexpected overflow rendering: {s}");
    let back = parse(&s).unwrap();
    assert!((back - 1e36).abs() / 1e36 < 1e-9, "{s} -> {back}");
    assert_eq!(compact(-v), format!("-{s}"));
    assert_eq!(s, "1e36");
    assert_eq!(parts(&s), ("1e36".to_string(), 0));
    assert_eq!(compact(-v), "-1e36");
    assert_eq!(parts("-1e36"), ("-1e36".to_string(), 0));
    assert_eq!(compact(1_500_000_000_000_000_u64), "1.5e15");
    assert_eq!(
        Formatter::compact().sign_plus(true).format(2_000_000_000_000_000_u64),
        "+2e15"
    );
}

#[test]
fn signed_and_untrimmed_outputs_read_back() {
    let s = Formatter::compact().trim_zeros(false).sign_plus(true).format(1_000_000);
    assert_eq!(s, "+1.0M");
    assert_eq!(parts(&s), ("+1.0".to_string(), 6));
    let s = Formatter::word().precision(2).format(-1_234_567);
    assert_eq!(s, "-1.23 million");
    assert_eq!(parts(&s), ("-1.23".to_string(), 6));
}
