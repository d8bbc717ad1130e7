//! The library's laws on concrete values.

use numan::{compact, metric, ordinal, word, Formatter, Notation};

#[test]
fn negation_adds_a_minus_to_the_same_digits() {
    for v in [1_i64, 999, 1_500, 999_950, 12_345_678, 7_000_000_000] {
        assert_eq!(compact(-v), format!("-{}", compact(v)));
        assert_eq!(word(-v), format!("-{}", word(v)));
        assert_eq!(metric(-v), format!("-{}", metric(v)));
        let plus = Formatter::compact().sign_plus(true);
        assert_eq!(plus.format(v), format!("+{}", compact(v)));
        assert_eq!(plus.format(-v), format!("-{}", compact(v)));
    }
}

#[test]
fn zero_is_never_signed() {
    assert_eq!(compact(0), "0");
    assert_eq!(Formatter::compact().sign_plus(true).format(0), "0");
    assert_eq!(Formatter::compact().trim_zeros(false).format(0), "0.0");
}

#[test]
fn mantissa_never_reaches_1000_below_the_largest_suffix() {
    assert_eq!(compact(999_950), "1M");
    assert_eq!(compact(999_999_999), "1B");
    assert_eq!(Formatter::compact().precision(0).format(999_500), "1M");
    assert_eq!(Formatter::compact().precision(0).format(999_499), "999K");
    assert_eq!(word(999_999), "1 million");
    // At the largest suffix there is nothing to promote to: scientific notation.
    assert_eq!(compact(999_950_000_000_000_u64), "9.9995e14");
    assert_eq!(compact(999_999_999_999_999_u64), "9.99999999999999e14");
    assert_eq!(compact(999_940_000_000_000_u64), "999.9T");
}

#[test]
fn rounding_is_half_to_even() {
    // 1.25 rounds to the even 1.2, 1.35 to 1.4.
    assert_eq!(compact(1_250), "1.2K");
    assert_eq!(compact(1_350), "1.4K");
    assert_eq!(Formatter::compact().precision(0).format(2_500), "2K");
    assert_eq!(Formatter::compact().precision(0).format(3_500), "4K");
    assert_eq!(Formatter::compact().precision(2).format(1_005), "1K");
    assert_eq!(Formatter::compact().precision(2).trim_zeros(false).format(1_005), "1.00K");
}

#[test]
fn integers_go_through_the_nearest_f64() {
    // 1050 / 1000 in binary64 is a little above 1.05.
    assert_eq!(compact(1_050), "1.1K");
    assert_eq!(compact(1_150), "1.1K");
    assert_eq!(compact(1_850), "1.9K");
    assert_eq!(compact(9_007_199_254_740_993_u64), "9.007199254740992e15");
    assert_eq!(compact(1_152_921_504_606_846_976_u64), "1.152921504606847e18");
}

#[test]
fn precision_pads_with_zeros() {
    assert_eq!(Formatter::compact().precision(5).trim_zeros(false).format(1_234), "1.23400K");
    assert_eq!(Formatter::compact().precision(3).trim_zeros(false).format(7), "7.000");
    let long = Formatter::compact().precision(40).trim_zeros(false).format(1_234);
    assert_eq!(long.len(), "1.".len() + 40 + "K".len());
    assert_eq!(long, "1.2339999999999999857891452847979962825775K");
}

#[test]
fn full_suffix_tables() {
    let mut v: u128 = 1;
    let words = [
        "", "thousand", "million", "billion", "trillion", "quadrillion", "quintillion",
        "sextillion", "septillion", "octillion", "nonillion", "decillion",
    ];
    let si = ["", "k", "M", "G", "T", "P", "E", "Z", "Y", "R", "Q"];
    for i in 0..12 {
        let w = word(v);
        if i == 0 {
            assert_eq!(w, "1");
        } else {
            assert_eq!(w, format!("1 {}", words[i]));
        }
        if i < 11 {
            let m = metric(v);
            if i == 0 {
                assert_eq!(m, "1");
            } else {
                assert_eq!(m, format!("1 {}", si[i]));
            }
        }
        v *= 1000;
    }
    assert_eq!(metric(10_u128.pow(33)), "1e33");
    assert_eq!(word(10_u128.pow(36)), "1e36");
    assert_eq!(word(u128::MAX), "3.402823669209385e38");
}

#[test]
fn extreme_integers() {
    assert_eq!(compact(i128::MIN), "-1.7014118346046923e38");
    assert_eq!(compact(i8::MIN), "-128");
    assert_eq!(compact(u8::MAX), "255");
    assert_eq!(compact(usize::MIN), "0");
}

#[test]
fn ordinal_negation_keeps_the_suffix() {
    for v in [1_i64, 2, 3, 4, 11, 12, 13, 21, 101, 111, 1_002] {
        assert_eq!(ordinal(-v), format!("-{}", ordinal(v)));
    }
}

#[test]
fn ordinal_suffix_rule() {
    assert_eq!(ordinal(112), "112th");
    assert_eq!(ordinal(1_001), "1001st");
    assert_eq!(ordinal(1_012), "1012th");
    assert_eq!(ordinal(10_003), "10003rd");
    assert_eq!(ordinal(i128::MIN), "-170141183460469231731687303715884105728th");
    assert_eq!(ordinal(u128::MAX), "170141183460469231731687303715884105727th");
    assert_eq!(ordinal(i8::MIN), "-128th");
}

#[test]
fn presets_and_builders() {
    assert_eq!(Formatter::new(Notation::Word).format(1_500), "1.5 thousand");
    assert_eq!(Formatter::metric().space(false).format(1_500), "1.5k");
    assert_eq!(Formatter::compact().notation(), Notation::Compact);
    assert_eq!(Formatter::word().max_index(), 11);
    assert_eq!(Formatter::compact().precision(usize::MAX).effective_precision(), 65_535);
}

#[test]
fn finish_assembles_a_rendered_mantissa() {
    let f = Formatter::word();
    assert_eq!(f.finish(true, 2, "1.50".chars().collect()), "-1.5 million");
    assert_eq!(f.finish(true, 0, "0.0".chars().collect()), "0");
    assert_eq!(
        Formatter::compact().trim_zeros(false).finish(false, 0, "0.50".chars().collect()),
        "0.50"
    );
    assert_eq!(Formatter::compact().with_sign(true, false, &vec!['7']), "-7");
}

#[test]
fn what_is_read_back_is_within_half_a_unit() {
    for v in [1_234_u64, 1_050, 56_789, 8_912_345, 12_345_678_901, 999_499, 7] {
        for p in [0_usize, 1, 2, 3] {
            let s = Formatter::compact().precision(p).format(v);
            let parts = numan::parse::parse_parts(&s).unwrap();
            let scale = 10f64.powi(parts.exponent as i32);
            let read = parts.mantissa.parse::<f64>().unwrap();
            let exact = v as f64 / scale;
            let half_unit = 0.5 / 10f64.powi(p as i32);
            assert!((read - exact).abs() <= half_unit + 1e-9, "{v} at {p}: {s}");
        }
    }
}

#[test]
fn fraction_digits_follow_the_precision() {
    assert_eq!(Formatter::compact().precision(4).trim_zeros(false).format(1_234), "1.2340K");
    assert_eq!(Formatter::compact().precision(4).format(1_234), "1.234K");
    assert_eq!(Formatter::compact().precision(0).trim_zeros(false).format(1_500), "2K");
    assert_eq!(Formatter::compact().precision(2).format(2_000), "2K");
}

#[test]
fn no_sign_before_a_zero() {
    assert_eq!(Formatter::compact().sign_plus(true).precision(0).format(0), "0");
    assert_eq!(Formatter::compact().sign_plus(true).trim_zeros(false).format(0_i8), "0.0");
    assert_eq!(Formatter::compact().format(-0_i64), "0");
}

#[test]
fn the_number_read_is_the_longest_numeric_prefix() {
    let p = numan::parse::parse_parts("1e5k").unwrap();
    assert_eq!((p.mantissa.as_str(), p.exponent), ("1e5", 3));
    let p = numan::parse::parse_parts("1,000.5K").unwrap();
    assert_eq!((p.mantissa.as_str(), p.exponent), ("1000.5", 3));
    assert!(matches!(
        numan::parse::parse_parts("2.5e"),
        Err(numan::parse::ParseError::UnknownSuffix(_))
    ));
    assert!(matches!(
        numan::parse::parse_parts("1e+k"),
        Err(numan::parse::ParseError::InvalidNumber(_))
    ));
}
