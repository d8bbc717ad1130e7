//! English ordinal suffixes (`1st`, `2nd`, `3rd`, `4th`, …).

use vstd::prelude::*;
use crate::number::{abs, i128_sign_magnitude, saturate_i128, Integer};
use crate::text::{digits, push_digits, push_str, string_from_chars};

verus! {

/// The English ordinal suffix for a number of magnitude `a`: `th` for the
/// teens 11–13 (modulo 100), else by the last digit.
pub open spec fn ordinal_suffix(a: nat) -> Seq<char> {
    if 11 <= a % 100 <= 13 {
        "th"@
    } else if a % 10 == 1 {
        "st"@
    } else if a % 10 == 2 {
        "nd"@
    } else if a % 10 == 3 {
        "rd"@
    } else {
        "th"@
    }
}

/// `v` in decimal, followed by the ordinal suffix of its magnitude.
pub open spec fn ordinal_text(v: int) -> Seq<char> {
    (if v < 0 {
        seq!['-']
    } else {
        Seq::<char>::empty()
    }) + digits(abs(v)) + ordinal_suffix(abs(v))
}

/// Format an integer with its English ordinal suffix: `1` → `"1st"`,
/// `22` → `"22nd"`, `113` → `"113th"`.
///
/// Negative numbers keep their sign (`-1` → `"-1st"`); the suffix is chosen from
/// the magnitude. A `u128` above `i128::MAX` saturates to `i128::MAX` first.
pub fn ordinal<I: Integer>(n: I) -> (s: String)
    ensures
        s@ == ordinal_text(saturate_i128(n.value())),
{
    let v = n.to_i128();
    let (negative, magnitude) = i128_sign_magnitude(v);
    let last_two = magnitude % 100;
    let last_one = magnitude % 10;
    let suffix = if 11 <= last_two && last_two <= 13 {
        "th"
    } else if last_one == 1 {
        "st"
    } else if last_one == 2 {
        "nd"
    } else if last_one == 3 {
        "rd"
    } else {
        "th"
    };
    let mut out: Vec<char> = Vec::new();
    if negative {
        out.push('-');
    }
    push_digits(&mut out, magnitude);
    push_str(&mut out, suffix);
    proof {
        if negative {
            assert(out@ =~= ordinal_text(v as int));
        } else {
            assert(out@ =~= ordinal_text(v as int));
        }
    }
    string_from_chars(&out)
}

/// Negative numbers keep their sign: the ordinal of `-v` is `-` followed by the
/// ordinal of `v`, whose suffix goes by the magnitude alone.
pub proof fn lemma_ordinal_negation(v: int)
    requires
        v > 0,
    ensures
        ordinal_text(-v) == seq!['-'] + ordinal_text(v),
{
    assert(abs(-v) == abs(v));
    assert(ordinal_text(v) =~= digits(abs(v)) + ordinal_suffix(abs(v)));
    assert(ordinal_text(-v) =~= seq!['-'] + (digits(abs(v)) + ordinal_suffix(abs(v))));
}

/// The suffix is `st`, `nd`, `rd` exactly for magnitudes ending in 1, 2, 3
/// other than those ending in 11, 12, 13; every other magnitude takes `th`.
pub proof fn lemma_ordinal_suffix(a: nat)
    ensures
        ordinal_suffix(a) == "st"@ <==> a % 10 == 1 && a % 100 != 11,
        ordinal_suffix(a) == "nd"@ <==> a % 10 == 2 && a % 100 != 12,
        ordinal_suffix(a) == "rd"@ <==> a % 10 == 3 && a % 100 != 13,
        ordinal_suffix(a) == "th"@ <==> !(a % 10 == 1 && a % 100 != 11) && !(a % 10 == 2 && a
            % 100 != 12) && !(a % 10 == 3 && a % 100 != 13),
{
    reveal_strlit("st");
    reveal_strlit("nd");
    reveal_strlit("rd");
    reveal_strlit("th");
    vstd::arithmetic::div_mod::lemma_mod_mod(a as int, 10, 10);
    assert((a % 100) % 10 == a % 10);
    assert("st"@[0] != "nd"@[0] && "st"@[0] != "rd"@[0] && "st"@[0] != "th"@[0]);
    assert("nd"@[0] != "rd"@[0] && "nd"@[0] != "th"@[0] && "rd"@[0] != "th"@[0]);
}

} // verus!
