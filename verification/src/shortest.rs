//! The digits that `format!("{:e}", v)` writes for a binary64 value `v`: the
//! shortest decimal that reads back as `v`, and of two such, the closer.

use vstd::prelude::*;
use vstd::arithmetic::div_mod::{lemma_fundamental_div_mod, lemma_fundamental_div_mod_converse};
use crate::decimal::{lemma_pow10_monotonic, lemma_pow10_positive, lemma_pow10_small, pow10, pow10_u128};
use crate::double::{
    lemma_pow2_add, lemma_pow2_monotonic, lemma_pow2_positive, lemma_pow2_values, pow2, pow2_u128,
    valid_double,
};

verus! {

/// The integer value `M * 2^E` of a value with a positive exponent.
pub open spec fn int_value(d: (nat, int)) -> nat {
    d.0 * pow2(d.1 as nat)
}

/// Twice the distance from `d` down to the midpoint with the next smaller
/// `f64`: the gap below is half as wide at a power of two.
pub open spec fn low_gap(d: (nat, int)) -> nat {
    if d.0 == pow2(52) {
        pow2((d.1 - 1) as nat)
    } else {
        pow2(d.1 as nat)
    }
}

/// Twice the distance from `d` up to the midpoint with the next larger `f64`.
pub open spec fn high_gap(d: (nat, int)) -> nat {
    pow2(d.1 as nat)
}

/// Whether `d` rounded down to a multiple of `10^j` still reads back as `d`
/// (a midpoint reads back as the value with an even mantissa).
pub open spec fn fits_down(d: (nat, int), j: nat) -> bool {
    let rem = int_value(d) % pow10(j);
    if d.0 % 2 == 0 {
        2 * rem <= low_gap(d)
    } else {
        2 * rem < low_gap(d)
    }
}

/// Whether `d` rounded up to a multiple of `10^j` still reads back as `d`.
pub open spec fn fits_up(d: (nat, int), j: nat) -> bool {
    let up = pow10(j) - int_value(d) % pow10(j);
    if d.0 % 2 == 0 {
        2 * up <= high_gap(d)
    } else {
        2 * up < high_gap(d)
    }
}

/// The largest `j <= top` at which some multiple of `10^j` reads back as `d`.
pub open spec fn shortest_exponent(d: (nat, int), top: nat) -> nat
    decreases top,
{
    if top == 0 || fits_down(d, top) || fits_up(d, top) {
        top
    } else {
        shortest_exponent(d, (top - 1) as nat)
    }
}

/// The shortest decimal `n * 10^j` that reads back as the integer-valued `f64`
/// `d`, as `(n, j)`: the nearer of the two neighbouring multiples of `10^j`,
/// the upper one on a tie. An integer value with no positive exponent is below
/// `2^53`, where neighbouring `f64` values are at most 1 apart, so every one of
/// its digits is needed.
pub open spec fn shortest_form(d: (nat, int)) -> (nat, nat) {
    if d.1 <= 0 {
        (d.0 / pow2((-d.1) as nat), 0)
    } else {
        let j = shortest_exponent(d, 38);
        let t = pow10(j);
        let q = int_value(d) / t;
        let rem = int_value(d) % t;
        if fits_down(d, j) && (!fits_up(d, j) || 2 * rem < t) {
            (q, j)
        } else {
            (q + 1, j)
        }
    }
}

/// From an exponent of 4, one digit can always be dropped.
proof fn lemma_one_digit_drops(d: (nat, int))
    requires
        valid_double(d),
        d.1 >= 4,
    ensures
        fits_down(d, 1) || fits_up(d, 1),
{
    lemma_pow10_small();
    lemma_pow2_monotonic(3, (d.1 - 1) as nat);
    lemma_pow2_monotonic(4, d.1 as nat);
    reveal_with_fuel(pow2, 5);
    let rem = int_value(d) % 10;
    assert(low_gap(d) >= 8);
    assert(high_gap(d) >= 16);
}

/// `(2h) / t` and `(2h) % t` from `h / t` and `h % t`.
proof fn lemma_double_div(h: nat, t: nat)
    requires
        t > 0,
    ensures
        (2 * h) / t == 2 * (h / t) + (2 * (h % t)) / t,
        (2 * h) % t == (2 * (h % t)) % t,
{
    let q1 = h / t;
    let r1 = h % t;
    lemma_fundamental_div_mod(h as int, t as int);
    let q2 = (2 * r1) / t;
    let r2 = (2 * r1) % t;
    lemma_fundamental_div_mod((2 * r1) as int, t as int);
    assert(2 * h == t * (2 * q1 + q2) + r2) by (nonlinear_arith)
        requires
            h == t * q1 + r1,
            2 * r1 == t * q2 + r2,
    ;
    lemma_fundamental_div_mod_converse((2 * h) as int, t as int, (2 * q1 + q2) as int, r2 as int);
}

/// The shortest form of the integer-valued `f64` `d`, as `shortest_form`
/// defines it.
pub fn shortest(d: (u128, i32)) -> (res: (u128, u32))
    requires
        valid_double((d.0 as nat, d.1 as int)),
        d.1 <= 75 || d.0 == 0x10_0000_0000_0000,
        d.1 < 0 ==> (d.0 as nat) % pow2((-d.1) as nat) == 0,
    ensures
        (res.0 as nat, res.1 as nat) == shortest_form((d.0 as nat, d.1 as int)),
{
    let ghost dv = (d.0 as nat, d.1 as int);
    proof {
        lemma_pow2_values();
    }
    if d.1 <= 0 {
        let k = (0 - d.1) as u32;
        proof {
            lemma_pow2_monotonic(k as nat, 64);
            lemma_pow2_add(63, 1);
            lemma_pow2_positive(k as nat);
        }
        return (d.0 / pow2_u128(k), 0);
    }
    let e = d.1 as u32;
    let pe = pow2_u128(e);
    let pe1 = pow2_u128(e - 1);
    proof {
        lemma_pow2_positive((e - 1) as nat);
        assert(pow2(e as nat) == 2 * pow2((e - 1) as nat));
        lemma_pow2_monotonic((e - 1) as nat, 75);
        lemma_pow2_add(53, 75);
        if e == 76 {
            lemma_pow2_add(52, 75);
            assert(d.0 * pe1 <= pow2(127)) by (nonlinear_arith)
                requires
                    d.0 == pow2(52),
                    pe1 == pow2(75),
                    pow2(127) == pow2(52) * pow2(75),
            ;
        } else {
            assert(d.0 * pe1 < pow2(128)) by (nonlinear_arith)
                requires
                    d.0 < pow2(53),
                    1 <= pe1 <= pow2(75),
                    pow2(128) == pow2(53) * pow2(75),
            ;
        }
    }
    let h = d.0 * pe1;
    let lo: u128 = if d.0 == 0x10_0000_0000_0000 {
        pe1
    } else {
        pe
    };
    let even = d.0 % 2 == 0;
    proof {
        assert(int_value(dv) == 2 * h) by (nonlinear_arith)
            requires
                h == d.0 * pe1,
                pow2(e as nat) == 2 * pe1,
                int_value(dv) == d.0 * pow2(e as nat),
        ;
        lemma_pow10_small();
        lemma_pow10_positive(38);
        crate::decimal::lemma_pow10_38();
    }
    let mut j: u32 = 38;
    let mut t: u128 = pow10_u128(38);
    let mut q1: u128 = h / t;
    let mut r1: u128 = h % t;
    let mut rem: u128 = 0;
    let mut down_ok: bool = false;
    let mut up_ok: bool = false;
    loop
        invariant
            j <= 38,
            t == pow10(j as nat),
            h as nat * 2 == int_value(dv),
            lo as nat == low_gap(dv),
            pe as nat == high_gap(dv),
            even == (d.0 % 2 == 0),
            q1 == h / t,
            r1 == h % t,
            shortest_exponent(dv, 38) == shortest_exponent(dv, j as nat),
            e >= 1,
            e == d.1,
            dv == (d.0 as nat, d.1 as int),
            valid_double(dv),
            j == 0 ==> e <= 3,
        ensures
            j == 0 ==> e <= 3,
            j <= 38,
            t == pow10(j as nat),
            q1 == h / t,
            r1 == h % t,
            rem == int_value(dv) % pow10(j as nat),
            down_ok == fits_down(dv, j as nat),
            up_ok == fits_up(dv, j as nat),
            j == shortest_exponent(dv, 38),
        decreases j,
    {
        proof {
            lemma_pow10_positive(j as nat);
            lemma_pow10_monotonic(j as nat, 38);
            crate::decimal::lemma_pow10_38();
            lemma_double_div(h as nat, t as nat);
        }
        rem = (2 * r1) % t;
        let up = t - rem;
        down_ok = if even {
            2 * rem <= lo
        } else {
            2 * rem < lo
        };
        up_ok = if even {
            2 * up <= pe
        } else {
            2 * up < pe
        };
        assert(rem == int_value(dv) % pow10(j as nat));
        assert(down_ok == fits_down(dv, j as nat));
        assert(up_ok == fits_up(dv, j as nat));
        if j == 0 || down_ok || up_ok {
            break;
        }
        proof {
            if j == 1 && e >= 4 {
                lemma_one_digit_drops(dv);
            }
        }
        j = j - 1;
        t = pow10_u128(j);
        q1 = h / t;
        r1 = h % t;
    }
    proof {
        lemma_pow10_positive(j as nat);
        lemma_pow10_monotonic(j as nat, 38);
        crate::decimal::lemma_pow10_38();
        lemma_double_div(h as nat, t as nat);
        assert(r1 < t);
        if j == 0 {
            lemma_pow2_monotonic((e - 1) as nat, 2);
            reveal_with_fuel(pow2, 3);
            assert(h < 0x40_0000_0000_0000_0000) by (nonlinear_arith)
                requires
                    h == d.0 * pe1,
                    d.0 < 0x20_0000_0000_0000,
                    pe1 <= 4,
            ;
            assert(q1 == h && (2 * r1) as int / t as int == 0) by (nonlinear_arith)
                requires
                    t == 1,
                    q1 == h / t,
                    r1 == h % t,
            ;
        } else {
            lemma_pow10_monotonic(1, j as nat);
            vstd::arithmetic::div_mod::lemma_div_is_ordered_by_denominator(h as int, 10, t as int);
            assert(h as int / 10 < 0x2000_0000_0000_0000_0000_0000_0000_0000);
            assert(q1 < 0x2000_0000_0000_0000_0000_0000_0000_0000);
            assert((2 * r1) as int / t as int <= 1) by (nonlinear_arith)
                requires
                    r1 < t,
                    t >= 10,
            ;
        }
    }
    let q = 2 * q1 + (2 * r1) / t;
    if down_ok && (!up_ok || 2 * rem < t) {
        (q, j)
    } else {
        (q + 1, j)
    }
}

} // verus!
