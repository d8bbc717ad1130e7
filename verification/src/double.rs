//! Positive binary64 values as exact integers: the rounding of an integer to
//! the nearest `f64`, division of an `f64` by `1000.0`, and comparison with an
//! integer, all as IEEE 754 round-to-nearest-even defines them.
//!
//! A value is a pair `(M, E)` standing for `M * 2^E`. Nonzero values are
//! normalized: `2^52 <= M < 2^53`. Zero is `(0, 0)`.

use vstd::prelude::*;
use vstd::arithmetic::div_mod::{lemma_fundamental_div_mod, lemma_fundamental_div_mod_converse};
use crate::decimal::round_half_even;

verus! {

/// `2^e`.
pub open spec fn pow2(e: nat) -> nat
    decreases e,
{
    if e == 0 {
        1
    } else {
        2 * pow2((e - 1) as nat)
    }
}

/// Number of binary digits of `n` (0 for 0).
pub open spec fn bit_len(n: nat) -> nat
    decreases n,
{
    if n == 0 {
        0
    } else {
        1 + bit_len(n / 2)
    }
}

/// Whether `d` is zero or a normalized value whose exponent lies in the range
/// that integers up to `2^128` and their quotients by powers of 1000 reach.
pub open spec fn valid_double(d: (nat, int)) -> bool {
    d == (0nat, 0int) || (pow2(52) <= d.0 < pow2(53) && -64 <= d.1 <= 76)
}

/// The `f64` nearest to the integer `m` (ties to an even mantissa), as
/// `(M, E)`: what `m as f64` gives.
pub open spec fn nearest_double(m: nat) -> (nat, int) {
    if m == 0 {
        (0, 0)
    } else {
        let l = bit_len(m);
        if l <= 53 {
            (m * pow2((53 - l) as nat), l - 53)
        } else {
            let s = (l - 53) as nat;
            let n = round_half_even(m, pow2(s));
            if n == pow2(53) {
                (pow2(52), s + 1int)
            } else {
                (n, s as int)
            }
        }
    }
}

/// The `f64` nearest to `d / 1000` (ties to an even mantissa): what `v / 1000.0`
/// gives. The exact quotient, scaled by `2^t`, lies in `[2^52, 2^53)`.
pub open spec fn div1000(d: (nat, int)) -> (nat, int) {
    if d.0 == 0 {
        d
    } else {
        let t: nat = if d.0 * 1024 < 1000 * pow2(53) {
            10
        } else {
            9
        };
        let n = round_half_even(d.0 * pow2(t), 1000);
        if n == pow2(53) {
            (pow2(52), d.1 - t + 1)
        } else {
            (n, d.1 - t)
        }
    }
}

/// Whether the value `d` is at least `c`.
pub open spec fn at_least(d: (nat, int), c: nat) -> bool {
    if d.1 >= 0 {
        d.0 * pow2(d.1 as nat) >= c
    } else {
        d.0 >= c * pow2((-d.1) as nat)
    }
}

pub proof fn lemma_pow2_positive(e: nat)
    ensures
        pow2(e) >= 1,
    decreases e,
{
    if e > 0 {
        lemma_pow2_positive((e - 1) as nat);
    }
}

pub proof fn lemma_pow2_add(a: nat, b: nat)
    ensures
        pow2(a + b) == pow2(a) * pow2(b),
    decreases b,
{
    if b > 0 {
        lemma_pow2_add(a, (b - 1) as nat);
        assert(pow2(a) * (2 * pow2((b - 1) as nat)) == 2 * (pow2(a) * pow2((b - 1) as nat)))
            by (nonlinear_arith);
    } else {
        assert(pow2(a) * pow2(0) == pow2(a)) by (nonlinear_arith)
            requires
                pow2(0) == 1,
        ;
    }
}

pub proof fn lemma_pow2_monotonic(a: nat, b: nat)
    requires
        a <= b,
    ensures
        pow2(a) <= pow2(b),
    decreases b,
{
    if a < b {
        lemma_pow2_monotonic(a, (b - 1) as nat);
        lemma_pow2_positive((b - 1) as nat);
    }
}

pub proof fn lemma_pow2_values()
    ensures
        pow2(0) == 1,
        pow2(9) == 512,
        pow2(10) == 1024,
        pow2(52) == 0x10_0000_0000_0000,
        pow2(53) == 0x20_0000_0000_0000,
        pow2(63) == 0x8000_0000_0000_0000,
        pow2(127) == 0x8000_0000_0000_0000_0000_0000_0000_0000,
        pow2(128) == 0x1_0000_0000_0000_0000_0000_0000_0000_0000,
{
    reveal_with_fuel(pow2, 11);
    assert(pow2(2) == 4);
    lemma_pow2_add(10, 10);
    assert(pow2(20) == 0x10_0000);
    lemma_pow2_add(20, 20);
    assert(pow2(40) == 0x100_0000_0000);
    lemma_pow2_add(40, 10);
    assert(pow2(50) == 0x4_0000_0000_0000);
    lemma_pow2_add(50, 2);
    assert(pow2(52) == 0x10_0000_0000_0000);
    lemma_pow2_add(52, 1);
    assert(pow2(53) == 0x20_0000_0000_0000);
    lemma_pow2_add(53, 10);
    assert(pow2(63) == 0x8000_0000_0000_0000);
    lemma_pow2_add(63, 63);
    assert(pow2(126) == 0x4000_0000_0000_0000_0000_0000_0000_0000);
    lemma_pow2_add(126, 1);
    assert(pow2(127) == 0x8000_0000_0000_0000_0000_0000_0000_0000);
    lemma_pow2_add(127, 1);
}

/// `2^(bit_len(n) - 1) <= n < 2^bit_len(n)`.
pub proof fn lemma_bit_len(n: nat)
    ensures
        n < pow2(bit_len(n)),
        n >= 1 ==> pow2((bit_len(n) - 1) as nat) <= n,
    decreases n,
{
    if n > 0 {
        lemma_bit_len(n / 2);
        if n / 2 == 0 {
            assert(bit_len(n) == 1);
            reveal_with_fuel(pow2, 2);
        } else {
            assert(pow2(bit_len(n)) == 2 * pow2(bit_len(n / 2)));
            assert(pow2((bit_len(n) - 1) as nat) == 2 * pow2((bit_len(n / 2) - 1) as nat));
        }
    }
}

/// `2^e` as a machine integer.
pub fn pow2_u128(e: u32) -> (r: u128)
    requires
        e <= 127,
    ensures
        r == pow2(e as nat),
{
    let mut r: u128 = 1;
    let mut i: u32 = 0;
    while i < e
        invariant
            i <= e <= 127,
            r == pow2(i as nat),
        decreases e - i,
    {
        proof {
            lemma_pow2_monotonic((i + 1) as nat, 127);
            lemma_pow2_values();
        }
        r = r * 2;
        i = i + 1;
    }
    r
}

/// `round_half_even(x, d)` as a machine integer.
pub(crate) fn round_half_even_u128(x: u128, d: u128) -> (r: u128)
    requires
        d > 1,
        d <= 0x8000_0000_0000_0000_0000_0000_0000_0000,
    ensures
        r == round_half_even(x as nat, d as nat),
{
    let q = x / d;
    let rem = x % d;
    assert(q < 0xffff_ffff_ffff_ffff_ffff_ffff_ffff_ffff) by {
        vstd::arithmetic::div_mod::lemma_div_is_ordered_by_denominator(x as int, 2, d as int);
    }
    if rem > d - rem || (rem == d - rem && q % 2 == 1) {
        q + 1
    } else {
        q
    }
}

/// `m as f64`, as `(M, E)`.
pub fn nearest_double_u128(m: u128) -> (d: (u128, i32))
    ensures
        (d.0 as nat, d.1 as int) == nearest_double(m as nat),
        valid_double(nearest_double(m as nat)),
        d.1 <= 75 || d.0 == 0x10_0000_0000_0000,
        m >= 1 ==> d.1 >= -52,
{
    if m == 0 {
        return (0, 0);
    }
    let mut x = m;
    let mut l: u32 = 0;
    proof {
        lemma_bit_len(m as nat);
        lemma_pow2_values();
        if bit_len(m as nat) > 128 {
            lemma_pow2_monotonic(128, (bit_len(m as nat) - 1) as nat);
        }
    }
    while x > 0
        invariant
            bit_len(m as nat) == l + bit_len(x as nat),
            bit_len(m as nat) <= 128,
        decreases x,
    {
        x = x / 2;
        l = l + 1;
    }
    if l <= 53 {
        let sh = pow2_u128(53 - l);
        proof {
            lemma_pow2_positive((53 - l) as nat);
            lemma_pow2_add((l - 1) as nat, (53 - l) as nat);
            lemma_pow2_add(l as nat, (53 - l) as nat);
            assert(m * sh < pow2(53)) by (nonlinear_arith)
                requires
                    m < pow2(l as nat),
                    pow2(53) == pow2(l as nat) * sh,
                    sh >= 1,
            ;
            assert(m * sh >= pow2(52)) by (nonlinear_arith)
                requires
                    m >= pow2((l - 1) as nat),
                    pow2(52) == pow2((l - 1) as nat) * sh,
                    sh >= 1,
            ;
        }
        (m * sh, l as i32 - 53)
    } else {
        let s = l - 53;
        let p = pow2_u128(s);
        proof {
            lemma_pow2_add(52, s as nat);
            lemma_pow2_add(53, s as nat);
            lemma_pow2_monotonic(1, s as nat);
            lemma_pow2_monotonic(s as nat, 127);
            reveal_with_fuel(pow2, 2);
            lemma_pow2_positive(s as nat);
            assert(m / p >= pow2(52)) by {
                vstd::arithmetic::div_mod::lemma_div_is_ordered(
                    (pow2(52) * p) as int,
                    m as int,
                    p as int,
                );
                vstd::arithmetic::div_mod::lemma_div_multiples_vanish(pow2(52) as int, p as int);
                assert(pow2(52) * p == p * pow2(52)) by (nonlinear_arith);
            }
            assert(m / p < pow2(53)) by {
                vstd::arithmetic::div_mod::lemma_div_is_ordered(
                    m as int,
                    (pow2(53) * p - 1) as int,
                    p as int,
                );
                vstd::arithmetic::div_mod::lemma_fundamental_div_mod_converse(
                    (pow2(53) * p - 1) as int,
                    p as int,
                    (pow2(53) - 1) as int,
                    (p - 1) as int,
                );
                assert((pow2(53) * p - 1) == (pow2(53) - 1) * p + (p - 1)) by (nonlinear_arith);
            }
        }
        let n = round_half_even_u128(m, p);
        if n == 0x20_0000_0000_0000 {
            (0x10_0000_0000_0000, (s + 1) as i32)
        } else {
            (n, s as i32)
        }
    }
}

/// Division by 1000 keeps a value valid, and lowers a nonzero exponent by 8 to 10.
pub proof fn lemma_div1000_valid(d: (nat, int))
    requires
        valid_double(d),
        d.1 >= -53,
    ensures
        valid_double(div1000(d)),
        d.0 != 0 ==> d.1 - 10 <= div1000(d).1 <= d.1 - 8,
        d.0 != 0 ==> div1000(d).0 != 0,
{
    if d.0 != 0 {
        lemma_pow2_values();
        let t: nat = if d.0 * 1024 < 1000 * pow2(53) {
            10
        } else {
            9
        };
        let x = d.0 * pow2(t);
        let q = x / 1000;
        if t == 10 {
            assert(x == d.0 * 1024);
        } else {
            assert(x == d.0 * 512);
        }
        assert(1000 * pow2(52) <= x < 1000 * pow2(53));
        lemma_fundamental_div_mod(x as int, 1000);
        assert(pow2(52) <= q < pow2(53)) by (nonlinear_arith)
            requires
                1000 * pow2(52) <= x < 1000 * pow2(53),
                x == 1000 * q + x % 1000,
                0 <= x % 1000 < 1000,
        ;
    }
}

/// `d / 1000.0`, as `(M, E)`.
pub fn div1000_u128(d: (u128, i32)) -> (r: (u128, i32))
    requires
        valid_double((d.0 as nat, d.1 as int)),
        d.1 >= -53,
    ensures
        (r.0 as nat, r.1 as int) == div1000((d.0 as nat, d.1 as int)),
{
    proof {
        lemma_div1000_valid((d.0 as nat, d.1 as int));
        lemma_pow2_values();
    }
    if d.0 == 0 {
        return d;
    }
    let t: u32 = if d.0 * 1024 < 1000 * 0x20_0000_0000_0000 {
        10
    } else {
        9
    };
    let x = d.0 * pow2_u128(t);
    let n = round_half_even_u128(x, 1000);
    if n == 0x20_0000_0000_0000 {
        (0x10_0000_0000_0000, d.1 - t as i32 + 1)
    } else {
        (n, d.1 - t as i32)
    }
}

/// Whether the value `d` is at least 1000 (`v >= 1000.0`).
pub fn at_least_1000(d: (u128, i32)) -> (b: bool)
    requires
        valid_double((d.0 as nat, d.1 as int)),
    ensures
        b == at_least((d.0 as nat, d.1 as int), 1000),
{
    proof {
        lemma_pow2_values();
    }
    if d.0 == 0 {
        return false;
    }
    if d.1 >= 0 {
        proof {
            lemma_pow2_positive(d.1 as nat);
            assert(d.0 * pow2(d.1 as nat) >= d.0) by (nonlinear_arith)
                requires
                    pow2(d.1 as nat) >= 1,
            ;
        }
        true
    } else {
        let k = (-d.1) as u32;
        let p = pow2_u128(k);
        proof {
            lemma_pow2_monotonic(k as nat, 64);
            lemma_pow2_add(63, 1);
        }
        d.0 >= 1000 * p
    }
}

/// The `f64` nearest to an integer below `2^128` is a valid value; its exponent
/// reaches 76 only at `2^128` itself, and it is at least -52 for a nonzero one.
pub proof fn lemma_nearest_double_valid(m: nat)
    requires
        m < pow2(128),
    ensures
        valid_double(nearest_double(m)),
        nearest_double(m).1 <= 75 || nearest_double(m).0 == pow2(52),
        m >= 1 ==> nearest_double(m).1 >= -52,
        m >= 1 ==> nearest_double(m).0 >= pow2(52),
        m >= 1 && nearest_double(m).1 < 0 ==> nearest_double(m).0 == m * pow2(
            (-nearest_double(m).1) as nat,
        ),
{
    if m >= 1 {
        lemma_pow2_values();
        lemma_bit_len(m);
        let l = bit_len(m);
        if l > 128 {
            lemma_pow2_monotonic(128, (l - 1) as nat);
        }
        if l <= 53 {
            let sh = pow2((53 - l) as nat);
            lemma_pow2_positive((53 - l) as nat);
            lemma_pow2_add((l - 1) as nat, (53 - l) as nat);
            lemma_pow2_add(l as nat, (53 - l) as nat);
            assert(m * sh < pow2(53)) by (nonlinear_arith)
                requires
                    m < pow2(l as nat),
                    pow2(53) == pow2(l as nat) * sh,
                    sh >= 1,
            ;
            assert(m * sh >= pow2(52)) by (nonlinear_arith)
                requires
                    m >= pow2((l - 1) as nat),
                    pow2(52) == pow2((l - 1) as nat) * sh,
                    sh >= 1,
            ;
        } else {
            let s = (l - 53) as nat;
            let p = pow2(s);
            lemma_pow2_add(52, s);
            lemma_pow2_add(53, s);
            lemma_pow2_positive(s);
            assert(m / p >= pow2(52)) by {
                vstd::arithmetic::div_mod::lemma_div_is_ordered((pow2(52) * p) as int, m as int, p as int);
                vstd::arithmetic::div_mod::lemma_div_multiples_vanish(pow2(52) as int, p as int);
                assert(pow2(52) * p == p * pow2(52)) by (nonlinear_arith);
            }
            assert(m / p < pow2(53)) by {
                vstd::arithmetic::div_mod::lemma_div_is_ordered(m as int, (pow2(53) * p - 1) as int, p as int);
                vstd::arithmetic::div_mod::lemma_fundamental_div_mod_converse(
                    (pow2(53) * p - 1) as int,
                    p as int,
                    (pow2(53) - 1) as int,
                    (p - 1) as int,
                );
                assert((pow2(53) * p - 1) == (pow2(53) - 1) * p + (p - 1)) by (nonlinear_arith)
                    requires
                        p >= 1,
                ;
            }
        }
    }
}

/// The `f64` nearest to an integer misses it by at most half a unit in its last
/// place, and is the integer itself when its exponent is negative.
pub proof fn lemma_nearest_double_error(m: nat)
    requires
        m < pow2(128),
    ensures
        ({
            let d = nearest_double(m);
            &&& d.1 < 0 ==> d.0 == m * pow2((-d.1) as nat)
            &&& d.1 >= 0 ==> 2 * (d.0 * pow2(d.1 as nat) - m) <= pow2(d.1 as nat) && 2 * (m - d.0
                * pow2(d.1 as nat)) <= pow2(d.1 as nat)
        }),
{
    lemma_nearest_double_valid(m);
    let d = nearest_double(m);
    lemma_pow2_values();
    if m >= 1 {
        let l = bit_len(m);
        if l <= 53 {
            if d.1 >= 0 {
                assert(l == 53);
                assert(d.0 == m * pow2(0));
                assert(d.0 * pow2(0) == m) by (nonlinear_arith)
                    requires
                        d.0 == m * pow2(0),
                        pow2(0) == 1,
                ;
            }
        } else {
            let s = (l - 53) as nat;
            let n = round_half_even(m, pow2(s));
            lemma_pow2_positive(s);
            crate::decimal::lemma_round_half_even_error(m, pow2(s));
            if n == pow2(53) {
                lemma_pow2_add(52, 1);
                lemma_pow2_add(52, s);
                lemma_pow2_add(53, s);
                lemma_pow2_add(52, s + 1);
                assert(pow2(1) == 2);
                assert(pow2(52) * pow2(s + 1) == n * pow2(s)) by (nonlinear_arith)
                    requires
                        pow2(53) == pow2(52) * pow2(1),
                        pow2(1) == 2,
                        pow2(s + 1) == pow2(s) * pow2(1),
                        n == pow2(53),
                ;
                lemma_pow2_monotonic(s, s + 1);
            }
        }
    } else {
        assert(d == (0nat, 0int));
        assert(0nat * pow2(0) == 0);
    }
}

/// Division by `1000.0` misses the exact quotient by at most half a unit in the
/// last place of the result: with `sh` the drop in exponent,
/// `|1000 * M' - M * 2^sh| <= 1000 / 2`.
pub proof fn lemma_div1000_error(d: (nat, int))
    requires
        valid_double(d),
        d.1 >= -53,
    ensures
        ({
            let w = div1000(d);
            let sh = (d.1 - w.1) as nat;
            &&& d.1 >= w.1
            &&& 2 * (1000 * w.0 - d.0 * pow2(sh)) <= 1000
            &&& 2 * (d.0 * pow2(sh) - 1000 * w.0) <= 1000
        }),
{
    lemma_div1000_valid(d);
    lemma_pow2_values();
    if d.0 != 0 {
        let t: nat = if d.0 * 1024 < 1000 * pow2(53) {
            10
        } else {
            9
        };
        let x = d.0 * pow2(t);
        let n = round_half_even(x, 1000);
        crate::decimal::lemma_round_half_even_error(x, 1000);
        if n == pow2(53) {
            let t1 = (t - 1) as nat;
            lemma_pow2_add(t1, 1);
            lemma_pow2_add(52, 1);
            assert(pow2(1) == 2);
            assert(2 * (1000 * pow2(52) - d.0 * pow2(t1)) <= 1000 && 2 * (d.0 * pow2(t1) - 1000
                * pow2(52)) <= 1000) by (nonlinear_arith)
                requires
                    2 * (n * 1000 - x) <= 1000,
                    2 * (x - n * 1000) <= 1000,
                    x == d.0 * pow2(t),
                    pow2(t) == pow2(t1) * 2,
                    n == pow2(52) * 2,
            ;
        }
    } else {
        assert(div1000(d) == d);
        assert(d.0 * pow2(0) == 0) by (nonlinear_arith)
            requires
                d.0 == 0,
        ;
    }
}

} // verus!
