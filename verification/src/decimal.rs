//! Fixed-point decimal rendering of an integer scaled down by a power of ten,
//! rounded half to even.

use vstd::prelude::*;
use vstd::arithmetic::div_mod::lemma_fundamental_div_mod_converse;
use crate::text::{digit_char, digits, push_digits};

verus! {

/// `10^e`.
pub open spec fn pow10(e: nat) -> nat
    decreases e,
{
    if e == 0 {
        1
    } else {
        10 * pow10((e - 1) as nat)
    }
}

/// `a / d` rounded to the nearest integer, ties to the even neighbour.
pub open spec fn round_half_even(a: nat, d: nat) -> nat {
    let q = a / d;
    let r = a % d;
    if 2 * r > d || (2 * r == d && q % 2 == 1) {
        q + 1
    } else {
        q
    }
}

/// The `w` least significant decimal digits of `v`, zero-padded on the left.
pub open spec fn width_digits(v: nat, w: nat) -> Seq<char>
    decreases w,
{
    if w == 0 {
        Seq::empty()
    } else {
        width_digits(v / 10, (w - 1) as nat).push(digit_char(v % 10))
    }
}

/// `k` copies of the character `'0'`.
pub open spec fn zeros(k: nat) -> Seq<char> {
    Seq::new(k, |i: int| '0')
}

/// `r / 10^p` written with exactly `p` fractional digits (no point when `p == 0`),
/// as `format!("{:.p$}")` writes it.
pub open spec fn fixed(r: nat, p: nat) -> Seq<char> {
    if p == 0 {
        digits(r)
    } else {
        digits(r / pow10(p)) + seq!['.'] + width_digits(r % pow10(p), p)
    }
}

pub proof fn lemma_pow10_positive(e: nat)
    ensures
        pow10(e) >= 1,
    decreases e,
{
    if e > 0 {
        lemma_pow10_positive((e - 1) as nat);
    }
}

pub proof fn lemma_pow10_add(a: nat, b: nat)
    ensures
        pow10(a + b) == pow10(a) * pow10(b),
    decreases b,
{
    if b > 0 {
        lemma_pow10_add(a, (b - 1) as nat);
        assert(pow10(a + b) == 10 * pow10((a + b - 1) as nat));
        assert(pow10(a) * pow10(b) == pow10(a) * (10 * pow10((b - 1) as nat)));
        assert(pow10(a) * (10 * pow10((b - 1) as nat)) == 10 * (pow10(a) * pow10((b - 1) as nat)))
            by (nonlinear_arith);
    } else {
        assert(pow10(0) == 1);
        assert(pow10(a) * pow10(0) == pow10(a)) by (nonlinear_arith)
            requires
                pow10(0) == 1,
        ;
    }
}

pub proof fn lemma_pow10_small()
    ensures
        pow10(0) == 1,
        pow10(1) == 10,
        pow10(2) == 100,
        pow10(3) == 1000,
{
    reveal_with_fuel(pow10, 4);
}

pub proof fn lemma_pow10_monotonic(a: nat, b: nat)
    requires
        a <= b,
    ensures
        pow10(a) <= pow10(b),
    decreases b,
{
    if a < b {
        lemma_pow10_monotonic(a, (b - 1) as nat);
        lemma_pow10_positive((b - 1) as nat);
    }
}

/// Appending `z` zeros to a number shifts its fixed-width digits left by `z` places.
proof fn lemma_width_digits_shift(x: nat, w: nat, z: nat)
    ensures
        width_digits(x * pow10(z), w + z) == width_digits(x, w) + zeros(z),
    decreases z,
{
    if z == 0 {
        assert(x * pow10(0) == x) by (nonlinear_arith)
            requires
                pow10(0) == 1,
        ;
        assert(width_digits(x, w) + zeros(0) =~= width_digits(x, w));
    } else {
        let y = x * pow10((z - 1) as nat);
        assert(x * pow10(z) == y * 10 + 0) by (nonlinear_arith)
            requires
                pow10(z) == 10 * pow10((z - 1) as nat),
                y == x * pow10((z - 1) as nat),
        ;
        lemma_fundamental_div_mod_converse((x * pow10(z)) as int, 10, y as int, 0);
        lemma_width_digits_shift(x, w, (z - 1) as nat);
        assert(digit_char(0) == '0');
        assert(width_digits(x * pow10(z), w + z) == width_digits(y, (w + z - 1) as nat).push('0'));
        assert(zeros((z - 1) as nat).push('0') =~= zeros(z));
        assert((width_digits(x, w) + zeros((z - 1) as nat)).push('0') =~= width_digits(x, w)
            + zeros((z - 1) as nat).push('0'));
    }
}

/// With at least as many fractional digits as the scale, the division is exact.
proof fn lemma_exact_scale(m: nat, p: nat, e: nat)
    requires
        e <= p,
    ensures
        round_half_even(m * pow10(p), pow10(e)) == m * pow10((p - e) as nat),
        (m * pow10((p - e) as nat)) / pow10(p) == m / pow10(e),
        (m * pow10((p - e) as nat)) % pow10(p) == (m % pow10(e)) * pow10((p - e) as nat),
{
    let z = (p - e) as nat;
    lemma_pow10_add(e, z);
    lemma_pow10_positive(e);
    lemma_pow10_positive(z);
    let big_e = pow10(e);
    let big_z = pow10(z);
    let big_p = pow10(p);
    assert(big_p == big_e * big_z);
    assert(m * big_p == (m * big_z) * big_e + 0) by (nonlinear_arith)
        requires
            big_p == big_e * big_z,
    ;
    lemma_fundamental_div_mod_converse((m * big_p) as int, big_e as int, (m * big_z) as int, 0);
    let q = m / big_e;
    let s = m % big_e;
    assert(m == q * big_e + s) by {
        vstd::arithmetic::div_mod::lemma_fundamental_div_mod(m as int, big_e as int);
    }
    assert(m * big_z == q * big_p + s * big_z && s * big_z < big_p && 0 <= s * big_z) by (nonlinear_arith)
        requires
            m == q * big_e + s,
            big_p == big_e * big_z,
            s < big_e,
            0 <= s,
            big_z >= 1,
    ;
    lemma_fundamental_div_mod_converse((m * big_z) as int, big_p as int, q as int, (s * big_z) as int);
}

/// Rounding `m * 10^p` at `10^(p + k)` is rounding `m` at `10^k`.
proof fn lemma_rounding_scale(m: nat, p: nat, k: nat)
    ensures
        round_half_even(m * pow10(p), pow10(p + k)) == round_half_even(m, pow10(k)),
{
    lemma_pow10_add(p, k);
    lemma_pow10_positive(p);
    lemma_pow10_positive(k);
    let big_p = pow10(p);
    let big_k = pow10(k);
    let q = m / big_k;
    let s = m % big_k;
    assert(m == q * big_k + s) by {
        vstd::arithmetic::div_mod::lemma_fundamental_div_mod(m as int, big_k as int);
    }
    assert(m * big_p == q * (big_p * big_k) + s * big_p && s * big_p < big_p * big_k
        && 0 <= s * big_p && (2 * (s * big_p) > big_p * big_k <==> 2 * s > big_k)
        && (2 * (s * big_p) == big_p * big_k <==> 2 * s == big_k)) by (nonlinear_arith)
        requires
            m == q * big_k + s,
            s < big_k,
            0 <= s,
            big_p >= 1,
    ;
    lemma_fundamental_div_mod_converse(
        (m * big_p) as int,
        (big_p * big_k) as int,
        q as int,
        (s * big_p) as int,
    );
}

pub proof fn lemma_pow10_38()
    ensures
        pow10(38) == 100000000000000000000000000000000000000,
{
    reveal_with_fuel(pow10, 39);
}

/// Rounding to nearest misses by at most half the divisor.
pub proof fn lemma_round_half_even_error(a: nat, d: nat)
    requires
        d > 0,
    ensures
        2 * (round_half_even(a, d) * d - a) <= d,
        2 * (a - round_half_even(a, d) * d) <= d,
{
    let q = a / d;
    let r = a % d;
    vstd::arithmetic::div_mod::lemma_fundamental_div_mod(a as int, d as int);
    assert(a == d * q + r);
    assert((q + 1) * d == q * d + d) by (nonlinear_arith);
    assert(q * d == d * q) by (nonlinear_arith);
}

/// A value below `10^p` units of the divisor rounds to at most `10^p`.
pub proof fn lemma_round_half_even_upper(a: nat, d: nat, n: nat)
    requires
        d > 0,
        a < n * d,
    ensures
        round_half_even(a, d) <= n,
{
    let q = a / d;
    vstd::arithmetic::div_mod::lemma_fundamental_div_mod(a as int, d as int);
    assert(q < n) by (nonlinear_arith)
        requires
            a == d * q + a % d,
            a % d >= 0,
            a < n * d,
            d > 0,
    ;
}

/// A value of at least one divisor rounds to at least one.
pub proof fn lemma_round_half_even_lower(a: nat, d: nat)
    requires
        d > 0,
        a >= d,
    ensures
        round_half_even(a, d) >= 1,
{
    vstd::arithmetic::div_mod::lemma_div_is_ordered(d as int, a as int, d as int);
    vstd::arithmetic::div_mod::lemma_div_by_self(d as int);
}

/// `width_digits(v, w)` reads as zero only for `v == 0` (when `v < 10^w`).
pub proof fn lemma_width_digits_zero(v: nat, w: nat)
    requires
        v < pow10(w),
        forall|i: int| 0 <= i < width_digits(v, w).len() ==> #[trigger] width_digits(v, w)[i] == '0',
    ensures
        v == 0,
    decreases w,
{
    if w == 0 {
    } else {
        let s = width_digits(v, w);
        lemma_width_digits_len(v / 10, (w - 1) as nat);
        assert(s == width_digits(v / 10, (w - 1) as nat).push(digit_char(v % 10)));
        assert(s[s.len() - 1] == digit_char(v % 10));
        assert(v % 10 == 0);
        assert forall|i: int| 0 <= i < width_digits(v / 10, (w - 1) as nat).len() implies #[trigger] width_digits(v / 10, (w - 1) as nat)[i] == '0' by {
            assert(s[i] == width_digits(v / 10, (w - 1) as nat)[i]);
        }
        lemma_width_digits_zero(v / 10, (w - 1) as nat);
    }
}

pub proof fn lemma_width_digits_len(v: nat, w: nat)
    ensures
        width_digits(v, w).len() == w,
        forall|i: int|
            0 <= i < w ==> '0' <= #[trigger] width_digits(v, w)[i] && width_digits(v, w)[i] <= '9',
    decreases w,
{
    if w > 0 {
        lemma_width_digits_len(v / 10, (w - 1) as nat);
        let s = width_digits(v, w);
        let t = width_digits(v / 10, (w - 1) as nat);
        assert forall|i: int| 0 <= i < w implies '0' <= #[trigger] s[i] && s[i] <= '9' by {
            if i < w - 1 {
                assert(s[i] == t[i]);
            }
        }
    }
}

/// `10^e` as a machine integer.
pub fn pow10_u128(e: u32) -> (r: u128)
    requires
        e <= 38,
    ensures
        r == pow10(e as nat),
{
    let mut r: u128 = 1;
    let mut i: u32 = 0;
    while i < e
        invariant
            i <= e <= 38,
            r == pow10(i as nat),
        decreases e - i,
    {
        proof {
            lemma_pow10_monotonic((i + 1) as nat, 38);
            lemma_pow10_38();
        }
        r = r * 10;
        i = i + 1;
    }
    r
}

/// Append the `w` least significant decimal digits of `v`, zero-padded.
pub fn push_width_digits(out: &mut Vec<char>, v: u128, w: u32)
    ensures
        final(out)@ == old(out)@ + width_digits(v as nat, w as nat),
    decreases w,
{
    if w > 0 {
        push_width_digits(out, v / 10, w - 1);
        let d: u8 = (v % 10) as u8 + 48u8;
        out.push(d as char);
        proof {
            assert(old(out)@ + width_digits(v as nat, w as nat) =~= (old(out)@ + width_digits(
                (v / 10) as nat,
                (w - 1) as nat,
            )).push(digit_char((v % 10) as nat)));
        }
    } else {
        assert(old(out)@ + width_digits(v as nat, w as nat) =~= old(out)@);
    }
}

/// Append `k` zero characters.
fn push_zeros(out: &mut Vec<char>, k: usize)
    ensures
        final(out)@ == old(out)@ + zeros(k as nat),
{
    let ghost start = out@;
    let mut i: usize = 0;
    while i < k
        invariant
            i <= k,
            out@ == start + zeros(i as nat),
        decreases k - i,
    {
        out.push('0');
        i = i + 1;
        assert(start + zeros(i as nat) =~= (start + zeros((i - 1) as nat)).push('0'));
    }
}

/// Render `m / 10^e` with `p` fractional digits, rounded half to even.
/// Returns the integer part of the rounded value and its full rendering.
pub fn render_fixed(m: u128, e: u32, p: usize) -> (res: (u128, Vec<char>))
    requires
        e <= 33,
    ensures
        res.0 == round_half_even((m as nat) * pow10(p as nat), pow10(e as nat)) / pow10(p as nat),
        res.1@ == fixed(round_half_even((m as nat) * pow10(p as nat), pow10(e as nat)), p as nat),
{
    let ghost r = round_half_even((m as nat) * pow10(p as nat), pow10(e as nat));
    let mut out: Vec<char> = Vec::new();
    if p >= e as usize {
        let big_e = pow10_u128(e);
        proof {
            lemma_pow10_positive(e as nat);
            lemma_exact_scale(m as nat, p as nat, e as nat);
        }
        let ip = m / big_e;
        let rem = m % big_e;
        push_digits(&mut out, ip);
        if p > 0 {
            out.push('.');
            push_width_digits(&mut out, rem, e);
            push_zeros(&mut out, p - e as usize);
            proof {
                let z = (p - e) as nat;
                lemma_width_digits_shift(rem as nat, e as nat, z);
                assert(r % pow10(p as nat) == (rem as nat) * pow10(z));
                assert((e + z) as nat == p as nat);
                assert(out@ =~= digits(r / pow10(p as nat)) + seq!['.'] + width_digits(
                    r % pow10(p as nat),
                    p as nat,
                ));
            }
        } else {
            assert(r == m) by {
                lemma_pow10_small();
                assert((m as nat) * pow10(0) == m) by (nonlinear_arith)
                    requires
                        pow10(0) == 1,
                ;
            }
        }
        (ip, out)
    } else {
        let k: u32 = e - p as u32;
        let big_k = pow10_u128(k);
        proof {
            lemma_pow10_positive(k as nat);
            lemma_rounding_scale(m as nat, p as nat, k as nat);
            lemma_pow10_monotonic(1, k as nat);
            lemma_pow10_monotonic(k as nat, 38);
            lemma_pow10_38();
            lemma_pow10_small();
            vstd::arithmetic::div_mod::lemma_div_is_ordered_by_denominator(m as int, 10, big_k as int);
        }
        let q = m / big_k;
        let rem = m % big_k;
        let rounded = if rem * 2 > big_k || (rem * 2 == big_k && q % 2 == 1) {
            q + 1
        } else {
            q
        };
        assert(rounded == r);
        let big_p = pow10_u128(p as u32);
        proof {
            lemma_pow10_positive(p as nat);
        }
        let ip = rounded / big_p;
        let frac = rounded % big_p;
        push_digits(&mut out, ip);
        if p > 0 {
            out.push('.');
            push_width_digits(&mut out, frac, p as u32);
            assert(out@ =~= digits(r / pow10(p as nat)) + seq!['.'] + width_digits(
                r % pow10(p as nat),
                p as nat,
            ));
        }
        (ip, out)
    }
}

} // verus!
