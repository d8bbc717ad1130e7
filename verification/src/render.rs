//! `format!("{:.p$}", v)` for a binary64 value `v`: its exact binary value,
//! rounded half to even to `p` fractional digits.

use vstd::prelude::*;
use vstd::arithmetic::div_mod::{lemma_fundamental_div_mod, lemma_fundamental_div_mod_converse};
use crate::decimal::{
    fixed, lemma_pow10_add, lemma_pow10_positive, lemma_pow10_small, pow10, render_fixed,
    round_half_even, width_digits,
};
use crate::double::{
    lemma_pow2_add, lemma_pow2_monotonic, lemma_pow2_positive, lemma_pow2_values, pow2,
    pow2_u128, round_half_even_u128, valid_double,
};
use crate::text::{digit_char, digit_to_char, digits, push_digits};

verus! {

/// The value `d` times `10^p`, rounded half to even to an integer: the digits
/// that `format!("{:.p$}", v)` writes for the `f64` `v` that `d` stands for.
pub open spec fn render_value(d: (nat, int), p: nat) -> nat {
    if d.1 < 0 {
        round_half_even(d.0 * pow10(p), pow2((-d.1) as nat))
    } else {
        d.0 * pow2(d.1 as nat) * pow10(p)
    }
}

/// The number a sequence of decimal digits spells.
pub open spec fn digits_value(s: Seq<u8>) -> nat
    decreases s.len(),
{
    if s.len() == 0 {
        0
    } else {
        digits_value(s.drop_last()) * 10 + s.last() as nat
    }
}

pub open spec fn all_decimal(s: Seq<u8>) -> bool {
    forall|i: int| 0 <= i < s.len() ==> #[trigger] s[i] < 10
}

/// `5^e`.
pub open spec fn pow5(e: nat) -> nat
    decreases e,
{
    if e == 0 {
        1
    } else {
        5 * pow5((e - 1) as nat)
    }
}

proof fn lemma_pow10_split(e: nat)
    ensures
        pow10(e) == pow2(e) * pow5(e),
    decreases e,
{
    if e > 0 {
        lemma_pow10_split((e - 1) as nat);
        assert(10 * (pow2((e - 1) as nat) * pow5((e - 1) as nat)) == (2 * pow2((e - 1) as nat)) * (5
            * pow5((e - 1) as nat))) by (nonlinear_arith);
    } else {
        lemma_pow10_small();
        lemma_pow2_values();
        assert(pow5(0) == 1);
        assert(pow2(0) * pow5(0) == 1) by (nonlinear_arith)
            requires
                pow2(0) == 1,
                pow5(0) == 1,
        ;
    }
}

proof fn lemma_digits_value_concat(a: Seq<u8>, b: Seq<u8>)
    ensures
        digits_value(a + b) == digits_value(a) * pow10(b.len()) + digits_value(b),
    decreases b.len(),
{
    if b.len() == 0 {
        assert(a + b =~= a);
        lemma_pow10_small();
        assert(digits_value(a) * 1 == digits_value(a));
    } else {
        lemma_digits_value_concat(a, b.drop_last());
        assert((a + b).drop_last() =~= a + b.drop_last());
        assert((a + b).last() == b.last());
        let x = digits_value(a);
        let y = digits_value(b.drop_last());
        let e = pow10((b.len() - 1) as nat);
        assert((x * e + y) * 10 + b.last() as nat == x * (10 * e) + (y * 10 + b.last() as nat))
            by (nonlinear_arith);
    }
}

proof fn lemma_digits_value_bound(s: Seq<u8>)
    requires
        all_decimal(s),
    ensures
        digits_value(s) < pow10(s.len()),
    decreases s.len(),
{
    if s.len() > 0 {
        assert(all_decimal(s.drop_last())) by {
            assert forall|i: int| 0 <= i < s.drop_last().len() implies #[trigger] s.drop_last()[i]
                < 10 by {
                assert(s.drop_last()[i] == s[i]);
            }
        }
        lemma_digits_value_bound(s.drop_last());
        assert(s[s.len() - 1] < 10);
        let v = digits_value(s.drop_last());
        let e = pow10((s.len() - 1) as nat);
        assert(v * 10 + (s.last() as nat) < 10 * e) by (nonlinear_arith)
            requires
                v < e,
                s.last() < 10,
        ;
    }
}

/// Digit values written out are the fixed-width digits of the number they spell.
proof fn lemma_digits_value_chars(s: Seq<u8>)
    requires
        all_decimal(s),
    ensures
        width_digits(digits_value(s), s.len()) == s.map_values(|d: u8| digit_char(d as nat)),
    decreases s.len(),
{
    if s.len() > 0 {
        let t = s.drop_last();
        assert(all_decimal(t)) by {
            assert forall|i: int| 0 <= i < t.len() implies #[trigger] t[i] < 10 by {
                assert(t[i] == s[i]);
            }
        }
        lemma_digits_value_chars(t);
        assert(s[s.len() - 1] < 10);
        let v = digits_value(s);
        lemma_fundamental_div_mod_converse(
            v as int,
            10,
            digits_value(t) as int,
            s.last() as int,
        );
        assert(s.map_values(|d: u8| digit_char(d as nat)) =~= t.map_values(
            |d: u8| digit_char(d as nat),
        ).push(digit_char(s.last() as nat)));
    }
}

proof fn lemma_digits_value_zeros(k: nat)
    ensures
        digits_value(Seq::new(k, |i: int| 0u8)) == 0,
    decreases k,
{
    if k > 0 {
        assert(Seq::new(k, |i: int| 0u8).drop_last() =~= Seq::new((k - 1) as nat, |i: int| 0u8));
        lemma_digits_value_zeros((k - 1) as nat);
    }
}

proof fn lemma_digits_value_nines(k: nat)
    ensures
        digits_value(Seq::new(k, |i: int| 9u8)) + 1 == pow10(k),
    decreases k,
{
    if k > 0 {
        assert(Seq::new(k, |i: int| 9u8).drop_last() =~= Seq::new((k - 1) as nat, |i: int| 9u8));
        lemma_digits_value_nines((k - 1) as nat);
    } else {
        lemma_pow10_small();
    }
}

/// Add one to a digit sequence; `true` when it overflows (all nines become zeros).
fn increment(s: &mut Vec<u8>) -> (carry: bool)
    requires
        all_decimal(old(s)@),
    ensures
        final(s)@.len() == old(s)@.len(),
        all_decimal(final(s)@),
        digits_value(final(s)@) + (if carry {
            pow10(old(s)@.len())
        } else {
            0
        }) == digits_value(old(s)@) + 1,
{
    let ghost orig = s@;
    let n = s.len();
    let mut i = n;
    proof {
        assert(orig.subrange(0, n as int) =~= orig);
        assert(orig.subrange(n as int, n as int) =~= Seq::new(0, |x: int| 9u8));
        assert(s@ =~= orig.subrange(0, n as int) + Seq::new(0, |x: int| 0u8));
    }
    while i > 0 && s[i - 1] == 9
        invariant
            i <= n == s.len() == orig.len(),
            all_decimal(orig),
            s@ == orig.subrange(0, i as int) + Seq::new((n - i) as nat, |x: int| 0u8),
            orig.subrange(i as int, n as int) == Seq::new((n - i) as nat, |x: int| 9u8),
        decreases i,
    {
        proof {
            assert(orig[i - 1] == 9);
            assert forall|x: int| 0 <= x < n - i + 1 implies #[trigger] orig.subrange(
                i - 1,
                n as int,
            )[x] == 9u8 by {
                if x > 0 {
                    assert(orig.subrange(i - 1, n as int)[x] == orig.subrange(i as int, n as int)[x
                        - 1]);
                }
            }
            assert(orig.subrange(i - 1, n as int) =~= Seq::new((n - i + 1) as nat, |x: int| 9u8));
        }
        s.set(i - 1, 0);
        i = i - 1;
        proof {
            assert(s@ =~= orig.subrange(0, i as int) + Seq::new((n - i) as nat, |x: int| 0u8));
        }
    }
    proof {
        assert(orig =~= orig.subrange(0, i as int) + orig.subrange(i as int, n as int));
        lemma_digits_value_concat(orig.subrange(0, i as int), orig.subrange(i as int, n as int));
        lemma_digits_value_nines((n - i) as nat);
        lemma_digits_value_zeros((n - i) as nat);
        lemma_digits_value_concat(
            orig.subrange(0, i as int),
            Seq::new((n - i) as nat, |x: int| 0u8),
        );
    }
    if i == 0 {
        proof {
            let z = Seq::new(n as nat, |x: int| 0u8);
            assert(orig.subrange(0, 0) =~= Seq::<u8>::empty());
            assert(digits_value(orig.subrange(0, 0)) == 0);
            assert(digits_value(orig.subrange(0, 0)) * pow10(n as nat) == 0);
            assert(s@ =~= orig.subrange(0, 0) + z);
            assert(digits_value(s@) == 0);
            assert(digits_value(orig) == digits_value(Seq::new(n as nat, |x: int| 9u8)));
            assert(all_decimal(s@));
            assert(digits_value(s@) + pow10(n as nat) == digits_value(orig) + 1);
        }
        true
    } else {
        let d = s[i - 1];
        assert(orig[i - 1] < 10);
        s.set(i - 1, d + 1);
        proof {
            let head = orig.subrange(0, i - 1);
            let z = Seq::new((n - i) as nat, |x: int| 0u8);
            assert(orig.subrange(0, i as int) =~= head.push(d));
            assert(s@ =~= head.push((d + 1) as u8) + z);
            lemma_digits_value_concat(head.push((d + 1) as u8), z);
            let e = pow10((n - i) as nat);
            let h = digits_value(head);
            assert(head.push(d).drop_last() =~= head);
            assert(head.push((d + 1) as u8).drop_last() =~= head);
            assert(digits_value(head.push(d)) == h * 10 + d);
            assert(digits_value(head.push((d + 1) as u8)) == h * 10 + d + 1);
            assert((h * 10 + d + 1) * e == (h * 10 + d) * e + e) by (nonlinear_arith);
            assert(all_decimal(s@)) by {
                assert forall|x: int| 0 <= x < s@.len() implies #[trigger] s@[x] < 10 by {
                    if x < i - 1 {
                        assert(s@[x] == orig[x]);
                    }
                }
            }
        }
        false
    }
}

/// One step of long division by `den`: the digit sequence grows by the next
/// quotient digit and the remainder is carried.
proof fn lemma_division_step(m: nat, ip: nat, ds: Seq<u8>, den: nat, frac: nat, i: nat, dig: nat, next: nat)
    requires
        den > 0,
        m * pow10(i) == (ip * pow10(i) + digits_value(ds)) * den + frac,
        frac * 10 == dig * den + next,
        ds.len() == i,
        dig < 10,
    ensures
        m * pow10(i + 1) == (ip * pow10(i + 1) + digits_value(ds.push(dig as u8))) * den + next,
{
    assert(ds.push(dig as u8).drop_last() =~= ds);
    let q = ip * pow10(i) + digits_value(ds);
    assert(pow10(i + 1) == 10 * pow10(i));
    {
        assert(digits_value(ds.push(dig as u8)) == digits_value(ds) * 10 + dig);
        assert(ip * pow10(i + 1) + digits_value(ds.push(dig as u8)) == 10 * q + dig) by (nonlinear_arith)
            requires
                pow10(i + 1) == 10 * pow10(i),
                q == ip * pow10(i) + digits_value(ds),
                digits_value(ds.push(dig as u8)) == digits_value(ds) * 10 + dig,
        ;
        assert(m * pow10(i + 1) == (10 * q + dig) * den + next) by (nonlinear_arith)
            requires
                pow10(i + 1) == 10 * pow10(i),
                m * pow10(i) == q * den + frac,
                frac * 10 == dig * den + next,
        ;
    }
}

/// The digits that long division writes, read back: `r / 10^p` and `r % 10^p`
/// are the integer part and the digit sequence.
proof fn lemma_fixed_from_digits(ip: nat, ds: Seq<u8>, p: nat)
    requires
        all_decimal(ds),
        ds.len() == p,
        p > 0,
    ensures
        fixed(ip * pow10(p) + digits_value(ds), p) == digits(ip) + seq!['.'] + ds.map_values(
            |d: u8| digit_char(d as nat),
        ),
{
    lemma_digits_value_bound(ds);
    lemma_digits_value_chars(ds);
    lemma_pow10_positive(p);
    let r = ip * pow10(p) + digits_value(ds);
    lemma_fundamental_div_mod_converse(r as int, pow10(p) as int, ip as int, digits_value(ds) as int);
    assert(r == pow10(p) * ip + digits_value(ds)) by (nonlinear_arith)
        requires
            r == ip * pow10(p) + digits_value(ds),
    ;
}

/// Where long division stopped at the last digit kept: rounding half to even
/// adds one when the remainder is past half, or exactly half after an odd digit.
proof fn lemma_round_last(m: nat, ip: nat, ds: Seq<u8>, den: nat, frac: nat, p: nat)
    requires
        m * pow10(p) == (ip * pow10(p) + digits_value(ds)) * den + frac,
        frac < den,
        ds.len() == p,
        p >= 1,
    ensures
        round_half_even(m * pow10(p), den) == ip * pow10(p) + digits_value(ds) + (if 2 * frac > den
            || (2 * frac == den && ds[p - 1] % 2 == 1) {
            1int
        } else {
            0
        }),
{
    let q = ip * pow10(p) + digits_value(ds);
    lemma_fundamental_div_mod_converse((m * pow10(p)) as int, den as int, q as int, frac as int);
    assert(q * den == den * q) by (nonlinear_arith);
    let t = ds.drop_last();
    assert(t.push(ds[p - 1]) =~= ds);
    assert(digits_value(ds) == digits_value(t) * 10 + ds[p - 1]);
    assert(pow10(p) == 10 * pow10((p - 1) as nat));
    assert(q == 2 * (5 * (ip * pow10((p - 1) as nat) + digits_value(t))) + ds[p - 1]) by (nonlinear_arith)
        requires
            q == ip * pow10(p) + digits_value(ds),
            pow10(p) == 10 * pow10((p - 1) as nat),
            digits_value(ds) == digits_value(t) * 10 + ds[p - 1],
    ;
    assert(q % 2 == ds[p - 1] % 2);
}

/// When the denominator `2^k` has been divided out after `k` digits, the
/// remainder is zero and the rest of the digits are zeros.
proof fn lemma_exact_tail(m: nat, ip: nat, ds: Seq<u8>, k: nat, frac: nat, p: nat)
    requires
        m * pow10(k) == (ip * pow10(k) + digits_value(ds)) * pow2(k) + frac,
        frac < pow2(k),
        ds.len() == k,
        p > k,
    ensures
        round_half_even(m * pow10(p), pow2(k)) == ip * pow10(p) + digits_value(
            ds + Seq::new((p - k) as nat, |x: int| 0u8),
        ),
{
    let q = ip * pow10(k) + digits_value(ds);
    let den = pow2(k);
    lemma_pow10_split(k);
    lemma_pow2_positive(k);
    assert(frac == den * (m * pow5(k) - q)) by (nonlinear_arith)
        requires
            m * pow10(k) == q * den + frac,
            pow10(k) == den * pow5(k),
    ;
    assert(frac == 0) by (nonlinear_arith)
        requires
            frac == den * (m * pow5(k) - q),
            frac < den,
            den >= 1,
    ;
    let z = (p - k) as nat;
    lemma_pow10_add(k, z);
    assert(k + z == p);
    let a = m * pow10(p);
    let b = q * pow10(z);
    assert(a == b * den) by (nonlinear_arith)
        requires
            a == m * pow10(p),
            pow10(p) == pow10(k) * pow10(z),
            m * pow10(k) == q * den,
            b == q * pow10(z),
    ;
    lemma_fundamental_div_mod_converse(a as int, den as int, b as int, 0);
    assert(b * den == den * b) by (nonlinear_arith);
    lemma_digits_value_concat(ds, Seq::new(z, |x: int| 0u8));
    lemma_digits_value_zeros(z);
    assert(b == ip * pow10(p) + digits_value(ds) * pow10(z)) by (nonlinear_arith)
        requires
            b == q * pow10(z),
            q == ip * pow10(k) + digits_value(ds),
            pow10(p) == pow10(k) * pow10(z),
    ;
}

/// The characters of a sequence of decimal digits.
fn push_digit_chars(out: &mut Vec<char>, ds: &Vec<u8>)
    requires
        all_decimal(ds@),
    ensures
        final(out)@ == old(out)@ + ds@.map_values(|d: u8| digit_char(d as nat)),
{
    let ghost start = out@;
    let mut i: usize = 0;
    while i < ds.len()
        invariant
            i <= ds.len(),
            all_decimal(ds@),
            out@ == start + ds@.take(i as int).map_values(|d: u8| digit_char(d as nat)),
        decreases ds.len() - i,
    {
        assert(ds@[i as int] < 10);
        let c = digit_to_char(ds[i] as u128);
        out.push(c);
        i = i + 1;
        assert(ds@.take(i as int).map_values(|d: u8| digit_char(d as nat)) =~= ds@.take(
            (i - 1) as int,
        ).map_values(|d: u8| digit_char(d as nat)).push(c));
    }
    assert(ds@.take(ds.len() as int) =~= ds@);
}

/// `format!("{:.p$}", v)` for the `f64` `v` that `d` stands for, together with
/// the integer part of what it writes. Long division by the power of two in the
/// denominator writes the exact digits; the last one kept is rounded half to
/// even.
pub fn render_double(d: (u128, i32), p: usize) -> (res: (u128, Vec<char>))
    requires
        valid_double((d.0 as nat, d.1 as int)),
        d.0 == 0 || d.1 < 0,
    ensures
        res.0 == render_value((d.0 as nat, d.1 as int), p as nat) / pow10(p as nat),
        res.1@ == fixed(render_value((d.0 as nat, d.1 as int), p as nat), p as nat),
{
    let ghost dv = (d.0 as nat, d.1 as int);
    let ghost r = render_value(dv, p as nat);
    if d.0 == 0 {
        proof {
            lemma_pow2_values();
            lemma_pow10_small();
            lemma_pow10_positive(0);
            assert(r == 0);
            assert(0nat * pow10(p as nat) == 0);
            vstd::arithmetic::div_mod::lemma_small_mod(0, pow10(0));
            vstd::arithmetic::div_mod::lemma_div_of0(pow10(0) as int);
        }
        return render_fixed(0, 0, p);
    }
    let k: u32 = (0 - d.1) as u32;
    let den = pow2_u128(k);
    proof {
        lemma_pow2_values();
        lemma_pow2_monotonic(1, k as nat);
        lemma_pow2_monotonic(k as nat, 64);
        lemma_pow2_add(63, 1);
        lemma_pow10_small();
    }
    let m = d.0;
    if p == 0 {
        let rr = round_half_even_u128(m, den);
        proof {
            assert((m as nat) * pow10(0) == m as nat) by (nonlinear_arith)
                requires
                    pow10(0) == 1,
            ;
            vstd::arithmetic::div_mod::lemma_div_by_self(1);
            assert(rr as nat / pow10(0) == rr) by (nonlinear_arith)
                requires
                    pow10(0) == 1,
            ;
        }
        let mut out: Vec<char> = Vec::new();
        push_digits(&mut out, rr);
        return (rr, out);
    }
    let ip0 = m / den;
    let mut frac = m % den;
    let n: usize = if p < k as usize {
        p
    } else {
        k as usize
    };
    let mut ds: Vec<u8> = Vec::new();
    proof {
        lemma_fundamental_div_mod(m as int, den as int);
        assert(m * pow10(0) == (ip0 * pow10(0) + digits_value(ds@)) * den + frac) by (nonlinear_arith)
            requires
                pow10(0) == 1,
                digits_value(ds@) == 0,
                m == den * ip0 + frac,
        ;
    }
    let mut i: usize = 0;
    while i < n
        invariant
            i <= n <= p,
            n <= k <= 64,
            den == pow2(k as nat),
            den <= 0x1_0000_0000_0000_0000,
            den >= 2,
            frac < den,
            ds@.len() == i,
            all_decimal(ds@),
            m * pow10(i as nat) == (ip0 * pow10(i as nat) + digits_value(ds@)) * den + frac,
        decreases n - i,
    {
        let t = frac * 10;
        let dig = t / den;
        let next = t % den;
        proof {
            lemma_fundamental_div_mod(t as int, den as int);
            assert(dig < 10) by (nonlinear_arith)
                requires
                    t == frac * 10,
                    frac < den,
                    t == den * dig + next,
                    next >= 0,
            ;
            lemma_division_step(m as nat, ip0 as nat, ds@, den as nat, frac as nat, i as nat, dig as nat, next as nat);
        }
        let ghost prev = ds@;
        ds.push(dig as u8);
        frac = next;
        i = i + 1;
        proof {
            assert(all_decimal(ds@)) by {
                assert forall|x: int| 0 <= x < ds@.len() implies #[trigger] ds@[x] < 10 by {
                    if x < prev.len() {
                        assert(ds@[x] == prev[x]);
                    }
                }
            }
        }
    }
    let mut ip = ip0;
    if p <= k as usize {
        let last = ds[p - 1];
        let up = 2 * frac > den || (2 * frac == den && last % 2 == 1);
        proof {
            lemma_round_last(m as nat, ip0 as nat, ds@, den as nat, frac as nat, p as nat);
        }
        if up {
            let carry = increment(&mut ds);
            if carry {
                ip = ip0 + 1;
            }
            proof {
                let e = pow10(p as nat);
                assert((ip0 * e + digits_value(ds@)) + (if carry {
                    e
                } else {
                    0
                }) == ip * e + digits_value(ds@)) by (nonlinear_arith)
                    requires
                        ip == ip0 + (if carry {
                            1int
                        } else {
                            0
                        }),
                ;
            }
        }
        proof {
            assert(r == ip * pow10(p as nat) + digits_value(ds@));
        }
    } else {
        let ghost base = ds@;
        proof {
            lemma_exact_tail(m as nat, ip0 as nat, ds@, k as nat, frac as nat, p as nat);
        }
        let mut j: usize = k as usize;
        while j < p
            invariant
                k <= j <= p,
                ds@ == base + Seq::new((j - k) as nat, |x: int| 0u8),
            decreases p - j,
        {
            ds.push(0);
            j = j + 1;
            assert(ds@ =~= base + Seq::new((j - k) as nat, |x: int| 0u8));
        }
        proof {
            assert(all_decimal(ds@)) by {
                assert forall|x: int| 0 <= x < ds@.len() implies #[trigger] ds@[x] < 10 by {
                    if x < base.len() {
                        assert(ds@[x] == base[x]);
                    }
                }
            }
            assert(r == ip * pow10(p as nat) + digits_value(ds@));
        }
    }
    proof {
        lemma_fixed_from_digits(ip as nat, ds@, p as nat);
        lemma_digits_value_bound(ds@);
        lemma_fundamental_div_mod_converse(r as int, pow10(p as nat) as int, ip as int, digits_value(ds@) as int);
    }
    let mut out: Vec<char> = Vec::new();
    push_digits(&mut out, ip);
    out.push('.');
    push_digit_chars(&mut out, &ds);
    (ip, out)
}

} // verus!
