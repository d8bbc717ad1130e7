//! The sealed integer conversion trait behind [`crate::ordinal`] and the
//! formatting functions.

mod sealed;

use vstd::prelude::*;

verus! {

/// `|v|`.
pub open spec fn abs(v: int) -> nat {
    if v < 0 {
        (-v) as nat
    } else {
        v as nat
    }
}

/// `v` clamped to the `i128` range from above (a `u128` above `i128::MAX`
/// saturates).
pub open spec fn saturate_i128(v: int) -> int {
    if v > i128::MAX {
        i128::MAX as int
    } else {
        v
    }
}

/// Any primitive signed or unsigned integer.
///
/// The trait is sealed: it cannot be implemented outside this crate.
pub trait Integer: sealed::Sealed + Copy {
    /// The mathematical value of the integer.
    spec fn value(self) -> int;

    /// Convert the value to `i128`; a `u128` above `i128::MAX` saturates.
    fn to_i128(self) -> (r: i128)
        ensures
            r as int == saturate_i128(self.value()),
    ;

    /// Whether the value is negative, and its magnitude (lossless for every type).
    fn sign_magnitude(self) -> (r: (bool, u128))
        ensures
            r.0 == (self.value() < 0),
            r.1 as nat == abs(self.value()),
    ;
}

/// Sign and magnitude of an `i128`, without overflow at `i128::MIN`.
pub(crate) fn i128_sign_magnitude(v: i128) -> (r: (bool, u128))
    ensures
        r.0 == (v < 0),
        r.1 as nat == abs(v as int),
{
    if v < 0 {
        if v == i128::MIN {
            (true, 0x8000_0000_0000_0000_0000_0000_0000_0000u128)
        } else {
            (true, (-v) as u128)
        }
    } else {
        (false, v as u128)
    }
}

impl Integer for i8 {
    open spec fn value(self) -> int {
        self as int
    }

    fn to_i128(self) -> (r: i128) {
        self as i128
    }

    fn sign_magnitude(self) -> (r: (bool, u128)) {
        i128_sign_magnitude(self as i128)
    }
}

impl Integer for i16 {
    open spec fn value(self) -> int {
        self as int
    }

    fn to_i128(self) -> (r: i128) {
        self as i128
    }

    fn sign_magnitude(self) -> (r: (bool, u128)) {
        i128_sign_magnitude(self as i128)
    }
}

impl Integer for i32 {
    open spec fn value(self) -> int {
        self as int
    }

    fn to_i128(self) -> (r: i128) {
        self as i128
    }

    fn sign_magnitude(self) -> (r: (bool, u128)) {
        i128_sign_magnitude(self as i128)
    }
}

impl Integer for i64 {
    open spec fn value(self) -> int {
        self as int
    }

    fn to_i128(self) -> (r: i128) {
        self as i128
    }

    fn sign_magnitude(self) -> (r: (bool, u128)) {
        i128_sign_magnitude(self as i128)
    }
}

impl Integer for i128 {
    open spec fn value(self) -> int {
        self as int
    }

    fn to_i128(self) -> (r: i128) {
        self
    }

    fn sign_magnitude(self) -> (r: (bool, u128)) {
        i128_sign_magnitude(self)
    }
}

impl Integer for isize {
    open spec fn value(self) -> int {
        self as int
    }

    fn to_i128(self) -> (r: i128) {
        self as i128
    }

    fn sign_magnitude(self) -> (r: (bool, u128)) {
        i128_sign_magnitude(self as i128)
    }
}

impl Integer for u8 {
    open spec fn value(self) -> int {
        self as int
    }

    fn to_i128(self) -> (r: i128) {
        self as i128
    }

    fn sign_magnitude(self) -> (r: (bool, u128)) {
        (false, self as u128)
    }
}

impl Integer for u16 {
    open spec fn value(self) -> int {
        self as int
    }

    fn to_i128(self) -> (r: i128) {
        self as i128
    }

    fn sign_magnitude(self) -> (r: (bool, u128)) {
        (false, self as u128)
    }
}

impl Integer for u32 {
    open spec fn value(self) -> int {
        self as int
    }

    fn to_i128(self) -> (r: i128) {
        self as i128
    }

    fn sign_magnitude(self) -> (r: (bool, u128)) {
        (false, self as u128)
    }
}

impl Integer for u64 {
    open spec fn value(self) -> int {
        self as int
    }

    fn to_i128(self) -> (r: i128) {
        self as i128
    }

    fn sign_magnitude(self) -> (r: (bool, u128)) {
        (false, self as u128)
    }
}

impl Integer for u128 {
    open spec fn value(self) -> int {
        self as int
    }

    fn to_i128(self) -> (r: i128) {
        if self > i128::MAX as u128 {
            i128::MAX
        } else {
            self as i128
        }
    }

    fn sign_magnitude(self) -> (r: (bool, u128)) {
        (false, self)
    }
}

impl Integer for usize {
    open spec fn value(self) -> int {
        self as int
    }

    fn to_i128(self) -> (r: i128) {
        self as i128
    }

    fn sign_magnitude(self) -> (r: (bool, u128)) {
        (false, self as u128)
    }
}


/// Every primitive integer stands for its own machine value: an unsigned one is
/// never negative, and converting to `i128` and splitting off the sign lose
/// nothing (see the contracts of `to_i128` and `sign_magnitude`).
pub proof fn lemma_integer_values(
    a: i8,
    b: i16,
    c: i32,
    d: i64,
    e: i128,
    f: isize,
    g: u8,
    h: u16,
    i: u32,
    j: u64,
    k: u128,
    l: usize,
)
    ensures
        a.value() == a as int,
        b.value() == b as int,
        c.value() == c as int,
        d.value() == d as int,
        e.value() == e as int,
        f.value() == f as int,
        g.value() == g as int && g.value() >= 0,
        h.value() == h as int && h.value() >= 0,
        i.value() == i as int && i.value() >= 0,
        j.value() == j as int && j.value() >= 0,
        k.value() == k as int && k.value() >= 0,
        l.value() == l as int && l.value() >= 0,
        h.value() <= 65535 ==> saturate_i128(h.value()) == h as int,
{
}

} // verus!
