//! Decimal digit strings and small character-sequence helpers.

use vstd::prelude::*;

verus! {

/// The character of a decimal digit `d < 10`.
pub open spec fn digit_char(d: nat) -> char {
    ((d + 48) as u32) as char
}

/// Decimal representation of `n`, without leading zeros (`"0"` for zero).
pub open spec fn digits(n: nat) -> Seq<char>
    decreases n,
{
    if n < 10 {
        seq![digit_char(n)]
    } else {
        digits(n / 10).push(digit_char(n % 10))
    }
}

pub(crate) fn digit_to_char(d: u128) -> (c: char)
    requires
        d < 10,
    ensures
        c == digit_char(d as nat),
{
    let b: u8 = d as u8 + 48u8;
    b as char
}

/// Append the decimal digits of `n` to `out`.
pub fn push_digits(out: &mut Vec<char>, n: u128)
    ensures
        final(out)@ == old(out)@ + digits(n as nat),
    decreases n,
{
    if n < 10 {
        out.push(digit_to_char(n));
    } else {
        push_digits(out, n / 10);
        out.push(digit_to_char(n % 10));
    }
}

/// Append the characters of `s` to `out`.
pub fn push_str(out: &mut Vec<char>, s: &str)
    ensures
        final(out)@ == old(out)@ + s@,
{
    let ghost start = out@;
    for c in it: s.chars()
        invariant
            out@ == start + it.seq().take(it.index() as int),
            it.seq() == s@,
    {
        out.push(c);
    }
}

/// The `String` made of the characters in `v`, by std's `Iterator::collect`
/// into a `String` (`FromIterator<&char>`), which appends each character in
/// order: the result holds exactly the characters of `v`.
#[verifier::external_body]
pub(crate) fn string_from_chars(v: &Vec<char>) -> (s: String)
    ensures
        s@ == v@,
{
    v.iter().collect()
}

/// `s` with every trailing `c` removed.
pub open spec fn strip_end(s: Seq<char>, c: char) -> Seq<char>
    decreases s.len(),
{
    if s.len() > 0 && s.last() == c {
        strip_end(s.drop_last(), c)
    } else {
        s
    }
}

/// `s` without trailing zeros and without a dangling decimal point; unchanged
/// when `s` has no decimal point.
pub open spec fn trimmed(s: Seq<char>) -> Seq<char> {
    if s.contains('.') {
        strip_end(strip_end(s, '0'), '.')
    } else {
        s
    }
}

/// Whether every character of `s` is `'0'` or `'.'`.
pub open spec fn all_zero_chars(s: Seq<char>) -> bool {
    forall|i: int| 0 <= i < s.len() ==> (#[trigger] s[i] == '0' || s[i] == '.')
}

/// The digits of `n` read as zero only when `n` is zero.
pub proof fn lemma_digits_zero(n: nat)
    requires
        all_zero_chars(digits(n)),
    ensures
        n == 0,
    decreases n,
{
    let s = digits(n);
    if n >= 10 {
        let prefix = digits(n / 10);
        assert(s == prefix.push(digit_char(n % 10)));
        assert forall|i: int| 0 <= i < prefix.len() implies (#[trigger] prefix[i] == '0' || prefix[i]
            == '.') by {
            assert(s[i] == prefix[i]);
        }
        lemma_digits_zero(n / 10);
    } else {
        assert(s[0] == digit_char(n));
    }
}

/// `strip_end(s, c)` is a prefix of `s`, and what it drops is all `c`.
pub proof fn lemma_strip_end(s: Seq<char>, c: char)
    ensures
        strip_end(s, c).len() <= s.len(),
        strip_end(s, c) == s.take(strip_end(s, c).len() as int),
        forall|j: int| strip_end(s, c).len() <= j < s.len() ==> #[trigger] s[j] == c,
        strip_end(s, c).len() > 0 ==> strip_end(s, c).last() != c,
    decreases s.len(),
{
    if s.len() > 0 && s.last() == c {
        lemma_strip_end(s.drop_last(), c);
        let k = strip_end(s, c).len();
        assert(s.drop_last().take(k as int) =~= s.take(k as int));
        assert forall|j: int| k <= j < s.len() implies #[trigger] s[j] == c by {
            if j < s.len() - 1 {
                assert(s.drop_last()[j] == s[j]);
            }
        }
    } else {
        assert(s.take(s.len() as int) =~= s);
    }
}

/// Trimming only drops trailing `'0'` and `'.'` characters.
pub proof fn lemma_trimmed(s: Seq<char>)
    ensures
        trimmed(s).len() <= s.len(),
        trimmed(s) == s.take(trimmed(s).len() as int),
        forall|j: int| trimmed(s).len() <= j < s.len() ==> (#[trigger] s[j] == '0' || s[j] == '.'),
{
    if s.contains('.') {
        let a = strip_end(s, '0');
        lemma_strip_end(s, '0');
        lemma_strip_end(a, '.');
        let k = strip_end(a, '.').len();
        assert(a.take(k as int) =~= s.take(k as int));
        assert forall|j: int| k <= j < s.len() implies (#[trigger] s[j] == '0' || s[j] == '.') by {
            if j < a.len() {
                assert(a[j] == s[j]);
                assert(a[j] == '.');
            } else {
                assert(s[j] == '0');
            }
        }
    } else {
        assert(s.take(s.len() as int) =~= s);
    }
}

/// A number that does not read as zero still does not after trimming.
pub proof fn lemma_trimmed_zero(s: Seq<char>)
    requires
        all_zero_chars(trimmed(s)),
    ensures
        all_zero_chars(s),
{
    lemma_trimmed(s);
    let t = trimmed(s);
    assert forall|i: int| 0 <= i < s.len() implies (#[trigger] s[i] == '0' || s[i] == '.') by {
        if i < t.len() {
            assert(t[i] == s[i]);
        }
    }
}

/// Whether `v` holds the character `c`.
pub fn contains_char(v: &Vec<char>, c: char) -> (b: bool)
    ensures
        b == v@.contains(c),
{
    let mut i: usize = 0;
    while i < v.len()
        invariant
            i <= v.len(),
            forall|j: int| 0 <= j < i ==> v@[j] != c,
        decreases v.len() - i,
    {
        if v[i] == c {
            return true;
        }
        i = i + 1;
    }
    false
}

/// Remove every trailing `c` from `v`.
pub fn pop_while(v: &mut Vec<char>, c: char)
    ensures
        final(v)@ == strip_end(old(v)@, c),
{
    while v.len() > 0 && v[v.len() - 1] == c
        invariant
            strip_end(v@, c) == strip_end(old(v)@, c),
        decreases v.len(),
    {
        v.pop();
    }
}

/// Remove trailing zeros and a dangling decimal point from a rendered number.
pub fn trim_trailing_zeros(v: &mut Vec<char>)
    ensures
        final(v)@ == trimmed(old(v)@),
{
    if contains_char(v, '.') {
        pop_while(v, '0');
        pop_while(v, '.');
    }
}

/// Whether a rendered body represents zero (only `0` and `.` characters).
pub fn is_all_zero(v: &Vec<char>) -> (b: bool)
    ensures
        b == all_zero_chars(v@),
{
    let mut i: usize = 0;
    while i < v.len()
        invariant
            i <= v.len(),
            forall|j: int| 0 <= j < i ==> (#[trigger] v@[j] == '0' || v@[j] == '.'),
        decreases v.len() - i,
    {
        if v[i] != '0' && v[i] != '.' {
            return false;
        }
        i = i + 1;
    }
    true
}

} // verus!
