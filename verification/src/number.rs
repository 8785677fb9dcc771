//! Unsigned integers in text: `from_str_radix` for reading, decimal digits for writing.

use vstd::prelude::*;
use crate::text::{chars_of, push_char};

verus! {

/// `char::to_digit`: the value of `c` as a digit in `radix`, if it is one.
pub open spec fn digit_value(c: char, radix: nat) -> Option<nat> {
    if '0' <= c <= '9' && (c as int - 48) < radix {
        Some((c as int - 48) as nat)
    } else if 'a' <= c <= 'z' && (c as int - 97 + 10) < radix {
        Some((c as int - 97 + 10) as nat)
    } else if 'A' <= c <= 'Z' && (c as int - 65 + 10) < radix {
        Some((c as int - 65 + 10) as nat)
    } else {
        None
    }
}

/// Every character of `s` is a digit in `radix`.
pub open spec fn all_digits(s: Seq<char>, radix: nat) -> bool {
    forall|i: int| 0 <= i < s.len() ==> (#[trigger] digit_value(s[i], radix)) is Some
}

/// The number that the digits `s` write in `radix`, most significant first.
pub open spec fn digits_value(s: Seq<char>, radix: nat) -> nat
    decreases s.len(),
{
    if s.len() == 0 {
        0
    } else {
        digits_value(s.drop_last(), radix) * radix + digit_value(s.last(), radix).unwrap()
    }
}

/// The digits of an unsigned number: `s` without one leading `'+'`.
pub open spec fn unsigned_digits(s: Seq<char>) -> Seq<char> {
    if s.len() > 0 && s[0] == '+' {
        s.drop_first()
    } else {
        s
    }
}

/// `from_str_radix` (and `str::parse`) for an unsigned type whose largest value is `max`:
/// an optional `'+'`, then at least one digit, and a value that fits.
pub open spec fn parse_uint(s: Seq<char>, radix: nat, max: nat) -> Option<nat> {
    let d = unsigned_digits(s);
    if d.len() == 0 || !all_digits(d, radix) || digits_value(d, radix) > max {
        None
    } else {
        Some(digits_value(d, radix))
    }
}

/// The character of a decimal digit.
pub open spec fn digit_char(d: nat) -> char {
    (d + 48) as char
}

/// The decimal digits of `n`, as `u64::to_string` writes them.
pub open spec fn decimal(n: nat) -> Seq<char>
    decreases n,
{
    if n < 10 {
        seq![digit_char(n)]
    } else {
        decimal(n / 10).push(digit_char(n % 10))
    }
}

proof fn lemma_value_prefix(s: Seq<char>, i: int, radix: nat)
    requires
        0 <= i <= s.len(),
        radix >= 1,
    ensures
        digits_value(s.take(i), radix) <= digits_value(s, radix),
    decreases s.len(),
{
    if i < s.len() {
        lemma_value_prefix(s.drop_last(), i, radix);
        assert(s.drop_last().take(i) == s.take(i));
        let v = digits_value(s.drop_last(), radix);
        assert(v * radix >= v) by (nonlinear_arith)
            requires
                radix >= 1,
        ;
    } else {
        assert(s.take(i) == s);
    }
}

/// `char::to_digit`.
pub fn digit_of(c: char, radix: u32) -> (r: Option<u32>)
    requires
        radix <= 36,
    ensures
        match r {
            Some(d) => digit_value(c, radix as nat) == Some(d as nat),
            None => digit_value(c, radix as nat) is None,
        },
{
    let x = c as u32;
    if '0' <= c && c <= '9' && x - 48 < radix {
        Some(x - 48)
    } else if 'a' <= c && c <= 'z' && x - 97 + 10 < radix {
        Some(x - 97 + 10)
    } else if 'A' <= c && c <= 'Z' && x - 65 + 10 < radix {
        Some(x - 65 + 10)
    } else {
        None
    }
}

/// Parses `s[lo..hi]` as an unsigned number in `radix` no larger than `max`.
pub fn parse_range(s: &Vec<char>, lo: usize, hi: usize, radix: u32, max: u64) -> (r: Option<u64>)
    requires
        lo <= hi <= s.len(),
        2 <= radix <= 36,
    ensures
        match r {
            Some(v) => parse_uint(s@.subrange(lo as int, hi as int), radix as nat, max as nat)
                == Some(v as nat),
            None => parse_uint(s@.subrange(lo as int, hi as int), radix as nat, max as nat) is None,
        },
{
    let ghost t = s@.subrange(lo as int, hi as int);
    let start = if lo < hi && s[lo] == '+' {
        lo + 1
    } else {
        lo
    };
    let ghost d = s@.subrange(start as int, hi as int);
    assert(unsigned_digits(t) == d);
    if start == hi {
        return None;
    }
    let mut v: u64 = 0;
    let mut i = start;
    assert(d.take(0) == Seq::<char>::empty());
    while i < hi
        invariant
            lo <= start <= i <= hi <= s.len(),
            d == s@.subrange(start as int, hi as int),
            unsigned_digits(s@.subrange(lo as int, hi as int)) == d,
            d.len() > 0,
            v as nat == digits_value(d.take(i - start), radix as nat),
            v <= max,
            all_digits(d.take(i - start), radix as nat),
            2 <= radix <= 36,
        decreases hi - i,
    {
        let ghost k = i - start;
        assert(d.take(k + 1).drop_last() == d.take(k));
        assert(d.take(k + 1).last() == s@[i as int]);
        match digit_of(s[i], radix) {
            None => {
                assert(digit_value(d[k], radix as nat) is None);
                return None;
            },
            Some(dv) => {
                assert(v as u128 * radix as u128 <= 0xffff_ffff_ffff_ffff * 36) by (nonlinear_arith)
                    requires
                        v <= 0xffff_ffff_ffff_ffffu64,
                        radix <= 36,
                ;
                let nv: u128 = v as u128 * radix as u128 + dv as u128;
                assert(nv == digits_value(d.take(k + 1), radix as nat));
                if nv > max as u128 {
                    proof {
                        lemma_value_prefix(d, k + 1, radix as nat);
                    }
                    return None;
                }
                v = nv as u64;
                i = i + 1;
                assert forall|j: int| 0 <= j < d.take(k + 1).len() implies (#[trigger] digit_value(
                    d.take(k + 1)[j],
                    radix as nat,
                )) is Some by {
                    if j < k {
                        assert(d.take(k + 1)[j] == d.take(k)[j]);
                    }
                }
            },
        }
    }
    assert(d.take(hi - start) == d);
    Some(v)
}

/// Parses a decimal `u32` as `str::parse::<u32>` does.
pub fn parse_u32(s: &str) -> (r: Option<u32>)
    ensures
        match r {
            Some(v) => parse_uint(s@, 10, u32::MAX as nat) == Some(v as nat),
            None => parse_uint(s@, 10, u32::MAX as nat) is None,
        },
{
    let v = chars_of(s);
    assert(v@.subrange(0, v@.len() as int) == v@);
    match parse_range(&v, 0, v.len(), 10, 0xffff_ffff) {
        Some(x) => Some(x as u32),
        None => None,
    }
}

/// Parses a decimal `u16` as `str::parse::<u16>` does.
pub fn parse_u16(s: &str) -> (r: Option<u16>)
    ensures
        match r {
            Some(v) => parse_uint(s@, 10, u16::MAX as nat) == Some(v as nat),
            None => parse_uint(s@, 10, u16::MAX as nat) is None,
        },
{
    let v = chars_of(s);
    assert(v@.subrange(0, v@.len() as int) == v@);
    match parse_range(&v, 0, v.len(), 10, 0xffff) {
        Some(x) => Some(x as u16),
        None => None,
    }
}

/// Appends the decimal digits of `n` to `s`.
pub fn push_decimal(s: &mut String, n: u64)
    ensures
        final(s)@ == old(s)@ + decimal(n as nat),
    decreases n,
{
    if n >= 10 {
        push_decimal(s, n / 10);
    }
    let d = (n % 10) as u8;
    let c = (48u8 + d) as char;
    push_char(s, c);
    proof {
        if n < 10 {
            assert(old(s)@ + decimal(n as nat) == old(s)@.push(c));
        } else {
            assert(old(s)@ + decimal(n as nat) == old(s)@ + decimal(n as nat / 10) + seq![c]);
        }
    }
}

/// `u64::to_string`.
pub fn decimal_string(n: u64) -> (s: String)
    ensures
        s@ == decimal(n as nat),
{
    let mut s = String::new();
    push_decimal(&mut s, n);
    assert(Seq::<char>::empty() + decimal(n as nat) == decimal(n as nat));
    s
}

/// Reading back what was written: the decimal digits of `n` parse as `n`
/// in every unsigned type that holds `n`.
pub proof fn lemma_decimal_parses(n: nat, max: nat)
    requires
        n <= max,
    ensures
        parse_uint(decimal(n), 10, max) == Some(n),
    decreases n,
{
    lemma_decimal_digits(n);
    let s = decimal(n);
    assert(digit_value(s[0], 10) is Some);
}

/// The decimal digits of `n` are digits, at least one, and write `n`.
pub proof fn lemma_decimal_digits(n: nat)
    ensures
        all_digits(decimal(n), 10),
        digits_value(decimal(n), 10) == n,
        decimal(n).len() > 0,
    decreases n,
{
    let c = digit_char(n % 10);
    assert(c as int == n % 10 + 48);
    assert(digit_value(c, 10) == Some(n % 10));
    if n < 10 {
        let s = decimal(n);
        assert(s.drop_last() == Seq::<char>::empty());
        assert(s.last() == c);
        assert(digits_value(s, 10) == digits_value(s.drop_last(), 10) * 10 + digit_value(
            s.last(),
            10,
        ).unwrap());
    } else {
        lemma_decimal_digits(n / 10);
        let s = decimal(n);
        assert(n / 10 * 10 + n % 10 == n);
        assert(s.last() == c);
        assert(digits_value(s, 10) == digits_value(s.drop_last(), 10) * 10 + digit_value(
            s.last(),
            10,
        ).unwrap());
        assert(s.drop_last() == decimal(n / 10));
        assert forall|i: int| 0 <= i < s.len() implies (#[trigger] digit_value(s[i], 10)) is Some by {
            if i < s.len() - 1 {
                assert(s[i] == decimal(n / 10)[i]);
            }
        }
    }
}

/// A number that parses under one bound parses, to the same value, under any
/// other bound that holds it.
pub proof fn lemma_parse_uint_bound(s: Seq<char>, radix: nat, max1: nat, max2: nat)
    requires
        parse_uint(s, radix, max1) is Some,
        parse_uint(s, radix, max1)->0 <= max2,
    ensures
        parse_uint(s, radix, max2) == parse_uint(s, radix, max1),
{
}

} // verus!
