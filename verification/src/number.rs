//! Decimal numerals: writing integers as text and reading them back.

use vstd::prelude::*;

use crate::text::{digit, is_digit};

verus! {

/// The digit character of `d`, which is below ten.
pub open spec fn digit_char(d: nat) -> char {
    ('0' as u8 + d) as char
}

/// The number that the digit `c` stands for.
pub open spec fn digit_value(c: char) -> nat {
    (c as u8 - '0' as u8) as nat
}

/// `n` in decimal, without leading zeros.
pub open spec fn decimal(n: nat) -> Seq<char>
    decreases n,
{
    if n < 10 {
        seq![digit_char(n)]
    } else {
        decimal(n / 10).push(digit_char(n % 10))
    }
}

/// `n` in decimal, with a minus sign where it is negative.
pub open spec fn signed_decimal(n: int) -> Seq<char> {
    if n < 0 {
        seq!['-'] + decimal((-n) as nat)
    } else {
        decimal(n as nat)
    }
}

/// Appends `n` in decimal.
pub fn push_decimal(v: &mut Vec<char>, n: u64)
    ensures
        final(v)@ == old(v)@ + decimal(n as nat),
    decreases n,
{
    if n >= 10 {
        push_decimal(v, n / 10);
    }
    let d: u8 = (n % 10) as u8;
    v.push(('0' as u8 + d) as char);
    assert(v@ == old(v)@ + decimal(n as nat));
}

/// Appends `n` in decimal, with a minus sign where it is negative.
pub fn push_signed(v: &mut Vec<char>, n: i64)
    ensures
        final(v)@ == old(v)@ + signed_decimal(n as int),
{
    if n < 0 {
        v.push('-');
        let magnitude: u64 = (-(n as i128)) as u64;
        push_decimal(v, magnitude);
        assert(v@ == old(v)@ + signed_decimal(n as int));
    } else {
        push_decimal(v, n as u64);
    }
}

/// Every character of `s` is a digit.
pub open spec fn only_digits(s: Seq<char>) -> bool {
    forall|i: int| 0 <= i < s.len() ==> is_digit(#[trigger] s[i])
}

/// The first `n` digits of `s`, filled up with zeros.
pub open spec fn padded(s: Seq<char>, n: nat) -> Seq<char> {
    Seq::new(
        n,
        |i: int|
            if i < s.len() {
                s[i]
            } else {
                '0'
            },
    )
}

/// One or more digits and nothing else.
pub open spec fn all_digits(s: Seq<char>) -> bool {
    s.len() > 0 && forall|i: int| 0 <= i < s.len() ==> is_digit(#[trigger] s[i])
}

/// The number that the digits `s` stand for.
pub open spec fn digits_value(s: Seq<char>) -> nat
    decreases s.len(),
{
    if s.len() == 0 {
        0
    } else {
        digits_value(s.drop_last()) * 10 + digit_value(s.last())
    }
}

/// Reading back what was written gives the number.
pub proof fn lemma_decimal_value(n: nat)
    ensures
        all_digits(decimal(n)),
        digits_value(decimal(n)) == n,
    decreases n,
{
    if n < 10 {
        let s = decimal(n);
        assert(s.drop_last() =~= Seq::empty());
        assert(digits_value(s) == digits_value(s.drop_last()) * 10 + digit_value(s.last()));
    } else {
        lemma_decimal_value(n / 10);
        let s = decimal(n);
        assert(s.drop_last() =~= decimal(n / 10));
        assert forall|i: int| 0 <= i < s.len() implies is_digit(#[trigger] s[i]) by {
            if i < s.len() - 1 {
                assert(s[i] == decimal(n / 10)[i]);
            }
        }
    }
}

/// Two numbers in decimal with a separator between them give both numbers back,
/// where the separator is no digit.
pub proof fn lemma_decimal_pair(a: nat, b: nat, c: nat, d: nat, separator: char)
    requires
        !is_digit(separator),
        decimal(a).push(separator) + decimal(b) == decimal(c).push(separator) + decimal(d),
    ensures
        a == c,
        b == d,
{
    lemma_decimal_value(a);
    lemma_decimal_value(b);
    lemma_decimal_value(c);
    lemma_decimal_value(d);
    let s = decimal(a).push(separator) + decimal(b);
    let t = decimal(c).push(separator) + decimal(d);
    let m = decimal(a).len() as int;
    let n = decimal(c).len() as int;
    assert(s[m] == separator && t[n] == separator);
    if m < n {
        assert(t[m] == decimal(c)[m]);
    }
    if n < m {
        assert(s[n] == decimal(a)[n]);
    }
    assert(s.take(m) =~= decimal(a));
    assert(t.take(n) =~= decimal(c));
    assert(s.skip(m + 1) =~= decimal(b));
    assert(t.skip(n + 1) =~= decimal(d));
}

/// A numeral with an optional plus sign.
pub open spec fn unsigned_numeral(s: Seq<char>) -> Option<nat> {
    let digits = if s.len() > 0 && s[0] == '+' {
        s.skip(1)
    } else {
        s
    };
    if all_digits(digits) {
        Some(digits_value(digits))
    } else {
        None
    }
}

/// A numeral with an optional plus or minus sign.
pub open spec fn signed_numeral(s: Seq<char>) -> Option<int> {
    if s.len() > 0 && s[0] == '-' {
        if all_digits(s.skip(1)) {
            Some(-(digits_value(s.skip(1)) as int))
        } else {
            None
        }
    } else {
        match unsigned_numeral(s) {
            Some(n) => Some(n as int),
            None => None,
        }
    }
}

/// The `u32` that `s` is a numeral of.
pub open spec fn u32_of(s: Seq<char>) -> Option<u32> {
    match unsigned_numeral(s) {
        Some(n) => if n <= u32::MAX {
            Some(n as u32)
        } else {
            None
        },
        None => None,
    }
}

/// The `i32` that `s` is a numeral of.
pub open spec fn i32_of(s: Seq<char>) -> Option<i32> {
    match signed_numeral(s) {
        Some(n) => if i32::MIN <= n <= i32::MAX {
            Some(n as i32)
        } else {
            None
        },
        None => None,
    }
}

/// The `i64` that `s` is a numeral of.
pub open spec fn i64_of(s: Seq<char>) -> Option<i64> {
    match signed_numeral(s) {
        Some(n) => if i64::MIN <= n <= i64::MAX {
            Some(n as i64)
        } else {
            None
        },
        None => None,
    }
}

/// More digits never make a number smaller.
pub proof fn lemma_digits_grow(s: Seq<char>, n: int)
    requires
        0 <= n <= s.len(),
    ensures
        digits_value(s.take(n)) <= digits_value(s),
    decreases s.len() - n,
{
    if n == s.len() {
        assert(s.take(n) == s);
    } else {
        lemma_digits_grow(s, n + 1);
        assert(s.take(n + 1).drop_last() == s.take(n));
    }
}

/// Reads the digits of `v` from `from` on, where they make a number of at most
/// `max`.
pub fn read_digits(v: &Vec<char>, from: usize, max: u64) -> (r: Option<u64>)
    requires
        from <= v.len(),
    ensures
        ({
            let s = v@.skip(from as int);
            match r {
                Some(n) => all_digits(s) && n == digits_value(s) && n <= max,
                None => !(all_digits(s) && digits_value(s) <= max),
            }
        }),
{
    let ghost s = v@.skip(from as int);
    if from == v.len() {
        return None;
    }
    let mut n: u64 = 0;
    let mut i: usize = from;
    while i < v.len()
        invariant
            from <= i <= v.len(),
            s == v@.skip(from as int),
            forall|k: int| 0 <= k < i - from ==> is_digit(#[trigger] s[k]),
            n == digits_value(s.take(i - from)),
            n <= max,
        decreases v.len() - i,
    {
        let c = v[i];
        assert(s[i - from] == c);
        if !digit(c) {
            return None;
        }
        let d: u8 = c as u8 - '0' as u8;
        let next: u128 = (n as u128) * 10 + d as u128;
        proof {
            assert(s.take(i - from + 1).drop_last() == s.take(i - from));
            assert(next == digits_value(s.take(i - from + 1)));
        }
        if next > max as u128 {
            proof {
                lemma_digits_grow(s, i - from + 1);
            }
            return None;
        }
        n = next as u64;
        i += 1;
    }
    assert(s.take(s.len() as int) == s);
    Some(n)
}

/// Reads an unsigned numeral that is at most `max`.
fn read_unsigned(v: &Vec<char>, max: u64) -> (r: Option<u64>)
    ensures
        match r {
            Some(n) => unsigned_numeral(v@) == Some(n as nat) && n <= max,
            None => match unsigned_numeral(v@) {
                Some(n) => n > max,
                None => true,
            },
        },
{
    if v.len() > 0 && v[0] == '+' {
        read_digits(v, 1, max)
    } else {
        assert(v@.skip(0) == v@);
        read_digits(v, 0, max)
    }
}

/// Reads a numeral as a `u32`.
pub fn parse_u32(v: &Vec<char>) -> (r: Option<u32>)
    ensures
        r == u32_of(v@),
{
    match read_unsigned(v, u32::MAX as u64) {
        Some(n) => Some(n as u32),
        None => None,
    }
}

/// Reads a numeral as an `i64`.
pub fn parse_i64(v: &Vec<char>) -> (r: Option<i64>)
    ensures
        r == i64_of(v@),
{
    if v.len() > 0 && v[0] == '-' {
        match read_digits(v, 1, 0x8000_0000_0000_0000) {
            Some(n) => Some((-(n as i128)) as i64),
            None => None,
        }
    } else {
        match read_unsigned(v, i64::MAX as u64) {
            Some(n) => Some(n as i64),
            None => None,
        }
    }
}

/// Reads a numeral as an `i32`.
pub fn parse_i32(v: &Vec<char>) -> (r: Option<i32>)
    ensures
        r == i32_of(v@),
{
    match parse_i64(v) {
        Some(n) => if (i32::MIN as i64) <= n && n <= i32::MAX as i64 {
            Some(n as i32)
        } else {
            None
        },
        None => None,
    }
}

/// A number is read back as it is written, with or without a plus sign, as long as it is in
/// range; what is out of range is no number.
pub proof fn law_numbers_read_back(n: int)
    ensures
        n >= 0 ==> u32_of(decimal(n as nat)) == if n <= 0xffff_ffff {
            Some(n as u32)
        } else {
            None
        },
        n >= 0 ==> u32_of(seq!['+'] + decimal(n as nat)) == u32_of(decimal(n as nat)),
        i32_of(signed_decimal(n)) == if -0x8000_0000 <= n <= 0x7fff_ffff {
            Some(n as i32)
        } else {
            None
        },
        i64_of(signed_decimal(n)) == if -0x8000_0000_0000_0000 <= n <= 0x7fff_ffff_ffff_ffff {
            Some(n as i64)
        } else {
            None
        },
        u32_of(Seq::empty()) is None,
        i32_of(Seq::empty()) is None,
        i64_of(Seq::empty()) is None,
{
    let m = if n < 0 {
        (-n) as nat
    } else {
        n as nat
    };
    lemma_decimal_value(m);
    assert(is_digit(decimal(m)[0]));
    assert((seq!['+'] + decimal(m)).skip(1) =~= decimal(m));
    assert((seq!['-'] + decimal(m)).skip(1) =~= decimal(m));
}

} // verus!
