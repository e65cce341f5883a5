//! Recognition confidences: decimal numerals, rounded to whole percents as a
//! single-precision reading of them rounds.

use vstd::arithmetic::power2::{lemma2_to64, lemma_pow2_adds, pow2};
use vstd::prelude::*;

use crate::double::{lemma_pow10_pos, pow10};
use crate::number::{all_digits, digit_value, digits_value, only_digits, padded, signed_numeral};
use crate::text::{
    append_chars, chars_of, digit, is_digit, lower, pieces, same_chars, slice_chars, split_pieces,
    to_lower,
};

verus! {

/// One, in the unit in which numerals are compared.
pub const ONE: u128 = 100_000_000_000_000_000_000_000_000;

/// How many decimal places that unit has.
pub const PLACES: u32 = 26;

/// A hundred, in the same unit.
pub const HUNDRED: u128 = 10_000_000_000_000_000_000_000_000_000;

/// The power of five with which `2^-150` is a number of 150 decimal places: 105 digits,
/// in three blocks of 35.
const FIRST_BLOCK: u128 = 70_064_923_216_240_853_546_186_479_164_495_806;

const SECOND_BLOCK: u128 = 56_401_309_709_382_578_858_785_341_419_448_955;

const THIRD_BLOCK: u128 = 41_342_930_300_743_319_094_181_060_791_015_625;

/// Ten to the power of 35.
const BLOCK: u128 = 100_000_000_000_000_000_000_000_000_000_000_000;

/// An exponent so large that its exact size does not matter.
const FAR: u128 = 1_000_000_000_000_000_000_000_000_000_000;

/// The digits of `s` and where their point stands: digits with at most one
/// point among or around them.
pub open spec fn mantissa_of(s: Seq<char>) -> Option<(Seq<char>, int)> {
    let parts = pieces(s, '.');
    let digits = if parts.len() == 2 {
        parts[0] + parts[1]
    } else {
        parts[0]
    };
    if parts.len() <= 2 && all_digits(digits) {
        Some((digits, parts[0].len() as int))
    } else {
        None
    }
}

/// The digits of the numeral `s` and where their point stands, with the exponent
/// taken into account. Letters are in lower case.
pub open spec fn numeral_of(s: Seq<char>) -> Option<(Seq<char>, int)> {
    let parts = pieces(s, 'e');
    match mantissa_of(parts[0]) {
        Some((digits, point)) => if parts.len() == 1 {
            Some((digits, point))
        } else if parts.len() == 2 {
            match signed_numeral(parts[1]) {
                Some(exponent) => Some((digits, point + exponent)),
                None => None,
            }
        } else {
            None
        },
        None => None,
    }
}

/// The number that the first `n` of `digits` make, counting zeros behind them.
pub open spec fn leading(digits: Seq<char>, n: int) -> nat {
    if n <= 0 {
        0
    } else {
        digits_value(padded(digits, n as nat))
    }
}

/// By how little a number may fall short of `k` and a half and still be read as
/// that: half the gap from there to the next smaller single-precision number.
pub open spec fn shortfall(k: int) -> int {
    if k == 0 {
        ONE as int / 67_108_864
    } else if k < 2 {
        ONE as int / 16_777_216
    } else if k < 4 {
        ONE as int / 8_388_608
    } else if k < 8 {
        ONE as int / 4_194_304
    } else if k < 16 {
        ONE as int / 2_097_152
    } else if k < 32 {
        ONE as int / 1_048_576
    } else if k < 64 {
        ONE as int / 524_288
    } else {
        ONE as int / 262_144
    }
}

/// The smallest number that rounds to more than `k`.
pub open spec fn rounds_above(k: int) -> int {
    k * ONE + ONE as int / 2 - shortfall(k)
}

/// The whole percents, up to `n`, that `x` rounds to.
pub open spec fn percents(x: int, n: nat) -> nat
    decreases n,
{
    if n == 0 {
        0
    } else if x >= rounds_above(n - 1) {
        n
    } else {
        percents(x, (n - 1) as nat)
    }
}

/// `s` without a sign.
pub open spec fn unsigned(s: Seq<char>) -> Seq<char> {
    if s.len() > 0 && (s[0] == '+' || s[0] == '-') {
        s.skip(1)
    } else {
        s
    }
}

/// `s` starts with a minus sign.
pub open spec fn negative(s: Seq<char>) -> bool {
    s.len() > 0 && s[0] == '-'
}

/// The number with these digits and this point is more than `2^-150`, after `k` decimal
/// places.
pub open spec fn shows_after(digits: Seq<char>, point: int, k: nat) -> bool {
    leading(digits, point + k) * pow2(150) > pow10(k)
}

/// The number with these digits and this point is more than `2^-150`. What is not is read
/// as zero in single precision: the smallest number there is `2^-149`, and from half of
/// it the even neighbour is taken.
pub open spec fn shows(digits: Seq<char>, point: int) -> bool {
    exists|k: nat| #[trigger] shows_after(digits, point, k)
}

/// Some digit of `s` is not zero.
spec fn nonzero(s: Seq<char>) -> bool {
    digits_value(s) != 0
}

/// The confidence from 0 to 100 that `s` states. There is none where `s` is no
/// number or is below zero, which a number too small to be told from zero is not. What is
/// too large is taken for 100, and what is not a number by its own account for 0.
pub open spec fn confidence_of(s: Seq<char>) -> Option<u8> {
    let body = lower(unsigned(s));
    if body == "inf"@ || body == "infinity"@ {
        if negative(s) {
            None
        } else {
            Some(100)
        }
    } else if body == "nan"@ {
        Some(0)
    } else {
        match numeral_of(body) {
            Some((digits, point)) => if negative(s) && shows(digits, point) {
                None
            } else {
                Some(percents(leading(digits, point + PLACES) as int, 100) as u8)
            },
            None => None,
        }
    }
}

/// Leading digits make numbers that never shrink.
proof fn lemma_leading_grows(digits: Seq<char>, m: int, n: int)
    requires
        m <= n,
    ensures
        leading(digits, m) <= leading(digits, n),
    decreases n - m,
{
    if m < n {
        lemma_leading_grows(digits, m, n - 1);
        if n > 0 {
            lemma_leading_next(digits, n - 1);
        }
    }
}

/// One digit more.
proof fn lemma_leading_next(digits: Seq<char>, n: int)
    requires
        n >= 0,
    ensures
        leading(digits, n + 1) == leading(digits, n) * 10 + digit_value(
            if n < digits.len() {
                digits[n]
            } else {
                '0'
            },
        ),
{
    let longer = padded(digits, (n + 1) as nat);
    assert(longer.drop_last() =~= padded(digits, n as nat));
    assert(digits_value(longer) == digits_value(longer.drop_last()) * 10 + digit_value(
        longer.last(),
    ));
    if n == 0 {
        assert(padded(digits, 0) =~= Seq::empty());
    }
}

/// All the digits there are make the number of the digits.
proof fn lemma_leading_all(digits: Seq<char>)
    ensures
        leading(digits, digits.len() as int) == digits_value(digits),
{
    assert(padded(digits, digits.len()) =~= digits);
}

/// Behind the last digit, every place multiplies by ten.
proof fn lemma_leading_shift(digits: Seq<char>, n: nat)
    ensures
        leading(digits, (digits.len() + n) as int) == digits_value(digits) * pow10(n),
    decreases n,
{
    if n == 0 {
        lemma_leading_all(digits);
        let v = digits_value(digits);
        assert(v * 1 == v);
    } else {
        lemma_leading_shift(digits, (n - 1) as nat);
        lemma_leading_next(digits, digits.len() + n - 1);
        let v = digits_value(digits);
        let t = pow10((n - 1) as nat);
        assert(v * t * 10 == v * (10 * t)) by (nonlinear_arith);
    }
}

/// Far behind the last digit, only whether some digit is not zero counts.
proof fn lemma_leading_far(digits: Seq<char>, n: int)
    requires
        n >= digits.len() + 28,
    ensures
        nonzero(digits) ==> leading(digits, n) >= HUNDRED,
        !nonzero(digits) ==> leading(digits, n) == 0,
{
    lemma_leading_shift(digits, (n - digits.len()) as nat);
    let v = digits_value(digits);
    if v == 0 {
        assert(v * pow10((n - digits.len()) as nat) == 0) by (nonlinear_arith)
            requires
                v == 0,
        ;
    } else {
        lemma_leading_shift(digits, 28);
        lemma_leading_grows(digits, (digits.len() + 28) as int, n);
        reveal_with_fuel(pow10, 29);
        assert(pow10(28) == HUNDRED);
        assert(v * pow10(28) >= pow10(28)) by (nonlinear_arith)
            requires
                v >= 1,
        ;
    }
}

/// The smaller of `x` and a hundred.
spec fn capped(x: int) -> int {
    if x < HUNDRED {
        x
    } else {
        HUNDRED as int
    }
}

/// The number that the first `n` of `digits` make, up to a hundred.
fn read_leading(digits: &Vec<char>, n: i128) -> (r: u128)
    requires
        only_digits(digits@),
    ensures
        r == capped(leading(digits@, n as int) as int),
{
    let mut value: u128 = 0;
    let mut i: i128 = 0;
    assert(padded(digits@, 0) =~= Seq::empty());
    while i < n
        invariant
            only_digits(digits@),
            0 <= i,
            i <= n || i == 0,
            value == leading(digits@, i as int),
            value < HUNDRED,
        decreases n - i,
    {
        proof {
            lemma_leading_next(digits@, i as int);
            lemma_leading_grows(digits@, i + 1, n as int);
        }
        let d: u8 = if i < digits.len() as i128 {
            let c = digits[i as usize];
            assert(is_digit(digits@[i as int]));
            c as u8 - '0' as u8
        } else {
            0
        };
        if i >= digits.len() as i128 && value == 0 {
            proof {
                lemma_leading_shift(digits@, (i - digits@.len()) as nat);
                lemma_leading_shift(digits@, (n - digits@.len()) as nat);
                lemma_pow10_pos((i - digits@.len()) as nat);
                let v = digits_value(digits@);
                let t = pow10((i - digits@.len()) as nat);
                let u = pow10((n - digits@.len()) as nat);
                assert(v == 0) by (nonlinear_arith)
                    requires
                        v * t == 0,
                        t >= 1,
                        v >= 0,
                ;
                assert(v * u == 0) by (nonlinear_arith)
                    requires
                        v == 0,
                ;
            }
            return 0;
        }
        value = value * 10 + d as u128;
        if value >= HUNDRED {
            return HUNDRED;
        }
        i += 1;
    }
    value
}

/// The digit at place `i`; there are zeros on either side of the digits.
spec fn digit_at(digits: Seq<char>, i: int) -> nat {
    if 0 <= i < digits.len() {
        digit_value(digits[i])
    } else {
        0
    }
}

/// The number that the `m` digits from place `n` on make.
spec fn block(digits: Seq<char>, n: int, m: nat) -> nat
    decreases m,
{
    if m == 0 {
        0
    } else {
        block(digits, n, (m - 1) as nat) * 10 + digit_at(digits, n + m - 1)
    }
}

/// Leading digits followed by a block are leading digits.
proof fn lemma_block(digits: Seq<char>, n: int, m: nat)
    requires
        only_digits(digits),
    ensures
        leading(digits, n + m) == leading(digits, n) * pow10(m) + block(digits, n, m),
        block(digits, n, m) < pow10(m),
    decreases m,
{
    let x = leading(digits, n);
    if m == 0 {
        assert(x * 1 == x);
    } else {
        let l = (m - 1) as nat;
        lemma_block(digits, n, l);
        let t = pow10(l);
        let b = block(digits, n, l);
        let d = digit_at(digits, n + l);
        if 0 <= n + l < digits.len() {
            assert(is_digit(digits[n + l]));
        }
        assert(d <= 9);
        if n + l >= 0 {
            lemma_leading_next(digits, n + l);
        }
        assert(leading(digits, n + m) == leading(digits, n + l) * 10 + d);
        assert((x * t + b) * 10 + d == x * (10 * t) + (b * 10 + d)) by (nonlinear_arith);
    }
}

/// The power of five, `2^150` and `10^150`.
proof fn lemma_five() -> (five: nat)
    ensures
        five == FIRST_BLOCK * (BLOCK * BLOCK) + SECOND_BLOCK * BLOCK + THIRD_BLOCK,
        pow10(35) == BLOCK,
        pow10(150) == five * pow2(150),
        pow10(45) < pow2(150) <= pow10(46),
{
    let five = (FIRST_BLOCK * (BLOCK * BLOCK) + SECOND_BLOCK * BLOCK + THIRD_BLOCK) as nat;
    lemma2_to64();
    lemma_pow2_adds(64, 64);
    lemma_pow2_adds(128, 22);
    reveal_with_fuel(pow10, 47);
    let two = pow2(150);
    assert(two == 1_427_247_692_705_959_881_058_285_969_449_495_136_382_746_624);
    let ten = pow10(15);
    let power = pow10(150);
    assert(power == ten * (ten * (ten * (ten * (ten * (ten * (ten * (ten * (ten * ten))))))))) by {
        lemma_pow10_adds(15, 15);
        lemma_pow10_adds(15, 30);
        lemma_pow10_adds(15, 45);
        lemma_pow10_adds(15, 60);
        lemma_pow10_adds(15, 75);
        lemma_pow10_adds(15, 90);
        lemma_pow10_adds(15, 105);
        lemma_pow10_adds(15, 120);
        lemma_pow10_adds(15, 135);
    }
    let first = FIRST_BLOCK as int;
    let second = SECOND_BLOCK as int;
    let third = THIRD_BLOCK as int;
    let block = BLOCK as int;
    assert(power == five * two) by (nonlinear_arith)
        requires
            five == first * (block * block) + second * block + third,
            first == 70_064_923_216_240_853_546_186_479_164_495_806,
            second == 56_401_309_709_382_578_858_785_341_419_448_955,
            third == 41_342_930_300_743_319_094_181_060_791_015_625,
            block == 100_000_000_000_000_000_000_000_000_000_000_000,
            two == 1_427_247_692_705_959_881_058_285_969_449_495_136_382_746_624,
            power == ten * (ten * (ten * (ten * (ten * (ten * (ten * (ten * (ten * ten)))))))),
            ten == 1_000_000_000_000_000,
    ;
    five
}

/// A number that shows after some places shows after more.
proof fn lemma_keeps_showing(digits: Seq<char>, point: int, k: nat, l: nat)
    requires
        only_digits(digits),
        shows_after(digits, point, k),
        k <= l,
    ensures
        shows_after(digits, point, l),
{
    let m = (l - k) as nat;
    lemma_block(digits, point + k, m);
    lemma_pow10_adds(k, m);
    lemma_pow10_pos(m);
    let x = leading(digits, point + k) as int;
    let b = block(digits, point + k, m) as int;
    let t = pow10(m) as int;
    let u = pow10(k) as int;
    let p = pow2(150) as int;
    assert((x * t + b) * p > u * t) by (nonlinear_arith)
        requires
            x * p > u,
            t > 0,
            b >= 0,
            p >= 0,
    ;
}

/// Powers multiply where exponents add.
pub proof fn lemma_pow10_adds(j: nat, k: nat)
    ensures
        pow10(j + k) == pow10(j) * pow10(k),
    decreases k,
{
    let x = pow10(j);
    if k == 0 {
        assert(x * 1 == x);
    } else {
        lemma_pow10_adds(j, (k - 1) as nat);
        let y = pow10((k - 1) as nat);
        assert(10 * (x * y) == x * (10 * y)) by (nonlinear_arith);
    }
}

/// Behind 150 places the comparison is one with the power of five.
proof fn lemma_shows_behind(digits: Seq<char>, point: int, j: nat, five: nat)
    requires
        only_digits(digits),
        pow10(150) == five * pow2(150),
    ensures
        shows_after(digits, point, 150 + j) <==> leading(digits, point + 150 + j) > five * pow10(j),
{
    lemma_pow10_adds(150, j);
    vstd::arithmetic::power2::lemma_pow2_pos(150);
    let x = leading(digits, point + 150 + j);
    let t = pow10(j);
    let p = pow2(150);
    assert((x * p > (five * p) * t) <==> x > five * t) by (nonlinear_arith)
        requires
            p > 0,
    ;
}

/// Which of the digits decide whether a number shows.
proof fn lemma_decided(digits: Seq<char>, point: int, five: nat)
    requires
        only_digits(digits),
        pow10(150) == five * pow2(150),
    ensures
        leading(digits, point + 150) > five ==> shows(digits, point),
        leading(digits, point + 150) < five ==> !shows(digits, point),
        leading(digits, point + 150) == five ==> (shows(digits, point) <==> exists|j: nat|
            #[trigger] block(digits, point + 150, j) > 0),
{
    let x = leading(digits, point + 150);
    lemma_shows_behind(digits, point, 0, five);
    assert(five * 1 == five);
    if x == five {
        if shows(digits, point) {
            let k = choose|k: nat| #[trigger] shows_after(digits, point, k);
            lemma_keeps_showing(digits, point, k, 150 + k);
            lemma_shows_behind(digits, point, k, five);
            lemma_block(digits, point + 150, k);
            assert(block(digits, point + 150, k) > 0);
        }
        assert forall|j: nat| #[trigger] block(digits, point + 150, j) > 0 implies shows(
            digits,
            point,
        ) by {
            lemma_shows_behind(digits, point, j, five);
            lemma_block(digits, point + 150, j);
            assert(shows_after(digits, point, 150 + j));
        }
    } else if x < five && shows(digits, point) {
        let k = choose|k: nat| #[trigger] shows_after(digits, point, k);
        lemma_keeps_showing(digits, point, k, 150 + k);
        lemma_shows_behind(digits, point, k, five);
        lemma_block(digits, point + 150, k);
        let t = pow10(k);
        let b = block(digits, point + 150, k);
        assert(x * t + b <= five * t) by (nonlinear_arith)
            requires
                x + 1 <= five,
                b < t,
        ;
    } else if x > five {
        assert(shows_after(digits, point, 150));
    }
}

/// A number whose point is far off shows if it is not zero, or not at all.
proof fn lemma_shows_far(digits: Seq<char>, point: int)
    requires
        only_digits(digits),
    ensures
        point >= digits.len() ==> (shows(digits, point) <==> nonzero(digits)),
        point <= -46 ==> !shows(digits, point),
{
    let five = lemma_five();
    if point >= digits.len() {
        if nonzero(digits) {
            let k = digits.len();
            lemma_leading_all(digits);
            lemma_block(digits, k as int, point as nat);
            lemma_pow10_adds(k, (point - k) as nat);
            lemma_pow10_pos(k);
            lemma_pow10_pos((point - k) as nat);
            let v = digits_value(digits) as int;
            let t = pow10(k) as int;
            let u = pow10((point - k) as nat) as int;
            let b = block(digits, k as int, point as nat) as int;
            let p = pow2(150) as int;
            assert(p > 1) by {
                lemma_pow10_pos(45);
            }
            assert((v * (t * u) + b) * p > t) by (nonlinear_arith)
                requires
                    v >= 1,
                    t >= 1,
                    u >= 1,
                    b >= 0,
                    p > 1,
            ;
            assert(shows_after(digits, point, k));
        } else if shows(digits, point) {
            let k = choose|k: nat| #[trigger] shows_after(digits, point, k);
            lemma_leading_shift(digits, (point + k - digits.len()) as nat);
            let v = digits_value(digits);
            let t = pow10((point + k - digits.len()) as nat);
            assert(v * t == 0) by (nonlinear_arith)
                requires
                    v == 0,
            ;
            assert(0 * pow2(150) == 0);
            lemma_pow10_pos(k);
        }
    }
    if point <= -46 && shows(digits, point) {
        let k = choose|k: nat| #[trigger] shows_after(digits, point, k);
        lemma_pow10_pos(k);
        let p = pow2(150) as int;
        if point + k <= 0 {
            assert(0 * pow2(150) == 0);
        } else {
            let n = (point + k) as nat;
            lemma_block(digits, 0, n);
            assert(0 * pow10(n) == 0);
            lemma_pow10_adds(n, 46);
            lemma_pow10_adds(n + 46, (-point - 46) as nat);
            lemma_pow10_pos((-point - 46) as nat);
            lemma_pow10_pos(n + 46);
            let x = leading(digits, n as int) as int;
            let t = pow10(n) as int;
            let u = pow10(46) as int;
            let w = pow10((-point - 46) as nat) as int;
            assert(x * p <= t * u) by (nonlinear_arith)
                requires
                    0 <= x < t,
                    0 <= p <= u,
            ;
            assert(t * u <= (t * u) * w) by (nonlinear_arith)
                requires
                    t * u > 0,
                    w >= 1,
            ;
        }
    }
}

/// The number that 35 digits from place `n` on make.
fn read_block(digits: &Vec<char>, n: i128) -> (r: u128)
    requires
        only_digits(digits@),
        -0x1_0000_0000_0000_0000_0000_0000_0000 < n < 0x1_0000_0000_0000_0000_0000_0000_0000,
    ensures
        r == block(digits@, n as int, 35),
{
    let mut value: u128 = 0;
    let mut i: u8 = 0;
    while i < 35
        invariant
            only_digits(digits@),
            -0x1_0000_0000_0000_0000_0000_0000_0000 < n < 0x1_0000_0000_0000_0000_0000_0000_0000,
            i <= 35,
            value == block(digits@, n as int, i as nat),
            value < pow10(i as nat),
        decreases 35 - i,
    {
        let at: i128 = n + i as i128;
        let d: u8 = if 0 <= at && at < digits.len() as i128 {
            let c = digits[at as usize];
            assert(is_digit(digits@[at as int]));
            c as u8 - '0' as u8
        } else {
            0
        };
        proof {
            lemma_small_power(i as nat);
        }
        value = value * 10 + d as u128;
        i += 1;
    }
    value
}

/// Powers of ten below the 35th are within bounds.
proof fn lemma_small_power(n: nat)
    requires
        n < 35,
    ensures
        pow10(n) <= BLOCK,
{
    let five = lemma_five();
    lemma_pow10_adds(n, (35 - n) as nat);
    lemma_pow10_pos((35 - n) as nat);
    let x = pow10(n);
    let y = pow10((35 - n) as nat);
    assert(x <= x * y) by (nonlinear_arith)
        requires
            y >= 1,
    ;
}

/// Whether some digit from place `n` on is not zero.
fn some_digit_from(digits: &Vec<char>, n: i128) -> (r: bool)
    requires
        only_digits(digits@),
    ensures
        r <==> exists|j: nat| #[trigger] block(digits@, n as int, j) > 0,
{
    let mut i: usize = 0;
    while i < digits.len()
        invariant
            only_digits(digits@),
            i <= digits.len(),
            forall|k: int| n <= k < i ==> digit_at(digits@, k) == 0,
        decreases digits.len() - i,
    {
        if i as i128 >= n && digits[i] != '0' {
            proof {
                assert(is_digit(digits@[i as int]));
                assert(digit_at(digits@, i as int) > 0);
                assert(block(digits@, n as int, (i - n + 1) as nat) > 0);
            }
            return true;
        }
        i += 1;
    }
    proof {
        assert forall|j: nat| #[trigger] block(digits@, n as int, j) == 0 by {
            lemma_empty_block(digits@, n as int, j);
        }
    }
    false
}

/// Zeros make zero.
proof fn lemma_empty_block(digits: Seq<char>, n: int, m: nat)
    requires
        forall|k: int| n <= k < digits.len() ==> digit_at(digits, k) == 0,
    ensures
        block(digits, n, m) == 0,
    decreases m,
{
    if m > 0 {
        lemma_empty_block(digits, n, (m - 1) as nat);
        let k = n + m - 1;
        if k < digits.len() {
            assert(digit_at(digits, k) == 0);
        }
    }
}

/// Whether the number with these digits and this point is more than `2^-150`.
fn is_shown(digits: &Vec<char>, point: i128) -> (r: bool)
    requires
        only_digits(digits@),
        -0x1000_0000_0000_0000_0000_0000_0000 < point < 0x1000_0000_0000_0000_0000_0000_0000,
    ensures
        r == shows(digits@, point as int),
{
    let front = read_leading(digits, point + 45);
    let first = read_block(digits, point + 45);
    let second = read_block(digits, point + 80);
    let third = read_block(digits, point + 115);
    let ghost x = leading(digits@, point + 45) as int;
    proof {
        let five = lemma_five();
        lemma_block(digits@, point + 45, 35);
        lemma_block(digits@, point + 80, 35);
        lemma_block(digits@, point + 115, 35);
        lemma_decided(digits@, point as int, five);
        let b = BLOCK as int;
        assert(leading(digits@, point + 150) == ((x * b + first) * b + second) * b + third);
        if x > 0 {
            let p = pow2(150) as int;
            assert(x * p >= p) by (nonlinear_arith)
                requires
                    x >= 1,
                    p >= 0,
            ;
            assert(shows_after(digits@, point as int, 45));
        } else {
            assert(x * b == 0) by (nonlinear_arith)
                requires
                    x == 0,
            ;
        }
    }
    if front != 0 {
        return true;
    }
    if first != FIRST_BLOCK {
        return first > FIRST_BLOCK;
    }
    if second != SECOND_BLOCK {
        return second > SECOND_BLOCK;
    }
    if third != THIRD_BLOCK {
        return third > THIRD_BLOCK;
    }
    some_digit_from(digits, point + 150)
}

/// Reads digits from `from` on, exactly up to `FAR`.
fn read_far(v: &Vec<char>, from: usize) -> (r: Option<u128>)
    requires
        from <= v.len(),
    ensures
        ({
            let s = v@.skip(from as int);
            match r {
                Some(n) => {
                    &&& all_digits(s)
                    &&& n < FAR ==> n == digits_value(s)
                    &&& n >= FAR ==> digits_value(s) >= FAR && n < 10 * FAR
                },
                None => !all_digits(s),
            }
        }),
{
    let ghost s = v@.skip(from as int);
    if from == v.len() {
        return None;
    }
    let mut n: u128 = 0;
    let mut i: usize = from;
    while i < v.len()
        invariant
            from <= i <= v.len(),
            s == v@.skip(from as int),
            forall|k: int| 0 <= k < i - from ==> is_digit(#[trigger] s[k]),
            n < FAR ==> n == digits_value(s.take(i - from)),
            n >= FAR ==> digits_value(s.take(i - from)) >= FAR && n < 10 * FAR,
        decreases v.len() - i,
    {
        let c = v[i];
        assert(s[i - from] == c);
        if !digit(c) {
            return None;
        }
        assert(s.take(i - from + 1).drop_last() == s.take(i - from));
        if n < FAR {
            n = n * 10 + (c as u8 - '0' as u8) as u128;
        }
        i += 1;
    }
    assert(s.take(s.len() as int) == s);
    Some(n)
}

/// Reads a signed exponent as a sign and a size, exactly up to `FAR`.
fn read_exponent(v: &Vec<char>) -> (r: Option<(bool, u128)>)
    ensures
        match (r, signed_numeral(v@)) {
            (Some((minus, size)), Some(exponent)) => {
                let e = if minus {
                    -exponent
                } else {
                    exponent
                };
                &&& size < FAR ==> e == size
                &&& size >= FAR ==> e >= FAR && size < 10 * FAR
            },
            (None, None) => true,
            _ => false,
        },
{
    if v.len() > 0 && v[0] == '-' {
        match read_far(v, 1) {
            Some(size) => Some((true, size)),
            None => None,
        }
    } else if v.len() > 0 && v[0] == '+' {
        match read_far(v, 1) {
            Some(size) => Some((false, size)),
            None => None,
        }
    } else {
        assert(v@.skip(0) == v@);
        match read_far(v, 0) {
            Some(size) => Some((false, size)),
            None => None,
        }
    }
}

/// Whether every character is a digit, and there is one.
fn digits_only(v: &Vec<char>) -> (r: bool)
    ensures
        r == all_digits(v@),
{
    let mut i: usize = 0;
    while i < v.len()
        invariant
            i <= v.len(),
            forall|k: int| 0 <= k < i ==> is_digit(#[trigger] v@[k]),
        decreases v.len() - i,
    {
        if !digit(v[i]) {
            assert(!is_digit(v@[i as int]));
            return false;
        }
        i += 1;
    }
    v.len() > 0
}

/// Reads digits with at most one point.
fn read_mantissa(v: &Vec<char>) -> (r: Option<(Vec<char>, usize)>)
    ensures
        match r {
            Some((digits, point)) => mantissa_of(v@) == Some((digits@, point as int)),
            None => mantissa_of(v@) is None,
        },
{
    let parts = split_pieces(v, '.');
    assert(pieces(v@, '.').len() == parts@.len());
    assert(pieces(v@, '.')[0] == parts@[0]@);
    if parts.len() > 2 {
        return None;
    }
    let point: usize = parts[0].len();
    let mut digits = slice_chars(&parts[0], 0, point);
    assert(digits@ == parts@[0]@);
    if parts.len() == 2 {
        assert(pieces(v@, '.')[1] == parts@[1]@);
        append_chars(&mut digits, &parts[1]);
    }
    if digits_only(&digits) {
        Some((digits, point))
    } else {
        None
    }
}

/// Reads a numeral and scales it, up to a hundred; also whether it is more than
/// `2^-150`.
fn read_scaled(v: &Vec<char>) -> (r: Option<(u128, bool)>)
    ensures
        match (r, numeral_of(v@)) {
            (Some((x, some)), Some((digits, point))) => x == capped(
                leading(digits, point + PLACES) as int,
            ) && some == shows(digits, point),
            (None, None) => true,
            _ => false,
        },
{
    let parts = split_pieces(v, 'e');
    assert(pieces(v@, 'e').len() == parts@.len());
    assert(pieces(v@, 'e')[0] == parts@[0]@);
    match read_mantissa(&parts[0]) {
        Some((digits, point)) => {
            let mut shift: i128 = 0;
            let ghost mut exponent: int = 0;
            if parts.len() == 2 {
                assert(pieces(v@, 'e')[1] == parts@[1]@);
                match read_exponent(&parts[1]) {
                    Some((minus, size)) => {
                        proof {
                            exponent = signed_numeral(parts@[1]@)->0;
                        }
                        shift = if minus {
                            -(size as i128)
                        } else {
                            size as i128
                        };
                    },
                    None => {
                        return None;
                    },
                }
            } else if parts.len() > 2 {
                return None;
            }
            let n: i128 = point as i128 + shift + 26;
            let x = read_leading(&digits, n);
            let some = is_shown(&digits, point as i128 + shift);
            proof {
                assert(digits@.len() == digits.len() <= 0xffff_ffff_ffff_ffff);
                if exponent != shift {
                    if exponent > 0 {
                        lemma_leading_far(digits@, point + exponent + PLACES);
                        lemma_leading_far(digits@, n as int);
                    }
                    lemma_shows_far(digits@, point + exponent);
                    lemma_shows_far(digits@, point + shift);
                }
            }
            Some((x, some))
        },
        None => None,
    }
}

/// How little may be missing at `k` and a half.
fn shortfall_at(k: u128) -> (r: u128)
    ensures
        r == shortfall(k as int),
        r <= ONE / 2,
{
    if k == 0 {
        ONE / 67_108_864
    } else if k < 2 {
        ONE / 16_777_216
    } else if k < 4 {
        ONE / 8_388_608
    } else if k < 8 {
        ONE / 4_194_304
    } else if k < 16 {
        ONE / 2_097_152
    } else if k < 32 {
        ONE / 1_048_576
    } else if k < 64 {
        ONE / 524_288
    } else {
        ONE / 262_144
    }
}

/// Rounds to whole percents.
fn round_percents(x: u128) -> (r: u8)
    ensures
        r == percents(x as int, 100),
        r <= 100,
{
    let mut n: u8 = 100;
    while n > 0
        invariant
            n <= 100,
            percents(x as int, 100) == percents(x as int, n as nat),
        decreases n,
    {
        let k: u128 = (n - 1) as u128;
        let limit: u128 = k * ONE + ONE / 2 - shortfall_at(k);
        assert(limit == rounds_above(n - 1));
        if x >= limit {
            return n;
        }
        n -= 1;
    }
    0
}

/// A hundred and everything above it round alike.
proof fn lemma_capped_rounds(x: int)
    ensures
        percents(capped(x), 100) == percents(x, 100),
{
    if x > HUNDRED {
        assert(rounds_above(99) <= HUNDRED);
    }
}

/// Reads a confidence.
pub fn parse_confidence(v: &Vec<char>) -> (r: Option<u8>)
    ensures
        r == confidence_of(v@),
        r is Some ==> r->0 <= 100,
{
    let minus = v.len() > 0 && v[0] == '-';
    let signed = v.len() > 0 && (v[0] == '+' || v[0] == '-');
    let body = if signed {
        let rest = slice_chars(v, 1, v.len());
        assert(rest@ == v@.skip(1));
        rest
    } else {
        let all = slice_chars(v, 0, v.len());
        assert(all@ == v@);
        all
    };
    let body = to_lower(&body);
    if same_chars(&body, &chars_of("inf")) || same_chars(&body, &chars_of("infinity")) {
        return if minus {
            None
        } else {
            Some(100)
        };
    }
    if same_chars(&body, &chars_of("nan")) {
        return Some(0);
    }
    match read_scaled(&body) {
        Some((x, some)) => {
            if minus && some {
                None
            } else {
                proof {
                    let (digits, point) = numeral_of(body@)->0;
                    lemma_capped_rounds(leading(digits, point + PLACES) as int);
                }
                Some(round_percents(x))
            }
        },
        None => None,
    }
}

} // verus!
