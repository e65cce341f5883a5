//! Products in double precision, as far as rounding them needs it: whether a decimal
//! number, taken as a double and multiplied by a factor, reaches a half.

use vstd::arithmetic::div_mod::lemma_fundamental_div_mod_converse;
use vstd::arithmetic::power2::{lemma2_to64, lemma2_to64_rest, lemma_pow2_adds, lemma_pow2_pos,
    lemma_pow2_unfold, pow2};
use vstd::prelude::*;

use crate::number::{digit_value, digits_value, only_digits};
use crate::text::is_digit;

verus! {

/// Ten to the power of `n`.
pub open spec fn pow10(n: nat) -> nat
    decreases n,
{
    if n == 0 {
        1
    } else {
        10 * pow10((n - 1) as nat)
    }
}

/// `p / q` rounded to the nearest whole number, and to the even one where two are as
/// near.
pub open spec fn rounded_even(p: nat, q: nat) -> nat {
    let whole = p / q;
    let rest = p % q;
    if 2 * rest > q || (2 * rest == q && whole % 2 == 1) {
        whole + 1
    } else {
        whole
    }
}

/// `m / 2^k` is the double next to `p / q`: it has 53 binary digits.
pub open spec fn is_double(p: nat, q: nat, m: nat, k: nat) -> bool {
    &&& pow2(52) * q <= p * pow2(k) < pow2(53) * q
    &&& m == rounded_even(p * pow2(k), q)
}

/// `n * 2^t` is the whole number of 53 binary digits, and zeros behind them, that is
/// next to the product of `m` and `factor`.
pub open spec fn is_product(m: nat, factor: nat, n: nat, t: nat) -> bool {
    &&& pow2(52) * pow2(t) <= m * factor < pow2(53) * pow2(t)
    &&& n == rounded_even(m * factor, pow2(t))
}

/// Whether `p / q`, taken as a double and multiplied by `factor` in double precision,
/// is at least `base` and a half. Where the true product is below a quarter, it is not.
pub open spec fn reaches_half(p: nat, q: nat, factor: nat, base: nat) -> bool {
    q <= p * (4 * factor) && exists|m: nat, k: nat, n: nat, t: nat|
        #[trigger] is_double(p, q, m, k) && #[trigger] is_product(m, factor, n, t) && (2 * base
            + 1) * pow2(k) <= 2 * n * pow2(t)
}

/// The number that `w` with the digits `f` behind it stands for.
pub open spec fn extended(w: nat, f: Seq<char>) -> nat
    decreases f.len(),
{
    if f.len() == 0 {
        w
    } else {
        10 * extended(w, f.drop_last()) + digit_value(f.last())
    }
}

/// Digits behind digits.
pub proof fn lemma_extended(whole: Seq<char>, f: Seq<char>)
    ensures
        digits_value(whole + f) == extended(digits_value(whole), f),
    decreases f.len(),
{
    if f.len() == 0 {
        assert(whole + f =~= whole);
    } else {
        lemma_extended(whole, f.drop_last());
        assert((whole + f).drop_last() =~= whole + f.drop_last());
    }
}

proof fn lemma_extended_step(w: nat, f: Seq<char>, i: int)
    requires
        0 <= i < f.len(),
        only_digits(f),
    ensures
        extended(w, f.take(i + 1)) == 10 * extended(w, f.take(i)) + digit_value(f[i]),
        digit_value(f[i]) <= 9,
        pow10((i + 1) as nat) == 10 * pow10(i as nat),
{
    assert(f.take(i + 1).drop_last() =~= f.take(i));
    assert(f.take(i + 1).last() == f[i]);
    assert(is_digit(f[i]));
}

/// What is larger after some digits stays larger.
proof fn lemma_stays_above(w: nat, f: Seq<char>, i: int, a: int, unit: int)
    requires
        0 <= i <= f.len(),
        only_digits(f),
        unit > 0,
        extended(w, f.take(i)) * unit > a * pow10(i as nat),
    ensures
        extended(w, f) * unit > a * pow10(f.len()),
    decreases f.len() - i,
{
    if i == f.len() {
        assert(f.take(i) =~= f);
    } else {
        lemma_extended_step(w, f, i);
        let x = extended(w, f.take(i)) as int;
        let y = extended(w, f.take(i + 1)) as int;
        let d = digit_value(f[i]) as int;
        let q = pow10(i as nat) as int;
        assert(y * unit > a * (10 * q)) by (nonlinear_arith)
            requires
                y == 10 * x + d,
                d >= 0,
                unit > 0,
                x * unit > a * q,
        ;
        lemma_stays_above(w, f, i + 1, a, unit);
    }
}

/// What is smaller by a whole unit after some digits stays smaller.
proof fn lemma_stays_below(w: nat, f: Seq<char>, i: int, a: int, unit: int)
    requires
        0 <= i <= f.len(),
        only_digits(f),
        unit > 0,
        (extended(w, f.take(i)) + 1) * unit <= a * pow10(i as nat),
    ensures
        (extended(w, f) + 1) * unit <= a * pow10(f.len()),
    decreases f.len() - i,
{
    if i == f.len() {
        assert(f.take(i) =~= f);
    } else {
        lemma_extended_step(w, f, i);
        let x = extended(w, f.take(i)) as int;
        let y = extended(w, f.take(i + 1)) as int;
        let d = digit_value(f[i]) as int;
        let q = pow10(i as nat) as int;
        assert((y + 1) * unit <= a * (10 * q)) by (nonlinear_arith)
            requires
                y == 10 * x + d,
                d <= 9,
                unit > 0,
                (x + 1) * unit <= a * q,
        ;
        lemma_stays_below(w, f, i + 1, a, unit);
    }
}

/// Compares `w` with the decimal places `f`, times `unit`, with `a`: above 0 where it
/// is larger, below 0 where it is smaller.
fn compare(w: u64, f: &Vec<char>, unit: u128, a: u128) -> (s: i8)
    requires
        only_digits(f@),
        w <= u32::MAX,
        0 < unit <= 0x1000_0000_0000_0000_0000,
        a <= 0x1000_0000_0000_0000_0000,
    ensures
        s > 0 <==> extended(w as nat, f@) * unit > a * pow10(f@.len()),
        s < 0 <==> extended(w as nat, f@) * unit < a * pow10(f@.len()),
{
    let step: i128 = unit as i128;
    assert(0 <= w * unit <= 0x1_0000_0000 * 0x1000_0000_0000_0000_0000) by (nonlinear_arith)
        requires
            0 <= w <= 0x1_0000_0000,
            0 <= unit <= 0x1000_0000_0000_0000_0000,
    ;
    let mut difference: i128 = (w as u128 * unit) as i128 - a as i128;
    let mut i: usize = 0;
    proof {
        assert(f@.take(0) =~= Seq::empty());
        assert(pow10(0) == 1);
    }
    while i < f.len() && difference <= 0 && -step < difference
        invariant
            i <= f.len(),
            only_digits(f@),
            0 < unit <= 0x1000_0000_0000_0000_0000,
            step == unit,
            difference == extended(w as nat, f@.take(i as int)) * unit - a * pow10(i as nat),
        decreases f.len() - i,
    {
        let c = f[i];
        proof {
            lemma_extended_step(w as nat, f@, i as int);
            let x = extended(w as nat, f@.take(i as int)) as int;
            let y = extended(w as nat, f@.take(i + 1)) as int;
            let d = digit_value(c) as int;
            let q = pow10(i as nat) as int;
            assert(10 * difference + d * unit == y * unit - a * (10 * q)) by (nonlinear_arith)
                requires
                    y == 10 * x + d,
                    difference == x * unit - a * q,
            ;
            assert(0 <= d * unit <= 9 * unit) by (nonlinear_arith)
                requires
                    0 <= d <= 9,
                    unit > 0,
            ;
        }
        let d: u8 = c as u8 - '0' as u8;
        difference = 10 * difference + (d as u128 * unit) as i128;
        i += 1;
    }
    let ghost x = extended(w as nat, f@.take(i as int)) as int;
    if difference > 0 {
        proof {
            lemma_stays_above(w as nat, f@, i as int, a as int, unit as int);
        }
        1
    } else if difference <= -step {
        proof {
            assert((x + 1) * unit == x * unit + unit) by (nonlinear_arith);
            lemma_stays_below(w as nat, f@, i as int, a as int, unit as int);
            let all = extended(w as nat, f@) as int;
            assert((all + 1) * unit == all * unit + unit) by (nonlinear_arith);
        }
        -1
    } else {
        assert(f@.take(i as int) =~= f@);
        if difference == 0 {
            0
        } else {
            -1
        }
    }
}

pub proof fn lemma_pow10_pos(n: nat)
    ensures
        pow10(n) > 0,
    decreases n,
{
    if n > 0 {
        lemma_pow10_pos((n - 1) as nat);
    }
}

/// A number is less than its whole part and one.
proof fn lemma_extended_bound(w: nat, f: Seq<char>)
    requires
        only_digits(f),
    ensures
        extended(w, f) < (w + 1) * pow10(f.len()),
{
    assert(f.take(0) =~= Seq::empty());
    assert((w + 1) * 1 <= (w + 1) * pow10(0)) by (nonlinear_arith)
        requires
            pow10(0) == 1,
    ;
    lemma_stays_below(w, f, 0, (w + 1) as int, 1);
}

proof fn lemma_pow2_step(n: nat)
    ensures
        pow2(n + 1) == 2 * pow2(n),
        pow2(n) > 0,
{
    lemma_pow2_unfold(n + 1);
    lemma_pow2_pos(n);
}

/// Powers of two grow at least twofold.
proof fn lemma_pow2_doubles(j: nat, k: nat)
    requires
        j < k,
    ensures
        2 * pow2(j) <= pow2(k),
    decreases k - j,
{
    lemma_pow2_step(j);
    if j + 1 < k {
        lemma_pow2_step(j + 1);
        lemma_pow2_doubles(j + 1, k);
    }
}

/// A number has one binary magnitude.
proof fn lemma_one_magnitude(p: nat, q: nat, j: nat, k: nat)
    requires
        pow2(52) * q <= p * pow2(j) < pow2(53) * q,
        pow2(52) * q <= p * pow2(k) < pow2(53) * q,
    ensures
        j == k,
{
    lemma_pow2_step(52);
    let (low, high) = if j < k {
        (j, k)
    } else {
        (k, j)
    };
    if j != k {
        lemma_pow2_doubles(low, high);
        let x = pow2(low) as int;
        let y = pow2(high) as int;
        assert(p * y >= 2 * (p * x)) by (nonlinear_arith)
            requires
                y >= 2 * x,
                p >= 0,
        ;
        let u = pow2(52) as int;
        assert(2 * (u * q) == (2 * u) * q) by (nonlinear_arith);
    }
}

/// A product has one binary magnitude.
proof fn lemma_one_length(product: nat, s: nat, t: nat)
    requires
        pow2(52) * pow2(s) <= product < pow2(53) * pow2(s),
        pow2(52) * pow2(t) <= product < pow2(53) * pow2(t),
    ensures
        s == t,
{
    lemma_pow2_step(52);
    let (low, high) = if s < t {
        (s, t)
    } else {
        (t, s)
    };
    if s != t {
        lemma_pow2_doubles(low, high);
        let x = pow2(low) as int;
        let y = pow2(high) as int;
        let u = pow2(52) as int;
        assert(u * y >= (2 * u) * x) by (nonlinear_arith)
            requires
                y >= 2 * x,
                u >= 0,
        ;
    }
}

/// Rounds `p / q`, to the even number where two are as near.
pub fn round_even(p: u128, q: u128) -> (r: u128)
    requires
        0 < q <= 0x1_0000_0000_0000_0000_0000_0000,
        p <= 0x1_0000_0000_0000_0000_0000_0000,
    ensures
        r == rounded_even(p as nat, q as nat),
{
    let whole = p / q;
    let rest = p % q;
    assert(whole <= p) by (nonlinear_arith)
        requires
            whole == p / q,
            q > 0,
    ;
    if 2 * rest > q || (2 * rest == q && whole % 2 == 1) {
        whole + 1
    } else {
        whole
    }
}

/// The whole part of `p / q` and how the rest compares with a half.
proof fn lemma_rounded(x: nat, q: nat, whole: nat)
    requires
        q > 0,
        whole * q <= x < (whole + 1) * q,
    ensures
        rounded_even(x, q) == if x * 2 > (2 * whole + 1) * q || (x * 2 == (2 * whole + 1) * q
            && whole % 2 == 1) {
            whole + 1
        } else {
            whole
        },
{
    let rest = x - whole * q;
    assert((whole + 1) * q == whole * q + q) by (nonlinear_arith);
    assert((2 * whole + 1) * q == 2 * (whole * q) + q) by (nonlinear_arith);
    lemma_fundamental_div_mod_converse(x as int, q as int, whole as int, rest);
}

/// Whether the number with the whole part `w` and the decimal places `f`, taken as a
/// double and multiplied by `factor`, is at least `base` and a half.
pub fn half_is_reached(w: u64, f: &Vec<char>, factor: u64, base: u64) -> (r: bool)
    requires
        only_digits(f@),
        w <= u32::MAX,
        1 <= factor <= 1_000_000,
        base <= u32::MAX,
    ensures
        r == reaches_half(
            extended(w as nat, f@),
            pow10(f@.len()),
            factor as nat,
            base as nat,
        ),
{
    let ghost p = extended(w as nat, f@);
    let ghost q = pow10(f@.len());
    proof {
        lemma_pow10_pos(f@.len());
        lemma_extended_bound(w as nat, f@);
        lemma2_to64();
        lemma2_to64_rest();
    }
    if compare(w, f, 4 * factor as u128, 1) < 0 {
        return false;
    }
    assert(q <= p * (4 * factor as nat));
    // The binary magnitude: the least power of two that makes 53 digits.
    let mut unit: u128 = 1;
    let ghost mut k: nat = 0;
    proof {
        assert(p * 1 < 0x20_0000_0000_0000 * q) by (nonlinear_arith)
            requires
                p < (w + 1) * q,
                w < 0x1_0000_0000,
                q > 0,
        ;
        assert(pow2(53) == 0x20_0000_0000_0000);
        assert(pow2(52) == 0x10_0000_0000_0000);
    }
    while compare(w, f, unit, 0x10_0000_0000_0000) < 0
        invariant
            only_digits(f@),
            w <= u32::MAX,
            1 <= factor <= 1_000_000,
            p == extended(w as nat, f@),
            q == pow10(f@.len()),
            q > 0,
            q <= p * (4 * factor as nat),
            0 < unit <= 0x800_0000_0000_0000_0000,
            unit == pow2(k),
            p * unit < 0x20_0000_0000_0000 * q,
        decreases 0x800_0000_0000_0000_0000 - unit,
    {
        proof {
            lemma_pow2_step(k);
            assert(unit < 0x400_0000_0000_0000_0000) by (nonlinear_arith)
                requires
                    p * unit < 0x10_0000_0000_0000 * q,
                    q <= p * (4 * factor as nat),
                    factor <= 1_000_000,
                    q > 0,
                    unit > 0,
            ;
            assert(p * (2 * unit) == 2 * (p * unit)) by (nonlinear_arith);
            k = k + 1;
        }
        unit = unit * 2;
    }
    // The whole part of the mantissa, by bisection.
    let mut low: u128 = 0x10_0000_0000_0000;
    let mut high: u128 = 0x20_0000_0000_0000;
    while high - low > 1
        invariant
            only_digits(f@),
            w <= u32::MAX,
            p == extended(w as nat, f@),
            q == pow10(f@.len()),
            0 < unit <= 0x800_0000_0000_0000_0000,
            0x10_0000_0000_0000 <= low < high <= 0x20_0000_0000_0000,
            low * q <= p * unit < high * q,
        decreases high - low,
    {
        let middle = low + (high - low) / 2;
        if compare(w, f, unit, middle) < 0 {
            high = middle;
        } else {
            low = middle;
        }
    }
    assert(high == low + 1);
    let rest = compare(w, f, 2 * unit, 2 * low + 1);
    let m: u128 = if rest > 0 || (rest == 0 && low % 2 == 1) {
        low + 1
    } else {
        low
    };
    proof {
        assert(p * (2 * unit) == (p * unit) * 2) by (nonlinear_arith);
        lemma_rounded(p * (unit as nat), q, low as nat);
        assert(is_double(p, q, m as nat, k));
    }
    // The product, cut to 53 binary digits.
    proof {
        assert(0x10_0000_0000_0000 <= m * factor <= 0x20_0000_0000_0000 * 1_000_000)
            by (nonlinear_arith)
            requires
                0x10_0000_0000_0000 <= m <= 0x20_0000_0000_0000,
                1 <= factor <= 1_000_000,
        ;
    }
    let product: u128 = m * factor as u128;
    let mut cut: u128 = 1;
    let ghost mut t: nat = 0;
    while product >= 0x20_0000_0000_0000 * cut
        invariant
            product <= 0x20_0000_0000_0000 * 1_000_000,
            product >= 0x10_0000_0000_0000 * cut,
            0 < cut <= 2_000_000,
            cut == pow2(t),
        decreases 4_000_000 - cut,
    {
        proof {
            lemma_pow2_step(t);
            t = t + 1;
        }
        cut = cut * 2;
    }
    let n = round_even(product, cut);
    proof {
        assert(is_product(m as nat, factor as nat, n as nat, t));
        assert(n <= product + 1) by {
            assert(product / cut <= product) by (nonlinear_arith)
                requires
                    cut > 0,
            ;
        }
        assert((2 * base + 1) * unit <= 0x2_0000_0000 * 0x1000_0000_0000_0000_0000)
            by (nonlinear_arith)
            requires
                0 <= base < 0x1_0000_0000,
                0 <= unit <= 0x1000_0000_0000_0000_0000,
        ;
        assert(2 * n * cut <= 0x80_0000_0000_0000 * 1_000_000 * 4_000_000) by (nonlinear_arith)
            requires
                0 <= n <= 0x20_0000_0000_0000 * 1_000_000 + 1,
                0 <= cut <= 2_000_000,
        ;
    }
    let reached = (2 * base as u128 + 1) * unit <= 2 * n * cut;
    proof {
        if reaches_half(p, q, factor as nat, base as nat) {
            let (m2, k2, n2, t2) = choose|m2: nat, k2: nat, n2: nat, t2: nat|
                #[trigger] is_double(p, q, m2, k2) && #[trigger] is_product(
                    m2,
                    factor as nat,
                    n2,
                    t2,
                ) && (2 * (base as nat) + 1) * pow2(k2) <= 2 * n2 * pow2(t2);
            lemma_one_magnitude(p, q, k, k2);
            lemma_one_length(m2 * (factor as nat), t, t2);
        }
    }
    reached
}

} // verus!
