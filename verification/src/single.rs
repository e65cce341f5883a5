//! Whole numbers and quotients in single precision, in which numbers have 24 binary
//! digits.

use vstd::arithmetic::power2::{lemma_pow2_pos, lemma_pow2_unfold, pow2};
use vstd::prelude::*;

use crate::double::{round_even, rounded_even};

verus! {

/// How many binary digits `n` has beyond 24.
pub open spec fn excess(n: nat) -> nat
    decreases n,
{
    if n < 0x100_0000 {
        0
    } else {
        excess(n / 2) + 1
    }
}

/// The number of single precision that is next to the whole number `n`.
pub open spec fn single(n: nat) -> nat {
    rounded_even(n, pow2(excess(n))) * pow2(excess(n))
}

/// How often `p` has to be doubled to be at least `2^31` times `q`.
pub open spec fn doublings(p: nat, q: nat) -> nat
    decreases
            if p < 0x8000_0000 * q {
                0x8000_0000 * q - p
            } else {
                0
            },
{
    if p == 0 || p >= 0x8000_0000 * q {
        0
    } else {
        doublings(2 * p, q) + 1
    }
}

/// `p / q`, which is below `2^32`, divided in single precision and rounded to the
/// nearest whole number, halves up. The quotient is `256 m / 2^k`, where `m` has 24
/// binary digits.
pub open spec fn rounded_quotient(p: nat, q: nat) -> nat {
    let k = doublings(p, q);
    let m = rounded_even(p * pow2(k), q * 256);
    (2 * (m * 256) + pow2(k)) / (2 * pow2(k))
}

proof fn lemma_doubled(n: nat)
    ensures
        pow2(n + 1) == 2 * pow2(n),
        pow2(n) > 0,
{
    lemma_pow2_unfold(n + 1);
    lemma_pow2_pos(n);
}

/// Where a number lies between two powers of two, it has that many digits.
proof fn lemma_excess(n: nat, t: nat)
    requires
        n < 0x100_0000 * pow2(t),
        t > 0 ==> n >= 0x80_0000 * pow2(t),
    ensures
        excess(n) == t,
    decreases t,
{
    lemma_pow2_pos(t);
    if t == 0 {
        lemma_pow2_zero();
    } else {
        let s = (t - 1) as nat;
        lemma_doubled(s);
        let u = pow2(s);
        assert(n >= 0x100_0000 * u);
        assert(u >= 1);
        lemma_excess(n / 2, s);
    }
}

proof fn lemma_pow2_zero()
    ensures
        pow2(0) == 1,
{
    vstd::arithmetic::power2::lemma2_to64();
}

proof fn lemma_nothing(q: nat)
    requires
        q > 0,
    ensures
        rounded_even(0, q) == 0,
{
    assert(0nat / q == 0 && 0nat % q == 0) by (nonlinear_arith)
        requires
            q > 0,
    ;
}

/// The number of single precision that is next to a whole number.
pub fn to_single(n: u128) -> (r: u128)
    requires
        n < 0x100_0000_0000_0000,
    ensures
        r == single(n as nat),
        r <= 2 * n,
        n > 0 ==> r > 0,
{
    let mut unit: u128 = 1;
    let ghost mut t: nat = 0;
    proof {
        lemma_pow2_zero();
    }
    while n >= 0x100_0000 * unit
        invariant
            n < 0x100_0000_0000_0000,
            0 < unit <= 0x2_0000_0000,
            unit == pow2(t),
            t > 0 ==> n >= 0x80_0000 * unit,
        decreases 0x4_0000_0000 - unit,
    {
        proof {
            lemma_doubled(t);
            t = t + 1;
        }
        unit = unit * 2;
    }
    let m = round_even(n, unit);
    proof {
        lemma_excess(n as nat, t);
        let whole = n as int / unit as int;
        let rest = n as int % unit as int;
        assert(n == unit * whole + rest && 0 <= rest < unit) by (nonlinear_arith)
            requires
                whole == n as int / unit as int,
                rest == n as int % unit as int,
                unit > 0,
        ;
        assert(whole <= m <= whole + 1);
        if t == 0 {
            assert(whole == n && rest == 0) by (nonlinear_arith)
                requires
                    n == unit * whole + rest,
                    unit == 1,
                    0 <= rest < unit,
            ;
            assert(m == n);
            assert(m * unit == n) by (nonlinear_arith)
                requires
                    unit == 1,
                    m == n,
            ;
        } else {
            assert(whole >= 0x80_0000) by (nonlinear_arith)
                requires
                    n == unit * whole + rest,
                    rest < unit,
                    n >= 0x80_0000 * unit,
                    unit > 0,
            ;
            assert(0 < m * unit <= 2 * n) by (nonlinear_arith)
                requires
                    n == unit * whole + rest,
                    0 <= rest,
                    whole >= 1,
                    whole <= m <= whole + 1,
                    unit > 0,
            ;
        }
    }
    m * unit
}

/// A quotient in single precision, rounded to the nearest whole number.
pub fn divide_singles(p: u128, q: u128) -> (r: u128)
    requires
        p < 0x400_0000_0000_0000_0000,
        0 < q < 0x400_0000_0000_0000,
        p < 0x1_0000_0000 * q,
    ensures
        r == rounded_quotient(p as nat, q as nat),
        r <= 0x1_0000_0000,
{
    if p == 0 {
        proof {
            lemma_pow2_zero();
            lemma_nothing((q * 256) as nat);
            assert(doublings(0, q as nat) == 0);
            assert(p as nat * pow2(0) == 0) by (nonlinear_arith)
                requires
                    p == 0,
            ;
            let unit = pow2(0);
            assert((2 * (0nat * 256) + unit) / (2 * unit) == 0) by (nonlinear_arith)
                requires
                    unit == 1,
            ;
        }
        return 0;
    }
    let mut x: u128 = p;
    let mut unit: u128 = 1;
    let ghost mut k: nat = 0;
    proof {
        lemma_pow2_zero();
    }
    while x < 0x8000_0000 * q
        invariant
            0 < p,
            0 < q < 0x400_0000_0000_0000,
            unit <= x < 0x1_0000_0000 * q,
            0 < unit,
            unit == pow2(k),
            x == p * unit,
            doublings(p as nat, q as nat) == doublings(x as nat, q as nat) + k,
        decreases 0x1_0000_0000 * q - x,
    {
        proof {
            lemma_doubled(k);
            assert(p * (2 * unit) == 2 * (p * unit)) by (nonlinear_arith);
            k = k + 1;
        }
        x = x * 2;
        unit = unit * 2;
    }
    let m = round_even(x, q * 256);
    proof {
        let d = q as int * 256;
        let whole = x as int / d;
        assert(whole < 0x100_0000) by (nonlinear_arith)
            requires
                x < 0x1_0000_0000 * q,
                d == q as int * 256,
                whole == x as int / d,
                q > 0,
        ;
        assert(m <= 0x100_0000);
    }
    let r = (2 * (m * 256) + unit) / (2 * unit);
    proof {
        assert(r <= 0x1_0000_0000) by (nonlinear_arith)
            requires
                r == (2 * (m * 256) + unit) / (2 * unit),
                m <= 0x100_0000,
                unit >= 1,
        ;
    }
    r
}

} // verus!
