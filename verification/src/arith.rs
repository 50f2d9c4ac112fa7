//! Exact integer arithmetic: ceiling division and bounded powers.

use vstd::arithmetic::power::pow;
use vstd::prelude::*;

verus! {

/// The ceiling of `a / b` for a positive divisor: the least integer `c`
/// with `c * b >= a` (see [`lemma_ceil_div_is_least`]).
pub open spec fn ceil_div(a: int, b: int) -> int
    recommends
        b > 0,
{
    if a % b == 0 {
        a / b
    } else {
        a / b + 1
    }
}

/// `ceil_div(a, b)` is the least integer whose product with `b` reaches `a`.
pub proof fn lemma_ceil_div_is_least(a: int, b: int)
    requires
        b > 0,
    ensures
        ceil_div(a, b) * b >= a,
        (ceil_div(a, b) - 1) * b < a,
{
    let q = a / b;
    let r = a % b;
    assert(a == q * b + r && 0 <= r < b) by (nonlinear_arith)
        requires
            b > 0,
            q == a / b,
            r == a % b,
    ;
    assert((q + 1) * b == q * b + b && (q - 1) * b == q * b - b) by (nonlinear_arith);
}

/// Any integer that is least with `c * b >= a` is `ceil_div(a, b)`.
pub proof fn lemma_ceil_div_unique(a: int, b: int, c: int)
    requires
        b > 0,
        c * b >= a,
        (c - 1) * b < a,
    ensures
        c == ceil_div(a, b),
{
    let d = ceil_div(a, b);
    lemma_ceil_div_is_least(a, b);
    assert(c == d) by (nonlinear_arith)
        requires
            b > 0,
            c * b >= a,
            (c - 1) * b < a,
            d * b >= a,
            (d - 1) * b < a,
    ;
}

/// The ceiling of a quotient of a non-negative number by a divisor of at
/// least one lies between zero and the number itself.
pub proof fn lemma_ceil_div_bounds(a: int, b: int)
    requires
        a >= 0,
        b >= 1,
    ensures
        0 <= ceil_div(a, b) <= a,
        a >= 1 ==> ceil_div(a, b) >= 1,
{
    let d = ceil_div(a, b);
    lemma_ceil_div_is_least(a, b);
    assert(0 <= d <= a && (a >= 1 ==> d >= 1)) by (nonlinear_arith)
        requires
            a >= 0,
            b >= 1,
            d * b >= a,
            (d - 1) * b < a,
    ;
}

/// A larger divisor never gives a larger ceiling.
pub proof fn lemma_ceil_div_antitone(a: int, b1: int, b2: int)
    requires
        a >= 0,
        0 < b1 <= b2,
    ensures
        ceil_div(a, b2) <= ceil_div(a, b1),
{
    let c1 = ceil_div(a, b1);
    let c2 = ceil_div(a, b2);
    lemma_ceil_div_is_least(a, b1);
    lemma_ceil_div_is_least(a, b2);
    lemma_ceil_div_bounds(a, b1);
    assert(c2 <= c1) by (nonlinear_arith)
        requires
            0 < b1 <= b2,
            c1 >= 0,
            c1 * b1 >= a,
            (c2 - 1) * b2 < a,
    ;
}

/// Ceiling division on machine integers.
pub(crate) fn ceil_div_i64(a: i64, b: i64) -> (c: i64)
    requires
        a >= 0,
        b > 0,
    ensures
        c == ceil_div(a as int, b as int),
{
    let q: i64 = a / b;
    if a % b == 0 {
        q
    } else {
        proof {
            lemma_ceil_div_bounds(a as int, b as int);
        }
        q + 1
    }
}

/// Powers of non-negative numbers grow with the base.
pub proof fn lemma_pow_base_monotone(a: int, b: int, e: nat)
    requires
        0 <= a <= b,
    ensures
        0 <= pow(a, e) <= pow(b, e),
    decreases e,
{
    reveal(pow);
    if e > 0 {
        lemma_pow_base_monotone(a, b, (e - 1) as nat);
        let x = pow(a, (e - 1) as nat);
        let y = pow(b, (e - 1) as nat);
        assert(0 <= a * x <= b * y) by (nonlinear_arith)
            requires
                0 <= a <= b,
                0 <= x <= y,
        ;
    }
}

/// With a positive exponent, powers of non-negative numbers grow strictly
/// with the base.
pub proof fn lemma_pow_base_strictly_monotone(a: int, b: int, e: nat)
    requires
        0 <= a < b,
        e >= 1,
    ensures
        0 <= pow(a, e) < pow(b, e),
    decreases e,
{
    reveal(pow);
    let x = pow(a, (e - 1) as nat);
    let y = pow(b, (e - 1) as nat);
    lemma_pow_base_monotone(a, b, (e - 1) as nat);
    if e == 1 {
        assert(pow(a, 0) == 1 && pow(b, 0) == 1);
        assert(a * 1 == a && b * 1 == b);
    } else {
        lemma_pow_base_strictly_monotone(a, b, (e - 1) as nat);
        assert(0 <= a * x < b * y) by (nonlinear_arith)
            requires
                0 <= a < b,
                0 <= x < y,
        ;
    }
}

/// A power of a number that is at least one is at least one, and at least
/// the number itself once the exponent is positive.
pub proof fn lemma_pow_at_least_base(b: int, e: nat)
    requires
        b >= 1,
    ensures
        pow(b, e) >= 1,
        e >= 1 ==> pow(b, e) >= b,
    decreases e,
{
    reveal(pow);
    if e > 0 {
        lemma_pow_at_least_base(b, (e - 1) as nat);
        let x = pow(b, (e - 1) as nat);
        assert(b * x >= b) by (nonlinear_arith)
            requires
                b >= 1,
                x >= 1,
        ;
    }
}

/// `base` to the power `exp`, where the result fits the machine word.
pub(crate) fn pow_u128(base: u128, exp: u32) -> (r: u128)
    requires
        pow(base as int, exp as nat) <= u128::MAX,
    ensures
        r == pow(base as int, exp as nat),
{
    if base == 0 {
        proof {
            reveal(pow);
            if exp > 0 {
                assert(0 * pow(0, (exp - 1) as nat) == 0);
            }
        }
        return if exp == 0 { 1 } else { 0 };
    }
    let mut acc: u128 = 1;
    let mut i: u32 = 0;
    proof {
        reveal(pow);
    }
    while i < exp
        invariant
            base >= 1,
            i <= exp,
            acc == pow(base as int, i as nat),
            pow(base as int, exp as nat) <= u128::MAX,
        decreases exp - i,
    {
        proof {
            reveal(pow);
            vstd::arithmetic::power::lemma_pow_increases(base as nat, (i + 1) as nat, exp as nat);
            assert(pow(base as int, (i + 1) as nat) == base * pow(base as int, i as nat));
        }
        acc = base * acc;
        i = i + 1;
    }
    acc
}

/// Decides `base^exp <= bound` without ever leaving the machine word.
pub(crate) fn pow_at_most(base: u128, exp: u32, bound: u128) -> (r: bool)
    requires
        base >= 1,
    ensures
        r == (pow(base as int, exp as nat) <= bound),
{
    if bound == 0 {
        proof {
            lemma_pow_at_least_base(base as int, exp as nat);
        }
        return false;
    }
    let mut acc: u128 = 1;
    let mut i: u32 = 0;
    proof {
        reveal(pow);
    }
    while i < exp
        invariant
            base >= 1,
            bound >= 1,
            i <= exp,
            acc == pow(base as int, i as nat),
            acc <= bound,
        decreases exp - i,
    {
        proof {
            reveal(pow);
            assert(pow(base as int, (i + 1) as nat) == base * pow(base as int, i as nat));
        }
        if acc > bound / base {
            proof {
                let next = pow(base as int, (i + 1) as nat);
                assert(base * acc > bound) by (nonlinear_arith)
                    requires
                        base >= 1,
                        acc > bound / base,
                        bound >= 0,
                ;
                vstd::arithmetic::power::lemma_pow_increases(
                    base as nat,
                    (i + 1) as nat,
                    exp as nat,
                );
            }
            return false;
        }
        proof {
            assert(base * acc <= bound) by (nonlinear_arith)
                requires
                    base >= 1,
                    acc <= bound / base,
                    bound >= 0,
            ;
        }
        acc = base * acc;
        i = i + 1;
    }
    true
}

} // verus!
