//! Reward brackets for ranks outside the leading ranks, sized relative to
//! the field.
//!
//! A tier's size is `max(scale_factor * field^exponent, min_size)` rounded
//! toward zero.  The scale factor and the exponent are rationals, so the
//! rounded value is decided by comparing integer powers: for `k >= 0`,
//! `(sn/sd) * n^(p/q) >= k` holds exactly when `sn^q * n^p >= (k * sd)^q`.

use crate::arith::{
    lemma_pow_at_least_base, lemma_pow_base_monotone, lemma_pow_base_strictly_monotone,
    pow_at_most, pow_u128,
};
use vstd::arithmetic::power::{lemma0_pow, lemma_pow_distributes, lemma_pow_increases, pow};
use vstd::prelude::*;

verus! {

/// A non-negative rational `num / den`.
#[derive(Debug, Clone, Copy)]
pub struct Ratio {
    pub num: u32,
    pub den: u32,
}

impl Ratio {
    /// The denominator is positive and the value lies between zero and one.
    pub open spec fn proper(self) -> bool {
        self.den > 0 && self.num <= self.den
    }

    /// Decides [`Self::proper`].
    pub fn is_proper(&self) -> (proper: bool)
        ensures
            proper == self.proper(),
    {
        self.den > 0 && self.num <= self.den
    }
}

/// One reward bracket.
#[derive(Debug, Clone, Copy)]
pub struct GroupTier {
    /// Share of the world-record budget awarded to a rank in this tier.
    pub point_pct: Ratio,
    /// Factor applied to the powered field size.
    pub scale_factor: Ratio,
    /// Exponent applied to the field size.
    pub exponent: Ratio,
    /// Least size of the tier, whatever the field.
    pub min_size: i32,
}

impl GroupTier {
    /// All three rationals are proper, and the powers compared by
    /// [`Self::reaches`] fit an unsigned 128-bit word for every field size
    /// that fits a signed 32-bit one.  Fractions in lowest terms keep the
    /// powers small.
    pub open spec fn valid(self) -> bool {
        &&& self.point_pct.proper()
        &&& self.scale_factor.proper()
        &&& self.exponent.proper()
        &&& pow(self.scale_factor.num as int, self.exponent.den as nat) * pow(
            i32::MAX as int,
            self.exponent.num as nat,
        ) <= u128::MAX
    }

    /// `scale_factor * n^exponent`, as `sn^q * n^p`, the `q`-th power of
    /// its numerator over `sd`.
    pub open spec fn scaled_power(self, n: int) -> int {
        pow(self.scale_factor.num as int, self.exponent.den as nat) * pow(
            n,
            self.exponent.num as nat,
        )
    }

    /// `scale_factor * n^exponent >= k`, for `k >= 0`.
    pub open spec fn reaches(self, n: int, k: int) -> bool {
        self.scaled_power(n) >= pow(k * self.scale_factor.den, self.exponent.den as nat)
    }

    /// `k` is `scale_factor * n^exponent` rounded toward zero: it is reached
    /// while `k + 1` is not.
    pub open spec fn rounds_to(self, n: int, k: int) -> bool {
        k >= 0 && self.reaches(n, k) && !self.reaches(n, k + 1)
    }

    /// `scale_factor * n^exponent` rounded toward zero.
    pub open spec fn scaled_floor(self, n: int) -> int {
        choose|k: int| self.rounds_to(n, k)
    }

    /// The size of this tier on a field of `n` competitors.
    pub open spec fn size(self, n: int) -> int {
        if self.scaled_floor(n) >= self.min_size {
            self.scaled_floor(n)
        } else {
            self.min_size as int
        }
    }

    /// Whatever is reached, everything below it is reached too.
    pub proof fn lemma_reaches_downward(self, n: int, j: int, k: int)
        requires
            0 <= j <= k,
            self.reaches(n, k),
        ensures
            self.reaches(n, j),
    {
        let sd = self.scale_factor.den as int;
        assert(0 <= j * sd <= k * sd) by (nonlinear_arith)
            requires
                0 <= j <= k,
                sd >= 0,
        ;
        lemma_pow_base_monotone(j * sd, k * sd, self.exponent.den as nat);
    }

    /// Zero is always reached.
    pub proof fn lemma_reaches_zero(self, n: int)
        requires
            self.valid(),
            n >= 0,
        ensures
            self.reaches(n, 0),
    {
        let sd = self.scale_factor.den as int;
        let q = self.exponent.den as nat;
        assert(0 * sd == 0);
        lemma0_pow(q);
        lemma_pow_base_monotone(0, self.scale_factor.num as int, q);
        lemma_pow_base_monotone(0, n, self.exponent.num as nat);
        let x = pow(self.scale_factor.num as int, q);
        let y = pow(n, self.exponent.num as nat);
        assert(x * y >= 0) by (nonlinear_arith)
            requires
                x >= 0,
                y >= 0,
        ;
    }

    /// With a scale factor and an exponent of at most one, nothing above
    /// the field size is reached.
    pub proof fn lemma_reaches_at_most_field(self, n: int, k: int)
        requires
            self.valid(),
            n >= 1,
            k >= 0,
            self.reaches(n, k),
        ensures
            k <= n,
    {
        if k > n {
            let sn = self.scale_factor.num as int;
            let sd = self.scale_factor.den as int;
            let p = self.exponent.num as nat;
            let q = self.exponent.den as nat;
            // (k * sd)^q >= ((n + 1) * sd)^q = (n + 1)^q * sd^q
            assert(0 <= (n + 1) * sd <= k * sd) by (nonlinear_arith)
                requires
                    n + 1 <= k,
                    n >= 1,
                    sd >= 0,
            ;
            lemma_pow_base_monotone((n + 1) * sd, k * sd, q);
            lemma_pow_distributes(n + 1, sd, q);
            // (n + 1)^q > n^q >= n^p and sd^q >= sn^q
            lemma_pow_base_strictly_monotone(n, n + 1, q);
            lemma_pow_increases(n as nat, p, q);
            lemma_pow_base_monotone(sn, sd, q);
            lemma_pow_at_least_base(sd, q);
            lemma_pow_at_least_base(n, p);
            let a = pow(n + 1, q);
            let b = pow(sd, q);
            let c = pow(n, p);
            let d = pow(sn, q);
            assert(a * b > d * c) by (nonlinear_arith)
                requires
                    a > c,
                    c >= 1,
                    b >= d,
                    d >= 0,
                    b >= 1,
            ;
        }
    }

    proof fn lemma_floor_search(self, n: int, k: int)
        requires
            self.valid(),
            n >= 1,
            0 <= k,
            self.reaches(n, k),
        ensures
            exists|f: int| self.rounds_to(n, f),
        decreases n - k,
    {
        self.lemma_reaches_at_most_field(n, k);
        if self.reaches(n, k + 1) {
            self.lemma_reaches_at_most_field(n, k + 1);
            self.lemma_floor_search(n, k + 1);
        } else {
            assert(self.rounds_to(n, k));
        }
    }

    /// The rounded value exists: it is reached, its successor is not, and it
    /// lies between zero and the field size.
    pub proof fn lemma_scaled_floor_exists(self, n: int)
        requires
            self.valid(),
            n >= 1,
        ensures
            self.rounds_to(n, self.scaled_floor(n)),
            self.scaled_floor(n) <= n,
    {
        self.lemma_reaches_zero(n);
        self.lemma_floor_search(n, 0);
        self.lemma_reaches_at_most_field(n, self.scaled_floor(n));
    }

    /// The rounded value is the only number that is reached while its
    /// successor is not.
    pub proof fn lemma_scaled_floor_is(self, n: int, k: int)
        requires
            self.valid(),
            n >= 1,
            self.rounds_to(n, k),
        ensures
            self.scaled_floor(n) == k,
    {
        let f = self.scaled_floor(n);
        self.lemma_scaled_floor_exists(n);
        if f < k {
            self.lemma_reaches_downward(n, f + 1, k);
        } else if k < f {
            self.lemma_reaches_downward(n, k + 1, f);
        }
    }

    /// A tier is never smaller than its least size, nor negative, and never
    /// larger than both its least size and the field.
    pub proof fn lemma_size_bounds(self, n: int)
        requires
            self.valid(),
            n >= 1,
        ensures
            self.size(n) >= 0,
            self.size(n) >= self.min_size,
            self.size(n) <= n || self.size(n) == self.min_size,
    {
        self.lemma_scaled_floor_exists(n);
    }

    /// A tier grows beyond its least size exactly as far as the scaled
    /// power reaches.
    pub proof fn lemma_size_at_least(self, n: int, k: int)
        requires
            self.valid(),
            n >= 1,
            k >= 0,
        ensures
            self.size(n) >= k <==> (self.min_size >= k || self.reaches(n, k)),
    {
        let f = self.scaled_floor(n);
        self.lemma_scaled_floor_exists(n);
        if k <= f {
            self.lemma_reaches_downward(n, k, f);
        } else if self.reaches(n, k) {
            self.lemma_reaches_downward(n, f + 1, k);
        }
    }

    /// Decides [`Self::valid`].
    pub fn is_valid(&self) -> (valid: bool)
        ensures
            valid == self.valid(),
    {
        if !(self.point_pct.is_proper() && self.scale_factor.is_proper()
            && self.exponent.is_proper()) {
            return false;
        }
        let ghost a = pow(self.scale_factor.num as int, self.exponent.den as nat);
        let ghost b = pow(i32::MAX as int, self.exponent.num as nat);
        if self.scale_factor.num == 0 {
            proof {
                lemma0_pow(self.exponent.den as nat);
                assert(a * b == 0) by (nonlinear_arith)
                    requires
                        a == 0,
                ;
            }
            return true;
        }
        proof {
            lemma_pow_at_least_base(self.scale_factor.num as int, self.exponent.den as nat);
            lemma_pow_at_least_base(i32::MAX as int, self.exponent.num as nat);
        }
        if !pow_at_most(i32::MAX as u128, self.exponent.num, u128::MAX) {
            proof {
                assert(a * b > u128::MAX) by (nonlinear_arith)
                    requires
                        a >= 1,
                        b > u128::MAX,
                ;
            }
            return false;
        }
        let field: u128 = pow_u128(i32::MAX as u128, self.exponent.num);
        let room: u128 = u128::MAX / field;
        proof {
            assert(a <= room <==> a * b <= u128::MAX) by (nonlinear_arith)
                requires
                    a >= 1,
                    b >= 1,
                    b == field,
                    room == u128::MAX / field,
            ;
        }
        pow_at_most(self.scale_factor.num as u128, self.exponent.den, room)
    }

    /// `sn^q * n^p`, computed.
    fn scaled_power_of(&self, completions: i32) -> (lhs: u128)
        requires
            self.valid(),
            completions >= 1,
        ensures
            lhs == self.scaled_power(completions as int),
    {
        let ghost a = pow(self.scale_factor.num as int, self.exponent.den as nat);
        let ghost b = pow(i32::MAX as int, self.exponent.num as nat);
        let ghost c = pow(completions as int, self.exponent.num as nat);
        if self.scale_factor.num == 0 {
            proof {
                lemma0_pow(self.exponent.den as nat);
                assert(a == 0);
                assert(a * c == 0) by (nonlinear_arith)
                    requires
                        a == 0,
                ;
            }
            return 0;
        }
        proof {
            lemma_pow_at_least_base(self.scale_factor.num as int, self.exponent.den as nat);
            lemma_pow_at_least_base(completions as int, self.exponent.num as nat);
            lemma_pow_base_monotone(
                completions as int,
                i32::MAX as int,
                self.exponent.num as nat,
            );
            assert(a <= u128::MAX && c <= u128::MAX && a * c <= u128::MAX) by (nonlinear_arith)
                requires
                    a >= 1,
                    1 <= c <= b,
                    a * b <= u128::MAX,
            ;
        }
        let scale: u128 = pow_u128(self.scale_factor.num as u128, self.exponent.den);
        let field: u128 = pow_u128(completions as u128, self.exponent.num);
        scale * field
    }

    /// Whether `k` is reached, given the computed scaled power.
    fn reached(&self, lhs: u128, k: i32, Ghost(n): Ghost<int>) -> (r: bool)
        requires
            self.valid(),
            1 <= k,
            lhs == self.scaled_power(n),
        ensures
            r == self.reaches(n, k as int),
    {
        let number: u128 = k as u128;
        let den: u128 = self.scale_factor.den as u128;
        assert(1 <= number * den <= u128::MAX) by (nonlinear_arith)
            requires
                1 <= number <= 0x7fff_ffff,
                1 <= den <= 0xffff_ffff,
        ;
        pow_at_most(number * den, self.exponent.den, lhs)
    }

    /// The size of this tier on a field of `completions` competitors.
    pub(crate) fn size_for(&self, completions: i32) -> (size: i32)
        requires
            self.valid(),
            completions >= 1,
        ensures
            size == self.size(completions as int),
    {
        let ghost n = completions as int;
        let start: i32 = if self.min_size > 0 {
            self.min_size
        } else {
            0
        };
        // Nothing above the field size is reached: the answer lies between
        // `start` and the field size, or is `start`.
        let mut low: i32 = start;
        let mut high: i64 = if start > completions {
            start as i64 + 1
        } else {
            completions as i64 + 1
        };
        proof {
            if self.reaches(n, high as int) {
                self.lemma_reaches_at_most_field(n, high as int);
            }
        }
        let lhs: u128 = self.scaled_power_of(completions);
        while high - low as i64 > 1
            invariant
                self.valid(),
                n == completions as int,
                n >= 1,
                lhs == self.scaled_power(n),
                0 <= start <= low < high <= i32::MAX + 1,
                start >= self.min_size,
                low > start ==> self.reaches(n, low as int),
                !self.reaches(n, high as int),
            decreases high - low,
        {
            let middle: i32 = (low as i64 + (high - low as i64) / 2) as i32;
            if self.reached(lhs, middle, Ghost(n)) {
                low = middle;
            } else {
                high = middle as i64;
            }
        }
        proof {
            self.lemma_scaled_floor_exists(n);
            let f = self.scaled_floor(n);
            if low > start {
                self.lemma_scaled_floor_is(n, low as int);
            } else if f > low {
                self.lemma_reaches_downward(n, low + 1, f);
            }
        }
        low
    }
}

} // verus!
