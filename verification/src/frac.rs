use vstd::prelude::*;
use vstd::arithmetic::div_mod::{
    lemma_div_is_ordered, lemma_div_multiples_vanish, lemma_fundamental_div_mod,
    lemma_mod_bound, lemma_multiply_divide_lt,
};
use vstd::arithmetic::mul::{lemma_mul_inequality, lemma_mul_strict_inequality_converse};

verus! {

/// A non-negative fraction `num / den` with `num <= den`, so its value lies
/// in `[0, 1]`. The pipeline's fractional parameters (percentile cutoff,
/// padding fractions) are carried as such rationals so that every product and
/// truncation is exact integer arithmetic.
#[derive(Clone, Copy, Debug, PartialEq, Eq, Structural)]
pub struct Frac {
    pub num: u64,
    pub den: u64,
}

impl Frac {
    /// A fraction is well formed when its denominator is positive and its
    /// value is at most one.
    pub open spec fn wf(self) -> bool {
        1 <= self.den && self.num <= self.den
    }

    /// The fraction's value is strictly below one.
    pub open spec fn below_one(self) -> bool {
        self.num < self.den
    }

    pub fn new(num: u64, den: u64) -> (r: Frac)
        requires
            1 <= den,
            num <= den,
        ensures
            r.num == num,
            r.den == den,
            r.wf(),
    {
        Frac { num, den }
    }

    /// `floor(self * x)`: the product of the fraction with an integer,
    /// truncated toward zero (the operands are never negative here).
    pub open spec fn scale(self, x: int) -> int {
        self.num * x / (self.den as int)
    }

    /// Multiplies a value by the fraction, truncating toward zero.
    /// The result never exceeds the value itself, because the fraction is at
    /// most one.
    pub fn apply(&self, x: u64) -> (r: u64)
        requires
            self.wf(),
        ensures
            r == self.scale(x as int),
            r <= x,
    {
        proof {
            self.lemma_scale_le(x as int);
            assert((x as int) * (self.num as int) == self.num * (x as int)
                && 0 <= (x as int) * (self.num as int) <= u64::MAX as int * (u64::MAX as int))
                by (nonlinear_arith)
                requires
                    0 <= x <= u64::MAX,
                    0 <= self.num <= u64::MAX,
            ;
        }
        let wide: u128 = (x as u128) * (self.num as u128) / (self.den as u128);
        wide as u64
    }

    /// Scaling by a fraction that is at most one never increases the value.
    pub proof fn lemma_scale_le(self, x: int)
        requires
            self.wf(),
            0 <= x,
        ensures
            0 <= self.scale(x) <= x,
    {
        assert(0 <= self.num * x && self.num * x <= self.den * x) by {
            lemma_mul_inequality(0, self.num as int, x);
            lemma_mul_inequality(self.num as int, self.den as int, x);
        }
        lemma_div_is_ordered(0, self.num * x, self.den as int);
        lemma_div_is_ordered(self.num * x, self.den * x, self.den as int);
        assert(self.den * x / self.den as int == x) by {
            lemma_div_multiples_vanish(x, self.den as int);
        }
    }

    /// Scaling by a zero fraction yields zero.
    pub proof fn lemma_scale_zero(self, x: int)
        requires
            self.wf(),
            self.num == 0,
        ensures
            self.scale(x) == 0,
    {
        assert(self.num * x == 0) by (nonlinear_arith)
            requires self.num == 0;
        assert(0int / self.den as int == 0) by {
            lemma_div_multiples_vanish(0, self.den as int);
        }
    }

    /// Scaling a positive value by a fraction strictly below one yields a
    /// strictly smaller value: the percentile index is always in range.
    pub proof fn lemma_scale_below(self, x: int)
        requires
            self.wf(),
            self.below_one(),
            1 <= x,
        ensures
            0 <= self.scale(x) < x,
    {
        self.lemma_scale_le(x);
        assert((self.num as int) * x < (self.den as int) * x) by (nonlinear_arith)
            requires
                self.num < self.den,
                1 <= x,
        ;
        lemma_multiply_divide_lt(self.num * x, self.den as int, x);
    }

    /// Whether this fraction is at most the other, as rational numbers.
    pub open spec fn le(self, other: Frac) -> bool {
        self.num * other.den <= other.num * self.den
    }

    /// Scaling is monotone in the fraction: a larger fraction of the same
    /// non-negative value is at least as large, even after truncation.
    pub proof fn lemma_scale_monotone(self, other: Frac, x: int)
        requires
            self.wf(),
            other.wf(),
            self.le(other),
            0 <= x,
        ensures
            self.scale(x) <= other.scale(x),
    {
        let ds = self.den as int;
        let dn = other.den as int;
        let a = self.num * x;
        let b = other.num * x;
        let q = b / dn;
        let r = b % dn;
        lemma_fundamental_div_mod(b, dn);
        lemma_mod_bound(b, dn);
        assert(a * dn <= b * ds) by (nonlinear_arith)
            requires
                self.num * dn <= other.num * ds,
                0 <= x,
                a == self.num * x,
                b == other.num * x,
        ;
        assert(b * ds < ((q + 1) * ds) * dn) by (nonlinear_arith)
            requires
                b == dn * q + r,
                0 <= r < dn,
                1 <= ds,
        ;
        assert(a * dn < ((q + 1) * ds) * dn);
        lemma_mul_strict_inequality_converse(a, (q + 1) * ds, dn);
        assert((q + 1) * ds == ds * (q + 1)) by (nonlinear_arith);
        lemma_multiply_divide_lt(a, ds, q + 1);
    }
}

} // verus!
