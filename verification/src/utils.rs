//! Small arithmetic helpers.
use vstd::prelude::*;

verus! {

/// Division rounding up.
pub trait DivCeil: Sized {
    /// Whether the division can be computed.
    spec fn div_ceil_defined(self, rhs: Self) -> bool;

    /// The quotient, rounded up.
    spec fn div_ceil_value(self, rhs: Self) -> Self;

    fn div_ceil(self, rhs: Self) -> (r: Self)
        requires
            self.div_ceil_defined(rhs),
        ensures
            r == self.div_ceil_value(rhs),
    ;
}

impl DivCeil for u32 {
    /// The divisor is positive and `self + rhs` fits in 32 bits.
    open spec fn div_ceil_defined(self, rhs: u32) -> bool {
        rhs > 0 && self + rhs <= u32::MAX
    }

    /// The least `q` with `q * rhs >= self`.
    open spec fn div_ceil_value(self, rhs: u32) -> u32 {
        ((self + rhs - 1) / (rhs as int)) as u32
    }

    fn div_ceil(self, rhs: u32) -> (r: u32) {
        (self + rhs - 1) / rhs
    }
}

/// `div_ceil_value` is the least multiple count covering `x`.
pub proof fn lemma_div_ceil_least(x: u32, d: u32)
    requires
        x.div_ceil_defined(d),
    ensures
        x.div_ceil_value(d) * d >= x,
        x.div_ceil_value(d) == 0 || (x.div_ceil_value(d) - 1) * d < x,
{
    let q = (x + d - 1) / (d as int);
    let r = (x + d - 1) % (d as int);
    assert(q * d + r == x + d - 1 && 0 <= r < d) by (nonlinear_arith)
        requires
            d > 0,
            q == (x + d - 1) / (d as int),
            r == (x + d - 1) % (d as int),
    ;
    assert((q - 1) * d == q * d - d) by (nonlinear_arith);
    assert(0 <= q <= u32::MAX) by (nonlinear_arith)
        requires
            d > 0,
            0 <= x + d - 1 <= u32::MAX,
            q == (x + d - 1) / (d as int),
    ;
}

} // verus!
