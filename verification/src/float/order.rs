//! Comparisons, minimum and maximum.
use vstd::prelude::*;

use crate::float::F64;

verus! {

/// Neither number is NaN and the first lies strictly below the second.
#[verifier::opaque]
pub open spec fn below(a: F64, b: F64) -> bool {
    !a.nan() && !b.nan() && a.key() < b.key()
}

/// Neither number is NaN and the first does not lie above the second.
#[verifier::opaque]
pub open spec fn at_most(a: F64, b: F64) -> bool {
    !a.nan() && !b.nan() && a.key() <= b.key()
}

/// The larger of two numbers; a NaN gives way to the other argument, and of two equal numbers
/// the first is taken.
#[verifier::opaque]
pub open spec fn max_of(a: F64, b: F64) -> F64 {
    if a.nan() || below(a, b) {
        b
    } else {
        a
    }
}

/// The smaller of two numbers; a NaN gives way to the other argument, and of two equal numbers
/// the first is taken.
#[verifier::opaque]
pub open spec fn min_of(a: F64, b: F64) -> F64 {
    if a.nan() || below(b, a) {
        b
    } else {
        a
    }
}

impl F64 {
    /// `a < b` in specifications.
    pub open spec fn spec_lt(self, rhs: F64) -> bool {
        below(self, rhs)
    }

    /// `a <= b` in specifications.
    pub open spec fn spec_le(self, rhs: F64) -> bool {
        at_most(self, rhs)
    }

    /// `a > b` in specifications.
    pub open spec fn spec_gt(self, rhs: F64) -> bool {
        below(rhs, self)
    }

    /// `a >= b` in specifications.
    pub open spec fn spec_ge(self, rhs: F64) -> bool {
        at_most(rhs, self)
    }

    /// Whether the number lies in the closed interval from `lo` to `hi`.
    pub open spec fn within(self, lo: F64, hi: F64) -> bool {
        lo <= self && self <= hi
    }

    /// Whether the number lies strictly below `rhs`.
    pub fn lt(self, rhs: F64) -> (r: bool)
        ensures
            r == (self < rhs),
    {
        proof {
            reveal(below);
        }
        if self.is_nan() || rhs.is_nan() {
            return false;
        }
        let ma: u64 = self.magnitude();
        let mb: u64 = rhs.magnitude();
        if self.is_sign_negative() {
            if rhs.is_sign_negative() {
                mb < ma
            } else {
                ma > 0 || mb > 0
            }
        } else if rhs.is_sign_negative() {
            false
        } else {
            ma < mb
        }
    }

    /// Whether the number does not lie above `rhs`.
    pub fn le(self, rhs: F64) -> (r: bool)
        ensures
            r == (self <= rhs),
    {
        proof {
            reveal(below);
            reveal(at_most);
        }
        !self.is_nan() && !rhs.is_nan() && !rhs.lt(self)
    }

    /// Whether the number lies strictly above `rhs`.
    pub fn gt(self, rhs: F64) -> (r: bool)
        ensures
            r == (self > rhs),
    {
        rhs.lt(self)
    }

    /// Whether the number does not lie below `rhs`.
    pub fn ge(self, rhs: F64) -> (r: bool)
        ensures
            r == (self >= rhs),
    {
        rhs.le(self)
    }

    /// The larger of the two numbers; a NaN gives way to the other one.
    pub fn max(self, rhs: F64) -> (r: F64)
        ensures
            r == max_of(self, rhs),
    {
        proof {
            reveal(max_of);
        }
        if self.is_nan() || self.lt(rhs) {
            rhs
        } else {
            self
        }
    }

    /// The smaller of the two numbers; a NaN gives way to the other one.
    pub fn min(self, rhs: F64) -> (r: F64)
        ensures
            r == min_of(self, rhs),
    {
        proof {
            reveal(min_of);
        }
        if self.is_nan() || rhs.lt(self) {
            rhs
        } else {
            self
        }
    }
}

/// The two are the same number; both zeros are.
pub open spec fn same(a: F64, b: F64) -> bool {
    a <= b && b <= a
}

/// The order is total on the numbers that are not NaN.
pub proof fn lemma_order_total(a: F64, b: F64)
    requires
        !a.nan(),
        !b.nan(),
    ensures
        a <= b || b < a,
        !(a <= b && b < a),
{
    reveal(below);
    reveal(at_most);
}

/// The order is transitive.
pub proof fn lemma_order_transitive(a: F64, b: F64, c: F64)
    requires
        a <= b,
        b <= c,
    ensures
        a <= c,
        a < b || b < c ==> a < c,
{
    reveal(below);
    reveal(at_most);
}

/// Clamping into an interval whose ends are ordered lands in the interval, whatever is clamped.
pub proof fn lemma_clamp(lo: F64, hi: F64, v: F64)
    requires
        lo <= hi,
    ensures
        max_of(lo, min_of(hi, v)).within(lo, hi),
        max_of(min_of(v, hi), lo).within(lo, hi),
{
    reveal(below);
    reveal(at_most);
    reveal(max_of);
    reveal(min_of);
}

} // verus!
