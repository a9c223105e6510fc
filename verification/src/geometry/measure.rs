//! How distances are measured, and how far a line goes.
use vstd::prelude::*;

use crate::float::arith::lemma_fields;
use crate::float::arith::magnitude_of;
use crate::float::arith::with_sign_of;
use crate::float::calculus::lemma_near_difference;
use crate::float::calculus::lemma_near_self;
use crate::float::calculus::near;
use crate::float::calculus::MANY;
use crate::float::convert::unity;
use crate::float::error::lemma_quotient_error;
use crate::float::error::size;
use crate::float::error::SHARP;
use crate::float::near::lemma_negation_value;
use crate::float::F64;
use crate::geometry::distance_sq;
use crate::geometry::lower_fraction;
use crate::geometry::upper_fraction;
use crate::linalg::accuracy::all_near;
use crate::linalg::accuracy::exact_dot;
use crate::linalg::accuracy::lemma_dot_finite;
use crate::linalg::accuracy::lemma_dot_near;
use crate::linalg::accuracy::within_size;
use crate::vector::minus;

verus! {

/// The exact differences of the coordinates.
pub open spec fn exact_gap(x: Seq<F64>, c: Seq<F64>) -> Seq<int> {
    Seq::new(x.len(), |i: int| x[i].value() - c[i].value())
}

/// The squared distance of two points is the sum of the squares of the exact differences of their
/// coordinates, up to rounding.
pub proof fn lemma_distance_near(x: Seq<F64>, c: Seq<F64>, b: int)
    requires
        x.len() == c.len(),
        within_size(x, b, x.len()),
        within_size(c, b, x.len()),
        2 * SHARP <= b,
        2 * SHARP * unity() <= b * b,
        x.len() + 10 <= MANY,
        distance_sq(x, c).finite(),
    ensures
        near(
            distance_sq(x, c),
            unity() as int,
            exact_dot(exact_gap(x, c), exact_gap(x, c), x.len()),
            (x.len() + 1) * ((b + b) * (b + b)),
            x.len() as int + 4,
        ),
{
    let n = x.len();
    let u = unity() as int;
    let d = minus(x, c);
    let e = exact_gap(x, c);
    let m = b + b;
    vstd::arithmetic::power2::lemma_pow2_pos(1074);
    assert(all_near(d, 1, e, m, 1, n)) by {
        assert forall|i: int| 0 <= i < n implies near(#[trigger] d[i], 1, e[i], m, 1) by {
            lemma_dot_finite(d, d, n, i);
            lemma_near_self(x[i], b);
            lemma_near_self(c[i], b);
            lemma_near_difference(x[i], c[i], 1, x[i].value(), b, 0, c[i].value(), b, 0);
        }
    }
    assert(1 * 1 * u == u) by (nonlinear_arith);
    assert(2 * SHARP * u <= m * m) by (nonlinear_arith)
        requires
            2 * SHARP * u <= b * b,
            m == b + b,
            b > 0,
    ;
    lemma_dot_near(d, d, n, 1, e, m, 1, 1, e, m, 1);
}

/// How far a line goes before a variable that changes by `xdiff` meets its lower bound, at the
/// distance `gap`: that many times `xdiff` is `gap`, up to rounding, or the line goes its whole
/// length `subd` the other way.
pub proof fn lemma_lower_fraction(gap: F64, xdiff: F64, subd: F64)
    requires
        gap.finite(),
        xdiff.finite(),
        !xdiff.zero(),
        !subd.nan(),
        lower_fraction(gap, xdiff, subd).finite(),
    ensures
        ({
            let f = lower_fraction(gap, xdiff, subd);
            let meets = gap > (-magnitude_of(xdiff)) * subd;
            &&& meets ==> 2 * SHARP * size(f.value() * xdiff.value() - gap.value() * unity())
                <= size(gap.value()) * unity() + SHARP * size(xdiff.value())
            &&& !meets ==> f.mag() == subd.mag() && f.sign() != xdiff.sign()
        }),
{
    lemma_fields(0);
    lemma_fields(xdiff.mag());
    lemma_negation_value(xdiff);
    if gap > (-magnitude_of(xdiff)) * subd {
        lemma_quotient_error(gap, xdiff);
    } else {
        reveal(with_sign_of);
        reveal(crate::float::arith::negation_of);
    }
}

/// How far a line goes before a variable that changes by `xdiff` meets its upper bound, at the
/// distance `gap`: that many times `xdiff` is `gap`, up to rounding, or the line goes its whole
/// length `subd` that way.
pub proof fn lemma_upper_fraction(gap: F64, xdiff: F64, subd: F64)
    requires
        gap.finite(),
        xdiff.finite(),
        !xdiff.zero(),
        !subd.nan(),
        upper_fraction(gap, xdiff, subd).finite(),
    ensures
        ({
            let f = upper_fraction(gap, xdiff, subd);
            let meets = gap < magnitude_of(xdiff) * subd;
            &&& meets ==> 2 * SHARP * size(f.value() * xdiff.value() - gap.value() * unity())
                <= size(gap.value()) * unity() + SHARP * size(xdiff.value())
            &&& !meets ==> f.mag() == subd.mag() && f.sign() == xdiff.sign()
        }),
{
    lemma_fields(0);
    lemma_fields(xdiff.mag());
    if gap < magnitude_of(xdiff) * subd {
        lemma_quotient_error(gap, xdiff);
    } else {
        reveal(with_sign_of);
    }
}

} // verus!
