//! What the initial inverse interpolation matrix keeps: constants have no gradient and no
//! curvature.
use vstd::prelude::*;

use crate::consts::zero;
use crate::float::arith::quotient_of;
use crate::float::error::lemma_sum_error;
use crate::float::error::size;
use crate::float::error::SHARP;
use crate::float::near::lemma_negation_value;
use crate::float::F64;
use crate::initialize::base_weight;
use crate::initialize::diag_count;
use crate::initialize::start_inverse;
use crate::powalg::pairs_of;

verus! {

/// A number, its opposite less a third, and the third add up to zero, up to rounding.
pub(crate) proof fn lemma_balanced(a: F64, c: F64)
    requires
        a.finite(),
        c.finite(),
        ((-a) - c).finite(),
    ensures
        SHARP * size(a.value() + ((-a) - c).value() + c.value()) <= size(a.value() + c.value()),
{
    lemma_negation_value(a);
    lemma_negation_value(c);
    lemma_sum_error(-a, -c);
}

/// The weights of the values in each slope of the initial model add up to zero, so that a constant
/// has no slope: there are two or three of them that are not zero, and their sum is zero up to
/// rounding.
pub proof fn lemma_slopes_balance(n: nat, xpt: Seq<Seq<F64>>, k: int, j: int)
    requires
        0 <= k < n,
        n + 2 <= xpt.len(),
        0 <= j < xpt.len(),
        start_inverse(n, xpt).bmat[0][k].finite(),
        start_inverse(n, xpt).bmat[k + 1][k].finite(),
        k < diag_count(n, xpt.len()) ==> start_inverse(n, xpt).bmat[k + n + 1][k].finite(),
    ensures
        ({
            let b = start_inverse(n, xpt).bmat;
            let two_points = k < diag_count(n, xpt.len());
            let last = b[k + n + 1][k].value();
            &&& j != 0 && j != k + 1 && !(two_points && j == k + n + 1) ==> b[j][k].zero()
            &&& two_points ==> SHARP * size(b[0][k].value() + b[k + 1][k].value() + last) <= size(
                b[0][k].value() + last,
            )
            &&& !two_points ==> b[0][k].value() + b[k + 1][k].value() == 0
        }),
{
    let npt = xpt.len();
    let b = start_inverse(n, xpt).bmat;
    let w = base_weight(n, npt, xpt, k);
    lemma_negation_value(w);
    assert(b[0][k] == w);
    if k < diag_count(n, npt) {
        let c = b[k + n + 1][k];
        assert(b[k + 1][k] == (-w) - c);
        lemma_balanced(w, c);
    }
}

/// The entries of each column of the initial `zmat` add up to zero, so that a constant has no
/// curvature: exactly for a column of a pair of variables, and up to rounding for one of a single
/// variable.
pub proof fn lemma_curvatures_balance(n: nat, xpt: Seq<Seq<F64>>, k: int, r: int)
    requires
        0 < n <= usize::MAX,
        n + 2 <= xpt.len(),
        0 <= k < xpt.len() - n - 1,
        0 <= r < xpt.len(),
        k < n ==> start_inverse(n, xpt).zmat[k][0].finite() && start_inverse(n, xpt).zmat[k][k
            + 1].finite() && start_inverse(n, xpt).zmat[k][k + n + 1].finite(),
    ensures
        ({
            let z = start_inverse(n, xpt).zmat[k];
            &&& k < n ==> {
                &&& r != 0 && r != k + 1 && r != k + n + 1 ==> z[r].zero()
                &&& SHARP * size(z[0].value() + z[k + 1].value() + z[k + n + 1].value()) <= size(
                    z[0].value() + z[k + n + 1].value(),
                )
            }
            &&& k >= n ==> {
                let p = pairs_of(n, xpt.len())[k - n];
                &&& r != 0 && r != p.0 + 1 && r != p.1 + 1 && r != k + n + 1 ==> z[r].zero()
                &&& z[0] == z[k + n + 1]
                &&& z[p.0 as int + 1].mag() == z[0].mag() && z[p.1 as int + 1] == z[p.0 as int + 1]
                &&& !z[0].nan() ==> z[p.0 as int + 1].sign() != z[0].sign()
            }
        }),
{
    let npt = xpt.len();
    let z = start_inverse(n, xpt).zmat[k];
    if k < n {
        assert(k < diag_count(n, npt));
        let a = z[0];
        let c = z[k + n + 1];
        assert(z[k + 1] == (-a) - c);
        lemma_balanced(a, c);
    } else {
        crate::initialize::lemma_pairs(n, npt, k - n);
        reveal(quotient_of);
    }
}

} // verus!
