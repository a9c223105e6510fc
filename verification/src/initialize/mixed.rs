//! The mixed curvatures of the initial model.
use vstd::prelude::*;

use crate::float::arith::quotient_of;
use crate::float::arith::sum_of;
use crate::float::calculus::lemma_near_difference;
use crate::float::calculus::lemma_near_ratio;
use crate::float::calculus::lemma_near_self;
use crate::float::calculus::lemma_near_sum;
use crate::float::calculus::near;
use crate::float::calculus::sign_of;
use crate::float::convert::unity;
use crate::float::error::lemma_product_error;
use crate::float::error::size;
use crate::float::error::SHARP;
use crate::float::near::lemma_negation_value;
use crate::float::F64;
use crate::initialize::start_diagonal;
use crate::initialize::start_hessian;
use crate::initialize::start_mixed;
use crate::linalg::turning::lemma_one;
use crate::powalg::lemma_pairs_distinct;
use crate::powalg::pairs_of;
use crate::update::formula::ample;
use crate::update::formula::fits;

verus! {

/// The mixed curvature of two variables: times the product `P` of the two coordinates of the pair's
/// point it is the second difference `f0 - fi - fj + fc` of the values, up to rounding.
pub proof fn lemma_mixed_fits(
    n: nat,
    fval: Seq<F64>,
    xpt: Seq<Seq<F64>>,
    i: int,
    j: int,
    m: int,
    b: int,
)
    requires
        ample(b),
        fits(fval[0], b),
        fits(fval[i + 1], b),
        fits(fval[j + 1], b),
        fits(fval[2 * n + 1 + m], b),
        xpt[2 * n + 1 + m][i].finite(),
        xpt[2 * n + 1 + m][j].finite(),
        fits(xpt[2 * n + 1 + m][i] * xpt[2 * n + 1 + m][j], b),
        (xpt[2 * n + 1 + m][i] * xpt[2 * n + 1 + m][j]).value() != 0,
        start_mixed(n, fval, xpt, i, j, m).finite(),
    ensures
        ({
            let c = 2 * n + 1 + m;
            let u = unity() as int;
            let p = (xpt[c][i] * xpt[c][j]).value();
            let e = xpt[c][i].value() * xpt[c][j].value();
            &&& near(
                start_mixed(n, fval, xpt, i, j, m),
                size(p),
                (fval[0].value() - fval[i + 1].value() - fval[j + 1].value() + fval[c].value()) * u
                    * sign_of(p),
                4 * b * u,
                5,
            )
            &&& 2 * SHARP * size(p * u - e) <= size(e) + SHARP * u
        }),
{
    let c = 2 * n + 1 + m;
    let u = unity() as int;
    let pr = xpt[c][i] * xpt[c][j];
    let f0 = fval[0];
    let fi = fval[i + 1];
    let fj = fval[j + 1];
    let fc = fval[c];
    let s1 = f0 - fi;
    let s2 = s1 - fj;
    let s3 = s2 + fc;
    vstd::arithmetic::power2::lemma_pow2_pos(1074);
    lemma_one();
    assert(s3.finite()) by {
        reveal(quotient_of);
    }
    assert(s2.finite()) by {
        reveal(sum_of);
    }
    assert(s1.finite()) by {
        reveal(sum_of);
        lemma_negation_value(fj);
    }
    lemma_near_self(f0, b);
    lemma_near_self(fi, b);
    lemma_near_self(fj, b);
    lemma_near_self(fc, b);
    lemma_near_difference(f0, fi, 1, f0.value(), b, 0, fi.value(), b, 0);
    let n1 = f0.value() - fi.value();
    lemma_near_difference(s1, fj, 1, n1, b + b, 1, fj.value(), b, 0);
    let n2 = n1 - fj.value();
    lemma_near_sum(s2, fc, 1, n2, b + b + b, 2, fc.value(), b, 0);
    let z = size(pr.value());
    assert(1 * z == z) by (nonlinear_arith);
    assert(2 * SHARP * z <= (b + b + b + b) * u) by (nonlinear_arith)
        requires
            z <= b,
            u >= SHARP,
            b > 0,
    ;
    lemma_near_ratio(s3, pr, 1, n2 + fc.value(), b + b + b + b, 3);
    assert(b + b + b + b == 4 * b);
    lemma_product_error(xpt[c][i], xpt[c][j]);
}

/// The explicit Hessian of the initial model holds the mixed curvature of each pair at both of its
/// places, and its diagonal is that of the curvatures along the axes.
pub proof fn lemma_mixed_placed(
    n: nat,
    npt: nat,
    fval: Seq<F64>,
    xpt: Seq<Seq<F64>>,
    k: nat,
    m: int,
)
    requires
        0 < n <= usize::MAX,
        2 * npt <= (n + 1) * (n + 2),
        k <= pairs_of(n, npt).len(),
        0 <= m < k,
    ensures
        ({
            let i = pairs_of(n, npt)[m].0 as int;
            let j = pairs_of(n, npt)[m].1 as int;
            let h = start_hessian(n, npt, fval, xpt, k);
            let v = start_mixed(n, fval, xpt, i, j, m);
            &&& h[i][j] == v
            &&& h[j][i] == v
            &&& forall|a: int| 0 <= a < n ==> #[trigger] h[a][a] == start_diagonal(
                n,
                npt,
                fval,
                xpt,
            )[a][a]
        }),
    decreases k,
{
    lemma_hessian_shape(n, npt, fval, xpt, (k - 1) as nat);
    lemma_hessian_diagonal(n, npt, fval, xpt, k);
    lemma_pairs_distinct(n, npt, m, k - 1);
    lemma_pairs_distinct(n, npt, k - 1, m);
    let p = pairs_of(n, npt)[m];
    let q = pairs_of(n, npt)[k - 1];
    if m < k - 1 {
        lemma_mixed_placed(n, npt, fval, xpt, (k - 1) as nat, m);
        assert(!(p.0 == q.0 && p.1 == q.1));
        assert(!(p.0 == q.1 && p.1 == q.0));
    }
}

/// The explicit Hessian is square.
proof fn lemma_hessian_shape(n: nat, npt: nat, fval: Seq<F64>, xpt: Seq<Seq<F64>>, k: nat)
    requires
        0 < n <= usize::MAX,
        2 * npt <= (n + 1) * (n + 2),
        k <= pairs_of(n, npt).len(),
    ensures
        start_hessian(n, npt, fval, xpt, k).len() == n,
        forall|a: int| 0 <= a < n ==> (#[trigger] start_hessian(n, npt, fval, xpt, k)[a]).len() == n,
    decreases k,
{
    if k > 0 {
        lemma_hessian_shape(n, npt, fval, xpt, (k - 1) as nat);
        lemma_pairs_distinct(n, npt, k - 1, k - 1);
    }
}

/// The mixed curvatures leave the diagonal alone.
proof fn lemma_hessian_diagonal(n: nat, npt: nat, fval: Seq<F64>, xpt: Seq<Seq<F64>>, k: nat)
    requires
        0 < n <= usize::MAX,
        2 * npt <= (n + 1) * (n + 2),
        k <= pairs_of(n, npt).len(),
    ensures
        forall|a: int|
            0 <= a < n ==> #[trigger] start_hessian(n, npt, fval, xpt, k)[a][a] == start_diagonal(
                n,
                npt,
                fval,
                xpt,
            )[a][a],
    decreases k,
{
    if k > 0 {
        lemma_hessian_diagonal(n, npt, fval, xpt, (k - 1) as nat);
        lemma_hessian_shape(n, npt, fval, xpt, (k - 1) as nat);
        lemma_pairs_distinct(n, npt, k - 1, k - 1);
    }
}

} // verus!
