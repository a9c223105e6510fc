//! The provisional points and their inverse interpolation matrix.
use vstd::prelude::*;

use crate::consts::one;
use crate::consts::zero;
use crate::float::arith::lemma_fields;
use crate::float::arith::quotient_of;
use crate::float::arith::sum_of;
use crate::float::calculus::lemma_near_negation;
use crate::float::calculus::lemma_near_ratio;
use crate::float::calculus::lemma_near_scaled;
use crate::float::calculus::lemma_near_self;
use crate::float::calculus::lemma_near_sum;
use crate::float::calculus::lemma_sign;
use crate::float::calculus::near;
use crate::float::calculus::sign_of;
use crate::float::convert::unity;
use crate::float::error::size;
use crate::float::error::SHARP;
use crate::float::near::lemma_negation_value;
use crate::float::F64;
use crate::initialize::diag_count;
use crate::initialize::inverse::lemma_balanced;
use crate::initialize::lemma_pairs;
use crate::linalg::turning::lemma_one;
use crate::powalg::pairs_of;
use crate::rescue::directions_of;
use crate::rescue::provisional_bmat;
use crate::rescue::provisional_point;
use crate::rescue::provisional_zmat;

verus! {

/// The provisional points: the first is the origin, the next ones take the first step on one
/// direction each, then the second step, and the rest take the first steps on the two directions of
/// a pair.
pub proof fn lemma_provisional_points(
    n: nat,
    npt: nat,
    a1: Seq<F64>,
    a2: Seq<F64>,
    k: int,
    i: int,
)
    requires
        0 < n,
        2 * n < usize::MAX,
        a1.len() == n,
        0 <= i < n,
        0 <= k < npt,
    ensures
        ({
            let x = provisional_point(directions_of(n, npt, k), a1, a2)[i];
            let p = pairs_of(n, npt)[k - 2 * n - 1];
            &&& k == 0 ==> x == zero()
            &&& 1 <= k <= n ==> x == (if i == k - 1 {
                a1[i]
            } else {
                zero()
            })
            &&& n < k <= 2 * n ==> x == (if i == k - n - 1 {
                a2[i]
            } else {
                zero()
            })
            &&& 2 * n < k ==> x == (if i == p.0 || i == p.1 {
                a1[i]
            } else {
                zero()
            })
        }),
{
    if 2 * n < k {
        lemma_pairs(n, npt, k - 2 * n - 1);
    }
}

/// One by a number.
proof fn lemma_inverted(y: F64, b: int)
    requires
        y.finite(),
        y.value() != 0,
        size(y.value()) <= b,
        2 * SHARP * b <= unity() * unity(),
        (one() / y).finite(),
    ensures
        near(
            one() / y,
            size(y.value()),
            unity() * unity() * sign_of(y.value()),
            unity() as int * unity(),
            2,
        ),
{
    let u = unity() as int;
    let z = size(y.value());
    lemma_one();
    lemma_near_self(one(), u);
    assert(1 * z == z) by (nonlinear_arith);
    assert(2 * SHARP * z <= u * u) by (nonlinear_arith)
        requires
            z <= b,
            2 * SHARP * b <= u * u,
    ;
    lemma_near_ratio(one(), y, 1, u, u, 0);
}

/// The weights of the values at the two points of a direction in its slope, for the steps `p` and
/// `q` with the difference `y`: up to rounding the first is `y - p` by `y p` and the second is `y +
/// q` by `y q`.  Up to the same rounding all weights add up to zero.
pub proof fn lemma_provisional_slopes(
    n: nat,
    npt: nat,
    a1: Seq<F64>,
    a2: Seq<F64>,
    k: int,
    b: int,
)
    requires
        0 <= k < diag_count(n, npt),
        n + 1 < npt,
        a1[k].finite(),
        a2[k].finite(),
        (a1[k] - a2[k]).finite(),
        a1[k].value() != 0,
        a2[k].value() != 0,
        (a1[k] - a2[k]).value() != 0,
        size(a1[k].value()) <= b,
        size(a2[k].value()) <= b,
        size((a1[k] - a2[k]).value()) <= b,
        2 * SHARP * b <= unity() * unity(),
        provisional_bmat(n, npt, a1, a2, k, 0).finite(),
    ensures
        ({
            let u = unity() as int;
            let p = a1[k].value();
            let q = a2[k].value();
            let y = (a1[k] - a2[k]).value();
            let first = provisional_bmat(n, npt, a1, a2, k, k + 1);
            let second = provisional_bmat(n, npt, a1, a2, k, (k + n + 1) as int);
            let base = provisional_bmat(n, npt, a1, a2, k, 0);
            &&& near(
                first,
                size(y) * size(p),
                u * u * (sign_of(p) * size(y) - sign_of(y) * size(p)),
                u * u * (size(y) + size(p)),
                3,
            )
            &&& near(
                second,
                size(y) * size(q),
                u * u * (sign_of(q) * size(y) + sign_of(y) * size(q)),
                u * u * (size(y) + size(q)),
                3,
            )
            &&& sign_of(p) * size(y) - sign_of(y) * size(p) == (sign_of(p) * sign_of(y)) * (y - p)
            &&& sign_of(q) * size(y) + sign_of(y) * size(q) == (sign_of(q) * sign_of(y)) * (y + q)
            &&& SHARP * size(first.value() + base.value() + second.value()) <= size(
                first.value() + second.value(),
            )
        }),
{
    let u = unity() as int;
    let pf = a1[k];
    let qf = a2[k];
    let yf = pf - qf;
    let p = pf.value();
    let q = qf.value();
    let y = yf.value();
    let t = one() / yf;
    let ip = one() / pf;
    let iq = one() / qf;
    let first = (-t) + ip;
    let second = t + iq;
    let uu = u * u;
    lemma_one();
    lemma_negation_value(t);
    assert(provisional_bmat(n, npt, a1, a2, k, k + 1) == first);
    assert(provisional_bmat(n, npt, a1, a2, k, (k + n + 1) as int) == second);
    assert(provisional_bmat(n, npt, a1, a2, k, 0) == (-first) - second);
    assert(first.finite() && second.finite()) by {
        reveal(sum_of);
        lemma_negation_value(first);
        lemma_negation_value(second);
        reveal(crate::float::arith::negation_of);
    }
    assert(t.finite() && ip.finite() && iq.finite()) by {
        reveal(sum_of);
        reveal(crate::float::arith::negation_of);
    }
    lemma_inverted(yf, b);
    lemma_inverted(pf, b);
    lemma_inverted(qf, b);
    let sy = size(y);
    let sp = size(p);
    let sq = size(q);
    let gy = sign_of(y);
    let gp = sign_of(p);
    let gq = sign_of(q);
    lemma_near_negation(t, sy, uu * gy, uu, 2);
    lemma_near_scaled(-t, sy, -(uu * gy), uu, 2, sp);
    lemma_near_scaled(t, sy, uu * gy, uu, 2, sq);
    lemma_near_scaled(ip, sp, uu * gp, uu, 2, sy);
    lemma_near_scaled(iq, sq, uu * gq, uu, 2, sy);
    assert(sp * sy == sy * sp && sq * sy == sy * sq) by (nonlinear_arith);
    lemma_near_sum(-t, ip, sy * sp, -(uu * gy) * sp, uu * sp, 2, (uu * gp) * sy, uu * sy, 2);
    lemma_near_sum(t, iq, sy * sq, (uu * gy) * sq, uu * sq, 2, (uu * gq) * sy, uu * sy, 2);
    assert(-(uu * gy) * sp + (uu * gp) * sy == uu * (gp * sy - gy * sp)) by (nonlinear_arith);
    assert((uu * gy) * sq + (uu * gq) * sy == uu * (gq * sy + gy * sq)) by (nonlinear_arith);
    assert(uu * sp + uu * sy == uu * (sy + sp)) by (nonlinear_arith);
    assert(uu * sq + uu * sy == uu * (sy + sq)) by (nonlinear_arith);
    lemma_sign(y);
    lemma_sign(p);
    lemma_sign(q);
    assert(gp * sy - gy * sp == (gp * gy) * (y - p)) by (nonlinear_arith)
        requires
            sy == y * gy,
            sp == p * gp,
    ;
    assert(gq * sy + gy * sq == (gq * gy) * (y + q)) by (nonlinear_arith)
        requires
            sy == y * gy,
            sq == q * gq,
    ;
    lemma_balanced(first, second);
}

/// A direction with one point: the weights of the two values in its slope are opposite.
pub proof fn lemma_provisional_slope(n: nat, npt: nat, a1: Seq<F64>, a2: Seq<F64>, k: int, j: int)
    requires
        diag_count(n, npt) <= k < n,
        n + 1 < npt,
        0 <= j < npt,
        a1[k].finite(),
        !a1[k].zero(),
    ensures
        ({
            let first = provisional_bmat(n, npt, a1, a2, k, k + 1);
            let base = provisional_bmat(n, npt, a1, a2, k, 0);
            &&& first.mag() == base.mag() && first.sign() != base.sign()
            &&& j != 0 && j != k + 1 ==> provisional_bmat(n, npt, a1, a2, k, j) == zero() || j == k
                + npt
        }),
{
    lemma_fields(0);
    reveal(quotient_of);
}

/// The column of `zmat` for a pair of directions: four entries of the same size, those of the
/// origin and of the pair's point with the one sign, those of the two single steps with the other.
pub proof fn lemma_provisional_pair(n: nat, npt: nat, a1: Seq<F64>, a2: Seq<F64>, r: int, k: int)
    requires
        0 < n <= usize::MAX,
        n <= k < npt - n - 1,
        0 <= r < npt,
    ensures
        ({
            let p = pairs_of(n, npt)[k - n];
            let z = provisional_zmat(n, npt, a1, a2, r, k);
            let z0 = provisional_zmat(n, npt, a1, a2, 0, k);
            &&& r == k + n + 1 ==> z == z0
            &&& r == p.0 + 1 || r == p.1 + 1 ==> z == -z0
            &&& r != 0 && r != k + n + 1 && r != p.0 + 1 && r != p.1 + 1 ==> z == zero()
            &&& z0 == one() / (a1[p.0 as int] * a1[p.1 as int])
        }),
{
    lemma_pairs(n, npt, k - n);
}

} // verus!
