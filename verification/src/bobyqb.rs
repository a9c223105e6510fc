//! The main calculations: the reduction ratio, the reduction of the resolution, the move of the
//! base point and the bound on the model errors here, and the trust-region iterations in the
//! submodules.
use vstd::arithmetic::power2::lemma2_to64;
use vstd::arithmetic::power2::lemma2_to64_rest;
use vstd::arithmetic::power2::lemma_pow2_adds;
use vstd::arithmetic::power2::lemma_pow2_pos;
use vstd::arithmetic::power2::pow2;
use vstd::prelude::*;

pub mod best;
pub mod choice;
pub mod course;
pub mod drift;
pub mod drive;
pub mod iterate;
pub mod kernels;
pub mod laws;
pub mod pace;
pub mod progress;
pub mod shift;
pub mod site;
pub mod span;
pub mod start;

use crate::consts::eighth;
use crate::consts::half;
use crate::consts::infinity;
use crate::consts::neg_realmax;
use crate::consts::one;
use crate::consts::quarter;
use crate::consts::sixteen;
use crate::consts::tenth;
use crate::consts::two_hundred_fifty;
use crate::consts::zero;
use crate::float::arith::lemma_fields;
use crate::float::arith::lemma_sum_commutes;
use crate::float::arith::lemma_zero_stays;
use crate::float::arith::product_of;
use crate::float::arith::quotient_of;
use crate::float::arith::root_of;
use crate::float::expo;
use crate::float::near::lemma_half_product;
use crate::float::near::lemma_predecessor;
use crate::float::near::lemma_root_beside;
use crate::float::near::lemma_round_beside;
use crate::float::near::lemma_units_monotone;
use crate::float::near::lemma_zero_keeps;
use crate::float::order::at_most;
use crate::float::order::below;
use crate::float::order::max_of;
use crate::float::order::min_of;
use crate::float::order::same;
use crate::float::sig;
use crate::float::units;
use crate::float::F64;
use crate::float::HIDDEN;
use crate::linalg::all_finite_mat;
use crate::linalg::inprod;
use crate::linalg::matmat;
use crate::linalg::matprod12_into;
use crate::linalg::matprod21_into;
use crate::linalg::matprod22_into;
use crate::linalg::matvec;
use crate::linalg::outer;
use crate::linalg::outprod_into;
use crate::linalg::transposed;
use crate::linalg::vecmat;
use crate::mat::row;
use crate::mat::shaped;
use crate::mat::Mat;
use crate::powalg::hess_mul_into;
use crate::powalg::hessian_mul;
use crate::powalg::set_shaped;
use crate::rescue::recentre;
use crate::rescue::recentred;
use crate::vector::accumulate;
use crate::vector::all_finite;
use crate::vector::constant;
use crate::vector::copy;
use crate::vector::dot;
use crate::vector::dot_from;
use crate::vector::largest_abs_from;
use crate::vector::lemma_dot_commutes;
use crate::vector::lemma_dot_zero;
use crate::vector::magnitudes;
use crate::vector::max_from;
use crate::vector::minus;
use crate::vector::plus;
use crate::vector::same_point;
use crate::vector::sum;
use crate::vector::sum_into;
use crate::vector::total;
use crate::vector::zeros;

verus! {

/// The ratio of the actual to the predicted reduction, defined for every pair of numbers: a NaN
/// reduction of the objective is the worst one, a prediction that is not positive is right by
/// half of the lower threshold where the objective was reduced, and quotients of infinities go
/// by their signs.
pub open spec fn reduction_ratio(ared: F64, pred: F64, rshrink: F64) -> F64 {
    if ared.nan() {
        neg_realmax()
    } else if pred.nan() || pred <= zero() {
        if ared > zero() {
            half() * rshrink
        } else {
            neg_realmax()
        }
    } else if pred.inf() && !pred.sign() && ared.inf() {
        if !ared.sign() {
            one()
        } else {
            neg_realmax()
        }
    } else {
        ared / pred
    }
}

/// The reduced resolution: a tenth of it while it is far above the final one, then its
/// geometric mean with the final one, then the final one.
pub open spec fn reduced_rho(rho: F64, rhoend: F64) -> F64 {
    if rho / rhoend > two_hundred_fifty() {
        tenth() * rho
    } else if rho / rhoend <= sixteen() {
        rhoend
    } else {
        root_of(rho / rhoend) * rhoend
    }
}

/// The vectors by which the inverse interpolation matrix changes when the base point moves to
/// `xopt`.
pub open spec fn shift_y(xpt: Seq<Seq<F64>>, xopt: Seq<F64>) -> Seq<Seq<F64>> {
    let sq = dot(xopt, xopt);
    Seq::new(
        xpt.len(),
        |k: int|
            Seq::new(
                xopt.len(),
                |i: int|
                    (dot(xopt, xpt[k]) - half() * sq) * (xpt[k][i] - half() * xopt[i]) + (quarter()
                        * sq) * xopt[i],
            ),
    )
}

/// The last rows of the inverse interpolation matrix when the base point moves to `xopt`.
pub open spec fn shifted_bmat(
    bmat: Seq<Seq<F64>>,
    zmat: Seq<Seq<F64>>,
    xpt: Seq<Seq<F64>>,
    xopt: Seq<F64>,
) -> Seq<Seq<F64>> {
    let n = xopt.len();
    let npt = xpt.len();
    let y = shift_y(xpt, xopt);
    let by = matmat(bmat.take(npt as int), transposed(y, n), n);
    let yz = matmat(y, zmat, n);
    let yzyz = matmat(yz, transposed(yz, n), n);
    let yzz = matmat(yz, transposed(zmat, npt), n);
    Seq::new(
        npt + n,
        |c: int|
            Seq::new(
                n,
                |i: int|
                    if c < npt {
                        bmat[c][i] + yzz[c][i]
                    } else {
                        bmat[c][i] + (by[c - npt][i] + by[i][c - npt]) + yzyz[c - npt][i]
                    },
            ),
    )
}

/// The explicit Hessian when the base point moves to `xopt`.
pub open spec fn shifted_hq(
    hq: Seq<Seq<F64>>,
    pq: Seq<F64>,
    xpt: Seq<Seq<F64>>,
    xopt: Seq<F64>,
) -> Seq<Seq<F64>> {
    let n = xopt.len();
    let v = Seq::new(n, |i: int| dot(row(xpt, i), pq) - (half() * total(pq)) * xopt[i]);
    let vx = outer(v, xopt);
    Seq::new(n, |j: int| Seq::new(n, |i: int| (vx[j][i] + vx[i][j]) + hq[j][i]))
}

/// The least of `acc` and the first `k` entries, NaN giving way to what was found before it.
pub open spec fn least_from(acc: F64, x: Seq<F64>, k: nat) -> F64
    decreases k,
{
    if k == 0 {
        acc
    } else {
        let before = least_from(acc, x, (k - 1) as nat);
        if x[k - 1] < before {
            x[k - 1]
        } else {
            before
        }
    }
}

/// The curvature of the model along each coordinate direction.
pub open spec fn axis_curvatures(hq: Seq<Seq<F64>>, pq: Seq<F64>, xpt: Seq<Seq<F64>>) -> Seq<F64> {
    Seq::new(
        hq.len(),
        |i: int|
            hq[i][i] + dot(Seq::new(xpt.len(), |k: int| row(xpt, i)[k] * row(xpt, i)[k]), pq),
    )
}

/// The bounds on the model errors from each coordinate direction: from the recent errors
/// `worst` where the point `xnew` is free, from the slope at a bound otherwise.
pub open spec fn axis_bounds(
    worst: F64,
    gnew: Seq<F64>,
    curvatures: Seq<F64>,
    rho: F64,
    sl: Seq<F64>,
    su: Seq<F64>,
    xnew: Seq<F64>,
) -> Seq<F64> {
    Seq::new(
        xnew.len(),
        |i: int|
            {
                let first = if xnew[i] >= su[i] {
                    (-gnew[i]) * rho
                } else if xnew[i] <= sl[i] {
                    gnew[i] * rho
                } else {
                    worst
                };
                max_of(first, first + half() * curvatures[i] * (rho * rho))
            },
    )
}

/// The bound by which recent model errors are small after the step `d`.
pub open spec fn error_bound(
    crvmin: F64,
    d: Seq<F64>,
    gopt: Seq<F64>,
    hq: Seq<Seq<F64>>,
    moderr_rec: Seq<F64>,
    pq: Seq<F64>,
    rho: F64,
    sl: Seq<F64>,
    su: Seq<F64>,
    xopt: Seq<F64>,
    xpt: Seq<Seq<F64>>,
) -> F64 {
    let bounds = axis_bounds(
        max_from(zero(), magnitudes(moderr_rec), moderr_rec.len()),
        plus(gopt, hessian_mul(d, xpt, pq, hq)),
        axis_curvatures(hq, pq, xpt),
        rho,
        sl,
        su,
        plus(xopt, d),
    );
    let e = least_from(infinity(), bounds, bounds.len());
    if crvmin > zero() {
        min_of(e, eighth() * crvmin * (rho * rho))
    } else {
        e
    }
}

/// The ratio of the actual to the predicted reduction.
pub fn redrat(ared: F64, pred: F64, rshrink: F64) -> (r: F64)
    ensures
        r == reduction_ratio(ared, pred, rshrink),
{
    if ared.is_nan() {
        neg_realmax()
    } else if pred.is_nan() || pred.le(zero()) {
        if ared.gt(zero()) {
            half() * rshrink
        } else {
            neg_realmax()
        }
    } else if pred.is_infinite() && pred.is_sign_positive() && ared.is_infinite() {
        if ared.is_sign_positive() {
            one()
        } else {
            neg_realmax()
        }
    } else {
        ared / pred
    }
}

/// The reduced resolution.
pub fn redrho(rho_in: F64, rhoend: F64) -> (r: F64)
    ensures
        r == reduced_rho(rho_in, rhoend),
{
    let rho_ratio: F64 = rho_in / rhoend;
    if rho_ratio.gt(two_hundred_fifty()) {
        tenth() * rho_in
    } else if rho_ratio.le(sixteen()) {
        rhoend
    } else {
        rho_ratio.sqrt() * rhoend
    }
}

/// Scratch space of [`shiftbase`].
#[derive(Debug, Clone)]
pub struct ShiftbaseWs {
    /// The best point.
    pub xopt: Vec<F64>,
    /// Products of the points with the best point.
    pub sxpt: Vec<F64>,
    /// The vectors of the change, by columns.
    pub ymat: Mat,
    /// The leading columns of `bmat`.
    pub bmat_npt: Mat,
    /// The transpose of `ymat`.
    pub ymat_t: Mat,
    /// The product of `bmat_npt` and `ymat_t`.
    pub bymat: Mat,
    /// The product of `ymat` and `zmat`.
    pub yzmat: Mat,
    /// The transpose of `yzmat`.
    pub yzmat_t: Mat,
    /// The transpose of `zmat`.
    pub zmat_t: Mat,
    /// The product of `yzmat` and its transpose.
    pub yzyzmat: Mat,
    /// The product of `yzmat` and `zmat_t`.
    pub yz_zt: Mat,
    /// The vector of the change of the explicit Hessian.
    pub v: Vec<F64>,
    /// The change of the explicit Hessian, in part.
    pub vxopt: Mat,
}

impl ShiftbaseWs {
    /// The buffers have the sizes for `n` variables and `npt` points.
    pub open spec fn fits(&self, n: nat, npt: nat) -> bool {
        &&& npt >= n + 1
        &&& self.xopt@.len() == n
        &&& self.sxpt@.len() == npt
        &&& self.ymat.is(n, npt)
        &&& self.bmat_npt.is(n, npt)
        &&& self.ymat_t.is(npt, n)
        &&& self.bymat.is(n, n)
        &&& self.yzmat.is(n, (npt - n - 1) as nat)
        &&& self.yzmat_t.is((npt - n - 1) as nat, n)
        &&& self.zmat_t.is((npt - n - 1) as nat, npt)
        &&& self.yzyzmat.is(n, n)
        &&& self.yz_zt.is(n, npt)
        &&& self.v@.len() == n
        &&& self.vxopt.is(n, n)
    }

    /// Scratch space for `n` variables and `npt` points.
    pub fn new(n: usize, npt: usize) -> (r: ShiftbaseWs)
        requires
            npt >= n + 1,
        ensures
            r.fits(n as nat, npt as nat),
    {
        ShiftbaseWs {
            xopt: zeros(n),
            sxpt: zeros(npt),
            ymat: Mat::zeros(n, npt),
            bmat_npt: Mat::zeros(n, npt),
            ymat_t: Mat::zeros(npt, n),
            bymat: Mat::zeros(n, n),
            yzmat: Mat::zeros(n, npt - n - 1),
            yzmat_t: Mat::zeros(npt - n - 1, n),
            zmat_t: Mat::zeros(npt - n - 1, npt),
            yzyzmat: Mat::zeros(n, n),
            yz_zt: Mat::zeros(n, npt),
            v: zeros(n),
            vxopt: Mat::zeros(n, n),
        }
    }
}

/// Writes the transpose of `m` into `t`.
pub fn transpose_into(m: &Mat, t: &mut Mat)
    requires
        m.is(m.nrows as nat, m@.len()),
        old(t).is(m@.len(), m.nrows as nat),
    ensures
        final(t)@ == transposed(m@, m.nrows as nat),
        final(t).is(m@.len(), m.nrows as nat),
{
    let nr: usize = m.nrows();
    let nc: usize = m.ncols();
    let ghost goal: Seq<Seq<F64>> = transposed(m@, nr as nat);
    for i in 0..nr
        invariant
            m.is(nr as nat, nc as nat),
            m.nrows == nr,
            t.is(nc as nat, nr as nat),
            goal == transposed(m@, nr as nat),
            forall|k: int| 0 <= k < i ==> t@[k] == goal[k],
    {
        let ghost before: Seq<Seq<F64>> = t@;
        for j in 0..nc
            invariant
                i < nr,
                m.is(nr as nat, nc as nat),
                t.is(nc as nat, nr as nat),
                before.len() == nr,
                forall|k: int| 0 <= k < nr && k != i ==> t@[k] == before[k],
                forall|k: int| 0 <= k < j ==> t@[i as int][k] == m@[k][i as int],
        {
            assert(m@[j as int].len() == nr);
            assert(t@[i as int].len() == nc);
            let v: F64 = m.get(i, j);
            t.set(j, i, v);
        }
        assert(t@[i as int] =~= row(m@, i as int));
    }
    assert(t@ =~= goal);
}

/// Writes the vectors of the change into `ws.ymat`.
fn fill_ymat(xpt: &Mat, ws: &mut ShiftbaseWs)
    requires
        xpt.is(old(ws).xopt@.len(), xpt@.len()),
        old(ws).fits(old(ws).xopt@.len(), xpt@.len()),
    ensures
        final(ws).ymat@ == shift_y(xpt@, old(ws).xopt@),
        final(ws).xopt@ == old(ws).xopt@,
        final(ws).fits(old(ws).xopt@.len(), xpt@.len()),
{
    let n: usize = ws.xopt.len();
    let npt: usize = xpt.ncols();
    let xoptsq: F64 = inprod(&ws.xopt, &ws.xopt);
    matprod12_into(&ws.xopt, xpt, &mut ws.sxpt);
    let ghost xopt: Seq<F64> = ws.xopt@;
    let ghost goal: Seq<Seq<F64>> = shift_y(xpt@, xopt);
    for k in 0..npt
        invariant
            npt == xpt@.len(),
            xpt.is(n as nat, npt as nat),
            ws.fits(n as nat, npt as nat),
            ws.xopt@ == xopt,
            xopt.len() == n,
            xoptsq == dot(xopt, xopt),
            ws.sxpt@ == vecmat(xopt, xpt@),
            goal == shift_y(xpt@, xopt),
            forall|j: int| 0 <= j < k ==> ws.ymat@[j] == goal[j],
    {
        assert(xpt@[k as int].len() == n);
        let s: F64 = ws.sxpt[k] - half() * xoptsq;
        let ghost before: Seq<Seq<F64>> = ws.ymat@;
        for i in 0..n
            invariant
                npt == xpt@.len(),
                k < npt,
                xpt.is(n as nat, npt as nat),
                ws.fits(n as nat, npt as nat),
                ws.xopt@ == xopt,
                xopt.len() == n,
                xoptsq == dot(xopt, xopt),
                ws.sxpt@ == vecmat(xopt, xpt@),
                s == dot(xopt, xpt@[k as int]) - half() * xoptsq,
                goal == shift_y(xpt@, xopt),
                before.len() == npt,
                forall|j: int| 0 <= j < npt && j != k ==> ws.ymat@[j] == before[j],
                forall|j: int| 0 <= j < i ==> ws.ymat@[k as int][j] == goal[k as int][j],
        {
            assert(xpt@[k as int].len() == n);
            assert(ws.ymat@[k as int].len() == n);
            let x: F64 = ws.xopt[i];
            let v: F64 = s * (xpt.get(i, k) - half() * x) + (quarter() * xoptsq) * x;
            ws.ymat.set(i, k, v);
        }
        assert(ws.ymat@[k as int].len() == n);
        assert(ws.ymat@[k as int] =~= goal[k as int]);
    }
    assert(ws.ymat@ =~= goal);
}

/// Writes the leading columns of `m` into `z`.
fn leading_into(m: &Mat, z: &mut Mat)
    requires
        old(z).is(m.nrows as nat, old(z)@.len()),
        m.is(m.nrows as nat, m@.len()),
        m@.len() >= old(z)@.len(),
    ensures
        final(z)@ == m@.take(old(z)@.len() as int),
        final(z).is(m.nrows as nat, old(z)@.len()),
{
    let nc: usize = z.ncols();
    let ghost nr: nat = m.nrows as nat;
    for k in 0..nc
        invariant
            m.is(nr, m@.len()),
            z.is(nr, nc as nat),
            nc <= m@.len(),
            forall|j: int| 0 <= j < k ==> z@[j] == m@[j],
    {
        assert(m@[k as int].len() == nr);
        z.set_col(k, m.col(k));
    }
    assert(z@ =~= m@.take(nc as int));
}

/// Adds the changes in `ws` to the last rows of the inverse interpolation matrix.
fn add_to_bmat(n: usize, npt: usize, ws: &ShiftbaseWs, bmat: &mut Mat)
    requires
        npt + n <= usize::MAX,
        old(bmat).is(n as nat, (npt + n) as nat),
        ws.fits(n as nat, npt as nat),
    ensures
        final(bmat).is(n as nat, (npt + n) as nat),
        final(bmat)@ == Seq::new(
            (npt + n) as nat,
            |c: int|
                Seq::new(
                    n as nat,
                    |i: int|
                        if c < npt {
                            old(bmat)@[c][i] + ws.yz_zt@[c][i]
                        } else {
                            old(bmat)@[c][i] + (ws.bymat@[c - npt][i] + ws.bymat@[i][c - npt])
                                + ws.yzyzmat@[c - npt][i]
                        },
                ),
        ),
{
    let ghost b0: Seq<Seq<F64>> = bmat@;
    let ghost goal: Seq<Seq<F64>> = Seq::new(
        (npt + n) as nat,
        |c: int|
            Seq::new(
                n as nat,
                |i: int|
                    if c < npt {
                        b0[c][i] + ws.yz_zt@[c][i]
                    } else {
                        b0[c][i] + (ws.bymat@[c - npt][i] + ws.bymat@[i][c - npt])
                            + ws.yzyzmat@[c - npt][i]
                    },
            ),
    );
    for c in 0..npt + n
        invariant
            npt + n <= usize::MAX,
            shaped(b0, n as nat, (npt + n) as nat),
            bmat.is(n as nat, (npt + n) as nat),
            ws.fits(n as nat, npt as nat),
            goal == Seq::new(
                (npt + n) as nat,
                |c: int|
                    Seq::new(
                        n as nat,
                        |i: int|
                            if c < npt {
                                b0[c][i] + ws.yz_zt@[c][i]
                            } else {
                                b0[c][i] + (ws.bymat@[c - npt][i] + ws.bymat@[i][c - npt])
                                    + ws.yzyzmat@[c - npt][i]
                            },
                    ),
            ),
            forall|j: int| 0 <= j < c ==> bmat@[j] == goal[j],
            forall|j: int| c <= j < npt + n ==> bmat@[j] == b0[j],
    {
        let ghost now: Seq<Seq<F64>> = bmat@;
        assert(b0[c as int].len() == n);
        for i in 0..n
            invariant
                npt + n <= usize::MAX,
                c < npt + n,
                shaped(b0, n as nat, (npt + n) as nat),
                bmat.is(n as nat, (npt + n) as nat),
                ws.fits(n as nat, npt as nat),
                goal[c as int] == Seq::new(
                    n as nat,
                    |i: int|
                        if c < npt {
                            b0[c as int][i] + ws.yz_zt@[c as int][i]
                        } else {
                            b0[c as int][i] + (ws.bymat@[c - npt][i] + ws.bymat@[i][c - npt])
                                + ws.yzyzmat@[c - npt][i]
                        },
                ),
                now.len() == npt + n,
                b0[c as int].len() == n,
                forall|j: int| 0 <= j < npt + n && j != c ==> bmat@[j] == now[j],
                forall|j: int| 0 <= j < i ==> bmat@[c as int][j] == goal[c as int][j],
                forall|j: int| i <= j < n ==> bmat@[c as int][j] == b0[c as int][j],
        {
            assert(bmat@[c as int].len() == n);
            let v: F64 = if c < npt {
                assert(ws.yz_zt@[c as int].len() == n);
                bmat.get(i, c) + ws.yz_zt.get(i, c)
            } else {
                let j: usize = c - npt;
                assert(ws.bymat@[j as int].len() == n);
                assert(ws.bymat@[i as int].len() == n);
                assert(ws.yzyzmat@[j as int].len() == n);
                bmat.get(i, c) + (ws.bymat.get(i, j) + ws.bymat.get(j, i)) + ws.yzyzmat.get(i, j)
            };
            bmat.set(i, c, v);
        }
        assert(bmat@[c as int].len() == n);
        assert(bmat@[c as int] =~= goal[c as int]);
    }
    assert(bmat@ =~= goal);
}

/// Changes the explicit Hessian for the move of the base point to `ws.xopt`.
fn shift_hq(xpt: &Mat, pq: &[F64], hq: &mut Mat, ws: &mut ShiftbaseWs)
    requires
        xpt.is(old(ws).xopt@.len(), pq@.len()),
        old(hq).is(old(ws).xopt@.len(), old(ws).xopt@.len()),
        old(ws).fits(old(ws).xopt@.len(), pq@.len()),
    ensures
        final(hq)@ == shifted_hq(old(hq)@, pq@, xpt@, old(ws).xopt@),
        final(hq).is(old(ws).xopt@.len(), old(ws).xopt@.len()),
        final(ws).xopt@ == old(ws).xopt@,
        final(ws).fits(old(ws).xopt@.len(), pq@.len()),
{
    let n: usize = ws.xopt.len();
    let npt: usize = pq.len();
    matprod21_into(xpt, pq, &mut ws.v);
    let pq_sum: F64 = sum(pq);
    let ghost xopt: Seq<F64> = ws.xopt@;
    let ghost v0: Seq<F64> = ws.v@;
    let ghost v: Seq<F64> = Seq::new(
        n as nat,
        |i: int| dot(row(xpt@, i), pq@) - (half() * total(pq@)) * xopt[i],
    );
    for i in 0..n
        invariant
            ws.fits(n as nat, npt as nat),
            ws.xopt@ == xopt,
            xopt.len() == n,
            pq_sum == total(pq@),
            v0 == matvec(xpt@, pq@, n as nat),
            v == Seq::new(
                n as nat,
                |i: int| dot(row(xpt@, i), pq@) - (half() * total(pq@)) * xopt[i],
            ),
            forall|j: int| 0 <= j < i ==> ws.v@[j] == v[j],
            forall|j: int| i <= j < n ==> ws.v@[j] == v0[j],
    {
        assert(v0[i as int] == dot(row(xpt@, i as int), pq@));
        let u: F64 = ws.v[i] - (half() * pq_sum) * ws.xopt[i];
        ws.v[i] = u;
    }
    assert(ws.v@ =~= v);
    outprod_into(&ws.v, &ws.xopt, &mut ws.vxopt);
    let ghost h0: Seq<Seq<F64>> = hq@;
    let ghost vx: Seq<Seq<F64>> = outer(v, xopt);
    let ghost goal: Seq<Seq<F64>> = shifted_hq(h0, pq@, xpt@, xopt);
    assert(forall|j: int, i: int|
        0 <= j < n && 0 <= i < n ==> #[trigger] goal[j][i] == (vx[j][i] + vx[i][j]) + h0[j][i]);
    for j in 0..n
        invariant
            shaped(h0, n as nat, n as nat),
            hq.is(n as nat, n as nat),
            ws.fits(n as nat, npt as nat),
            ws.vxopt@ == vx,
            shaped(goal, n as nat, n as nat),
            forall|j: int, i: int|
                0 <= j < n && 0 <= i < n ==> #[trigger] goal[j][i] == (vx[j][i] + vx[i][j])
                    + h0[j][i],
            forall|k: int| 0 <= k < j ==> hq@[k] == goal[k],
            forall|k: int| j <= k < n ==> hq@[k] == h0[k],
    {
        let ghost now: Seq<Seq<F64>> = hq@;
        for i in 0..n
            invariant
                j < n,
                shaped(h0, n as nat, n as nat),
                hq.is(n as nat, n as nat),
                ws.fits(n as nat, npt as nat),
                ws.vxopt@ == vx,
                forall|j: int, i: int|
                    0 <= j < n && 0 <= i < n ==> #[trigger] goal[j][i] == (vx[j][i] + vx[i][j])
                        + h0[j][i],
                now.len() == n,
                forall|k: int| 0 <= k < n && k != j ==> hq@[k] == now[k],
                forall|k: int| 0 <= k < i ==> hq@[j as int][k] == goal[j as int][k],
                forall|k: int| i <= k < n ==> hq@[j as int][k] == h0[j as int][k],
        {
            assert(hq@[j as int].len() == n);
            assert(ws.vxopt@[j as int].len() == n);
            assert(ws.vxopt@[i as int].len() == n);
            let u: F64 = (ws.vxopt.get(i, j) + ws.vxopt.get(j, i)) + hq.get(i, j);
            hq.set(i, j, u);
        }
        assert(hq@[j as int].len() == n);
        assert(goal[j as int].len() == n);
        assert(hq@[j as int] =~= goal[j as int]);
    }
    assert(hq@ =~= goal);
}

/// Moves the base point to the best point: the points become relative to it, and the model and
/// the inverse interpolation matrix stay those of the same points.
pub fn shiftbase(
    kopt: usize,
    xbase: &mut Vec<F64>,
    xpt: &mut Mat,
    zmat: &Mat,
    bmat: &mut Mat,
    pq: &[F64],
    hq: &mut Mat,
    ws: &mut ShiftbaseWs,
)
    requires
        set_shaped(old(xbase)@.len(), old(xpt)@.len(), old(xpt), old(bmat), zmat),
        kopt < old(xpt)@.len(),
        pq@.len() == old(xpt)@.len(),
        old(hq).is(old(xbase)@.len(), old(xbase)@.len()),
        old(ws).fits(old(xbase)@.len(), old(xpt)@.len()),
    ensures
        final(xbase)@ == plus(old(xbase)@, old(xpt)@[kopt as int]),
        final(xpt)@ == recentred(old(xpt)@, kopt as int),
        final(bmat)@ == shifted_bmat(old(bmat)@, zmat@, old(xpt)@, old(xpt)@[kopt as int]),
        final(hq)@ == shifted_hq(old(hq)@, pq@, old(xpt)@, old(xpt)@[kopt as int]),
        set_shaped(old(xbase)@.len(), old(xpt)@.len(), final(xpt), final(bmat), zmat),
        final(hq).is(old(xbase)@.len(), old(xbase)@.len()),
        final(ws).fits(old(xbase)@.len(), old(xpt)@.len()),
{
    let n: usize = xpt.nrows();
    let npt: usize = xpt.ncols();
    assert(xpt@[kopt as int].len() == n);
    copy(&mut ws.xopt, xpt.col(kopt));
    fill_ymat(xpt, ws);
    leading_into(bmat, &mut ws.bmat_npt);
    transpose_into(&ws.ymat, &mut ws.ymat_t);
    matprod22_into(&ws.bmat_npt, &ws.ymat_t, &mut ws.bymat);
    matprod22_into(&ws.ymat, zmat, &mut ws.yzmat);
    transpose_into(&ws.yzmat, &mut ws.yzmat_t);
    matprod22_into(&ws.yzmat, &ws.yzmat_t, &mut ws.yzyzmat);
    transpose_into(zmat, &mut ws.zmat_t);
    matprod22_into(&ws.yzmat, &ws.zmat_t, &mut ws.yz_zt);
    add_to_bmat(n, npt, ws, bmat);
    assert(bmat@ =~= shifted_bmat(old(bmat)@, zmat@, old(xpt)@, old(xpt)@[kopt as int]));
    shift_hq(xpt, pq, hq, ws);
    accumulate(xbase, &ws.xopt);
    recentre(xpt, kopt, &ws.xopt);
}

/// Scratch space of [`errbd`].
#[derive(Debug, Clone)]
pub struct ErrbdWs {
    /// The new point.
    pub xnew: Vec<F64>,
    /// The product of the Hessian and the step.
    pub hm: Vec<F64>,
    /// The gradient at the new point.
    pub gnew: Vec<F64>,
    /// Products of the step with the points.
    pub dxpt: Vec<F64>,
}

impl ErrbdWs {
    /// The buffers have the lengths for `n` variables and `npt` points.
    pub open spec fn fits(&self, n: nat, npt: nat) -> bool {
        &&& self.xnew@.len() == n
        &&& self.hm@.len() == n
        &&& self.gnew@.len() == n
        &&& self.dxpt@.len() == npt
    }

    /// Scratch space for `n` variables and `npt` points.
    pub fn new(n: usize, npt: usize) -> (r: ErrbdWs)
        ensures
            r.fits(n as nat, npt as nat),
    {
        ErrbdWs { xnew: zeros(n), hm: zeros(n), gnew: zeros(n), dxpt: zeros(npt) }
    }
}

/// The curvature of the model along the coordinate direction `i`.
fn axis_curvature(hq: &Mat, pq: &[F64], xpt: &Mat, i: usize) -> (r: F64)
    requires
        hq.is(hq@.len(), hq@.len()),
        xpt.is(hq@.len(), pq@.len()),
        i < hq@.len(),
    ensures
        r == axis_curvatures(hq@, pq@, xpt@)[i as int],
{
    let npt: usize = pq.len();
    let ghost sq: Seq<F64> = Seq::new(
        xpt@.len(),
        |k: int| row(xpt@, i as int)[k] * row(xpt@, i as int)[k],
    );
    let mut v: F64 = zero();
    for k in 0..npt
        invariant
            npt == pq@.len(),
            xpt.is(hq@.len(), pq@.len()),
            i < hq@.len(),
            sq == Seq::new(
                xpt@.len(),
                |k: int| row(xpt@, i as int)[k] * row(xpt@, i as int)[k],
            ),
            v == dot_from(zero(), sq, pq@, k as nat),
    {
        assert(xpt@[k as int].len() == hq@.len());
        let x: F64 = xpt.get(i, k);
        v = v + (x * x) * pq[k];
    }
    assert(hq@[i as int].len() == hq@.len());
    hq.get(i, i) + v
}

/// The bound by which recent model errors are small after the step `d`.
pub fn errbd(
    crvmin: F64,
    d: &[F64],
    gopt: &[F64],
    hq: &Mat,
    moderr_rec: &[F64],
    pq: &[F64],
    rho: F64,
    sl: &[F64],
    su: &[F64],
    xopt: &[F64],
    xpt: &Mat,
    ws: &mut ErrbdWs,
) -> (r: F64)
    requires
        gopt@.len() == d@.len(),
        sl@.len() == d@.len(),
        su@.len() == d@.len(),
        xopt@.len() == d@.len(),
        hq.is(d@.len(), d@.len()),
        xpt.is(d@.len(), pq@.len()),
        old(ws).fits(d@.len(), pq@.len()),
    ensures
        r == error_bound(
            crvmin,
            d@,
            gopt@,
            hq@,
            moderr_rec@,
            pq@,
            rho,
            sl@,
            su@,
            xopt@,
            xpt@,
        ),
        final(ws).fits(d@.len(), pq@.len()),
{
    let n: usize = d.len();
    sum_into(xopt, d, &mut ws.xnew);
    hess_mul_into(d, xpt, pq, Some(hq), &mut ws.dxpt, &mut ws.hm);
    sum_into(gopt, &ws.hm, &mut ws.gnew);
    let worst: F64 = largest_abs_from(zero(), moderr_rec);
    let rhosq: F64 = rho * rho;
    let ghost bounds: Seq<F64> = axis_bounds(
        worst,
        ws.gnew@,
        axis_curvatures(hq@, pq@, xpt@),
        rho,
        sl@,
        su@,
        ws.xnew@,
    );
    let mut ebound: F64 = infinity();
    for i in 0..n
        invariant
            n == d@.len(),
            sl@.len() == n,
            su@.len() == n,
            hq.is(n as nat, n as nat),
            xpt.is(n as nat, pq@.len()),
            ws.fits(n as nat, pq@.len()),
            rhosq == rho * rho,
            bounds == axis_bounds(
                worst,
                ws.gnew@,
                axis_curvatures(hq@, pq@, xpt@),
                rho,
                sl@,
                su@,
                ws.xnew@,
            ),
            ebound == least_from(infinity(), bounds, i as nat),
    {
        let mut first: F64 = worst;
        if ws.xnew[i].le(sl[i]) {
            first = ws.gnew[i] * rho;
        }
        if ws.xnew[i].ge(su[i]) {
            first = ws.gnew[i].negated() * rho;
        }
        let second: F64 = half() * axis_curvature(hq, pq, xpt, i) * rhosq;
        let val: F64 = first.max(first + second);
        if val.lt(ebound) {
            ebound = val;
        }
    }
    if crvmin.gt(zero()) {
        ebound = ebound.min(eighth() * crvmin * rhosq);
    }
    ebound
}

/// The explicit Hessian and the last block of the inverse interpolation matrix stay symmetric
/// when the base point moves.
pub proof fn lemma_shift_symmetric(
    hq: Seq<Seq<F64>>,
    pq: Seq<F64>,
    bmat: Seq<Seq<F64>>,
    zmat: Seq<Seq<F64>>,
    xpt: Seq<Seq<F64>>,
    xopt: Seq<F64>,
)
    requires
        shaped(hq, xopt.len(), xopt.len()),
        shaped(bmat, xopt.len(), xpt.len() + xopt.len()),
        forall|i: int, j: int|
            0 <= i < xopt.len() && 0 <= j < xopt.len() ==> #[trigger] hq[i][j] == hq[j][i],
        forall|i: int, j: int|
            0 <= i < xopt.len() && 0 <= j < xopt.len() ==> #[trigger] bmat[xpt.len() + i][j]
                == bmat[xpt.len() + j][i],
    ensures
        ({
            let h = shifted_hq(hq, pq, xpt, xopt);
            forall|i: int, j: int|
                0 <= i < xopt.len() && 0 <= j < xopt.len() ==> #[trigger] h[i][j] == h[j][i]
        }),
        ({
            let b = shifted_bmat(bmat, zmat, xpt, xopt);
            forall|i: int, j: int|
                0 <= i < xopt.len() && 0 <= j < xopt.len() ==> #[trigger] b[xpt.len() + i][j]
                    == b[xpt.len() + j][i]
        }),
{
    let n = xopt.len();
    let npt = xpt.len();
    let v = Seq::new(n, |i: int| dot(row(xpt, i), pq) - (half() * total(pq)) * xopt[i]);
    let vx = outer(v, xopt);
    let h = shifted_hq(hq, pq, xpt, xopt);
    assert forall|i: int, j: int| 0 <= i < n && 0 <= j < n implies #[trigger] h[i][j] == h[j][i] by {
        assert(hq[i][j] == hq[j][i]);
        lemma_sum_commutes(vx[i][j], vx[j][i]);
    }
    let y = shift_y(xpt, xopt);
    let by = matmat(bmat.take(npt as int), transposed(y, n), n);
    let yz = matmat(y, zmat, n);
    let yzyz = matmat(yz, transposed(yz, n), n);
    let b = shifted_bmat(bmat, zmat, xpt, xopt);
    assert forall|i: int, j: int| 0 <= i < n && 0 <= j < n implies #[trigger] b[npt + i][j] == b[npt
        + j][i] by {
        assert(bmat[npt + i][j] == bmat[npt + j][i]);
        lemma_sum_commutes(by[i][j], by[j][i]);
        assert(yzyz[i][j] == dot(row(yz, j), row(yz, i)));
        assert(yzyz[j][i] == dot(row(yz, i), row(yz, j)));
        lemma_dot_commutes(zero(), row(yz, i), row(yz, j), yz.len());
    }
}

/// When the base point moves to the best point, the best point is the base point, and the other
/// points move by the same vector as the base point.
pub proof fn lemma_shift_moves(xpt: Seq<Seq<F64>>, kopt: int)
    requires
        0 <= kopt < xpt.len(),
    ensures
        recentred(xpt, kopt)[kopt] == constant(xpt[kopt].len(), zero()),
        forall|k: int|
            0 <= k < xpt.len() && k != kopt ==> #[trigger] recentred(xpt, kopt)[k] == minus(
                xpt[k],
                xpt[kopt],
            ),
{
}

/// Some numbers in smallest units.
pub(crate) proof fn lemma_resolution_constants()
    ensures
        ({
            let u = pow2(1074);
            &&& u > 0
            &&& units(one().mag()) == u
            &&& units(sixteen().mag()) == 16 * u
            &&& units(two_hundred_fifty().mag()) == 250 * u
            &&& 8 * units(0x402f_c000_0000_0000) == 127 * u
            &&& u <= 20 * units(tenth().mag())
            &&& 2 * units(tenth().mag()) <= u
        }),
{
    lemma2_to64();
    lemma2_to64_rest();
    let p = pow2(1018);
    lemma_pow2_pos(1018);
    lemma_pow2_adds(56, 1018);
    lemma_pow2_adds(4, 1018);
    lemma_pow2_adds(8, 1018);
    lemma_pow2_adds(7, 1018);
    lemma_pow2_adds(11, 1018);
    let u = pow2(1074);
    assert(sig(one().mag()) == 0x10_0000_0000_0000 && expo(one().mag()) == 1022);
    assert(sig(sixteen().mag()) == 0x10_0000_0000_0000 && expo(sixteen().mag()) == 1026);
    assert(sig(two_hundred_fifty().mag()) == 0x1f_4000_0000_0000 && expo(
        two_hundred_fifty().mag(),
    ) == 1029);
    assert(sig(0x402f_c000_0000_0000) == 0x1f_c000_0000_0000 && expo(0x402f_c000_0000_0000)
        == 1025);
    assert(sig(tenth().mag()) == 0x19_9999_9999_999a && expo(tenth().mag()) == 1018);
}

/// The reduced resolution lies between the final one and the present one, and is below the
/// present one unless that is the final one.
pub proof fn lemma_resolution_falls(rho: F64, rhoend: F64)
    requires
        rho.finite(),
        zero() < rhoend,
        rhoend <= rho,
    ensures
        reduced_rho(rho, rhoend).within(rhoend, rho),
        reduced_rho(rho, rhoend) < rho || rho == rhoend,
{
    reveal(below);
    reveal(at_most);
    reveal(quotient_of);
    reveal(product_of);
    reveal(root_of);
    lemma_resolution_constants();
    lemma_fields(rho.mag());
    lemma_fields(rhoend.mag());
    let u = pow2(1074);
    let r = units(rho.mag());
    let e = units(rhoend.mag());
    let k = (rho.mag() - 1) as nat;
    let q = rho / rhoend;
    lemma_units_monotone(rhoend.mag(), rho.mag());
    lemma_round_beside(r * u, e, two_hundred_fifty().mag());
    lemma_round_beside(r * u, e, sixteen().mag());
    if q > two_hundred_fifty() {
        assert(r > 250 * e) by {
            if r <= 250 * e {
                assert(r * u <= (250 * u) * e) by (nonlinear_arith)
                    requires
                        r <= 250 * e,
                ;
            }
        }
        let t = units(tenth().mag());
        lemma_predecessor(rho.mag());
        assert(t * r <= units(k) * u) by (nonlinear_arith)
            requires
                2 * t <= u,
                r <= 2 * units(k),
        ;
        assert(t * r >= e * u) by (nonlinear_arith)
            requires
                r > 250 * e,
                u <= 20 * t,
                e >= 0,
        ;
        lemma_round_beside(t * r, u, k);
        lemma_round_beside(t * r, u, rhoend.mag());
    } else if !(q <= sixteen()) {
        assert(r > 16 * e) by {
            if r <= 16 * e {
                assert(r * u <= (16 * u) * e) by (nonlinear_arith)
                    requires
                        r <= 16 * e,
                ;
            }
        }
        let s = root_of(q);
        let x = units(q.mag());
        let b: nat = 0x402f_c000_0000_0000;
        lemma_units_monotone(q.mag(), two_hundred_fifty().mag());
        lemma_units_monotone(sixteen().mag(), q.mag());
        assert(x * u <= units(b) * units(b)) by (nonlinear_arith)
            requires
                x <= 250 * u,
                8 * units(b) == 127 * u,
        ;
        assert(x * u >= u * u) by (nonlinear_arith)
            requires
                x >= u,
        ;
        lemma_root_beside(x * u, b);
        lemma_root_beside(x * u, one().mag());
        assert(s.mag() <= b && s.mag() >= one().mag());
        let z = units(s.mag());
        lemma_units_monotone(s.mag(), b);
        lemma_units_monotone(one().mag(), s.mag());
        lemma_predecessor(rho.mag());
        assert(z * e <= units(k) * u) by {
            if rho.mag() <= HIDDEN {
                assert(z * e <= units(k) * u) by (nonlinear_arith)
                    requires
                        8 * z <= 127 * u,
                        16 * e <= units(k),
                        e >= 0,
                ;
            } else {
                assert(z * e <= units(k) * u) by (nonlinear_arith)
                    requires
                        8 * z <= 127 * u,
                        16 * e <= r,
                        127 * r <= 128 * units(k),
                        e >= 0,
                ;
            }
        }
        assert(z * e >= e * u) by (nonlinear_arith)
            requires
                z >= u,
        ;
        lemma_round_beside(z * e, u, k);
        lemma_round_beside(z * e, u, rhoend.mag());
    }
}

/// Where the best point is the base point, moving the base point there adds zeros to the inverse
/// interpolation matrix.
proof fn lemma_shift_still_bmat(
    bmat: Seq<Seq<F64>>,
    zmat: Seq<Seq<F64>>,
    xpt: Seq<Seq<F64>>,
    xopt: Seq<F64>,
)
    requires
        shaped(xpt, xopt.len(), xpt.len()),
        shaped(zmat, xpt.len(), zmat.len()),
        shaped(bmat, xopt.len(), xpt.len() + xopt.len()),
        all_finite_mat(xpt),
        all_finite_mat(zmat),
        all_finite_mat(bmat),
        forall|i: int| 0 <= i < xopt.len() ==> (#[trigger] xopt[i]).zero(),
    ensures
        forall|c: int|
            0 <= c < bmat.len() ==> same_point(
                #[trigger] shifted_bmat(bmat, zmat, xpt, xopt)[c],
                bmat[c],
            ),
{
    let n = xopt.len();
    let npt = xpt.len();
    let y = shift_y(xpt, xopt);
    let sq = dot(xopt, xopt);
    lemma_dot_zero(xopt, xopt, n);
    assert forall|k: int, i: int| 0 <= k < npt && 0 <= i < n implies (#[trigger] y[k][i]).zero() by {
        assert(all_finite(xpt[k]) && xpt[k].len() == n);
        assert forall|j: int| 0 <= j < n implies (#[trigger] xopt[j]).finite()
            && xpt[k][j].finite() && (xopt[j].zero() || xpt[k][j].zero()) by {
            assert(xpt[k][j].finite());
        }
        lemma_dot_zero(xopt, xpt[k], n);
        let a = dot(xopt, xpt[k]);
        lemma_zero_stays(sq, half());
        lemma_zero_stays(a, half() * sq);
        lemma_zero_stays(xopt[i], half());
        assert(xpt[k][i].finite());
        lemma_zero_keeps(xpt[k][i], half() * xopt[i]);
        lemma_zero_stays(a - half() * sq, xpt[k][i] - half() * xopt[i]);
        lemma_zero_stays(sq, quarter());
        lemma_zero_stays(quarter() * sq, xopt[i]);
        lemma_zero_stays(
            (a - half() * sq) * (xpt[k][i] - half() * xopt[i]),
            (quarter() * sq) * xopt[i],
        );
    }
    let by = matmat(bmat.take(npt as int), transposed(y, n), n);
    let yz = matmat(y, zmat, n);
    let yzyz = matmat(yz, transposed(yz, n), n);
    let yzz = matmat(yz, transposed(zmat, npt), n);
    assert forall|j: int, i: int| 0 <= j < zmat.len() && 0 <= i < n implies (
    #[trigger] yz[j][i]).zero() by {
        assert(all_finite(zmat[j]) && zmat[j].len() == npt);
        let r = row(y, i);
        assert forall|k: int| 0 <= k < npt implies (#[trigger] r[k]).finite()
            && zmat[j][k].finite() && (r[k].zero() || zmat[j][k].zero()) by {
            assert(r[k] == y[k][i]);
            assert(zmat[j][k].finite());
        }
        lemma_dot_zero(r, zmat[j], npt);
    }
    assert forall|j: int, i: int| 0 <= j < n && 0 <= i < n implies (#[trigger] by[j][i]).zero() by {
        let b = bmat.take(npt as int);
        let r = row(b, i);
        let s = row(y, j);
        assert forall|k: int| 0 <= k < npt implies (#[trigger] r[k]).finite()
            && s[k].finite() && (r[k].zero() || s[k].zero()) by {
            assert(all_finite(bmat[k]) && bmat[k].len() == n);
            assert(r[k] == bmat[k][i]);
            assert(s[k] == y[k][j]);
        }
        lemma_dot_zero(r, s, npt);
    }
    assert forall|j: int, i: int| 0 <= j < n && 0 <= i < n implies (#[trigger] yzyz[j][i]).zero() by {
        let r = row(yz, i);
        let s = row(yz, j);
        assert forall|k: int| 0 <= k < zmat.len() implies (#[trigger] r[k]).finite()
            && s[k].finite() && (r[k].zero() || s[k].zero()) by {
            assert(r[k] == yz[k][i]);
            assert(s[k] == yz[k][j]);
        }
        lemma_dot_zero(r, s, zmat.len());
    }
    assert forall|c: int, i: int| 0 <= c < npt && 0 <= i < n implies (#[trigger] yzz[c][i]).zero() by {
        let r = row(yz, i);
        let s = row(zmat, c);
        assert forall|k: int| 0 <= k < zmat.len() implies (#[trigger] r[k]).finite()
            && s[k].finite() && (r[k].zero() || s[k].zero()) by {
            assert(all_finite(zmat[k]) && zmat[k].len() == npt);
            assert(r[k] == yz[k][i]);
            assert(s[k] == zmat[k][c]);
        }
        lemma_dot_zero(r, s, zmat.len());
    }
    let after = shifted_bmat(bmat, zmat, xpt, xopt);
    assert forall|c: int| 0 <= c < bmat.len() implies same_point(#[trigger] after[c], bmat[c]) by {
        assert(all_finite(bmat[c]) && bmat[c].len() == n);
        assert forall|i: int| 0 <= i < n implies same(#[trigger] after[c][i], bmat[c][i]) by {
            let v = bmat[c][i];
            assert(v.finite());
            if c < npt {
                assert(yzz[c][i].zero());
                lemma_zero_keeps(v, yzz[c][i]);
            } else {
                let j = c - npt;
                assert(by[j][i].zero() && by[i][j].zero() && yzyz[j][i].zero());
                lemma_zero_stays(by[j][i], by[i][j]);
                lemma_zero_keeps(v, by[j][i] + by[i][j]);
                lemma_zero_keeps(v + (by[j][i] + by[i][j]), yzyz[j][i]);
                reveal(at_most);
            }
        }
    }
}

/// Where the best point is the base point, moving the base point there adds zeros to the explicit
/// Hessian.
proof fn lemma_shift_still_hq(
    hq: Seq<Seq<F64>>,
    pq: Seq<F64>,
    xpt: Seq<Seq<F64>>,
    xopt: Seq<F64>,
)
    requires
        shaped(hq, xopt.len(), xopt.len()),
        all_finite_mat(hq),
        total(pq).finite(),
        forall|i: int| 0 <= i < xopt.len() ==> dot(#[trigger] row(xpt, i), pq).finite(),
        forall|i: int| 0 <= i < xopt.len() ==> (#[trigger] xopt[i]).zero(),
    ensures
        forall|j: int|
            0 <= j < hq.len() ==> same_point(
                #[trigger] shifted_hq(hq, pq, xpt, xopt)[j],
                hq[j],
            ),
{
    let n = xopt.len();
    let v = Seq::new(n, |i: int| dot(row(xpt, i), pq) - (half() * total(pq)) * xopt[i]);
    let vx = outer(v, xopt);
    lemma_half_product(total(pq));
    assert forall|j: int, i: int| 0 <= j < n && 0 <= i < n implies (#[trigger] vx[j][i]).zero() by {
        assert(dot(row(xpt, i), pq).finite());
        lemma_zero_stays(xopt[i], half() * total(pq));
        lemma_zero_keeps(dot(row(xpt, i), pq), (half() * total(pq)) * xopt[i]);
        assert(v[i].finite());
        lemma_zero_stays(xopt[j], v[i]);
    }
    let after = shifted_hq(hq, pq, xpt, xopt);
    assert forall|j: int| 0 <= j < hq.len() implies same_point(#[trigger] after[j], hq[j]) by {
        assert(all_finite(hq[j]) && hq[j].len() == n);
        assert forall|i: int| 0 <= i < n implies same(#[trigger] after[j][i], hq[j][i]) by {
            assert(hq[j][i].finite());
            assert(vx[j][i].zero() && vx[i][j].zero());
            lemma_zero_stays(vx[j][i], vx[i][j]);
            lemma_zero_keeps(hq[j][i], vx[j][i] + vx[i][j]);
        }
    }
}

/// A second move of the base point to the same point changes no number, if the first one gives
/// finite numbers and the products of the implicit coefficients with the points do not overflow.
pub proof fn lemma_shift_twice(
    kopt: int,
    xbase: Seq<F64>,
    xpt: Seq<Seq<F64>>,
    zmat: Seq<Seq<F64>>,
    bmat: Seq<Seq<F64>>,
    pq: Seq<F64>,
    hq: Seq<Seq<F64>>,
)
    requires
        0 <= kopt < xpt.len(),
        shaped(xpt, xbase.len(), xpt.len()),
        shaped(zmat, xpt.len(), zmat.len()),
        shaped(bmat, xbase.len(), xpt.len() + xbase.len()),
        shaped(hq, xbase.len(), xbase.len()),
        all_finite_mat(zmat),
        total(pq).finite(),
        ({
            let xopt = xpt[kopt];
            let xpt1 = recentred(xpt, kopt);
            &&& all_finite(plus(xbase, xopt))
            &&& all_finite_mat(xpt1)
            &&& all_finite_mat(shifted_bmat(bmat, zmat, xpt, xopt))
            &&& all_finite_mat(shifted_hq(hq, pq, xpt, xopt))
            &&& forall|i: int|
                0 <= i < xbase.len() ==> dot(#[trigger] row(xpt1, i), pq).finite()
        }),
    ensures
        ({
            let xopt = xpt[kopt];
            let xbase1 = plus(xbase, xopt);
            let xpt1 = recentred(xpt, kopt);
            let bmat1 = shifted_bmat(bmat, zmat, xpt, xopt);
            let hq1 = shifted_hq(hq, pq, xpt, xopt);
            let xopt1 = xpt1[kopt];
            &&& same_point(plus(xbase1, xopt1), xbase1)
            &&& forall|k: int|
                0 <= k < xpt.len() ==> same_point(#[trigger] recentred(xpt1, kopt)[k], xpt1[k])
            &&& forall|c: int|
                0 <= c < bmat.len() ==> same_point(
                    #[trigger] shifted_bmat(bmat1, zmat, xpt1, xopt1)[c],
                    bmat1[c],
                )
            &&& forall|j: int|
                0 <= j < hq.len() ==> same_point(
                    #[trigger] shifted_hq(hq1, pq, xpt1, xopt1)[j],
                    hq1[j],
                )
        }),
{
    let n = xbase.len();
    let xopt = xpt[kopt];
    assert(xopt.len() == n);
    let xbase1 = plus(xbase, xopt);
    let xpt1 = recentred(xpt, kopt);
    let bmat1 = shifted_bmat(bmat, zmat, xpt, xopt);
    let hq1 = shifted_hq(hq, pq, xpt, xopt);
    let xopt1 = xpt1[kopt];
    assert(shaped(xpt1, n, xpt.len())) by {
        assert forall|k: int| 0 <= k < xpt.len() implies (#[trigger] xpt1[k]).len() == n by {
            assert(xpt[k].len() == n);
        }
    }
    lemma_shift_still_bmat(bmat1, zmat, xpt1, xopt1);
    lemma_shift_still_hq(hq1, pq, xpt1, xopt1);
    assert forall|i: int| 0 <= i < n implies same(
        #[trigger] plus(xbase1, xopt1)[i],
        xbase1[i],
    ) by {
        assert(xbase1[i].finite());
        lemma_zero_keeps(xbase1[i], xopt1[i]);
    }
    assert forall|k: int| 0 <= k < xpt.len() implies same_point(
        #[trigger] recentred(xpt1, kopt)[k],
        xpt1[k],
    ) by {
        assert(all_finite(xpt1[k]) && xpt1[k].len() == n);
        assert forall|i: int| 0 <= i < n implies same(
            #[trigger] recentred(xpt1, kopt)[k][i],
            xpt1[k][i],
        ) by {
            assert(xpt1[k][i].finite());
            lemma_zero_keeps(xpt1[k][i], xopt1[i]);
            reveal(at_most);
        }
    }
}

} // verus!
