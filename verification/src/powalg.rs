//! The algebra of the quadratic model and of the inverse interpolation matrix `H`.
//!
//! `H` is held as `bmat`, its last rows, and `zmat`, the factor of its leading block.
use vstd::prelude::*;

use crate::consts::half;
use crate::consts::one;
use crate::consts::zero;
use crate::float::F64;
use crate::linalg::inprod;
use crate::linalg::matprod12_into;
use crate::linalg::matprod21_into;
use crate::linalg::matvec;
use crate::linalg::row_inprod_from;
use crate::linalg::vecmat;
use crate::mat::row;
use crate::mat::Mat;
use crate::powalg::counters::bump;
use crate::powalg::counters::bumped;
use crate::powalg::counters::fresh;
use crate::powalg::counters::KernelCount;
use crate::vector::dot;
use crate::vector::dot_from;
use crate::vector::multiply;
use crate::vector::products;
use crate::vector::zeros;

pub mod accuracy;
pub mod counters;
pub mod parameter;

verus! {

/// The pair of variables of the interpolation point number `k + n + 1`, counted from zero.
pub open spec fn pair_of(n: nat, k: nat) -> (usize, usize) {
    ((k % n) as usize, ((k % n + k / n) % n) as usize)
}

/// The pairs of variables of the interpolation points beyond the first `2 n + 1`.
pub open spec fn pairs_of(n: nat, npt: nat) -> Seq<(usize, usize)> {
    Seq::new(
        if npt > 2 * n + 1 {
            (npt - 2 * n - 1) as nat
        } else {
            0
        },
        |m: int| pair_of(n, (n + m) as nat),
    )
}

/// The implicit part `sum_k pq[k] xpt[k] xpt[k]'` of the Hessian times `x`.
pub open spec fn implicit_mul(x: Seq<F64>, xpt: Seq<Seq<F64>>, pq: Seq<F64>) -> Seq<F64> {
    matvec(xpt, products(vecmat(x, xpt), pq), x.len())
}

/// The Hessian of the model, of explicit part `hq`, times `x`.
pub open spec fn hessian_mul(
    x: Seq<F64>,
    xpt: Seq<Seq<F64>>,
    pq: Seq<F64>,
    hq: Seq<Seq<F64>>,
) -> Seq<F64> {
    Seq::new(
        x.len(),
        |i: int| dot_from(implicit_mul(x, xpt, pq)[i], row(hq, i), x, x.len()),
    )
}

/// The change of the model from the origin to `d`.
pub open spec fn model_increment(
    d: Seq<F64>,
    xpt: Seq<Seq<F64>>,
    gq: Seq<F64>,
    pq: Seq<F64>,
    hq: Seq<Seq<F64>>,
) -> F64 {
    let dxpt = vecmat(d, xpt);
    let slope = Seq::new(d.len(), |i: int| gq[i] + half() * dot(row(hq, i), d));
    dot(d, slope) + half() * dot(dxpt, products(pq, dxpt))
}

/// The leading part of the vector `w` for the step `d` from point `kref`.
pub open spec fn wcheck_of(kref: int, d: Seq<F64>, xpt: Seq<Seq<F64>>) -> Seq<F64> {
    Seq::new(
        xpt.len(),
        |k: int| dot(d, xpt[k]) * (half() * dot(d, xpt[k]) + dot(xpt[kref], xpt[k])),
    )
}

/// `H` times the vector `w` for the step `d` from point `kref`.
pub open spec fn kernel_of(
    kref: int,
    bmat: Seq<Seq<F64>>,
    d: Seq<F64>,
    xpt: Seq<Seq<F64>>,
    zmat: Seq<Seq<F64>>,
) -> Seq<F64> {
    let w = wcheck_of(kref, d, xpt);
    let wz = vecmat(w, zmat);
    Seq::new(
        xpt.len() + d.len(),
        |j: int|
            if j < xpt.len() {
                dot(row(zmat, j), wz) + dot(d, bmat[j])
            } else {
                dot(row(bmat, j - xpt.len()), w + d)
            },
    )
}

/// The values of the Lagrange functions at the step `d` from point `kref`, followed by the
/// trailing part of `H w`.
pub open spec fn vlag_of(
    kref: int,
    bmat: Seq<Seq<F64>>,
    d: Seq<F64>,
    xpt: Seq<Seq<F64>>,
    zmat: Seq<Seq<F64>>,
) -> Seq<F64> {
    let h = kernel_of(kref, bmat, d, xpt, zmat);
    h.update(kref, h[kref] + one())
}

/// The parameter beta of the update of `H` for the step `d` from point `kref`.
pub open spec fn beta_of(
    kref: int,
    bmat: Seq<Seq<F64>>,
    d: Seq<F64>,
    xpt: Seq<Seq<F64>>,
    zmat: Seq<Seq<F64>>,
) -> F64 {
    let xref = xpt[kref];
    let h = kernel_of(kref, bmat, d, xpt, zmat);
    let npt = xpt.len() as int;
    let dxref = dot(d, xref);
    let dsq = dot(d, d);
    let dvlag = dot(d, h.subrange(npt, npt + d.len()));
    let wvlag = dot(wcheck_of(kref, d, xpt), h.subrange(0, npt));
    dxref * dxref + dsq * (dot(xref, xref) + dxref + dxref + half() * dsq) - dvlag - wvlag
}

/// The denominators of the update of `H` that replaces each of the points by the step `d` from
/// point `kref`.
pub open spec fn denominators(
    kref: int,
    bmat: Seq<Seq<F64>>,
    d: Seq<F64>,
    xpt: Seq<Seq<F64>>,
    zmat: Seq<Seq<F64>>,
) -> Seq<F64> {
    let beta = beta_of(kref, bmat, d, xpt, zmat);
    let vlag = vlag_of(kref, bmat, d, xpt, zmat);
    Seq::new(
        xpt.len(),
        |k: int| dot(row(zmat, k), row(zmat, k)) * beta + vlag[k] * vlag[k],
    )
}

/// Writes the pairs of variables of the points beyond the first `2 n + 1` into `ij`.
pub fn setij_into(n: usize, npt: usize, ij: &mut Vec<(usize, usize)>)
    requires
        n > 0,
        2 * n + 1 <= usize::MAX,
    ensures
        final(ij)@ == pairs_of(n as nat, npt as nat),
{
    ij.clear();
    if npt > 2 * n + 1 {
        let count: usize = npt - (2 * n + 1);
        for m in 0..count
            invariant
                n > 0,
                npt > 2 * n + 1,
                count == npt - 2 * n - 1,
                ij@.len() == m,
                forall|j: int| 0 <= j < m ==> ij@[j] == pair_of(n as nat, (n + j) as nat),
        {
            let k: usize = n + m;
            let ell: usize = k / n;
            let first: usize = k % n;
            proof {
                vstd::arithmetic::div_mod::lemma_fundamental_div_mod(k as int, n as int);
                assert(first + ell <= k) by (nonlinear_arith)
                    requires
                        k == n * ell + first,
                        n >= 1,
                        ell >= 0,
                ;
            }
            ij.push((first, (first + ell) % n));
        }
        assert(ij@ =~= pairs_of(n as nat, npt as nat));
    } else {
        assert(ij@ =~= pairs_of(n as nat, npt as nat));
    }
}

/// The pairs of variables of the points beyond the first `2 n + 1`.
pub fn setij(n: usize, npt: usize) -> (ij: Vec<(usize, usize)>)
    requires
        n > 0,
        2 * n + 1 <= usize::MAX,
    ensures
        ij@ == pairs_of(n as nat, npt as nat),
{
    let mut ij: Vec<(usize, usize)> = Vec::new();
    setij_into(n, npt, &mut ij);
    ij
}

/// Writes the implicit part of the Hessian times `x` into `y`.
pub fn implicit_mul_into(x: &[F64], xpt: &Mat, pq: &[F64], dxpt: &mut Vec<F64>, y: &mut Vec<F64>)
    requires
        xpt.is(x@.len(), pq@.len()),
        old(dxpt)@.len() == pq@.len(),
        old(y)@.len() == x@.len(),
    ensures
        final(y)@ == implicit_mul(x@, xpt@, pq@),
        final(dxpt)@.len() == pq@.len(),
{
    matprod12_into(x, xpt, dxpt);
    multiply(dxpt, pq);
    matprod21_into(xpt, dxpt, y);
}

/// Writes the Hessian of the model times `x` into `y`; without `hq` the explicit part is zero.
pub fn hess_mul_into(
    x: &[F64],
    xpt: &Mat,
    pq: &[F64],
    hq: Option<&Mat>,
    dxpt: &mut Vec<F64>,
    y: &mut Vec<F64>,
)
    requires
        xpt.is(x@.len(), pq@.len()),
        hq matches Some(h) ==> h.is(x@.len(), x@.len()),
        old(dxpt)@.len() == pq@.len(),
        old(y)@.len() == x@.len(),
    ensures
        final(y)@ == (match hq {
            Some(h) => hessian_mul(x@, xpt@, pq@, h@),
            None => implicit_mul(x@, xpt@, pq@),
        }),
        final(dxpt)@.len() == pq@.len(),
{
    implicit_mul_into(x, xpt, pq, dxpt, y);
    match hq {
        Some(h) => {
            let n: usize = x.len();
            let ghost base: Seq<F64> = y@;
            for i in 0..n
                invariant
                    n == x@.len(),
                    y@.len() == n,
                    base.len() == n,
                    h.is(n as nat, n as nat),
                    forall|j: int|
                        0 <= j < i ==> y@[j] == dot_from(base[j], row(h@, j), x@, x@.len()),
                    forall|j: int| i <= j < n ==> y@[j] == base[j],
            {
                y[i] = row_inprod_from(y[i], h, i, x);
            }
            assert(y@ =~= hessian_mul(x@, xpt@, pq@, h@));
        },
        None => {},
    }
}

/// The Hessian of the model times `x`.
pub fn hess_mul(x: &[F64], xpt: &Mat, pq: &[F64], hq: Option<&Mat>) -> (y: Vec<F64>)
    requires
        xpt.is(x@.len(), pq@.len()),
        hq matches Some(h) ==> h.is(x@.len(), x@.len()),
    ensures
        y@ == (match hq {
            Some(h) => hessian_mul(x@, xpt@, pq@, h@),
            None => implicit_mul(x@, xpt@, pq@),
        }),
{
    let mut dxpt: Vec<F64> = zeros(pq.len());
    let mut y: Vec<F64> = zeros(x.len());
    hess_mul_into(x, xpt, pq, hq, &mut dxpt, &mut y);
    y
}

/// The change of the model from the origin to `d`.
pub fn quadinc(
    d: &[F64],
    xpt: &Mat,
    gq: &[F64],
    pq: &[F64],
    hq: &Mat,
    dxpt: &mut Vec<F64>,
    pqdxpt: &mut Vec<F64>,
    hqd: &mut Vec<F64>,
) -> (r: F64)
    requires
        xpt.is(d@.len(), pq@.len()),
        hq.is(d@.len(), d@.len()),
        gq@.len() == d@.len(),
        old(dxpt)@.len() == pq@.len(),
        old(pqdxpt)@.len() == pq@.len(),
        old(hqd)@.len() == d@.len(),
    ensures
        r == model_increment(d@, xpt@, gq@, pq@, hq@),
        final(dxpt)@.len() == pq@.len(),
        final(pqdxpt)@.len() == pq@.len(),
        final(hqd)@.len() == d@.len(),
{
    matprod12_into(d, xpt, dxpt);
    let n: usize = d.len();
    for i in 0..n
        invariant
            n == d@.len(),
            hq.is(n as nat, n as nat),
            gq@.len() == n,
            hqd@.len() == n,
            forall|j: int| 0 <= j < i ==> hqd@[j] == gq@[j] + half() * dot(row(hq@, j), d@),
    {
        hqd[i] = gq[i] + half() * row_inprod_from(zero(), hq, i, d);
    }
    let ghost slope = Seq::new(d@.len(), |i: int| gq@[i] + half() * dot(row(hq@, i), d@));
    assert(hqd@ =~= slope);
    let npt: usize = pq.len();
    for k in 0..npt
        invariant
            npt == pq@.len(),
            dxpt@.len() == npt,
            pqdxpt@.len() == npt,
            forall|j: int| 0 <= j < k ==> pqdxpt@[j] == pq@[j] * dxpt@[j],
    {
        pqdxpt[k] = pq[k] * dxpt[k];
    }
    assert(pqdxpt@ =~= products(pq@, dxpt@));
    inprod(d, hqd) + half() * inprod(dxpt, pqdxpt)
}

/// Scratch space of the kernel, and the count of its evaluations.
#[derive(Debug, Clone)]
pub struct CalWs {
    /// The leading part of `w`, of length `npt`.
    pub wcheck: Vec<F64>,
    /// The product of `w` and `zmat`, of length `npt - n - 1`.
    pub xz: Vec<F64>,
    /// The vector `w`, of length `npt + n`.
    pub wmv: Vec<F64>,
    /// Lagrange values of [`calbeta`], of length `npt + n`.
    pub vlag_beta: Vec<F64>,
    /// Lagrange values of [`calden_into`], of length `npt + n`.
    pub vlag_den: Vec<F64>,
    /// The number of kernel evaluations.
    pub count: KernelCount,
}

impl CalWs {
    /// The buffers have the lengths for `n` variables and `npt` points.
    pub open spec fn fits(&self, n: nat, npt: nat) -> bool {
        &&& self.wcheck@.len() == npt
        &&& self.xz@.len() + n + 1 == npt
        &&& self.wmv@.len() == npt + n
        &&& self.vlag_beta@.len() == npt + n
        &&& self.vlag_den@.len() == npt + n
    }

    /// Scratch space for `n` variables and `npt` points.
    pub fn new(n: usize, npt: usize) -> (r: CalWs)
        requires
            npt >= n + 1,
            npt + n <= usize::MAX,
        ensures
            r.fits(n as nat, npt as nat),
            r.count.calls == 0,
    {
        CalWs {
            wcheck: zeros(npt),
            xz: zeros(npt - n - 1),
            wmv: zeros(npt + n),
            vlag_beta: zeros(npt + n),
            vlag_den: zeros(npt + n),
            count: fresh(),
        }
    }
}

/// The shapes of the interpolation set and of `H` for `n` variables and `npt` points.
pub open spec fn set_shaped(n: nat, npt: nat, xpt: &Mat, bmat: &Mat, zmat: &Mat) -> bool {
    &&& npt >= n + 2
    &&& npt + n <= usize::MAX
    &&& xpt.is(n, npt)
    &&& bmat.is(n, npt + n)
    &&& zmat.is(npt, (npt - n - 1) as nat)
}

/// Evaluates the kernel: `H w` without the one added at `kref`.
fn calvlag_noadd(
    kref: usize,
    bmat: &Mat,
    d: &[F64],
    xpt: &Mat,
    zmat: &Mat,
    wcheck: &mut Vec<F64>,
    xz: &mut Vec<F64>,
    wmv: &mut Vec<F64>,
    count: &mut KernelCount,
    vlag: &mut Vec<F64>,
)
    requires
        set_shaped(d@.len(), xpt@.len(), xpt, bmat, zmat),
        kref < xpt@.len(),
        old(wcheck)@.len() == xpt@.len(),
        old(xz)@.len() == zmat@.len(),
        old(wmv)@.len() == bmat@.len(),
        old(vlag)@.len() == bmat@.len(),
    ensures
        final(vlag)@ == kernel_of(kref as int, bmat@, d@, xpt@, zmat@),
        final(wcheck)@ == wcheck_of(kref as int, d@, xpt@),
        final(xz)@.len() == zmat@.len(),
        final(wmv)@.len() == bmat@.len(),
        *final(count) == bumped(*old(count)),
{
    bump(count);
    let n: usize = xpt.nrows();
    let npt: usize = xpt.ncols();
    let ghost w: Seq<F64> = wcheck_of(kref as int, d@, xpt@);
    for k in 0..npt
        invariant
            npt == xpt@.len(),
            kref < npt,
            xpt.is(d@.len(), npt as nat),
            wcheck@.len() == npt,
            wmv@.len() == npt + d@.len(),
            w == wcheck_of(kref as int, d@, xpt@),
            forall|j: int| 0 <= j < k ==> wcheck@[j] == w[j] && wmv@[j] == w[j],
    {
        assert(xpt@[k as int].len() == d@.len() && xpt@[kref as int].len() == d@.len());
        let a: F64 = inprod(d, xpt.col(k));
        let v: F64 = a * (half() * a + inprod(xpt.col(kref), xpt.col(k)));
        wcheck[k] = v;
        wmv[k] = v;
    }
    assert(wcheck@ =~= w);
    for i in 0..n
        invariant
            n == d@.len(),
            npt + n <= usize::MAX,
            wmv@.len() == npt + n,
            w.len() == npt,
            forall|j: int| 0 <= j < npt ==> wmv@[j] == w[j],
            forall|j: int| 0 <= j < i ==> wmv@[npt + j] == d@[j],
    {
        wmv[npt + i] = d[i];
    }
    assert(wmv@ =~= w + d@);
    matprod12_into(wcheck, zmat, xz);
    let ghost h: Seq<F64> = kernel_of(kref as int, bmat@, d@, xpt@, zmat@);
    for j in 0..npt
        invariant
            set_shaped(d@.len(), xpt@.len(), xpt, bmat, zmat),
            npt == xpt@.len(),
            w == wcheck_of(kref as int, d@, xpt@),
            xz@ == vecmat(w, zmat@),
            h == kernel_of(kref as int, bmat@, d@, xpt@, zmat@),
            vlag@.len() == bmat@.len(),
            forall|c: int| 0 <= c < j ==> vlag@[c] == h[c],
    {
        assert(bmat@[j as int].len() == d@.len());
        vlag[j] = row_inprod_from(zero(), zmat, j, xz) + inprod(d, bmat.col(j));
    }
    for i in 0..n
        invariant
            set_shaped(d@.len(), xpt@.len(), xpt, bmat, zmat),
            npt == xpt@.len(),
            n == d@.len(),
            w == wcheck_of(kref as int, d@, xpt@),
            wmv@ == w + d@,
            h == kernel_of(kref as int, bmat@, d@, xpt@, zmat@),
            vlag@.len() == bmat@.len(),
            forall|c: int| 0 <= c < npt + i ==> vlag@[c] == h[c],
    {
        vlag[npt + i] = row_inprod_from(zero(), bmat, i, wmv);
    }
    assert(vlag@ =~= h);
}

/// The parameter beta from the kernel of the step `d` from point `kref`.
fn beta_from_noadd_vlag(d: &[F64], xref: &[F64], wcheck: &[F64], vlag: &[F64]) -> (r: F64)
    requires
        xref@.len() == d@.len(),
        vlag@.len() == wcheck@.len() + d@.len(),
        vlag@.len() <= usize::MAX,
    ensures
        r == ({
            let npt = wcheck@.len() as int;
            let dxref = dot(d@, xref@);
            let dsq = dot(d@, d@);
            let dvlag = dot(d@, vlag@.subrange(npt, npt + d@.len()));
            let wvlag = dot(wcheck@, vlag@.subrange(0, npt));
            dxref * dxref + dsq * (dot(xref@, xref@) + dxref + dxref + half() * dsq) - dvlag - wvlag
        }),
{
    let npt: usize = wcheck.len();
    let n: usize = d.len();
    let dxref: F64 = inprod(d, xref);
    let dsq: F64 = inprod(d, d);
    let xrefsq: F64 = inprod(xref, xref);
    let dvlag: F64 = inprod(d, vstd::slice::slice_subrange(vlag, npt, npt + n));
    let wvlag: F64 = inprod(wcheck, vstd::slice::slice_subrange(vlag, 0, npt));
    dxref * dxref + dsq * (xrefsq + dxref + dxref + half() * dsq) - dvlag - wvlag
}

/// Writes the Lagrange values of the step `d` from point `kref` into `vlag`.
pub fn calvlag_into(
    kref: usize,
    bmat: &Mat,
    d: &[F64],
    xpt: &Mat,
    zmat: &Mat,
    cw: &mut CalWs,
    vlag: &mut Vec<F64>,
)
    requires
        set_shaped(d@.len(), xpt@.len(), xpt, bmat, zmat),
        kref < xpt@.len(),
        old(cw).fits(d@.len(), xpt@.len()),
        old(vlag)@.len() == bmat@.len(),
    ensures
        final(vlag)@ == vlag_of(kref as int, bmat@, d@, xpt@, zmat@),
        final(cw).fits(d@.len(), xpt@.len()),
        final(cw).count == bumped(old(cw).count),
{
    calvlag_noadd(
        kref,
        bmat,
        d,
        xpt,
        zmat,
        &mut cw.wcheck,
        &mut cw.xz,
        &mut cw.wmv,
        &mut cw.count,
        vlag,
    );
    vlag[kref] = vlag[kref] + one();
    assert(vlag@ =~= vlag_of(kref as int, bmat@, d@, xpt@, zmat@));
}

/// The parameter beta of the step `d` from point `kref`.
pub fn calbeta(
    kref: usize,
    bmat: &Mat,
    d: &[F64],
    xpt: &Mat,
    zmat: &Mat,
    cw: &mut CalWs,
) -> (r: F64)
    requires
        set_shaped(d@.len(), xpt@.len(), xpt, bmat, zmat),
        kref < xpt@.len(),
        old(cw).fits(d@.len(), xpt@.len()),
    ensures
        r == beta_of(kref as int, bmat@, d@, xpt@, zmat@),
        final(cw).fits(d@.len(), xpt@.len()),
        final(cw).count == bumped(old(cw).count),
{
    calvlag_noadd(
        kref,
        bmat,
        d,
        xpt,
        zmat,
        &mut cw.wcheck,
        &mut cw.xz,
        &mut cw.wmv,
        &mut cw.count,
        &mut cw.vlag_beta,
    );
    assert(xpt@[kref as int].len() == d@.len());
    beta_from_noadd_vlag(d, xpt.col(kref), &cw.wcheck, &cw.vlag_beta)
}

/// Writes the denominators from the Lagrange values and beta into `den`.
fn den_from_vlag(zmat: &Mat, vlag: &[F64], beta: F64, den: &mut Vec<F64>)
    requires
        zmat.is(old(den)@.len(), zmat@.len()),
        vlag@.len() >= old(den)@.len(),
    ensures
        final(den)@ == Seq::new(
            old(den)@.len(),
            |k: int| dot(row(zmat@, k), row(zmat@, k)) * beta + vlag@[k] * vlag@[k],
        ),
{
    let npt: usize = den.len();
    for k in 0..npt
        invariant
            den@.len() == npt,
            npt == old(den)@.len(),
            zmat.is(npt as nat, zmat@.len()),
            vlag@.len() >= npt,
            forall|j: int|
                0 <= j < k ==> den@[j] == dot(row(zmat@, j), row(zmat@, j)) * beta + vlag@[j]
                    * vlag@[j],
    {
        den[k] = row_sumsq(zmat, k) * beta + vlag[k] * vlag[k];
    }
    assert(den@ =~= Seq::new(
        old(den)@.len(),
        |k: int| dot(row(zmat@, k), row(zmat@, k)) * beta + vlag@[k] * vlag@[k],
    ));
}

/// The sum of the squares of row `k`.
pub fn row_sumsq(m: &Mat, k: usize) -> (r: F64)
    requires
        forall|j: int| 0 <= j < m@.len() ==> k < (#[trigger] m@[j]).len(),
    ensures
        r == dot(row(m@, k as int), row(m@, k as int)),
{
    let mut z: F64 = zero();
    let nc: usize = m.ncols();
    for j in 0..nc
        invariant
            nc == m@.len(),
            forall|c: int| 0 <= c < m@.len() ==> k < (#[trigger] m@[c]).len(),
            z == dot_from(zero(), row(m@, k as int), row(m@, k as int), j as nat),
    {
        assert(m@[j as int].len() > k);
        assert(row(m@, k as int)[j as int] == m@[j as int][k as int]);
        let v: F64 = m.get(k, j);
        z = z + v * v;
    }
    z
}

/// Writes the denominators for the step `d` from point `kref` into `den`.
pub fn calden_into(
    kref: usize,
    bmat: &Mat,
    d: &[F64],
    xpt: &Mat,
    zmat: &Mat,
    cw: &mut CalWs,
    den: &mut Vec<F64>,
)
    requires
        set_shaped(d@.len(), xpt@.len(), xpt, bmat, zmat),
        kref < xpt@.len(),
        old(cw).fits(d@.len(), xpt@.len()),
        old(den)@.len() == xpt@.len(),
    ensures
        final(den)@ == denominators(kref as int, bmat@, d@, xpt@, zmat@),
        final(cw).fits(d@.len(), xpt@.len()),
        final(cw).count == bumped(old(cw).count),
{
    calvlag_noadd(
        kref,
        bmat,
        d,
        xpt,
        zmat,
        &mut cw.wcheck,
        &mut cw.xz,
        &mut cw.wmv,
        &mut cw.count,
        &mut cw.vlag_den,
    );
    assert(xpt@[kref as int].len() == d@.len());
    let beta: F64 = beta_from_noadd_vlag(d, xpt.col(kref), &cw.wcheck, &cw.vlag_den);
    cw.vlag_den[kref] = cw.vlag_den[kref] + one();
    assert(cw.vlag_den@ =~= vlag_of(kref as int, bmat@, d@, xpt@, zmat@));
    den_from_vlag(zmat, &cw.vlag_den, beta, den);
    assert(den@ =~= denominators(kref as int, bmat@, d@, xpt@, zmat@));
}

/// Writes the Lagrange values and the denominators for the step `d` from point `kref` into
/// `vlag` and `den`, with one evaluation of the kernel, and returns beta.
pub fn calvlag_and_den_into(
    kref: usize,
    bmat: &Mat,
    d: &[F64],
    xpt: &Mat,
    zmat: &Mat,
    cw: &mut CalWs,
    vlag: &mut Vec<F64>,
    den: &mut Vec<F64>,
) -> (beta: F64)
    requires
        set_shaped(d@.len(), xpt@.len(), xpt, bmat, zmat),
        kref < xpt@.len(),
        old(cw).fits(d@.len(), xpt@.len()),
        old(vlag)@.len() == bmat@.len(),
        old(den)@.len() == xpt@.len(),
    ensures
        final(vlag)@ == vlag_of(kref as int, bmat@, d@, xpt@, zmat@),
        final(den)@ == denominators(kref as int, bmat@, d@, xpt@, zmat@),
        beta == beta_of(kref as int, bmat@, d@, xpt@, zmat@),
        final(cw).fits(d@.len(), xpt@.len()),
        final(cw).count == bumped(old(cw).count),
{
    calvlag_noadd(
        kref,
        bmat,
        d,
        xpt,
        zmat,
        &mut cw.wcheck,
        &mut cw.xz,
        &mut cw.wmv,
        &mut cw.count,
        vlag,
    );
    assert(xpt@[kref as int].len() == d@.len());
    let beta: F64 = beta_from_noadd_vlag(d, xpt.col(kref), &cw.wcheck, vlag);
    vlag[kref] = vlag[kref] + one();
    assert(vlag@ =~= vlag_of(kref as int, bmat@, d@, xpt@, zmat@));
    den_from_vlag(zmat, vlag, beta, den);
    assert(den@ =~= denominators(kref as int, bmat@, d@, xpt@, zmat@));
    beta
}

/// The pair number `k` by the quotient and the remainder of `k` by `n`.
proof fn lemma_pair(n: nat, k: nat)
    requires
        0 < n <= usize::MAX,
        n <= k,
        2 * k < n * (n + 1),
    ensures
        ({
            let i = k % n;
            let e = k / n;
            &&& k == n * e + i
            &&& 0 <= i < n
            &&& 1 <= e
            &&& 2 * e <= n
            &&& 2 * e == n ==> 2 * i < n
            &&& pair_of(n, k).0 == i
            &&& i + e < n ==> pair_of(n, k).1 == i + e
            &&& i + e >= n ==> pair_of(n, k).1 == i + e - n
        }),
{
    let i = k % n;
    let e = k / n;
    vstd::arithmetic::div_mod::lemma_fundamental_div_mod(k as int, n as int);
    vstd::arithmetic::div_mod::lemma_mod_bound(k as int, n as int);
    assert(1 <= e) by (nonlinear_arith)
        requires
            k == n * e + i,
            i < n,
            n <= k,
            0 <= e,
    ;
    assert(2 * e <= n) by (nonlinear_arith)
        requires
            k == n * e + i,
            0 <= i,
            0 < n,
            2 * k < n * (n + 1),
    ;
    assert(2 * e == n ==> 2 * i < n) by (nonlinear_arith)
        requires
            k == n * e + i,
            2 * k < n * (n + 1),
    ;
    if i + e < n {
        vstd::arithmetic::div_mod::lemma_small_mod((i + e) as nat, n);
    } else {
        vstd::arithmetic::div_mod::lemma_fundamental_div_mod_converse(
            (i + e) as int,
            n as int,
            1,
            i + e - n,
        );
    }
}

/// The pairs are pairs of two variables, and no two variables are paired twice.
pub proof fn lemma_pairs_distinct(n: nat, npt: nat, a: int, b: int)
    requires
        0 < n <= usize::MAX,
        2 * npt <= (n + 1) * (n + 2),
        0 <= a < pairs_of(n, npt).len(),
        0 <= b < pairs_of(n, npt).len(),
    ensures
        ({
            let p = pairs_of(n, npt)[a];
            let q = pairs_of(n, npt)[b];
            &&& p.0 < n && p.1 < n && p.0 != p.1
            &&& a != b ==> p != q && p != (q.1, q.0)
        }),
{
    let k = (n + a) as nat;
    let l = (n + b) as nat;
    assert(2 * (npt - n - 2) < n * (n + 1)) by (nonlinear_arith)
        requires
            2 * npt <= (n + 1) * (n + 2),
    ;
    lemma_pair(n, k);
    lemma_pair(n, l);
    assert(k / n == l / n && k % n == l % n ==> k == l);
}

} // verus!
