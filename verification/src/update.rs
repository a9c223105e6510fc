//! The updates of the inverse interpolation matrix, of the interpolation set and of the model,
//! when a point is replaced by a step from the best point.
use vstd::prelude::*;

use crate::consts::one;
use crate::consts::rotation_floor;
use crate::consts::ten;
use crate::consts::tenth;
use crate::consts::zero;
use crate::consts::DAMAGING_ROUNDING;
use crate::consts::INFO_DFT;
use crate::float::arith::magnitude_of;
use crate::float::arith::root_of;
use crate::float::order::max_of;
use crate::float::order::min_of;
use crate::float::F64;
use crate::geometry::row_into;
use crate::linalg::inprod;
use crate::linalg::largest_abs_mat;
use crate::linalg::matprod12_into;
use crate::linalg::matprod21_into;
use crate::linalg::matvec;
use crate::linalg::max_abs_mat;
use crate::linalg::planerot;
use crate::linalg::r1update;
use crate::linalg::rank_one;
use crate::linalg::rotation_of;
use crate::linalg::row_inprod_from;
use crate::linalg::vecmat;
use crate::mat::constant_mat;
use crate::mat::row;
use crate::mat::shaped;
use crate::mat::with_entry;
use crate::mat::Mat;
use crate::powalg::beta_of;
use crate::powalg::calbeta;
use crate::powalg::calvlag_into;
use crate::powalg::counters::bumped;
use crate::powalg::hess_mul_into;
use crate::powalg::hessian_mul;
use crate::powalg::implicit_mul;
use crate::powalg::implicit_mul_into;
use crate::powalg::set_shaped;
use crate::powalg::vlag_of;
use crate::powalg::CalWs;
use crate::vector::abs_sum;
use crate::vector::accumulate;
use crate::vector::accumulate_scaled;
use crate::vector::copy;
use crate::vector::dot;
use crate::vector::plus;
use crate::vector::plus_scaled;
use crate::vector::sum_abs;
use crate::vector::zeros;

pub mod formula;
pub mod gram;
pub mod model;

verus! {

/// The inverse interpolation matrix, by its two parts.
pub struct Inverse {
    pub bmat: Seq<Seq<F64>>,
    pub zmat: Seq<Seq<F64>>,
}

/// The first vector of the update of `bmat`.
pub open spec fn update_v1(
    n: nat,
    npt: nat,
    hcol: Seq<F64>,
    vlag: Seq<F64>,
    alpha: F64,
    tau: F64,
    denom: F64,
) -> Seq<F64> {
    Seq::new(n, |i: int| (alpha * vlag[npt + i] - tau * hcol[npt + i]) / denom)
}

/// The second vector of the update of `bmat`.
pub open spec fn update_v2(
    n: nat,
    npt: nat,
    hcol: Seq<F64>,
    vlag: Seq<F64>,
    beta: F64,
    tau: F64,
    denom: F64,
) -> Seq<F64> {
    Seq::new(n, |i: int| ((-beta) * hcol[npt + i] - tau * vlag[npt + i]) / denom)
}

/// The columns of `b` plus `v1 vlag' + v2 hcol'`.
pub open spec fn outer_added(
    b: Seq<Seq<F64>>,
    v1: Seq<F64>,
    vlag: Seq<F64>,
    v2: Seq<F64>,
    hcol: Seq<F64>,
) -> Seq<Seq<F64>> {
    Seq::new(b.len(), |j: int| plus_scaled(plus_scaled(b[j], v1, vlag[j]), v2, hcol[j]))
}

/// The matrix with the lower triangle of its last `n` columns copied to the upper one.
pub open spec fn tail_mirrored(b: Seq<Seq<F64>>, n: nat, npt: nat) -> Seq<Seq<F64>> {
    Seq::new(
        b.len(),
        |j: int|
            Seq::new(
                n,
                |i: int|
                    if i < j - npt {
                        b[npt + i][j - npt]
                    } else {
                        b[j][i]
                    },
            ),
    )
}

/// `bmat` after the update.
pub open spec fn bmat_updated(
    bmat: Seq<Seq<F64>>,
    n: nat,
    npt: nat,
    hcol: Seq<F64>,
    vlag: Seq<F64>,
    alpha: F64,
    beta: F64,
    tau: F64,
    denom: F64,
) -> Seq<Seq<F64>> {
    tail_mirrored(
        outer_added(
            bmat,
            update_v1(n, npt, hcol, vlag, alpha, tau, denom),
            vlag,
            update_v2(n, npt, hcol, vlag, beta, tau, denom),
            hcol,
        ),
        n,
        npt,
    )
}

/// The entry of row `knew` in column `j` is large enough for a rotation.
pub open spec fn rotates(zmat: Seq<Seq<F64>>, knew: int, j: int) -> bool {
    magnitude_of(zmat[j][knew]) > rotation_floor() * max_abs_mat(zmat)
}

/// Columns `0` and `j` of `zmat` turned so that row `knew` of column `j` becomes zero.
pub open spec fn rotated_once(zmat: Seq<Seq<F64>>, knew: int, j: int) -> Seq<Seq<F64>> {
    let z = if rotates(zmat, knew, j) {
        let g = rotation_of(zmat[0][knew], zmat[j][knew]);
        let a = zmat[0];
        let b = zmat[j];
        zmat.update(0, Seq::new(a.len(), |i: int| a[i] * g.0 + b[i] * g.1)).update(
            j,
            Seq::new(a.len(), |i: int| a[i] * (-g.1) + b[i] * g.0),
        )
    } else {
        zmat
    };
    with_entry(z, knew, j, zero())
}

/// `zmat` with row `knew` made zero in the columns from 1 up to `k`, exclusive.
pub open spec fn rotated(zmat: Seq<Seq<F64>>, knew: int, k: nat) -> Seq<Seq<F64>>
    decreases k,
{
    if k <= 1 {
        zmat
    } else {
        rotated_once(rotated(zmat, knew, (k - 1) as nat), knew, k - 1)
    }
}

/// The first column of `zmat` after the update: `p` times it minus `q` times `vlag`.
pub open spec fn first_column(z: Seq<F64>, vlag: Seq<F64>, p: F64, q: F64) -> Seq<F64> {
    Seq::new(z.len(), |i: int| p * z[i] - q * vlag[i])
}

/// Column `knew` of `H`.
pub open spec fn h_column(h: Inverse, knew: int) -> Seq<F64> {
    matvec(h.zmat, row(h.zmat, knew), h.zmat[0].len()) + h.bmat[knew]
}

/// The update of `H` is possible: its vectors are finite and its denominator is positive.
pub open spec fn update_sound(hcol: Seq<F64>, vlag: Seq<F64>, beta: F64, denom: F64) -> bool {
    (abs_sum(hcol) + abs_sum(vlag) + magnitude_of(beta)).finite() && denom > zero()
}

/// The denominator of the update of `H` that replaces point `knew`.
pub open spec fn update_denominator(h: Inverse, knew: int, vlag: Seq<F64>, beta: F64) -> F64 {
    h_column(h, knew)[knew] * beta + vlag[knew] * vlag[knew]
}

/// The exit code of the update of `H`.
pub open spec fn update_info(h: Inverse, knew: int, vlag: Seq<F64>, beta: F64) -> i32 {
    let denom = update_denominator(h, knew, vlag, beta);
    if update_sound(
        h_column(h, knew),
        vlag.update(knew, vlag[knew] - one()),
        beta,
        denom,
    ) {
        INFO_DFT
    } else {
        DAMAGING_ROUNDING
    }
}

/// `H` after point `knew` is replaced by a step with the Lagrange values `vlag` and the
/// parameter `beta`; it stays as it is where rounding errors would damage it.
pub open spec fn inverse_updated(h: Inverse, knew: int, vlag: Seq<F64>, beta: F64) -> Inverse {
    if update_info(h, knew, vlag, beta) != INFO_DFT {
        h
    } else {
        let npt = h.zmat[0].len();
        let n = h.bmat[0].len();
        let hcol = h_column(h, knew);
        let tau = vlag[knew];
        let denom = update_denominator(h, knew, vlag, beta);
        let w = vlag.update(knew, tau - one());
        let z = rotated(h.zmat, knew, h.zmat.len());
        let r = root_of(denom);
        Inverse {
            bmat: bmat_updated(h.bmat, n, npt, hcol, w, hcol[knew], beta, tau, denom),
            zmat: z.update(0, first_column(z[0], w, tau / r, z[0][knew] / r)),
        }
    }
}

/// The model: its gradient at the best point, and its explicit and implicit Hessian.
pub struct Quadratic {
    pub gopt: Seq<F64>,
    pub hq: Seq<Seq<F64>>,
    pub pq: Seq<F64>,
}

/// The increments of the implicit coefficients for the model error `moderr` at point `knew`.
pub open spec fn pq_increments(zmat: Seq<Seq<F64>>, knew: int, npt: nat, moderr: F64) -> Seq<F64> {
    Seq::new(npt, |k: int| moderr * matvec(zmat, row(zmat, knew), npt)[k])
}

/// The model after point `knew`, which was at `xdrop`, is replaced by the step `d` from `xosav`
/// with the model error `moderr`; where the step improves, the gradient moves along.
pub open spec fn model_updated(
    q: Quadratic,
    knew: int,
    ximproved: bool,
    bmat: Seq<Seq<F64>>,
    d: Seq<F64>,
    moderr: F64,
    xdrop: Seq<F64>,
    xosav: Seq<F64>,
    xpt: Seq<Seq<F64>>,
    zmat: Seq<Seq<F64>>,
) -> Quadratic {
    let hq = rank_one(q.hq, q.pq[knew], xdrop);
    let pqinc = pq_increments(zmat, knew, q.pq.len(), moderr);
    let pq = plus(q.pq.update(knew, zero()), pqinc);
    let g1 = Seq::new(q.gopt.len(), |i: int| q.gopt[i] + moderr * bmat[knew][i]);
    let g2 = plus(g1, implicit_mul(xosav, xpt, pqinc));
    Quadratic {
        gopt: if ximproved {
            plus(g2, hessian_mul(d, xpt, pq, hq))
        } else {
            g2
        },
        hq,
        pq,
    }
}

/// The gradient without the entries that push out of the bounds.
pub open spec fn projected(
    g: Seq<F64>,
    xopt: Seq<F64>,
    sl: Seq<F64>,
    su: Seq<F64>,
) -> Seq<F64> {
    Seq::new(
        g.len(),
        |i: int|
            if xopt[i] <= sl[i] {
                min_of(zero(), g[i])
            } else if xopt[i] >= su[i] {
                max_of(zero(), g[i])
            } else {
                g[i]
            },
    )
}

/// The interpolating model of least Frobenius norm.
pub open spec fn alternative_model(
    bmat: Seq<Seq<F64>>,
    fval: Seq<F64>,
    xopt: Seq<F64>,
    xpt: Seq<Seq<F64>>,
    zmat: Seq<Seq<F64>>,
) -> Quadratic {
    let n = xopt.len();
    let pq = matvec(zmat, vecmat(fval, zmat), fval.len());
    Quadratic {
        gopt: plus(matvec(bmat, fval, n), implicit_mul(xopt, xpt, pq)),
        hq: constant_mat(n, n, zero()),
        pq,
    }
}

/// The number of successive iterations in which the alternative model looked better.
pub open spec fn next_test(
    itest: i32,
    ratio: F64,
    q: Quadratic,
    alt: Quadratic,
    xopt: Seq<F64>,
    sl: Seq<F64>,
    su: Seq<F64>,
) -> i32 {
    let pg = projected(q.gopt, xopt, sl, su);
    let pa = projected(alt.gopt, xopt, sl, su);
    if ratio > tenth() || dot(pg, pg) < ten() * dot(pa, pa) {
        0
    } else {
        (itest + 1) as i32
    }
}

/// Scratch space of the updates.
#[derive(Debug, Clone)]
pub struct UpdateWs {
    /// A row of `zmat`.
    pub zrow: Vec<F64>,
    /// A column of `H`.
    pub hcol: Vec<F64>,
    /// Lagrange values.
    pub vlag: Vec<F64>,
    /// The first vector of the update of `bmat`.
    pub v1: Vec<F64>,
    /// The second vector of the update of `bmat`.
    pub v2: Vec<F64>,
    /// Increments of the implicit coefficients.
    pub pqinc: Vec<F64>,
    /// A product with the Hessian.
    pub hm: Vec<F64>,
    /// Products with `zmat`.
    pub inner: Vec<F64>,
    /// The implicit coefficients of the alternative model.
    pub pqalt: Vec<F64>,
    /// The gradient of the alternative model.
    pub galt: Vec<F64>,
    /// The projected gradient.
    pub pgopt: Vec<F64>,
    /// The projected gradient of the alternative model.
    pub pgalt: Vec<F64>,
    /// Products with the interpolation points.
    pub dxpt: Vec<F64>,
    /// Scratch space of the kernel.
    pub cal: CalWs,
}

impl UpdateWs {
    /// The buffers have the lengths for `n` variables and `npt` points.
    pub open spec fn fits(&self, n: nat, npt: nat) -> bool {
        &&& self.zrow@.len() + n + 1 == npt
        &&& self.hcol@.len() == npt + n
        &&& self.vlag@.len() == npt + n
        &&& self.v1@.len() == n
        &&& self.v2@.len() == n
        &&& self.pqinc@.len() == npt
        &&& self.hm@.len() == n
        &&& self.inner@.len() + n + 1 == npt
        &&& self.pqalt@.len() == npt
        &&& self.galt@.len() == n
        &&& self.pgopt@.len() == n
        &&& self.pgalt@.len() == n
        &&& self.dxpt@.len() == npt
        &&& self.cal.fits(n, npt)
    }

    /// Scratch space for `n` variables and `npt` points.
    pub fn new(n: usize, npt: usize) -> (r: UpdateWs)
        requires
            npt >= n + 1,
            npt + n <= usize::MAX,
        ensures
            r.fits(n as nat, npt as nat),
            r.cal.count.calls == 0,
    {
        UpdateWs {
            zrow: zeros(npt - n - 1),
            hcol: zeros(npt + n),
            vlag: zeros(npt + n),
            v1: zeros(n),
            v2: zeros(n),
            pqinc: zeros(npt),
            hm: zeros(n),
            inner: zeros(npt - n - 1),
            pqalt: zeros(npt),
            galt: zeros(n),
            pgopt: zeros(n),
            pgalt: zeros(n),
            dxpt: zeros(npt),
            cal: CalWs::new(n, npt),
        }
    }
}

/// Writes the two vectors of the update of `bmat` into `v1` and `v2`.
pub fn update_vectors_into(
    npt: usize,
    hcol: &[F64],
    vlag: &[F64],
    alpha: F64,
    beta: F64,
    tau: F64,
    denom: F64,
    v1: &mut Vec<F64>,
    v2: &mut Vec<F64>,
)
    requires
        old(v1)@.len() == old(v2)@.len(),
        hcol@.len() == npt + old(v1)@.len(),
        vlag@.len() == npt + old(v1)@.len(),
        npt + old(v1)@.len() <= usize::MAX,
    ensures
        final(v1)@ == update_v1(old(v1)@.len(), npt as nat, hcol@, vlag@, alpha, tau, denom),
        final(v2)@ == update_v2(old(v1)@.len(), npt as nat, hcol@, vlag@, beta, tau, denom),
{
    let n: usize = v1.len();
    let ghost g1: Seq<F64> = update_v1(n as nat, npt as nat, hcol@, vlag@, alpha, tau, denom);
    let ghost g2: Seq<F64> = update_v2(n as nat, npt as nat, hcol@, vlag@, beta, tau, denom);
    for i in 0..n
        invariant
            v1@.len() == n,
            v2@.len() == n,
            hcol@.len() == npt + n,
            vlag@.len() == npt + n,
            npt + n <= usize::MAX,
            g1 == update_v1(n as nat, npt as nat, hcol@, vlag@, alpha, tau, denom),
            g2 == update_v2(n as nat, npt as nat, hcol@, vlag@, beta, tau, denom),
            forall|j: int| 0 <= j < i ==> v1@[j] == g1[j] && v2@[j] == g2[j],
    {
        v1[i] = (alpha * vlag[npt + i] - tau * hcol[npt + i]) / denom;
        v2[i] = (beta.negated() * hcol[npt + i] - tau * vlag[npt + i]) / denom;
    }
    assert(v1@ =~= g1);
    assert(v2@ =~= g2);
}

/// Adds `v1 vlag' + v2 hcol'` to `bmat`.
pub fn add_outer(bmat: &mut Mat, v1: &[F64], vlag: &[F64], v2: &[F64], hcol: &[F64])
    requires
        old(bmat).is(v1@.len(), vlag@.len()),
        v2@.len() == v1@.len(),
        hcol@.len() == vlag@.len(),
    ensures
        final(bmat)@ == outer_added(old(bmat)@, v1@, vlag@, v2@, hcol@),
        final(bmat).is(v1@.len(), vlag@.len()),
{
    let nc: usize = vlag.len();
    let ghost b0: Seq<Seq<F64>> = bmat@;
    let ghost goal: Seq<Seq<F64>> = outer_added(b0, v1@, vlag@, v2@, hcol@);
    for j in 0..nc
        invariant
            nc == vlag@.len(),
            bmat.is(v1@.len(), nc as nat),
            v2@.len() == v1@.len(),
            hcol@.len() == nc,
            b0.len() == nc,
            goal == outer_added(b0, v1@, vlag@, v2@, hcol@),
            forall|c: int| 0 <= c < j ==> #[trigger] bmat@[c] == goal[c],
            forall|c: int| j <= c < nc ==> #[trigger] bmat@[c] == b0[c],
    {
        let ghost now: Seq<Seq<F64>> = bmat@;
        assert(now[j as int].len() == v1@.len());
        accumulate_scaled(&mut bmat.cols[j], v1, vlag[j]);
        accumulate_scaled(&mut bmat.cols[j], v2, hcol[j]);
        assert(bmat@ =~= now.update(j as int, goal[j as int]));
    }
    assert(bmat@ =~= goal);
}

/// Copies the lower triangle of the last `n` columns to the upper one.
pub fn mirror_tail(bmat: &mut Mat, npt: usize)
    requires
        old(bmat).is(old(bmat).nrows as nat, (npt + old(bmat).nrows) as nat),
        npt + old(bmat).nrows <= usize::MAX,
    ensures
        final(bmat)@ == tail_mirrored(old(bmat)@, old(bmat).nrows as nat, npt as nat),
        final(bmat).is(old(bmat).nrows as nat, (npt + old(bmat).nrows) as nat),
{
    let n: usize = bmat.nrows();
    let ghost b0: Seq<Seq<F64>> = bmat@;
    for j in 0..n
        invariant
            npt + n <= usize::MAX,
            shaped(b0, n as nat, (npt + n) as nat),
            bmat.is(n as nat, (npt + n) as nat),
            forall|c: int, r: int|
                0 <= c < npt + n && 0 <= r < n ==> #[trigger] bmat@[c][r] == (if r < c - npt && c
                    - npt < j {
                    b0[npt + r][c - npt]
                } else {
                    b0[c][r]
                }),
    {
        for i in 0..j
            invariant
                j < n,
                npt + n <= usize::MAX,
                shaped(b0, n as nat, (npt + n) as nat),
                bmat.is(n as nat, (npt + n) as nat),
                forall|c: int, r: int|
                    0 <= c < npt + n && 0 <= r < n ==> #[trigger] bmat@[c][r] == (if r < c - npt
                        && (c - npt < j || (c - npt == j && r < i)) {
                        b0[npt + r][c - npt]
                    } else {
                        b0[c][r]
                    }),
        {
            assert(bmat@[npt + i].len() == n && bmat@[npt + j].len() == n);
            let v: F64 = bmat.get(j, npt + i);
            bmat.set(i, npt + j, v);
        }
    }
    let ghost goal: Seq<Seq<F64>> = tail_mirrored(b0, n as nat, npt as nat);
    assert forall|c: int| 0 <= c < npt + n implies #[trigger] bmat@[c] == goal[c] by {
        assert(bmat@[c].len() == n);
        assert(bmat@[c] =~= goal[c]);
    }
    assert(bmat@ =~= goal);
}

/// Turns columns 0 and `j` of `zmat` so that row `knew` of column `j` becomes zero.
pub fn rotate_columns(zmat: &mut Mat, knew: usize, j: usize)
    requires
        old(zmat).is(old(zmat).nrows as nat, old(zmat)@.len()),
        0 < j < old(zmat)@.len(),
        knew < old(zmat).nrows,
    ensures
        final(zmat)@ == rotated_once(old(zmat)@, knew as int, j as int),
        final(zmat).is(old(zmat).nrows as nat, old(zmat)@.len()),
{
    let nr: usize = zmat.nrows();
    let ghost z0: Seq<Seq<F64>> = zmat@;
    let ghost nc: nat = z0.len();
    let largest: F64 = largest_abs_mat(zmat);
    assert(z0[0].len() == nr && z0[j as int].len() == nr);
    if zmat.get(knew, j).abs().gt(rotation_floor() * largest) {
        let g: ((F64, F64), (F64, F64)) = planerot(zmat.get(knew, 0), zmat.get(knew, j));
        let ghost c0: Seq<F64> = Seq::new(
            nr as nat,
            |i: int| z0[0][i] * g.0.0 + z0[j as int][i] * g.0.1,
        );
        let ghost cj: Seq<F64> = Seq::new(
            nr as nat,
            |i: int| z0[0][i] * g.1.0 + z0[j as int][i] * g.1.1,
        );
        for i in 0..nr
            invariant
                nr == zmat.nrows,
                0 < j < nc,
                nc == z0.len(),
                shaped(z0, nr as nat, nc),
                zmat.is(nr as nat, nc),
                c0 == Seq::new(nr as nat, |i: int| z0[0][i] * g.0.0 + z0[j as int][i] * g.0.1),
                cj == Seq::new(nr as nat, |i: int| z0[0][i] * g.1.0 + z0[j as int][i] * g.1.1),
                forall|c: int| 0 < c < nc && c != j ==> #[trigger] zmat@[c] == z0[c],
                forall|r: int| 0 <= r < i ==> zmat@[0][r] == c0[r] && zmat@[j as int][r] == cj[r],
                forall|r: int|
                    i <= r < nr ==> zmat@[0][r] == z0[0][r] && zmat@[j as int][r]
                        == z0[j as int][r],
        {
            assert(zmat@[0].len() == nr && zmat@[j as int].len() == nr);
            let a: F64 = zmat.get(i, 0);
            let b: F64 = zmat.get(i, j);
            zmat.set(i, 0, a * g.0.0 + b * g.0.1);
            assert(zmat@[j as int].len() == nr);
            zmat.set(i, j, a * g.1.0 + b * g.1.1);
        }
        assert(zmat@[0].len() == nr && zmat@[j as int].len() == nr);
        assert(zmat@[0] =~= c0);
        assert(zmat@[j as int] =~= cj);
        assert(zmat@ =~= z0.update(0, c0).update(j as int, cj));
        assert(c0 =~= Seq::new(z0[0].len(), |i: int| z0[0][i] * g.0.0 + z0[j as int][i] * g.0.1));
        assert(cj =~= Seq::new(z0[0].len(), |i: int| z0[0][i] * (-g.0.1) + z0[j as int][i] * g.0.0));
    }
    assert(zmat@[j as int].len() == nr);
    zmat.set(knew, j, zero());
}

/// Makes row `knew` of `zmat` zero in all columns but the first.
pub fn rotate_row(zmat: &mut Mat, knew: usize)
    requires
        old(zmat).is(old(zmat).nrows as nat, old(zmat)@.len()),
        old(zmat)@.len() > 0,
        knew < old(zmat).nrows,
    ensures
        final(zmat)@ == rotated(old(zmat)@, knew as int, old(zmat)@.len()),
        final(zmat).is(old(zmat).nrows as nat, old(zmat)@.len()),
{
    let nz: usize = zmat.ncols();
    let ghost z0: Seq<Seq<F64>> = zmat@;
    for j in 1..nz
        invariant
            nz == z0.len(),
            zmat.is(zmat.nrows as nat, nz as nat),
            zmat.nrows == old(zmat).nrows,
            knew < zmat.nrows,
            zmat@ == rotated(z0, knew as int, j as nat),
    {
        rotate_columns(zmat, knew, j);
    }
}

/// Replaces the first column of `zmat` by `p` times it minus `q` times `vlag`.
pub fn renew_first_column(zmat: &mut Mat, vlag: &[F64], p: F64, q: F64)
    requires
        old(zmat).is(old(zmat).nrows as nat, old(zmat)@.len()),
        old(zmat)@.len() > 0,
        vlag@.len() >= old(zmat).nrows,
    ensures
        final(zmat)@ == old(zmat)@.update(0, first_column(old(zmat)@[0], vlag@, p, q)),
        final(zmat).is(old(zmat).nrows as nat, old(zmat)@.len()),
{
    let nr: usize = zmat.nrows();
    let ghost z0: Seq<Seq<F64>> = zmat@;
    assert(z0[0].len() == nr);
    let ghost goal: Seq<F64> = first_column(z0[0], vlag@, p, q);
    for i in 0..nr
        invariant
            nr == zmat.nrows,
            z0.len() > 0,
            z0[0].len() == nr,
            zmat.is(nr as nat, z0.len()),
            vlag@.len() >= nr,
            goal == first_column(z0[0], vlag@, p, q),
            forall|c: int| 0 < c < z0.len() ==> #[trigger] zmat@[c] == z0[c],
            forall|r: int| 0 <= r < i ==> zmat@[0][r] == goal[r],
            forall|r: int| i <= r < nr ==> zmat@[0][r] == z0[0][r],
    {
        assert(zmat@[0].len() == nr);
        let v: F64 = p * zmat.get(i, 0) - q * vlag[i];
        zmat.set(i, 0, v);
    }
    assert(zmat@[0].len() == nr);
    assert(zmat@[0] =~= goal);
    assert(zmat@ =~= z0.update(0, goal));
}

/// Writes column `knew` of `H` into `hcol`.
fn h_column_into(knew: usize, bmat: &Mat, zmat: &Mat, zrow: &mut Vec<F64>, hcol: &mut Vec<F64>)
    requires
        bmat.is(bmat.nrows as nat, (zmat.nrows + bmat.nrows) as nat),
        zmat.is(zmat.nrows as nat, zmat@.len()),
        zmat@.len() > 0,
        zmat.nrows + bmat.nrows <= usize::MAX,
        knew < zmat.nrows,
        old(zrow)@.len() == zmat@.len(),
        old(hcol)@.len() == zmat.nrows + bmat.nrows,
    ensures
        final(hcol)@ == h_column(Inverse { bmat: bmat@, zmat: zmat@ }, knew as int),
        final(hcol)@.len() == zmat.nrows + bmat.nrows,
        final(zrow)@.len() == zmat@.len(),
{
    let n: usize = bmat.nrows();
    let npt: usize = zmat.nrows();
    row_into(zmat, knew, zrow);
    assert(zmat@[0].len() == npt);
    assert(bmat@[knew as int].len() == n);
    let ghost goal: Seq<F64> = h_column(Inverse { bmat: bmat@, zmat: zmat@ }, knew as int);
    for k in 0..npt
        invariant
            npt == zmat.nrows,
            n == bmat.nrows,
            zmat.is(npt as nat, zmat@.len()),
            zmat@.len() > 0,
            zmat@[0].len() == npt,
            bmat@[knew as int].len() == n,
            zrow@ == row(zmat@, knew as int),
            hcol@.len() == npt + n,
            goal == h_column(Inverse { bmat: bmat@, zmat: zmat@ }, knew as int),
            forall|j: int| 0 <= j < k ==> hcol@[j] == goal[j],
    {
        hcol[k] = row_inprod_from(zero(), zmat, k, zrow);
    }
    for i in 0..n
        invariant
            npt == zmat.nrows,
            n == bmat.nrows,
            zmat@[0].len() == npt,
            knew < bmat@.len(),
            bmat@[knew as int].len() == n,
            hcol@.len() == npt + n,
            npt + n <= usize::MAX,
            goal == h_column(Inverse { bmat: bmat@, zmat: zmat@ }, knew as int),
            forall|j: int| 0 <= j < npt + i ==> hcol@[j] == goal[j],
    {
        hcol[npt + i] = bmat.get(i, knew);
    }
    assert(hcol@ =~= goal);
}

/// Updates `H` when point `knew` is replaced by the step `d` from point `kopt`; Lagrange values
/// and beta that are known already are taken from `precomputed`.
pub fn updateh(
    knew: Option<usize>,
    kopt: usize,
    d: &[F64],
    xpt: &Mat,
    bmat: &mut Mat,
    zmat: &mut Mat,
    ws: &mut UpdateWs,
    precomputed: Option<(&[F64], F64)>,
) -> (info: i32)
    requires
        set_shaped(d@.len(), xpt@.len(), xpt, old(bmat), old(zmat)),
        kopt < xpt@.len(),
        knew matches Some(k) ==> k < xpt@.len(),
        old(ws).fits(d@.len(), xpt@.len()),
        precomputed matches Some(p) ==> p.0@.len() == xpt@.len() + d@.len(),
    ensures
        set_shaped(d@.len(), xpt@.len(), xpt, final(bmat), final(zmat)),
        final(ws).fits(d@.len(), xpt@.len()),
        ({
            let h = Inverse { bmat: old(bmat)@, zmat: old(zmat)@ };
            let vlag = match precomputed {
                Some(p) => p.0@,
                None => vlag_of(kopt as int, old(bmat)@, d@, xpt@, old(zmat)@),
            };
            let beta = match precomputed {
                Some(p) => p.1,
                None => beta_of(kopt as int, old(bmat)@, d@, xpt@, old(zmat)@),
            };
            match knew {
                Some(k) => {
                    &&& info == update_info(h, k as int, vlag, beta)
                    &&& (Inverse { bmat: final(bmat)@, zmat: final(zmat)@ }) == inverse_updated(
                        h,
                        k as int,
                        vlag,
                        beta,
                    )
                },
                None => {
                    &&& info == INFO_DFT
                    &&& final(bmat)@ == old(bmat)@
                    &&& final(zmat)@ == old(zmat)@
                },
            }
        }),
        final(ws).cal.count == (if knew is None || precomputed is Some {
            old(ws).cal.count
        } else {
            bumped(bumped(old(ws).cal.count))
        }),
{
    let n: usize = xpt.nrows();
    let npt: usize = xpt.ncols();
    let ghost h: Inverse = Inverse { bmat: bmat@, zmat: zmat@ };
    let knew: usize = match knew {
        Some(k) => k,
        None => {
            return INFO_DFT;
        },
    };
    assert(h.zmat[0].len() == npt);
    assert(h.bmat[0].len() == n);
    assert(h.bmat[knew as int].len() == n);
    h_column_into(knew, bmat, zmat, &mut ws.zrow, &mut ws.hcol);
    let beta: F64 = match precomputed {
        Some(p) => {
            copy(&mut ws.vlag, p.0);
            p.1
        },
        None => {
            let b: F64 = calbeta(kopt, bmat, d, xpt, zmat, &mut ws.cal);
            calvlag_into(kopt, bmat, d, xpt, zmat, &mut ws.cal, &mut ws.vlag);
            b
        },
    };
    let alpha: F64 = ws.hcol[knew];
    let tau: F64 = ws.vlag[knew];
    let denom: F64 = alpha * beta + tau * tau;
    ws.vlag[knew] = ws.vlag[knew] - one();
    if !((sum_abs(&ws.hcol) + sum_abs(&ws.vlag) + beta.abs()).is_finite() && denom.gt(zero())) {
        return DAMAGING_ROUNDING;
    }
    update_vectors_into(
        npt,
        &ws.hcol,
        &ws.vlag,
        alpha,
        beta,
        tau,
        denom,
        &mut ws.v1,
        &mut ws.v2,
    );
    add_outer(bmat, &ws.v1, &ws.vlag, &ws.v2, &ws.hcol);
    mirror_tail(bmat, npt);
    rotate_row(zmat, knew);
    assert(zmat@[0].len() == npt);
    let r: F64 = denom.sqrt();
    let q: F64 = zmat.get(knew, 0) / r;
    renew_first_column(zmat, &ws.vlag, tau / r, q);
    INFO_DFT
}

/// Replaces point `knew` by `xnew` with the value `f`; an improvement becomes the best point.
pub fn updatexf(
    knew: Option<usize>,
    ximproved: bool,
    f: F64,
    xnew: &[F64],
    kopt: &mut usize,
    fval: &mut Vec<F64>,
    xpt: &mut Mat,
)
    requires
        old(xpt).is(xnew@.len(), old(fval)@.len()),
        knew matches Some(k) ==> k < old(fval)@.len(),
    ensures
        final(xpt).is(xnew@.len(), old(fval)@.len()),
        (match knew {
            Some(k) => {
                &&& final(xpt)@ == old(xpt)@.update(k as int, xnew@)
                &&& final(fval)@ == old(fval)@.update(k as int, f)
                &&& *final(kopt) == (if ximproved {
                    k
                } else {
                    *old(kopt)
                })
            },
            None => {
                &&& final(xpt)@ == old(xpt)@
                &&& final(fval)@ == old(fval)@
                &&& *final(kopt) == *old(kopt)
            },
        }),
{
    match knew {
        Some(k) => {
            assert(xpt@[k as int].len() == xnew@.len());
            xpt.set_col(k, xnew);
            fval[k] = f;
            if ximproved {
                *kopt = k;
            }
        },
        None => {},
    }
}

/// Updates the model when point `knew`, which was at `xdrop`, is replaced by the step `d` from
/// `xosav` with the model error `moderr`.
pub fn updateq(
    knew: Option<usize>,
    ximproved: bool,
    bmat: &Mat,
    d: &[F64],
    moderr: F64,
    xdrop: &[F64],
    xosav: &[F64],
    xpt: &Mat,
    zmat: &Mat,
    gopt: &mut Vec<F64>,
    hq: &mut Mat,
    pq: &mut Vec<F64>,
    ws: &mut UpdateWs,
)
    requires
        set_shaped(d@.len(), xpt@.len(), xpt, bmat, zmat),
        knew matches Some(k) ==> k < xpt@.len(),
        xdrop@.len() == d@.len(),
        xosav@.len() == d@.len(),
        old(gopt)@.len() == d@.len(),
        old(hq).is(d@.len(), d@.len()),
        old(pq)@.len() == xpt@.len(),
        old(ws).fits(d@.len(), xpt@.len()),
    ensures
        (Quadratic { gopt: final(gopt)@, hq: final(hq)@, pq: final(pq)@ }) == (match knew {
            Some(k) => model_updated(
                Quadratic { gopt: old(gopt)@, hq: old(hq)@, pq: old(pq)@ },
                k as int,
                ximproved,
                bmat@,
                d@,
                moderr,
                xdrop@,
                xosav@,
                xpt@,
                zmat@,
            ),
            None => Quadratic { gopt: old(gopt)@, hq: old(hq)@, pq: old(pq)@ },
        }),
        final(gopt)@.len() == d@.len(),
        final(hq).is(d@.len(), d@.len()),
        final(pq)@.len() == xpt@.len(),
        final(ws).fits(d@.len(), xpt@.len()),
        final(ws).cal == old(ws).cal,
{
    let knew: usize = match knew {
        Some(k) => k,
        None => {
            return;
        },
    };
    let n: usize = d.len();
    let npt: usize = pq.len();
    let ghost q: Quadratic = Quadratic { gopt: gopt@, hq: hq@, pq: pq@ };
    r1update(hq, pq[knew], xdrop);
    pq[knew] = zero();
    row_into(zmat, knew, &mut ws.zrow);
    let ghost inc: Seq<F64> = pq_increments(zmat@, knew as int, npt as nat, moderr);
    for k in 0..npt
        invariant
            ws.fits(n as nat, npt as nat),
            ws.cal == old(ws).cal,
            zmat.is(npt as nat, (npt - n - 1) as nat),
            ws.zrow@ == row(zmat@, knew as int),
            inc == pq_increments(zmat@, knew as int, npt as nat, moderr),
            forall|j: int| 0 <= j < k ==> ws.pqinc@[j] == inc[j],
    {
        ws.pqinc[k] = moderr * row_inprod_from(zero(), zmat, k, &ws.zrow);
    }
    assert(ws.pqinc@ =~= inc);
    accumulate(pq, &ws.pqinc);
    implicit_mul_into(xosav, xpt, &ws.pqinc, &mut ws.dxpt, &mut ws.hm);
    assert(bmat@[knew as int].len() == n);
    let ghost g1: Seq<F64> = Seq::new(
        n as nat,
        |i: int| q.gopt[i] + moderr * bmat@[knew as int][i],
    );
    for i in 0..n
        invariant
            gopt@.len() == n,
            q.gopt.len() == n,
            knew < bmat@.len(),
            bmat@[knew as int].len() == n,
            g1 == Seq::new(n as nat, |i: int| q.gopt[i] + moderr * bmat@[knew as int][i]),
            forall|j: int| 0 <= j < i ==> gopt@[j] == g1[j],
            forall|j: int| i <= j < n ==> gopt@[j] == q.gopt[j],
    {
        gopt[i] = gopt[i] + moderr * bmat.get(i, knew);
    }
    assert(gopt@ =~= g1);
    accumulate(gopt, &ws.hm);
    if ximproved {
        hess_mul_into(d, xpt, pq, Some(&*hq), &mut ws.dxpt, &mut ws.hm);
        accumulate(gopt, &ws.hm);
    }
}

/// Writes the gradient without the entries that push out of the bounds into `pg`.
fn project_into(g: &[F64], xopt: &[F64], sl: &[F64], su: &[F64], pg: &mut Vec<F64>)
    requires
        xopt@.len() == g@.len(),
        sl@.len() == g@.len(),
        su@.len() == g@.len(),
        old(pg)@.len() == g@.len(),
    ensures
        final(pg)@ == projected(g@, xopt@, sl@, su@),
{
    let ghost goal: Seq<F64> = projected(g@, xopt@, sl@, su@);
    for i in 0..g.len()
        invariant
            xopt@.len() == g@.len(),
            sl@.len() == g@.len(),
            su@.len() == g@.len(),
            pg@.len() == g@.len(),
            goal == projected(g@, xopt@, sl@, su@),
            forall|j: int| 0 <= j < i ==> pg@[j] == goal[j],
    {
        pg[i] = if xopt[i].le(sl[i]) {
            zero().min(g[i])
        } else if xopt[i].ge(su[i]) {
            zero().max(g[i])
        } else {
            g[i]
        };
    }
    assert(pg@ =~= goal);
}

/// Tests whether to replace the model by the interpolating one of least Frobenius norm, which
/// happens when that one has looked better in three successive iterations.
pub fn tryqalt(
    bmat: &Mat,
    fval: &[F64],
    ratio: F64,
    sl: &[F64],
    su: &[F64],
    xopt: &[F64],
    xpt: &Mat,
    zmat: &Mat,
    itest: &mut i32,
    gopt: &mut Vec<F64>,
    hq: &mut Mat,
    pq: &mut Vec<F64>,
    ws: &mut UpdateWs,
)
    requires
        set_shaped(xopt@.len(), xpt@.len(), xpt, bmat, zmat),
        fval@.len() == xpt@.len(),
        sl@.len() == xopt@.len(),
        su@.len() == xopt@.len(),
        old(gopt)@.len() == xopt@.len(),
        old(hq).is(xopt@.len(), xopt@.len()),
        old(pq)@.len() == xpt@.len(),
        *old(itest) < i32::MAX,
        old(ws).fits(xopt@.len(), xpt@.len()),
    ensures
        ({
            let q = Quadratic { gopt: old(gopt)@, hq: old(hq)@, pq: old(pq)@ };
            let alt = alternative_model(bmat@, fval@, xopt@, xpt@, zmat@);
            let t = next_test(*old(itest), ratio, q, alt, xopt@, sl@, su@);
            let r = Quadratic { gopt: final(gopt)@, hq: final(hq)@, pq: final(pq)@ };
            if t >= 3 {
                r == alt && *final(itest) == 0
            } else {
                r == q && *final(itest) == t
            }
        }),
        final(gopt)@.len() == xopt@.len(),
        final(hq).is(xopt@.len(), xopt@.len()),
        final(pq)@.len() == xpt@.len(),
        final(ws).fits(xopt@.len(), xpt@.len()),
        final(ws).cal == old(ws).cal,
{
    project_into(gopt, xopt, sl, su, &mut ws.pgopt);
    matprod12_into(fval, zmat, &mut ws.inner);
    matprod21_into(zmat, &ws.inner, &mut ws.pqalt);
    matprod21_into(bmat, fval, &mut ws.galt);
    implicit_mul_into(xopt, xpt, &ws.pqalt, &mut ws.dxpt, &mut ws.hm);
    accumulate(&mut ws.galt, &ws.hm);
    project_into(&ws.galt, xopt, sl, su, &mut ws.pgalt);
    let pgopt_sq: F64 = inprod(&ws.pgopt, &ws.pgopt);
    let pgalt_sq: F64 = inprod(&ws.pgalt, &ws.pgalt);
    if ratio.gt(tenth()) || pgopt_sq.lt(ten() * pgalt_sq) {
        *itest = 0;
    } else {
        *itest = *itest + 1;
    }
    if *itest >= 3 {
        copy(gopt, &ws.galt);
        copy(pq, &ws.pqalt);
        hq.fill(zero());
        assert(hq.is(xopt@.len(), xopt@.len()));
        *itest = 0;
    }
}

} // verus!
