//! The rescue of a degenerate interpolation set.
//!
//! The points are first replaced by provisional ones along the coordinate directions from the
//! best point, for which the inverse interpolation matrix is known.  Then as many of the
//! original points as possible are reinstated, those nearest to the best point first.  Where a
//! provisional point is left, the objective is evaluated at it.
use vstd::prelude::*;

use crate::consts::half;
use crate::consts::minus_one;
use crate::consts::near_floor;
use crate::consts::one;
use crate::consts::twentieth;
use crate::consts::two;
use crate::consts::zero;
use crate::consts::DAMAGING_ROUNDING;
use crate::consts::INFO_DFT;
use crate::consts::MAXFUN_REACHED;
use crate::float::arith::lemma_product_sign;
use crate::float::arith::magnitude_of;
use crate::float::arith::root_of;
use crate::float::order::below;
use crate::float::order::max_of;
use crate::float::order::min_of;
use crate::float::F64;
use crate::geometry::row_into;
use crate::initialize::diag_count;
use crate::initialize::lemma_pairs;
use crate::initialize::swap_cols;
use crate::linalg::inprod;
use crate::linalg::matprod12_into;
use crate::linalg::r1update;
use crate::linalg::r2update;
use crate::linalg::rank_one;
use crate::linalg::rank_two;
use crate::linalg::row_inprod_from;
use crate::linalg::vecmat;
use crate::mat::constant_mat;
use crate::mat::row;
use crate::mat::shaped;
use crate::mat::with_entry;
use crate::mat::Mat;
use crate::model::Model;
use crate::model::ModelView;
use crate::powalg::hess_mul_into;
use crate::powalg::hessian_mul;
use crate::powalg::pairs_of;
use crate::powalg::row_sumsq;
use crate::powalg::setij_into;
use crate::update::add_outer;
use crate::update::bmat_updated;
use crate::update::first_column;
use crate::update::mirror_tail;
use crate::update::pq_increments;
use crate::update::renew_first_column;
use crate::update::rotate_row;
use crate::update::rotated;
use crate::update::update_vectors_into;
use crate::update::Inverse;
use crate::util::first_real_max;
use crate::util::lemma_first_real_max_above;
use crate::vector::abs_sum;
use crate::vector::accumulate;
use crate::vector::all_at_most;
use crate::vector::any_above;
use crate::vector::constant;
use crate::vector::copy;
use crate::vector::deduct;
use crate::vector::difference_into;
use crate::vector::dot;
use crate::vector::fill;
use crate::vector::has_above;
use crate::vector::is_all_at_most;
use crate::vector::lemma_max_sign;
use crate::vector::magnitudes;
use crate::vector::max_from;
use crate::vector::minus;
use crate::vector::plus;
use crate::vector::products;
use crate::vector::sum;
use crate::vector::sum_abs;
use crate::vector::total;
use crate::vector::zeros;

pub mod provisional;
pub mod raise;
pub mod recount;

verus! {

/// The base point moved to the best point: one coordinate, kept between the bounds.
pub open spec fn moved_base(xl: F64, xu: F64, xbase: F64, xopt: F64) -> F64 {
    min_of(max_of(xl, xbase + xopt), xu)
}

/// The points relative to the best one.
pub open spec fn recentred(xpt: Seq<Seq<F64>>, kopt: int) -> Seq<Seq<F64>> {
    Seq::new(
        xpt.len(),
        |k: int|
            if k == kopt {
                constant(xpt[k].len(), zero())
            } else {
                minus(xpt[k], xpt[kopt])
            },
    )
}

/// The vector of the change of the explicit Hessian when the base point moves to the best one.
pub open spec fn shift_vector(xpt: Seq<Seq<F64>>, pq: Seq<F64>, xopt: Seq<F64>) -> Seq<F64> {
    Seq::new(
        xopt.len(),
        |i: int| dot(row(xpt, i), pq) + (half() * total(pq)) * xopt[i],
    )
}

/// The model with the base point at the best point.
pub open spec fn rescue_shifted(m: ModelView, xl: Seq<F64>, xu: Seq<F64>) -> ModelView {
    let xopt = m.xopt();
    let xpt = recentred(m.xpt, m.kopt as int);
    ModelView {
        sl: Seq::new(xopt.len(), |i: int| min_of(m.sl[i] - xopt[i], zero())),
        su: Seq::new(xopt.len(), |i: int| max_of(m.su[i] - xopt[i], zero())),
        xbase: Seq::new(xopt.len(), |i: int| moved_base(xl[i], xu[i], m.xbase[i], xopt[i])),
        xpt,
        hq: rank_two(m.hq, one(), xopt, shift_vector(xpt, m.pq, xopt)),
        ..m
    }
}

/// The steps to the two provisional points on a coordinate direction, the larger one first.
pub open spec fn aux_steps(delta: F64, sl: F64, su: F64) -> (F64, F64) {
    let p = min_of(delta, su);
    let q = max_of(-delta, sl);
    let a = if p + q < zero() {
        (q, p)
    } else {
        (p, q)
    };
    if magnitude_of(a.1) < half() * magnitude_of(a.0) {
        (a.0, half() * a.0)
    } else {
        a
    }
}

/// The directions of the provisional point number `k`, counted from one; zero stands for none.
/// A point with a second direction only takes the second step on it.
pub open spec fn directions_of(n: nat, npt: nat, k: int) -> (usize, usize) {
    if k == 0 {
        (0, 0)
    } else if k <= n {
        (k as usize, 0)
    } else if k <= 2 * n {
        (0, (k - n) as usize)
    } else {
        let p = pairs_of(n, npt)[k - 2 * n - 1];
        ((p.0 + 1) as usize, (p.1 + 1) as usize)
    }
}

/// Row `k` and column `j` of `bmat` for the provisional points.
pub open spec fn provisional_bmat(
    n: nat,
    npt: nat,
    a1: Seq<F64>,
    a2: Seq<F64>,
    k: int,
    j: int,
) -> F64 {
    let p = a1[k];
    let q = a2[k];
    if k < diag_count(n, npt) {
        let temp = one() / (p - q);
        let first = (-temp) + one() / p;
        let second = temp + one() / q;
        if j == 0 {
            (-first) - second
        } else if j == k + 1 {
            first
        } else if j == k + n + 1 {
            second
        } else {
            zero()
        }
    } else {
        if j == 0 {
            minus_one() / p
        } else if j == k + 1 {
            one() / p
        } else if j == k + npt {
            (-half()) * p * p
        } else {
            zero()
        }
    }
}

/// Row `r` and column `k` of `zmat` for the provisional points.
pub open spec fn provisional_zmat(
    n: nat,
    npt: nat,
    a1: Seq<F64>,
    a2: Seq<F64>,
    r: int,
    k: int,
) -> F64 {
    if k < diag_count(n, npt) {
        let p = a1[k];
        let q = a2[k];
        let temp = one() / (p - q);
        let z = root_of(two()) / magnitude_of(p * q);
        if r == 0 {
            z
        } else if r == k + 1 {
            z * q * temp
        } else if r == k + n + 1 {
            (-z) * p * temp
        } else {
            zero()
        }
    } else {
        let d = pairs_of(n, npt)[k - n];
        let temp = one() / (a1[d.0 as int] * a1[d.1 as int]);
        if r == d.0 + 1 || r == d.1 + 1 {
            -temp
        } else if r == 0 || r == k + n + 1 {
            temp
        } else {
            zero()
        }
    }
}

/// The inverse interpolation matrix for the provisional points.
pub open spec fn provisional_inverse(n: nat, npt: nat, a1: Seq<F64>, a2: Seq<F64>) -> Inverse {
    Inverse {
        bmat: Seq::new(
            npt + n,
            |j: int| Seq::new(n, |k: int| provisional_bmat(n, npt, a1, a2, k, j)),
        ),
        zmat: Seq::new(
            (npt - n - 1) as nat,
            |k: int| Seq::new(npt, |r: int| provisional_zmat(n, npt, a1, a2, r, k)),
        ),
    }
}

/// The matrix with two columns exchanged.
pub open spec fn cols_exchanged(m: Seq<Seq<F64>>, a: int, b: int) -> Seq<Seq<F64>> {
    m.update(a, m[b]).update(b, m[a])
}

/// The matrix with two rows exchanged.
pub open spec fn rows_exchanged(m: Seq<Seq<F64>>, a: int, b: int) -> Seq<Seq<F64>> {
    Seq::new(m.len(), |j: int| m[j].update(a, m[j][b]).update(b, m[j][a]))
}

/// The inverse interpolation matrix with two points exchanged.
pub open spec fn points_exchanged(h: Inverse, a: int, b: int) -> Inverse {
    Inverse { bmat: cols_exchanged(h.bmat, a, b), zmat: rows_exchanged(h.zmat, a, b) }
}

/// The directions of a provisional point, or nothing for an original point.
pub type Origin = Option<(usize, usize)>;

/// The state while original points are reinstated.
pub struct Reinstating {
    pub bmat: Seq<Seq<F64>>,
    pub zmat: Seq<Seq<F64>>,
    pub ids: Seq<Origin>,
    pub score: Seq<F64>,
    pub nprov: usize,
    pub ended: bool,
}

/// What stays the same while original points are reinstated.
pub struct Frame {
    pub kopt: int,
    pub xpt: Seq<Seq<F64>>,
    pub a1: Seq<F64>,
    pub a2: Seq<F64>,
    pub scoreinc: F64,
}

/// The product of `x` and a provisional point.
pub open spec fn provisional_product(
    id: (usize, usize),
    x: Seq<F64>,
    a1: Seq<F64>,
    a2: Seq<F64>,
) -> F64 {
    let ip = id.0 - 1;
    let iq = id.1 - 1;
    if id.0 > 0 && id.1 > 0 {
        x[ip] * a1[ip] + x[iq] * a1[iq]
    } else if id.0 > 0 {
        x[ip] * a1[ip]
    } else if id.1 > 0 {
        x[iq] * a2[iq]
    } else {
        zero()
    }
}

/// The product of original point `korig` and the present point `k`.
pub open spec fn point_product(f: Frame, ids: Seq<Origin>, korig: int, k: int) -> F64 {
    if k == f.kopt {
        zero()
    } else {
        match ids[k] {
            None => dot(f.xpt[korig], f.xpt[k]),
            Some(id) => provisional_product(id, f.xpt[korig], f.a1, f.a2),
        }
    }
}

/// The leading part of the vector `w - v` for original point `korig`.
pub open spec fn reinstating_w(f: Frame, ids: Seq<Origin>, korig: int) -> Seq<F64> {
    Seq::new(
        f.xpt.len(),
        |k: int|
            half() * point_product(f, ids, korig, k) * point_product(f, ids, korig, k),
    )
}

/// The Lagrange values at original point `korig`, without the one added at the best point.
pub open spec fn reinstating_kernel(f: Frame, r: Reinstating, korig: int) -> Seq<F64> {
    let w = reinstating_w(f, r.ids, korig);
    let x = f.xpt[korig];
    Seq::new(
        f.xpt.len() + x.len(),
        |k: int|
            if k < f.xpt.len() {
                dot(row(r.zmat, k), vecmat(w, r.zmat)) + dot(x, r.bmat[k])
            } else {
                dot(row(r.bmat, k - f.xpt.len()), w + x)
            },
    )
}

/// The Lagrange values at original point `korig`.
pub open spec fn reinstating_vlag(f: Frame, r: Reinstating, korig: int) -> Seq<F64> {
    let v = reinstating_kernel(f, r, korig);
    v.update(f.kopt, v[f.kopt] + one())
}

/// The parameter beta for original point `korig`.
pub open spec fn reinstating_beta(f: Frame, r: Reinstating, korig: int) -> F64 {
    let w = reinstating_w(f, r.ids, korig);
    let x = f.xpt[korig];
    let wz = vecmat(w, r.zmat);
    let t = Seq::new(
        x.len(),
        |i: int| dot(row(r.bmat, i), w) + dot(row(r.bmat, i), w + x),
    );
    let bsum = dot((w + x).subrange(0, x.len() as int), t);
    half() * (dot(x, x) * dot(x, x)) - dot(wz, wz) - bsum
}

/// The denominators for replacing the provisional points by original point `korig`.
pub open spec fn reinstating_den(f: Frame, r: Reinstating, vlag: Seq<F64>, beta: F64) -> Seq<F64> {
    Seq::new(
        f.xpt.len(),
        |k: int|
            if r.ids[k] is Some {
                dot(row(r.zmat, k), row(r.zmat, k)) * beta + vlag[k] * vlag[k]
            } else {
                zero()
            },
    )
}

/// The squares of the first `k` entries.
pub open spec fn squares(x: Seq<F64>, k: nat) -> Seq<F64> {
    Seq::new(k, |i: int| x[i] * x[i])
}

/// The first position of the smallest positive entry among the first `k`.
pub open spec fn least_positive(score: Seq<F64>, k: nat) -> Option<int>
    decreases k,
{
    if k == 0 {
        None
    } else {
        let v = score[k - 1];
        match least_positive(score, (k - 1) as nat) {
            None => if v > zero() {
                Some(k - 1)
            } else {
                None
            },
            Some(b) => if v > zero() && v < score[b] {
                Some(k - 1)
            } else {
                Some(b)
            },
        }
    }
}

/// The point to reinstate next.
pub open spec fn next_original(score: Seq<F64>) -> int {
    match least_positive(score, score.len()) {
        Some(k) => k,
        None => 0,
    }
}

/// The exit code of the update of `H` in a rescue.
pub open spec fn rescue_update_info(h: Inverse, knew: int, beta: F64, vlag: Seq<F64>) -> i32 {
    let denom = dot(row(h.zmat, knew), row(h.zmat, knew)) * beta + vlag[knew] * vlag[knew];
    if (abs_sum(vlag) + magnitude_of(beta)).finite() && denom > zero() {
        INFO_DFT
    } else {
        DAMAGING_ROUNDING
    }
}

/// `H` after point `knew` is replaced, with the Lagrange values `vlag` and the parameter
/// `beta`; it stays as it is where rounding errors would damage it.
pub open spec fn rescue_updated(h: Inverse, knew: int, beta: F64, vlag: Seq<F64>) -> Inverse {
    if rescue_update_info(h, knew, beta, vlag) != INFO_DFT {
        h
    } else {
        let npt = h.zmat[0].len();
        let n = h.bmat[0].len();
        let tau = vlag[knew];
        let denom = dot(row(h.zmat, knew), row(h.zmat, knew)) * beta + tau * tau;
        let w = vlag.update(knew, tau - one());
        let z = rotated(h.zmat, knew, h.zmat.len());
        let hcol = Seq::new(npt, |k: int| z[0][knew] * z[0][k]) + h.bmat[knew];
        let r = root_of(denom);
        let zk = z[0][knew] / r;
        Inverse {
            bmat: bmat_updated(h.bmat, n, npt, hcol, w, hcol[knew], beta, tau, denom),
            zmat: z.update(0, first_column(z[0], w, tau / r, zk).update(knew, zk)),
        }
    }
}

/// One attempt to reinstate an original point.
pub open spec fn reinstate_step(f: Frame, r: Reinstating) -> Reinstating {
    if all_at_most(r.score, zero()) || r.nprov <= 1 {
        Reinstating { ended: true, ..r }
    } else {
        let korig = next_original(r.score);
        let vlag = reinstating_vlag(f, r, korig);
        let beta = reinstating_beta(f, r, korig);
        let den = reinstating_den(f, r, vlag, beta);
        let vmax = max_from(zero(), squares(vlag, f.xpt.len()), f.xpt.len());
        if !(abs_sum(vlag).finite() && any_above(den, twentieth() * vmax)) {
            Reinstating {
                score: r.score.update(korig, (-r.score[korig]) - f.scoreinc),
                ..r
            }
        } else {
            let kprov = match first_real_max(den, den.len()) {
                Some(k) => k,
                None => 0,
            };
            let h0 = Inverse { bmat: r.bmat, zmat: r.zmat };
            let h1 = if kprov != korig {
                points_exchanged(h0, kprov, korig)
            } else {
                h0
            };
            let vlag1 = if kprov != korig {
                vlag.update(kprov, vlag[korig]).update(korig, vlag[kprov])
            } else {
                vlag
            };
            let h2 = rescue_updated(h1, korig, beta, vlag1);
            Reinstating {
                bmat: h2.bmat,
                zmat: h2.zmat,
                ids: r.ids.update(kprov, r.ids[korig]).update(korig, None),
                score: magnitudes(r.score.update(korig, zero())),
                nprov: (r.nprov - 1) as usize,
                ended: false,
            }
        }
    }
}

/// The state after at most `k` attempts.
pub open spec fn reinstate_run(f: Frame, r: Reinstating, k: nat) -> Reinstating
    decreases k,
{
    if k == 0 || r.ended {
        r
    } else {
        reinstate_run(f, reinstate_step(f, r), (k - 1) as nat)
    }
}

/// The next point to reinstate is one of the set.
proof fn lemma_least_positive(score: Seq<F64>, k: nat)
    ensures
        least_positive(score, k) matches Some(b) ==> 0 <= b < k,
    decreases k,
{
    if k > 0 {
        lemma_least_positive(score, (k - 1) as nat);
    }
}

/// An attempt to reinstate an original point leaves the best point alone.
proof fn lemma_attempt_keeps_best(f: Frame, r: Reinstating)
    requires
        0 <= f.kopt < f.xpt.len(),
        r.ids.len() == f.xpt.len(),
        r.score.len() == f.xpt.len(),
        r.ids[f.kopt] is None,
    ensures
        reinstate_step(f, r).ids.len() == f.xpt.len(),
        reinstate_step(f, r).score.len() == f.xpt.len(),
        reinstate_step(f, r).ids[f.kopt] is None,
{
    let npt = f.xpt.len();
    if !(all_at_most(r.score, zero()) || r.nprov <= 1) {
        let korig = next_original(r.score);
        lemma_least_positive(r.score, npt);
        let vlag = reinstating_vlag(f, r, korig);
        let beta = reinstating_beta(f, r, korig);
        let den = reinstating_den(f, r, vlag, beta);
        let sq = squares(vlag, npt);
        let v = twentieth() * max_from(zero(), sq, npt);
        if abs_sum(vlag).finite() && any_above(den, v) {
            let i = choose|i: int| 0 <= i < den.len() && #[trigger] den[i] > v;
            lemma_first_real_max_above(den, npt, v, i);
            lemma_max_sign(zero(), sq, npt);
            lemma_product_sign(twentieth(), max_from(zero(), sq, npt));
            reveal(below);
            assert(den[f.kopt] == zero());
        }
    }
}

/// While original points are reinstated, the best point never becomes a provisional one.
pub proof fn lemma_reinstate_keeps_best(f: Frame, r: Reinstating, k: nat)
    requires
        0 <= f.kopt < f.xpt.len(),
        r.ids.len() == f.xpt.len(),
        r.score.len() == f.xpt.len(),
        r.ids[f.kopt] is None,
    ensures
        reinstate_run(f, r, k).ids.len() == f.xpt.len(),
        reinstate_run(f, r, k).ids[f.kopt] is None,
    decreases k,
{
    if k > 0 && !r.ended {
        lemma_attempt_keeps_best(f, r);
        lemma_reinstate_keeps_best(f, reinstate_step(f, r), (k - 1) as nat);
    }
}

/// The distances of the points from the best one.
pub open spec fn start_scores(xpt: Seq<Seq<F64>>, kopt: int) -> Seq<F64> {
    Seq::new(
        xpt.len(),
        |k: int|
            if k == kopt {
                zero()
            } else {
                root_of(dot(xpt[k], xpt[k]))
            },
    )
}

/// The directions of the provisional points, with the best point in its place.
pub open spec fn start_ids(n: nat, npt: nat, kopt: int) -> Seq<Origin> {
    let ids = Seq::new(npt, |k: int| Some(directions_of(n, npt, k)));
    ids.update(0, ids[kopt]).update(kopt, None)
}

/// The state of a rescue while provisional points are evaluated: `kpt` is the next point to
/// look at, `fbase` the value at the base point, which is point `kbase`.
pub struct Rescuing {
    pub m: ModelView,
    pub a1: Seq<F64>,
    pub a2: Seq<F64>,
    pub ids: Seq<Origin>,
    pub kbase: usize,
    pub fbase: F64,
    pub kpt: usize,
}

/// The state after original points have been reinstated.
pub open spec fn rescue_prepared(
    m0: ModelView,
    delta: F64,
    xl: Seq<F64>,
    xu: Seq<F64>,
) -> Rescuing {
    let m = rescue_shifted(m0, xl, xu);
    let n = m.xbase.len();
    let npt = m.xpt.len();
    let kopt = m.kopt as int;
    let a1 = Seq::new(n, |i: int| aux_steps(delta, m.sl[i], m.su[i]).0);
    let a2 = Seq::new(n, |i: int| aux_steps(delta, m.sl[i], m.su[i]).1);
    let h = points_exchanged(provisional_inverse(n, npt, a1, a2), 0, kopt);
    let score = start_scores(m.xpt, kopt);
    let f = Frame { kopt, xpt: m.xpt, a1, a2, scoreinc: max_from(zero(), score, npt) };
    let r = reinstate_run(
        f,
        Reinstating {
            bmat: h.bmat,
            zmat: h.zmat,
            ids: start_ids(n, npt, kopt),
            score,
            nprov: (npt - 1) as usize,
            ended: false,
        },
        npt * npt,
    );
    Rescuing {
        m: ModelView { bmat: r.bmat, zmat: r.zmat, ..m },
        a1,
        a2,
        ids: r.ids,
        kbase: m.kopt,
        fbase: m.fopt(),
        kpt: 0,
    }
}

/// The preparation of a rescue leaves the values and the best point as they are, and the best
/// point is not a provisional one.
pub proof fn lemma_prepared_keeps_best(m0: ModelView, delta: F64, xl: Seq<F64>, xu: Seq<F64>)
    requires
        m0.kopt < m0.xpt.len(),
    ensures
        ({
            let r = rescue_prepared(m0, delta, xl, xu);
            &&& r.m.fval == m0.fval
            &&& r.m.kopt == m0.kopt
            &&& r.ids.len() == m0.xpt.len()
            &&& r.ids[m0.kopt as int] is None
        }),
{
    let m = rescue_shifted(m0, xl, xu);
    let n = m.xbase.len();
    let npt = m.xpt.len();
    let kopt = m.kopt as int;
    let a1 = Seq::new(n, |i: int| aux_steps(delta, m.sl[i], m.su[i]).0);
    let a2 = Seq::new(n, |i: int| aux_steps(delta, m.sl[i], m.su[i]).1);
    let h = points_exchanged(provisional_inverse(n, npt, a1, a2), 0, kopt);
    let score = start_scores(m.xpt, kopt);
    lemma_reinstate_keeps_best(
        Frame { kopt, xpt: m.xpt, a1, a2, scoreinc: max_from(zero(), score, npt) },
        Reinstating {
            bmat: h.bmat,
            zmat: h.zmat,
            ids: start_ids(n, npt, kopt),
            score,
            nprov: (npt - 1) as usize,
            ended: false,
        },
        npt * npt,
    );
}

/// The provisional point with the given directions.
pub open spec fn provisional_point(id: (usize, usize), a1: Seq<F64>, a2: Seq<F64>) -> Seq<F64> {
    Seq::new(
        a1.len(),
        |i: int|
            if id.1 > 0 && i == id.1 - 1 {
                if id.0 > 0 {
                    a1[i]
                } else {
                    a2[i]
                }
            } else if id.0 > 0 && i == id.0 - 1 {
                a1[i]
            } else {
                zero()
            },
    )
}

/// The implicit part of the model at point `k` is taken into the explicit Hessian.
pub open spec fn absorbed(m: ModelView, k: int) -> ModelView {
    ModelView {
        hq: rank_one(m.hq, m.pq[k], m.xpt[k]),
        pq: m.pq.update(k, zero()),
        ..m
    }
}

/// The provisional point is not worth an evaluation: it is near the original one, or not finite.
pub open spec fn not_worth(x: Seq<F64>, old_x: Seq<F64>, delta: F64) -> bool {
    abs_sum(minus(x, old_x)) <= near_floor() * delta || !abs_sum(x).finite()
}

/// The state at the next provisional point to evaluate, which is point `kpt`, or at the end.
pub open spec fn refill_sought(r: Rescuing, delta: F64) -> Rescuing
    decreases r.ids.len() - r.kpt,
{
    if r.kpt >= r.ids.len() || r.kpt >= usize::MAX {
        r
    } else {
        let k = r.kpt as int;
        let next = (r.kpt + 1) as usize;
        match r.ids[k] {
            None => refill_sought(Rescuing { kpt: next, ..r }, delta),
            Some(id) => {
                let m = absorbed(r.m, k);
                let x = provisional_point(id, r.a1, r.a2);
                if not_worth(x, m.xpt[k], delta) {
                    refill_sought(Rescuing { m, kpt: next, ..r }, delta)
                } else {
                    Rescuing { m: ModelView { xpt: m.xpt.update(k, x), ..m }, ..r }
                }
            },
        }
    }
}

/// The search for the next provisional point goes forward, and ends at one or at the end.
pub proof fn lemma_refill_advances(r: Rescuing, delta: F64)
    ensures
        ({
            let r1 = refill_sought(r, delta);
            &&& r1.ids == r.ids
            &&& r1.kpt >= r.kpt
            &&& r1.kpt < r.ids.len() && r1.kpt < usize::MAX ==> r.ids[r1.kpt as int] is Some
        }),
    decreases r.ids.len() - r.kpt,
{
    if !(r.kpt >= r.ids.len() || r.kpt >= usize::MAX) {
        let k = r.kpt as int;
        let next = (r.kpt + 1) as usize;
        match r.ids[k] {
            None => {
                lemma_refill_advances(Rescuing { kpt: next, ..r }, delta);
            },
            Some(id) => {
                let m = absorbed(r.m, k);
                if not_worth(provisional_point(id, r.a1, r.a2), m.xpt[k], delta) {
                    lemma_refill_advances(Rescuing { m, kpt: next, ..r }, delta);
                }
            },
        }
    }
}

/// The products of the provisional point with the points.
pub open spec fn refill_products(
    id: (usize, usize),
    xpt: Seq<Seq<F64>>,
    a1: Seq<F64>,
    a2: Seq<F64>,
) -> Seq<F64> {
    let ip = id.0 - 1;
    let iq = id.1 - 1;
    Seq::new(
        xpt.len(),
        |k: int|
            if id.0 > 0 && id.1 > 0 {
                a1[ip] * xpt[k][ip] + a1[iq] * xpt[k][iq]
            } else if id.0 > 0 {
                a1[ip] * xpt[k][ip]
            } else if id.1 > 0 {
                a2[iq] * xpt[k][iq]
            } else {
                zero()
            },
    )
}

/// The change of the explicit model along direction `i` by the step `x`.
pub open spec fn explicit_change(m: ModelView, i: int, x: F64) -> F64 {
    x * (m.gopt[i] + half() * x * m.hq[i][i])
}

/// The model at the provisional point.
pub open spec fn refill_model_value(r: Rescuing, id: (usize, usize)) -> F64 {
    let ip = id.0 - 1;
    let iq = id.1 - 1;
    let v = if id.0 > 0 && id.1 > 0 {
        r.fbase + explicit_change(r.m, ip, r.a1[ip]) + explicit_change(r.m, iq, r.a1[iq])
            + r.a1[ip] * r.a1[iq] * r.m.hq[iq][ip]
    } else if id.0 > 0 {
        r.fbase + explicit_change(r.m, ip, r.a1[ip])
    } else if id.1 > 0 {
        r.fbase + explicit_change(r.m, iq, r.a2[iq])
    } else {
        r.fbase
    };
    let p = refill_products(id, r.m.xpt, r.a1, r.a2);
    v + half() * dot(p, products(r.m.pq, p))
}

/// The explicit Hessian with `c` times the square of one provisional point added.
pub open spec fn hessian_raised(
    h: Seq<Seq<F64>>,
    id: (usize, usize),
    c: F64,
    a1: Seq<F64>,
    a2: Seq<F64>,
) -> Seq<Seq<F64>> {
    let ip = id.0 - 1;
    let iq = id.1 - 1;
    if id.0 > 0 && id.1 > 0 {
        let h1 = with_entry(h, ip, ip, h[ip][ip] + c * (a1[ip] * a1[ip]));
        let h2 = with_entry(h1, iq, iq, h1[iq][iq] + c * (a1[iq] * a1[iq]));
        let v = h2[iq][ip] + c * a1[ip] * a1[iq];
        with_entry(with_entry(h2, ip, iq, v), iq, ip, v)
    } else if id.0 > 0 {
        with_entry(h, ip, ip, h[ip][ip] + c * (a1[ip] * a1[ip]))
    } else if id.1 > 0 {
        with_entry(h, iq, iq, h[iq][iq] + c * (a2[iq] * a2[iq]))
    } else {
        h
    }
}

/// The explicit Hessian with the increments of the first `k` points, as far as these are
/// provisional.
pub open spec fn hessian_refilled(
    h: Seq<Seq<F64>>,
    ids: Seq<Origin>,
    inc: Seq<F64>,
    a1: Seq<F64>,
    a2: Seq<F64>,
    k: nat,
) -> Seq<Seq<F64>>
    decreases k,
{
    if k == 0 {
        h
    } else {
        let g = hessian_refilled(h, ids, inc, a1, a2, (k - 1) as nat);
        match ids[k - 1] {
            None => g,
            Some(id) => hessian_raised(g, id, inc[k - 1], a1, a2),
        }
    }
}

/// The value `f` at the provisional point `kpt` is taken into the set.
pub open spec fn refill_valued(r: Rescuing, f: F64) -> Rescuing {
    let fval = r.m.fval.update(r.kpt as int, f);
    Rescuing {
        m: ModelView {
            fval,
            kopt: if f < fval[r.m.kopt as int] {
                r.kpt
            } else {
                r.m.kopt
            },
            ..r.m
        },
        ..r
    }
}

/// The model is made to interpolate the value `f` at the provisional point `kpt`, which becomes
/// an original one.
pub open spec fn refill_updated(r: Rescuing, f: F64) -> Rescuing {
    let k = r.kpt as int;
    match r.ids[k] {
        None => r,
        Some(id) => {
            let m = r.m;
            let moderr = f - refill_model_value(r, id);
            let inc = pq_increments(m.zmat, k, m.pq.len(), moderr);
            Rescuing {
                m: ModelView {
                    gopt: Seq::new(m.gopt.len(), |i: int| m.gopt[i] + moderr * m.bmat[k][i]),
                    pq: Seq::new(
                        m.pq.len(),
                        |j: int|
                            if r.ids[j] is None {
                                m.pq[j] + inc[j]
                            } else {
                                m.pq[j]
                            },
                    ),
                    hq: hessian_refilled(m.hq, r.ids, inc, r.a1, r.a2, m.pq.len()),
                    ..m
                },
                ids: r.ids.update(k, None),
                kpt: (r.kpt + 1) as usize,
                ..r
            }
        },
    }
}

/// The gradient is taken to the best point, if that has changed.
pub open spec fn rescue_finished(r: Rescuing) -> ModelView {
    if r.m.kopt != r.kbase {
        ModelView {
            gopt: plus(r.m.gopt, hessian_mul(r.m.xopt(), r.m.xpt, r.m.pq, r.m.hq)),
            ..r.m
        }
    } else {
        r.m
    }
}

/// The directions of the provisional points are those of variables.
pub open spec fn ids_valid(ids: Seq<Origin>, n: nat) -> bool {
    forall|k: int|
        0 <= k < ids.len() ==> (#[trigger] ids[k] matches Some(id) ==> id.0 <= n && id.1 <= n)
}

/// Scratch space of the update of `H` in a rescue.
#[derive(Debug, Clone)]
pub struct UpdatehRscWs {
    /// Lagrange values.
    pub vlag: Vec<F64>,
    /// A column of `H`.
    pub hcol: Vec<F64>,
    /// The first vector of the update of `bmat`.
    pub v1: Vec<F64>,
    /// The second vector of the update of `bmat`.
    pub v2: Vec<F64>,
}

/// The state and the scratch space of a rescue.
#[derive(Debug, Clone)]
pub struct RescueWs {
    /// The first steps on the coordinate directions.
    pub a1: Vec<F64>,
    /// The second steps on the coordinate directions.
    pub a2: Vec<F64>,
    /// The directions of the provisional points.
    pub ids: Vec<Origin>,
    /// The best point before the provisional points are evaluated.
    pub kbase: usize,
    /// The value there.
    pub fbase: F64,
    /// The next point to look at.
    pub kpt: usize,
    /// The pairs of variables.
    pub ij: Vec<(usize, usize)>,
    /// The best point.
    pub xopt: Vec<F64>,
    /// A vector of the length of a point.
    pub v: Vec<F64>,
    /// Scores.
    pub score: Vec<F64>,
    /// Lagrange values.
    pub vlag: Vec<F64>,
    /// The vector `w - v`.
    pub wmv: Vec<F64>,
    /// Its leading part.
    pub whead: Vec<F64>,
    /// The product of that with `zmat`.
    pub wmvz: Vec<F64>,
    /// A term of beta.
    pub t: Vec<F64>,
    /// Denominators.
    pub den: Vec<F64>,
    /// A provisional point.
    pub xnew: Vec<F64>,
    /// Products with the interpolation points.
    pub xxpt: Vec<F64>,
    /// Products of those with the implicit coefficients.
    pub pqxxpt: Vec<F64>,
    /// A row of `zmat`.
    pub zrow: Vec<F64>,
    /// Increments of the implicit coefficients.
    pub pqinc: Vec<F64>,
    /// Scratch space of the update of `H`.
    pub rsc: UpdatehRscWs,
}

impl RescueWs {
    /// The buffers have the lengths for `n` variables and `npt` points, and the directions are
    /// those of variables.
    pub open spec fn fits(&self, n: nat, npt: nat) -> bool {
        &&& self.a1@.len() == n
        &&& self.a2@.len() == n
        &&& self.ids@.len() == npt
        &&& ids_valid(self.ids@, n)
        &&& self.xopt@.len() == n
        &&& self.v@.len() == n
        &&& self.score@.len() == npt
        &&& self.vlag@.len() == npt + n
        &&& self.wmv@.len() == npt + n
        &&& self.whead@.len() == npt
        &&& self.wmvz@.len() + n + 1 == npt
        &&& self.t@.len() == n
        &&& self.den@.len() == npt
        &&& self.xnew@.len() == n
        &&& self.xxpt@.len() == npt
        &&& self.pqxxpt@.len() == npt
        &&& self.zrow@.len() + n + 1 == npt
        &&& self.pqinc@.len() == npt
        &&& self.rsc.fits(n, npt)
    }

    /// Space for `n` variables and `npt` points.
    pub fn new(n: usize, npt: usize) -> (r: RescueWs)
        requires
            npt >= n + 2,
            npt + n <= usize::MAX,
        ensures
            r.fits(n as nat, npt as nat),
    {
        let mut ids: Vec<Origin> = Vec::with_capacity(npt);
        for k in 0..npt
            invariant
                ids@.len() == k,
                forall|j: int| 0 <= j < k ==> #[trigger] ids@[j] is None,
        {
            ids.push(None);
        }
        RescueWs {
            a1: zeros(n),
            a2: zeros(n),
            ids,
            kbase: 0,
            fbase: zero(),
            kpt: 0,
            ij: Vec::with_capacity(npt - n - 1),
            xopt: zeros(n),
            v: zeros(n),
            score: zeros(npt),
            vlag: zeros(npt + n),
            wmv: zeros(npt + n),
            whead: zeros(npt),
            wmvz: zeros(npt - n - 1),
            t: zeros(n),
            den: zeros(npt),
            xnew: zeros(n),
            xxpt: zeros(npt),
            pqxxpt: zeros(npt),
            zrow: zeros(npt - n - 1),
            pqinc: zeros(npt),
            rsc: UpdatehRscWs {
                vlag: zeros(npt + n),
                hcol: zeros(npt + n),
                v1: zeros(n),
                v2: zeros(n),
            },
        }
    }
}

impl UpdatehRscWs {
    /// The buffers have the lengths for `n` variables and `npt` points.
    pub open spec fn fits(&self, n: nat, npt: nat) -> bool {
        &&& self.vlag@.len() == npt + n
        &&& self.hcol@.len() == npt + n
        &&& self.v1@.len() == n
        &&& self.v2@.len() == n
    }
}

/// The state of a rescue.
pub open spec fn rescuing_in(m: ModelView, ws: RescueWs) -> Rescuing {
    Rescuing {
        m,
        a1: ws.a1@,
        a2: ws.a2@,
        ids: ws.ids@,
        kbase: ws.kbase,
        fbase: ws.fbase,
        kpt: ws.kpt,
    }
}

/// Takes the points relative to the best one.
pub fn recentre(xpt: &mut Mat, kopt: usize, xopt: &[F64])
    requires
        old(xpt).is(xopt@.len(), old(xpt)@.len()),
        kopt < old(xpt)@.len(),
        xopt@ == old(xpt)@[kopt as int],
    ensures
        final(xpt)@ == recentred(old(xpt)@, kopt as int),
        final(xpt).is(xopt@.len(), old(xpt)@.len()),
{
    let npt: usize = xpt.ncols();
    let ghost x0: Seq<Seq<F64>> = xpt@;
    let ghost goal: Seq<Seq<F64>> = recentred(x0, kopt as int);
    for k in 0..npt
        invariant
            npt == x0.len(),
            kopt < npt,
            xpt.is(xopt@.len(), npt as nat),
            xopt@ == x0[kopt as int],
            shaped(x0, xopt@.len(), npt as nat),
            goal == recentred(x0, kopt as int),
            forall|c: int| 0 <= c < k ==> #[trigger] xpt@[c] == goal[c],
            forall|c: int| k <= c < npt ==> #[trigger] xpt@[c] == x0[c],
    {
        let ghost now: Seq<Seq<F64>> = xpt@;
        assert(now[k as int].len() == xopt@.len());
        if k == kopt {
            xpt.fill_col(k, zero());
        } else {
            deduct(&mut xpt.cols[k], xopt);
        }
        assert(xpt@ =~= now.update(k as int, goal[k as int]));
    }
    assert(xpt@ =~= goal);
}

/// Moves the base point to the best point.
fn shift_to_best(m: &mut Model, xl: &[F64], xu: &[F64], ws: &mut RescueWs)
    requires
        old(m).fits(xl@.len(), old(m)@.xpt.len()),
        xu@.len() == xl@.len(),
        old(ws).fits(xl@.len(), old(m)@.xpt.len()),
    ensures
        final(m)@ == rescue_shifted(old(m)@, xl@, xu@),
        final(m).fits(xl@.len(), old(m)@.xpt.len()),
        final(ws).fits(xl@.len(), old(m)@.xpt.len()),
{
    let n: usize = xl.len();
    let ghost m0: ModelView = m@;
    let ghost npt: nat = m0.xpt.len();
    let ghost goal: ModelView = rescue_shifted(m0, xl@, xu@);
    assert(m0.xpt[m0.kopt as int].len() == n);
    copy(&mut ws.xopt, m.xpt.col(m.kopt));
    for i in 0..n
        invariant
            n == xl@.len(),
            n == xu@.len(),
            m.fits(n as nat, npt),
            ws.fits(n as nat, npt),
            ws.xopt@ == m0.xopt(),
            m0.fits(n as nat, npt),
            m0.xopt().len() == n,
            goal == rescue_shifted(m0, xl@, xu@),
            m@ == (ModelView { sl: m.sl@, su: m.su@, xbase: m.xbase@, ..m0 }),
            forall|j: int|
                0 <= j < i ==> m.sl@[j] == goal.sl[j] && m.su@[j] == goal.su[j] && m.xbase@[j]
                    == goal.xbase[j],
            forall|j: int|
                i <= j < n ==> m.sl@[j] == m0.sl[j] && m.su@[j] == m0.su[j] && m.xbase@[j]
                    == m0.xbase[j],
    {
        m.sl[i] = (m.sl[i] - ws.xopt[i]).min(zero());
        m.su[i] = (m.su[i] - ws.xopt[i]).max(zero());
        m.xbase[i] = xl[i].max(m.xbase[i] + ws.xopt[i]).min(xu[i]);
    }
    assert(m.sl@ =~= goal.sl);
    assert(m.su@ =~= goal.su);
    assert(m.xbase@ =~= goal.xbase);
    let kopt: usize = m.kopt;
    recentre(&mut m.xpt, kopt, &ws.xopt);
    let halfsum: F64 = half() * sum(&m.pq);
    let ghost sv: Seq<F64> = shift_vector(goal.xpt, m0.pq, m0.xopt());
    for i in 0..n
        invariant
            n == m0.xopt().len(),
            ws.fits(n as nat, npt),
            ws.xopt@ == m0.xopt(),
            m.xpt.is(n as nat, npt),
            m.xpt@ == goal.xpt,
            m.pq@ == m0.pq,
            m0.pq.len() == npt,
            halfsum == half() * total(m0.pq),
            sv == shift_vector(goal.xpt, m0.pq, m0.xopt()),
            forall|j: int| 0 <= j < i ==> ws.v@[j] == sv[j],
    {
        ws.v[i] = row_inprod_from(zero(), &m.xpt, i, &m.pq) + halfsum * ws.xopt[i];
    }
    assert(ws.v@ =~= sv);
    r2update(&mut m.hq, one(), &ws.xopt, &ws.v);
    assert(m@ == goal);
}

/// Writes the steps to the provisional points on the coordinate directions.
fn aux_into(delta: F64, sl: &[F64], su: &[F64], a1: &mut Vec<F64>, a2: &mut Vec<F64>)
    requires
        su@.len() == sl@.len(),
        old(a1)@.len() == sl@.len(),
        old(a2)@.len() == sl@.len(),
    ensures
        final(a1)@ == Seq::new(sl@.len(), |i: int| aux_steps(delta, sl@[i], su@[i]).0),
        final(a2)@ == Seq::new(sl@.len(), |i: int| aux_steps(delta, sl@[i], su@[i]).1),
{
    for i in 0..sl.len()
        invariant
            su@.len() == sl@.len(),
            a1@.len() == sl@.len(),
            a2@.len() == sl@.len(),
            forall|j: int|
                0 <= j < i ==> a1@[j] == aux_steps(delta, sl@[j], su@[j]).0 && a2@[j] == aux_steps(
                    delta,
                    sl@[j],
                    su@[j],
                ).1,
    {
        let mut p: F64 = delta.min(su[i]);
        let mut q: F64 = delta.negated().max(sl[i]);
        if (p + q).lt(zero()) {
            let t: F64 = p;
            p = q;
            q = t;
        }
        if q.abs().lt(half() * p.abs()) {
            q = half() * p;
        }
        a1[i] = p;
        a2[i] = q;
    }
    assert(a1@ =~= Seq::new(sl@.len(), |i: int| aux_steps(delta, sl@[i], su@[i]).0));
    assert(a2@ =~= Seq::new(sl@.len(), |i: int| aux_steps(delta, sl@[i], su@[i]).1));
}

/// Row `k` and column `j` of `bmat` for the provisional points.
fn provisional_bmat_entry(
    n: usize,
    npt: usize,
    two_points: bool,
    p: F64,
    q: F64,
    k: usize,
    j: usize,
) -> (r: F64)
    requires
        npt + n <= usize::MAX,
        npt >= n + 2,
        k < n,
        two_points == (k < diag_count(n as nat, npt as nat)),
        2 * n + 1 <= usize::MAX,
    ensures
        forall|a1: Seq<F64>, a2: Seq<F64>|
            a1[k as int] == p && a2[k as int] == q ==> r == #[trigger] provisional_bmat(
                n as nat,
                npt as nat,
                a1,
                a2,
                k as int,
                j as int,
            ),
{
    if two_points {
        let temp: F64 = one() / (p - q);
        let first: F64 = temp.negated() + one() / p;
        let second: F64 = temp + one() / q;
        if j == 0 {
            first.negated() - second
        } else if j == k + 1 {
            first
        } else if j == k + n + 1 {
            second
        } else {
            zero()
        }
    } else {
        if j == 0 {
            minus_one() / p
        } else if j == k + 1 {
            one() / p
        } else if j == k + npt {
            half().negated() * p * p
        } else {
            zero()
        }
    }
}

/// Row `r` and column `k` of `zmat` for the provisional points.
fn provisional_zmat_entry(
    n: usize,
    npt: usize,
    a1: &[F64],
    a2: &[F64],
    ij: &[(usize, usize)],
    r: usize,
    k: usize,
) -> (v: F64)
    requires
        n > 0,
        npt + n <= usize::MAX,
        npt >= n + 2,
        2 * n + 1 <= usize::MAX,
        a1@.len() == n,
        a2@.len() == n,
        ij@ == pairs_of(n as nat, npt as nat),
        k < npt - n - 1,
        r < npt,
    ensures
        v == provisional_zmat(n as nat, npt as nat, a1@, a2@, r as int, k as int),
{
    let ndiag: usize = if npt < 2 * n + 1 {
        npt - n - 1
    } else {
        n
    };
    if k < ndiag {
        let p: F64 = a1[k];
        let q: F64 = a2[k];
        let temp: F64 = one() / (p - q);
        let z: F64 = two().sqrt() / (p * q).abs();
        if r == 0 {
            z
        } else if r == k + 1 {
            z * q * temp
        } else if r == k + n + 1 {
            z.negated() * p * temp
        } else {
            zero()
        }
    } else {
        proof {
            lemma_pairs(n as nat, npt as nat, k - n);
        }
        let (i, j): (usize, usize) = ij[k - n];
        let temp: F64 = one() / (a1[i] * a1[j]);
        if r == i + 1 || r == j + 1 {
            temp.negated()
        } else if r == 0 || r == k + n + 1 {
            temp
        } else {
            zero()
        }
    }
}

/// Sets the inverse interpolation matrix for the provisional points.
fn set_provisional(
    n: usize,
    npt: usize,
    a1: &[F64],
    a2: &[F64],
    ij: &[(usize, usize)],
    bmat: &mut Mat,
    zmat: &mut Mat,
)
    requires
        n > 0,
        npt + n <= usize::MAX,
        npt >= n + 2,
        2 * n + 1 <= usize::MAX,
        a1@.len() == n,
        a2@.len() == n,
        ij@ == pairs_of(n as nat, npt as nat),
        old(bmat).is(n as nat, (npt + n) as nat),
        old(zmat).is(npt as nat, (npt - n - 1) as nat),
    ensures
        (Inverse { bmat: final(bmat)@, zmat: final(zmat)@ }) == provisional_inverse(
            n as nat,
            npt as nat,
            a1@,
            a2@,
        ),
        final(bmat).is(n as nat, (npt + n) as nat),
        final(zmat).is(npt as nat, (npt - n - 1) as nat),
{
    let ndiag: usize = if npt < 2 * n + 1 {
        npt - n - 1
    } else {
        n
    };
    let ghost h: Inverse = provisional_inverse(n as nat, npt as nat, a1@, a2@);
    for j in 0..(npt + n)
        invariant
            npt + n <= usize::MAX,
            npt >= n + 2,
            2 * n + 1 <= usize::MAX,
            ndiag == diag_count(n as nat, npt as nat),
            a1@.len() == n,
            a2@.len() == n,
            h == provisional_inverse(n as nat, npt as nat, a1@, a2@),
            bmat.is(n as nat, (npt + n) as nat),
            forall|c: int| 0 <= c < j ==> #[trigger] bmat@[c] == h.bmat[c],
    {
        for k in 0..n
            invariant
                j < npt + n,
                npt + n <= usize::MAX,
                npt >= n + 2,
                2 * n + 1 <= usize::MAX,
                ndiag == diag_count(n as nat, npt as nat),
                a1@.len() == n,
                a2@.len() == n,
                h == provisional_inverse(n as nat, npt as nat, a1@, a2@),
                bmat.is(n as nat, (npt + n) as nat),
                forall|c: int| 0 <= c < j ==> #[trigger] bmat@[c] == h.bmat[c],
                forall|r: int| 0 <= r < k ==> bmat@[j as int][r] == h.bmat[j as int][r],
        {
            assert(bmat@[j as int].len() == n);
            let v: F64 = provisional_bmat_entry(n, npt, k < ndiag, a1[k], a2[k], k, j);
            assert(v == provisional_bmat(n as nat, npt as nat, a1@, a2@, k as int, j as int));
            bmat.set(k, j, v);
        }
        assert(bmat@[j as int].len() == n);
        assert(bmat@[j as int] =~= h.bmat[j as int]);
    }
    assert(bmat@ =~= h.bmat);
    for k in 0..(npt - n - 1)
        invariant
            n > 0,
            npt + n <= usize::MAX,
            npt >= n + 2,
            2 * n + 1 <= usize::MAX,
            a1@.len() == n,
            a2@.len() == n,
            ij@ == pairs_of(n as nat, npt as nat),
            h == provisional_inverse(n as nat, npt as nat, a1@, a2@),
            zmat.is(npt as nat, (npt - n - 1) as nat),
            forall|c: int| 0 <= c < k ==> #[trigger] zmat@[c] == h.zmat[c],
    {
        for r in 0..npt
            invariant
                n > 0,
                k < npt - n - 1,
                npt + n <= usize::MAX,
                npt >= n + 2,
                2 * n + 1 <= usize::MAX,
                a1@.len() == n,
                a2@.len() == n,
                ij@ == pairs_of(n as nat, npt as nat),
                h == provisional_inverse(n as nat, npt as nat, a1@, a2@),
                zmat.is(npt as nat, (npt - n - 1) as nat),
                forall|c: int| 0 <= c < k ==> #[trigger] zmat@[c] == h.zmat[c],
                forall|i: int| 0 <= i < r ==> zmat@[k as int][i] == h.zmat[k as int][i],
        {
            assert(zmat@[k as int].len() == npt);
            let v: F64 = provisional_zmat_entry(n, npt, a1, a2, ij, r, k);
            zmat.set(r, k, v);
        }
        assert(zmat@[k as int].len() == npt);
        assert(zmat@[k as int] =~= h.zmat[k as int]);
    }
    assert(zmat@ =~= h.zmat);
}

/// Exchanges two rows.
fn swap_rows(m: &mut Mat, a: usize, b: usize)
    requires
        old(m).is(old(m).nrows as nat, old(m)@.len()),
        a < old(m).nrows,
        b < old(m).nrows,
    ensures
        final(m)@ == rows_exchanged(old(m)@, a as int, b as int),
        final(m).is(old(m).nrows as nat, old(m)@.len()),
{
    let nc: usize = m.ncols();
    let ghost m0: Seq<Seq<F64>> = m@;
    let ghost goal: Seq<Seq<F64>> = rows_exchanged(m0, a as int, b as int);
    for j in 0..nc
        invariant
            nc == m0.len(),
            m.is(old(m).nrows as nat, nc as nat),
            a < m.nrows,
            b < m.nrows,
            shaped(m0, m.nrows as nat, nc as nat),
            goal == rows_exchanged(m0, a as int, b as int),
            forall|c: int| 0 <= c < j ==> #[trigger] m@[c] == goal[c],
            forall|c: int| j <= c < nc ==> #[trigger] m@[c] == m0[c],
    {
        assert(m@[j as int] == m0[j as int]);
        assert(m@[j as int].len() == m.nrows);
        let p: F64 = m.get(a, j);
        let q: F64 = m.get(b, j);
        m.set(a, j, q);
        assert(m@[j as int].len() == m.nrows);
        m.set(b, j, p);
        assert(m@[j as int] =~= goal[j as int]);
    }
    assert(m@ =~= goal);
}

/// Sets the directions of the provisional points.
fn set_ids(n: usize, npt: usize, kopt: usize, ij: &[(usize, usize)], ids: &mut Vec<Origin>)
    requires
        n > 0,
        2 * n + 1 <= usize::MAX,
        npt >= n + 2,
        kopt < npt,
        ij@ == pairs_of(n as nat, npt as nat),
        old(ids)@.len() == npt,
    ensures
        final(ids)@ == start_ids(n as nat, npt as nat, kopt as int),
        ids_valid(final(ids)@, n as nat),
{
    let ghost all: Seq<Origin> = Seq::new(
        npt as nat,
        |k: int| Some(directions_of(n as nat, npt as nat, k)),
    );
    for k in 0..npt
        invariant
            n > 0,
            2 * n + 1 <= usize::MAX,
            ij@ == pairs_of(n as nat, npt as nat),
            ids@.len() == npt,
            all == Seq::new(npt as nat, |k: int| Some(directions_of(n as nat, npt as nat, k))),
            forall|j: int| 0 <= j < k ==> #[trigger] ids@[j] == all[j],
            forall|j: int|
                0 <= j < k ==> (#[trigger] ids@[j] matches Some(id) ==> id.0 <= n && id.1 <= n),
    {
        let id: (usize, usize) = if k == 0 {
            (0, 0)
        } else if k <= n {
            (k, 0)
        } else if k <= 2 * n {
            (0, k - n)
        } else {
            proof {
                lemma_pairs(n as nat, npt as nat, k - 2 * n - 1);
            }
            let p: (usize, usize) = ij[k - 2 * n - 1];
            (p.0 + 1, p.1 + 1)
        };
        ids[k] = Some(id);
    }
    assert(ids@ =~= all);
    let first: Origin = ids[kopt];
    ids[0] = first;
    ids[kopt] = None;
    assert(ids@ =~= start_ids(n as nat, npt as nat, kopt as int));
}

/// Writes the distances of the points from the best one, and returns the largest.
fn scores_into(xpt: &Mat, kopt: usize, score: &mut Vec<F64>) -> (r: F64)
    requires
        xpt.is(xpt.nrows as nat, old(score)@.len()),
        kopt < old(score)@.len(),
    ensures
        final(score)@ == start_scores(xpt@, kopt as int),
        r == max_from(zero(), final(score)@, final(score)@.len()),
{
    let npt: usize = score.len();
    let ghost goal: Seq<F64> = start_scores(xpt@, kopt as int);
    let mut largest: F64 = zero();
    for k in 0..npt
        invariant
            score@.len() == npt,
            xpt.is(xpt.nrows as nat, npt as nat),
            goal == start_scores(xpt@, kopt as int),
            largest == max_from(zero(), goal, k as nat),
            forall|j: int| 0 <= j < k ==> score@[j] == goal[j],
    {
        let v: F64 = if k == kopt {
            zero()
        } else {
            inprod(xpt.col(k), xpt.col(k)).sqrt()
        };
        score[k] = v;
        largest = largest.max(v);
    }
    assert(score@ =~= goal);
    largest
}

/// The product of `x` and a provisional point.
fn product_with(id: (usize, usize), x: &[F64], a1: &[F64], a2: &[F64]) -> (r: F64)
    requires
        a1@.len() == x@.len(),
        a2@.len() == x@.len(),
        id.0 <= x@.len(),
        id.1 <= x@.len(),
    ensures
        r == provisional_product(id, x@, a1@, a2@),
{
    if id.0 > 0 && id.1 > 0 {
        x[id.0 - 1] * a1[id.0 - 1] + x[id.1 - 1] * a1[id.1 - 1]
    } else if id.0 > 0 {
        x[id.0 - 1] * a1[id.0 - 1]
    } else if id.1 > 0 {
        x[id.1 - 1] * a2[id.1 - 1]
    } else {
        zero()
    }
}

/// The point to reinstate next.
fn find_original(score: &[F64]) -> (r: usize)
    requires
        score@.len() > 0,
    ensures
        r == next_original(score@),
        r < score@.len(),
{
    let mut best: usize = 0;
    let mut found: bool = false;
    for k in 0..score.len()
        invariant
            best < score@.len(),
            !found ==> best == 0,
            least_positive(score@, k as nat) == (if found {
                Some(best as int)
            } else {
                None
            }),
    {
        if score[k].gt(zero()) && (!found || score[k].lt(score[best])) {
            best = k;
            found = true;
        }
    }
    best
}

/// Updates `H` when point `knew` is replaced, with Lagrange values and beta given.
pub fn updateh_rsc(
    knew: usize,
    beta: F64,
    vlag_in: &[F64],
    bmat: &mut Mat,
    zmat: &mut Mat,
    ws: &mut UpdatehRscWs,
) -> (info: i32)
    requires
        old(zmat).is(old(zmat).nrows as nat, old(zmat)@.len()),
        old(zmat)@.len() > 0,
        old(zmat).nrows + old(bmat).nrows <= usize::MAX,
        old(bmat).is(old(bmat).nrows as nat, (old(zmat).nrows + old(bmat).nrows) as nat),
        knew < old(zmat).nrows,
        vlag_in@.len() == old(zmat).nrows + old(bmat).nrows,
        old(ws).fits(old(bmat).nrows as nat, old(zmat).nrows as nat),
    ensures
        info == rescue_update_info(
            Inverse { bmat: old(bmat)@, zmat: old(zmat)@ },
            knew as int,
            beta,
            vlag_in@,
        ),
        (Inverse { bmat: final(bmat)@, zmat: final(zmat)@ }) == rescue_updated(
            Inverse { bmat: old(bmat)@, zmat: old(zmat)@ },
            knew as int,
            beta,
            vlag_in@,
        ),
        final(zmat).is(old(zmat).nrows as nat, old(zmat)@.len()),
        final(bmat).is(old(bmat).nrows as nat, (old(zmat).nrows + old(bmat).nrows) as nat),
        final(ws).fits(old(bmat).nrows as nat, old(zmat).nrows as nat),
{
    let n: usize = bmat.nrows();
    let npt: usize = zmat.nrows();
    let ghost h: Inverse = Inverse { bmat: bmat@, zmat: zmat@ };
    assert(h.zmat[0].len() == npt);
    assert(h.bmat[0].len() == n && h.bmat[knew as int].len() == n);
    copy(&mut ws.vlag, vlag_in);
    let tau: F64 = ws.vlag[knew];
    let denom: F64 = row_sumsq(zmat, knew) * beta + tau * tau;
    if !((sum_abs(&ws.vlag) + beta.abs()).is_finite() && denom.gt(zero())) {
        return DAMAGING_ROUNDING;
    }
    ws.vlag[knew] = ws.vlag[knew] - one();
    rotate_row(zmat, knew);
    let ghost z: Seq<Seq<F64>> = zmat@;
    assert(z[0].len() == npt);
    let zknew: F64 = zmat.get(knew, 0);
    let ghost hcol: Seq<F64> = Seq::new(npt as nat, |k: int| z[0][knew as int] * z[0][k])
        + h.bmat[knew as int];
    for k in 0..npt
        invariant
            zmat@ == z,
            z.len() > 0,
            z[0].len() == npt,
            zknew == z[0][knew as int],
            ws.fits(n as nat, npt as nat),
            ws.vlag@ == vlag_in@.update(knew as int, tau - one()),
            h.bmat[knew as int].len() == n,
            hcol == Seq::new(npt as nat, |k: int| z[0][knew as int] * z[0][k])
                + h.bmat[knew as int],
            forall|j: int| 0 <= j < k ==> ws.hcol@[j] == hcol[j],
    {
        ws.hcol[k] = zknew * zmat.get(k, 0);
    }
    for i in 0..n
        invariant
            ws.fits(n as nat, npt as nat),
            npt + n <= usize::MAX,
            ws.vlag@ == vlag_in@.update(knew as int, tau - one()),
            bmat@ == h.bmat,
            knew < h.bmat.len(),
            h.bmat[knew as int].len() == n,
            z[0].len() == npt,
            hcol == Seq::new(npt as nat, |k: int| z[0][knew as int] * z[0][k])
                + h.bmat[knew as int],
            forall|j: int| 0 <= j < npt + i ==> ws.hcol@[j] == hcol[j],
    {
        ws.hcol[npt + i] = bmat.get(i, knew);
    }
    assert(ws.hcol@ =~= hcol);
    let r: F64 = denom.sqrt();
    let zk: F64 = zknew / r;
    renew_first_column(zmat, &ws.vlag, tau / r, zk);
    assert(zmat@[0].len() == npt);
    zmat.set(knew, 0, zk);
    assert(zmat@ =~= z.update(
        0,
        first_column(z[0], ws.vlag@, tau / r, zk).update(knew as int, zk),
    ));
    let alpha: F64 = ws.hcol[knew];
    update_vectors_into(
        npt,
        &ws.hcol,
        &ws.vlag,
        alpha,
        beta,
        tau,
        denom,
        &mut ws.v1,
        &mut ws.v2,
    );
    add_outer(bmat, &ws.v1, &ws.vlag, &ws.v2, &ws.hcol);
    mirror_tail(bmat, npt);
    INFO_DFT
}

/// What stays the same while original points are reinstated.
spec fn frame_in(m: ModelView, ws: RescueWs, scoreinc: F64) -> Frame {
    Frame { kopt: m.kopt as int, xpt: m.xpt, a1: ws.a1@, a2: ws.a2@, scoreinc }
}

/// The state while original points are reinstated.
spec fn reinstating_in(m: ModelView, ws: RescueWs, nprov: usize, ended: bool) -> Reinstating {
    Reinstating {
        bmat: m.bmat,
        zmat: m.zmat,
        ids: ws.ids@,
        score: ws.score@,
        nprov,
        ended,
    }
}

/// Writes the vector `w - v` for original point `korig` into `ws.wmv`, and its leading part
/// into `ws.whead`.
fn fill_wmv(korig: usize, m: &Model, ws: &mut RescueWs, f: Ghost<Frame>)
    requires
        m.fits(m.xpt.nrows as nat, m@.xpt.len()),
        korig < m@.xpt.len(),
        old(ws).fits(m.xpt.nrows as nat, m@.xpt.len()),
        f@.kopt == m.kopt,
        f@.xpt == m@.xpt,
        f@.a1 == old(ws).a1@,
        f@.a2 == old(ws).a2@,
    ensures
        final(ws).whead@ == reinstating_w(f@, old(ws).ids@, korig as int),
        final(ws).wmv@ == reinstating_w(f@, old(ws).ids@, korig as int) + m@.xpt[korig as int],
        *final(ws) == (RescueWs { whead: final(ws).whead, wmv: final(ws).wmv, ..*old(ws) }),
{
    let n: usize = m.xpt.nrows();
    let npt: usize = m.xpt.ncols();
    let ghost x: Seq<F64> = m@.xpt[korig as int];
    assert(x.len() == n);
    let ghost w: Seq<F64> = reinstating_w(f@, ws.ids@, korig as int);
    for k in 0..npt
        invariant
            m.fits(n as nat, npt as nat),
            korig < npt,
            f@.kopt == m.kopt,
            f@.xpt == m@.xpt,
            f@.a1 == ws.a1@,
            f@.a2 == ws.a2@,
            x == m@.xpt[korig as int],
            x.len() == n,
            ws.fits(n as nat, npt as nat),
            *ws == (RescueWs { whead: ws.whead, wmv: ws.wmv, ..*old(ws) }),
            w == reinstating_w(f@, ws.ids@, korig as int),
            forall|j: int| 0 <= j < k ==> ws.whead@[j] == w[j] && ws.wmv@[j] == w[j],
    {
        assert(m.xpt@[k as int].len() == n);
        let v: F64 = if k == m.kopt {
            zero()
        } else {
            match ws.ids[k] {
                None => inprod(m.xpt.col(korig), m.xpt.col(k)),
                Some(id) => {
                    assert(ws.ids@[k as int] == Some(id));
                    product_with(id, m.xpt.col(korig), &ws.a1, &ws.a2)
                },
            }
        };
        assert(v == point_product(f@, ws.ids@, korig as int, k as int));
        let u: F64 = half() * v * v;
        ws.whead[k] = u;
        ws.wmv[k] = u;
    }
    assert(ws.whead@ =~= w);
    for i in 0..n
        invariant
            m.fits(n as nat, npt as nat),
            korig < npt,
            npt + n <= usize::MAX,
            x == m@.xpt[korig as int],
            x.len() == n,
            ws.fits(n as nat, npt as nat),
            *ws == (RescueWs { whead: ws.whead, wmv: ws.wmv, ..*old(ws) }),
            w.len() == npt,
            ws.whead@ == w,
            forall|j: int| 0 <= j < npt ==> ws.wmv@[j] == w[j],
            forall|j: int| 0 <= j < i ==> ws.wmv@[npt + j] == x[j],
    {
        ws.wmv[npt + i] = m.xpt.get(i, korig);
    }
    assert(ws.wmv@ =~= w + x);
}

/// Writes the Lagrange values at original point `korig` into `ws.vlag`, and returns beta.
fn lagrange_at(
    korig: usize,
    m: &Model,
    ws: &mut RescueWs,
    f: Ghost<Frame>,
    r: Ghost<Reinstating>,
) -> (beta: F64)
    requires
        m.fits(m.xpt.nrows as nat, m@.xpt.len()),
        korig < m@.xpt.len(),
        old(ws).fits(m.xpt.nrows as nat, m@.xpt.len()),
        f@.kopt == m.kopt,
        f@.xpt == m@.xpt,
        f@.a1 == old(ws).a1@,
        f@.a2 == old(ws).a2@,
        r@.bmat == m@.bmat,
        r@.zmat == m@.zmat,
        r@.ids == old(ws).ids@,
    ensures
        final(ws).vlag@ == reinstating_vlag(f@, r@, korig as int),
        beta == reinstating_beta(f@, r@, korig as int),
        final(ws).fits(m.xpt.nrows as nat, m@.xpt.len()),
        final(ws).a1@ == old(ws).a1@,
        final(ws).a2@ == old(ws).a2@,
        final(ws).ids@ == old(ws).ids@,
        final(ws).score@ == old(ws).score@,
{
    let n: usize = m.xpt.nrows();
    let npt: usize = m.xpt.ncols();
    fill_wmv(korig, m, ws, f);
    let ghost x: Seq<F64> = m@.xpt[korig as int];
    assert(x.len() == n);
    let ghost w: Seq<F64> = reinstating_w(f@, r@.ids, korig as int);
    matprod12_into(&ws.whead, &m.zmat, &mut ws.wmvz);
    let ghost h: Seq<F64> = reinstating_kernel(f@, r@, korig as int);
    for k in 0..npt
        invariant
            m.fits(n as nat, npt as nat),
            korig < npt,
            f@.xpt == m@.xpt,
            r@.bmat == m@.bmat,
            r@.zmat == m@.zmat,
            x == m@.xpt[korig as int],
            x.len() == n,
            w == reinstating_w(f@, r@.ids, korig as int),
            h == reinstating_kernel(f@, r@, korig as int),
            ws.fits(n as nat, npt as nat),
            ws.whead@ == w,
            ws.wmv@ == w + x,
            ws.wmvz@ == vecmat(w, m@.zmat),
            ws.a1@ == old(ws).a1@,
            ws.a2@ == old(ws).a2@,
            ws.ids@ == old(ws).ids@,
            ws.score@ == old(ws).score@,
            forall|j: int| 0 <= j < k ==> ws.vlag@[j] == h[j],
    {
        assert(m.bmat@[k as int].len() == n);
        ws.vlag[k] = row_inprod_from(zero(), &m.zmat, k, &ws.wmvz) + inprod(
            m.xpt.col(korig),
            m.bmat.col(k),
        );
    }
    let ghost t: Seq<F64> = Seq::new(
        n as nat,
        |i: int| dot(row(m@.bmat, i), w) + dot(row(m@.bmat, i), w + x),
    );
    for i in 0..n
        invariant
            m.fits(n as nat, npt as nat),
            npt + n <= usize::MAX,
            korig < npt,
            f@.xpt == m@.xpt,
            r@.bmat == m@.bmat,
            r@.zmat == m@.zmat,
            x == m@.xpt[korig as int],
            x.len() == n,
            w.len() == npt,
            w == reinstating_w(f@, r@.ids, korig as int),
            h == reinstating_kernel(f@, r@, korig as int),
            t == Seq::new(
                n as nat,
                |i: int| dot(row(m@.bmat, i), w) + dot(row(m@.bmat, i), w + x),
            ),
            ws.fits(n as nat, npt as nat),
            ws.whead@ == w,
            ws.wmv@ == w + x,
            ws.wmvz@ == vecmat(w, m@.zmat),
            ws.a1@ == old(ws).a1@,
            ws.a2@ == old(ws).a2@,
            ws.ids@ == old(ws).ids@,
            ws.score@ == old(ws).score@,
            forall|j: int| 0 <= j < npt + i ==> ws.vlag@[j] == h[j],
            forall|j: int| 0 <= j < i ==> ws.t@[j] == t[j],
    {
        let v: F64 = row_inprod_from(zero(), &m.bmat, i, &ws.wmv);
        ws.vlag[npt + i] = v;
        ws.t[i] = row_inprod_from(zero(), &m.bmat, i, &ws.whead) + v;
    }
    assert(ws.vlag@ =~= h);
    assert(ws.t@ =~= t);
    let bsum: F64 = inprod(vstd::slice::slice_subrange(&ws.wmv, 0, n), &ws.t);
    let s: F64 = inprod(m.xpt.col(korig), m.xpt.col(korig));
    let beta: F64 = half() * (s * s) - inprod(&ws.wmvz, &ws.wmvz) - bsum;
    let kopt: usize = m.kopt;
    ws.vlag[kopt] = ws.vlag[kopt] + one();
    assert(ws.vlag@ =~= reinstating_vlag(f@, r@, korig as int));
    beta
}

/// Writes the denominators for replacing the provisional points into `ws.den`, and returns the
/// largest squared Lagrange value.
fn denominators_at(
    beta: F64,
    zmat: &Mat,
    ws: &mut RescueWs,
    n: usize,
    f: Ghost<Frame>,
    r: Ghost<Reinstating>,
) -> (vmax: F64)
    requires
        zmat.is(f@.xpt.len(), zmat@.len()),
        old(ws).fits(n as nat, f@.xpt.len()),
        r@.zmat == zmat@,
        r@.ids == old(ws).ids@,
    ensures
        final(ws).den@ == reinstating_den(f@, r@, old(ws).vlag@, beta),
        vmax == max_from(zero(), squares(old(ws).vlag@, f@.xpt.len()), f@.xpt.len()),
        *final(ws) == (RescueWs { den: final(ws).den, ..*old(ws) }),
{
    let npt: usize = ws.den.len();
    let ghost goal: Seq<F64> = reinstating_den(f@, r@, ws.vlag@, beta);
    let ghost sq: Seq<F64> = squares(ws.vlag@, npt as nat);
    let mut vmax: F64 = zero();
    for k in 0..npt
        invariant
            npt == f@.xpt.len(),
            zmat.is(npt as nat, zmat@.len()),
            ws.fits(n as nat, npt as nat),
            r@.zmat == zmat@,
            r@.ids == ws.ids@,
            *ws == (RescueWs { den: ws.den, ..*old(ws) }),
            goal == reinstating_den(f@, r@, ws.vlag@, beta),
            sq == squares(ws.vlag@, npt as nat),
            vmax == max_from(zero(), sq, k as nat),
            forall|j: int| 0 <= j < k ==> ws.den@[j] == goal[j],
    {
        let v2: F64 = ws.vlag[k] * ws.vlag[k];
        vmax = vmax.max(v2);
        ws.den[k] = if ws.ids[k].is_some() {
            row_sumsq(zmat, k) * beta + v2
        } else {
            zero()
        };
    }
    assert(ws.den@ =~= goal);
    vmax
}

/// The first position of the largest entry that is not NaN, or zero.
fn real_argmax_or_zero(f: &[F64]) -> (r: usize)
    requires
        f@.len() > 0,
    ensures
        r < f@.len(),
        r == (match first_real_max(f@, f@.len()) {
            Some(k) => k,
            None => 0,
        }),
{
    let mut best: usize = 0;
    let mut found: bool = false;
    for k in 0..f.len()
        invariant
            best < f@.len(),
            !found ==> best == 0,
            first_real_max(f@, k as nat) == (if found {
                Some(best as int)
            } else {
                None
            }),
    {
        if !f[k].is_nan() && (!found || f[k].gt(f[best])) {
            best = k;
            found = true;
        }
    }
    best
}

/// Replaces the entries by their absolute values.
fn take_magnitudes(x: &mut Vec<F64>)
    ensures
        final(x)@ == magnitudes(old(x)@),
{
    let n: usize = x.len();
    for i in 0..n
        invariant
            x@.len() == n,
            n == old(x)@.len(),
            forall|j: int| 0 <= j < i ==> x@[j] == magnitude_of(old(x)@[j]),
            forall|j: int| i <= j < n ==> x@[j] == old(x)@[j],
    {
        x[i] = x[i].abs();
    }
    assert(x@ =~= magnitudes(old(x)@));
}

/// One attempt to reinstate an original point; tells whether the attempts are over.
fn reinstate(m: &mut Model, ws: &mut RescueWs, scoreinc: F64, nprov: &mut usize) -> (ended: bool)
    requires
        old(m).fits(old(m).xpt.nrows as nat, old(m)@.xpt.len()),
        old(ws).fits(old(m).xpt.nrows as nat, old(m)@.xpt.len()),
    ensures
        reinstating_in(final(m)@, *final(ws), *final(nprov), ended) == reinstate_step(
            frame_in(old(m)@, *old(ws), scoreinc),
            reinstating_in(old(m)@, *old(ws), *old(nprov), false),
        ),
        final(m)@ == (ModelView { bmat: final(m)@.bmat, zmat: final(m)@.zmat, ..old(m)@ }),
        final(m).fits(old(m).xpt.nrows as nat, old(m)@.xpt.len()),
        final(ws).fits(old(m).xpt.nrows as nat, old(m)@.xpt.len()),
        final(ws).a1@ == old(ws).a1@,
        final(ws).a2@ == old(ws).a2@,
{
    let n: usize = m.xpt.nrows();
    let npt: usize = m.xpt.ncols();
    let ghost f: Frame = frame_in(m@, *ws, scoreinc);
    let ghost r: Reinstating = reinstating_in(m@, *ws, *nprov, false);
    if is_all_at_most(&ws.score, zero()) || *nprov <= 1 {
        return true;
    }
    let korig: usize = find_original(&ws.score);
    let beta: F64 = lagrange_at(korig, m, ws, Ghost(f), Ghost(r));
    let vmax: F64 = denominators_at(beta, &m.zmat, ws, n, Ghost(f), Ghost(r));
    if !(sum_abs(&ws.vlag).is_finite() && has_above(&ws.den, twentieth() * vmax)) {
        ws.score[korig] = ws.score[korig].negated() - scoreinc;
        return false;
    }
    let kprov: usize = real_argmax_or_zero(&ws.den);
    if kprov != korig {
        swap_cols(&mut m.bmat, kprov, korig);
        swap_rows(&mut m.zmat, kprov, korig);
        let p: F64 = ws.vlag[kprov];
        let q: F64 = ws.vlag[korig];
        ws.vlag[kprov] = q;
        ws.vlag[korig] = p;
    }
    let id: Origin = ws.ids[korig];
    assert(ws.ids@[korig as int] == id);
    ws.ids[kprov] = id;
    ws.ids[korig] = None;
    ws.score[korig] = zero();
    take_magnitudes(&mut ws.score);
    let _info: i32 = updateh_rsc(korig, beta, &ws.vlag, &mut m.bmat, &mut m.zmat, &mut ws.rsc);
    *nprov = *nprov - 1;
    false
}

/// Replaces the points by provisional ones and reinstates as many of the original ones as
/// possible; with no evaluation left, nothing but the inverse interpolation matrix changes,
/// which becomes zero, and the exit code tells.
pub fn rescue_begin(
    maxfun: usize,
    nf: usize,
    delta: F64,
    xl: &[F64],
    xu: &[F64],
    m: &mut Model,
    ws: &mut RescueWs,
) -> (info: i32)
    requires
        old(m).fits(xl@.len(), old(m)@.xpt.len()),
        xu@.len() == xl@.len(),
        old(ws).fits(xl@.len(), old(m)@.xpt.len()),
    ensures
        final(m).fits(xl@.len(), old(m)@.xpt.len()),
        final(ws).fits(xl@.len(), old(m)@.xpt.len()),
        info == (if nf >= maxfun {
            MAXFUN_REACHED
        } else {
            INFO_DFT
        }),
        nf >= maxfun ==> final(m)@ == (ModelView {
            bmat: constant_mat(xl@.len(), old(m)@.bmat.len(), zero()),
            zmat: constant_mat(old(m)@.xpt.len(), old(m)@.zmat.len(), zero()),
            ..old(m)@
        }),
        nf < maxfun ==> rescuing_in(final(m)@, *final(ws)) == rescue_prepared(
            old(m)@,
            delta,
            xl@,
            xu@,
        ),
{
    let n: usize = xl.len();
    let npt: usize = m.xpt.ncols();
    if nf >= maxfun {
        assert(m.bmat.is(n as nat, (npt + n) as nat));
        m.bmat.fill(zero());
        assert(m.zmat.is(npt as nat, (npt - n - 1) as nat));
        m.zmat.fill(zero());
        assert(m.bmat.is(n as nat, (npt + n) as nat));
        assert(m.zmat.is(npt as nat, (npt - n - 1) as nat));
        return MAXFUN_REACHED;
    }
    shift_to_best(m, xl, xu, ws);
    let ghost m1: ModelView = m@;
    aux_into(delta, &m.sl, &m.su, &mut ws.a1, &mut ws.a2);
    setij_into(n, npt, &mut ws.ij);
    set_provisional(n, npt, &ws.a1, &ws.a2, &ws.ij, &mut m.bmat, &mut m.zmat);
    let kopt: usize = m.kopt;
    swap_cols(&mut m.bmat, 0, kopt);
    swap_rows(&mut m.zmat, 0, kopt);
    set_ids(n, npt, kopt, &ws.ij, &mut ws.ids);
    let scoreinc: F64 = scores_into(&m.xpt, kopt, &mut ws.score);
    let mut nprov: usize = npt - 1;
    let ghost f: Frame = frame_in(m@, *ws, scoreinc);
    let ghost r0: Reinstating = reinstating_in(m@, *ws, nprov, false);
    assert(npt * npt <= u64::MAX * u64::MAX) by (nonlinear_arith)
        requires
            0 <= npt <= u64::MAX,
    ;
    let limit: u128 = npt as u128 * npt as u128;
    let mut iter: u128 = 0;
    let mut ended: bool = false;
    while iter < limit && !ended
        invariant
            n == xl@.len(),
            m.fits(n as nat, npt as nat),
            ws.fits(n as nat, npt as nat),
            m@ == (ModelView { bmat: m@.bmat, zmat: m@.zmat, ..m1 }),
            f == frame_in(m@, *ws, scoreinc),
            iter <= limit,
            limit == npt * npt,
            reinstate_run(f, r0, limit as nat) == reinstate_run(
                f,
                reinstating_in(m@, *ws, nprov, ended),
                (limit - iter) as nat,
            ),
        decreases limit - iter,
    {
        ended = reinstate(m, ws, scoreinc, &mut nprov);
        iter = iter + 1;
    }
    ws.kbase = m.kopt;
    ws.fbase = m.fval[m.kopt];
    ws.kpt = 0;
    INFO_DFT
}

/// Writes the provisional point with the given directions into `x`.
fn provisional_point_into(id: (usize, usize), a1: &[F64], a2: &[F64], x: &mut Vec<F64>)
    requires
        a2@.len() == a1@.len(),
        old(x)@.len() == a1@.len(),
        id.0 <= a1@.len(),
        id.1 <= a1@.len(),
    ensures
        final(x)@ == provisional_point(id, a1@, a2@),
{
    fill(x, zero());
    if id.0 > 0 {
        x[id.0 - 1] = a1[id.0 - 1];
    }
    if id.1 > 0 {
        x[id.1 - 1] = if id.0 > 0 {
            a1[id.1 - 1]
        } else {
            a2[id.1 - 1]
        };
    }
    assert(x@ =~= provisional_point(id, a1@, a2@));
}

/// Whether the provisional point is not worth an evaluation.
fn is_not_worth(x: &[F64], old_x: &[F64], delta: F64, diff: &mut Vec<F64>) -> (r: bool)
    requires
        old_x@.len() == x@.len(),
        old(diff)@.len() == x@.len(),
    ensures
        r == not_worth(x@, old_x@, delta),
        final(diff)@.len() == x@.len(),
{
    difference_into(x, old_x, diff);
    sum_abs(diff).le(near_floor() * delta) || !sum_abs(x).is_finite()
}

/// Goes on to the next provisional point to evaluate, which becomes point `ws.kpt`, and tells
/// whether there is one.
pub fn refill_seek(delta: F64, m: &mut Model, ws: &mut RescueWs) -> (found: bool)
    requires
        old(m).fits(old(m).xpt.nrows as nat, old(m)@.xpt.len()),
        old(ws).fits(old(m).xpt.nrows as nat, old(m)@.xpt.len()),
        old(ws).kpt <= old(m)@.xpt.len(),
    ensures
        final(m).fits(old(m).xpt.nrows as nat, old(m)@.xpt.len()),
        final(ws).fits(old(m).xpt.nrows as nat, old(m)@.xpt.len()),
        rescuing_in(final(m)@, *final(ws)) == refill_sought(
            rescuing_in(old(m)@, *old(ws)),
            delta,
        ),
        final(ws).kpt <= old(m)@.xpt.len(),
        final(ws).kpt >= old(ws).kpt,
        found == (final(ws).kpt < old(m)@.xpt.len()),
        found ==> final(ws).ids@[final(ws).kpt as int] is Some,
{
    let n: usize = m.xpt.nrows();
    let npt: usize = m.xpt.ncols();
    let ghost goal: Rescuing = refill_sought(rescuing_in(m@, *ws), delta);
    while ws.kpt < npt
        invariant
            m.fits(n as nat, npt as nat),
            ws.fits(n as nat, npt as nat),
            old(ws).kpt <= ws.kpt <= npt,
            npt == old(m)@.xpt.len(),
            n == old(m).xpt.nrows,
            npt + n <= usize::MAX,
            n > 0,
            goal == refill_sought(rescuing_in(m@, *ws), delta),
            goal == refill_sought(rescuing_in(old(m)@, *old(ws)), delta),
        decreases npt - ws.kpt,
    {
        let k: usize = ws.kpt;
        match ws.ids[k] {
            None => {
                ws.kpt = k + 1;
            },
            Some(id) => {
                assert(ws.ids@[k as int] == Some(id));
                assert(m.xpt@[k as int].len() == n);
                let c: F64 = m.pq[k];
                r1update(&mut m.hq, c, m.xpt.col(k));
                m.pq[k] = zero();
                provisional_point_into(id, &ws.a1, &ws.a2, &mut ws.xnew);
                if is_not_worth(&ws.xnew, m.xpt.col(k), delta, &mut ws.v) {
                    ws.kpt = k + 1;
                } else {
                    m.xpt.set_col(k, &ws.xnew);
                    return true;
                }
            },
        }
    }
    false
}

/// Takes the value `f` at the provisional point `ws.kpt` into the set.
pub fn refill_value(f: F64, m: &mut Model, ws: &RescueWs)
    requires
        old(m).fits(old(m).xpt.nrows as nat, old(m)@.xpt.len()),
        ws.kpt < old(m)@.xpt.len(),
    ensures
        final(m).fits(old(m).xpt.nrows as nat, old(m)@.xpt.len()),
        rescuing_in(final(m)@, *ws) == refill_valued(rescuing_in(old(m)@, *ws), f),
{
    let k: usize = ws.kpt;
    m.fval[k] = f;
    if f.lt(m.fval[m.kopt]) {
        m.kopt = k;
    }
}

/// The change of the explicit model along direction `i` by the step `x`.
fn change_along(m: &Model, i: usize, x: F64) -> (r: F64)
    requires
        i < m@.gopt.len(),
        shaped(m@.hq, m@.gopt.len(), m@.gopt.len()),
    ensures
        r == explicit_change(m@, i as int, x),
{
    assert(m.hq@[i as int].len() == m@.gopt.len());
    x * (m.gopt[i] + half() * x * m.hq.get(i, i))
}

/// The model at the provisional point with the given directions.
fn model_at(id: (usize, usize), m: &Model, ws: &mut RescueWs) -> (r: F64)
    requires
        m.fits(m.xpt.nrows as nat, m@.xpt.len()),
        old(ws).fits(m.xpt.nrows as nat, m@.xpt.len()),
        id.0 <= m.xpt.nrows,
        id.1 <= m.xpt.nrows,
    ensures
        r == refill_model_value(rescuing_in(m@, *old(ws)), id),
        *final(ws) == (RescueWs { xxpt: final(ws).xxpt, pqxxpt: final(ws).pqxxpt, ..*old(ws) }),
        final(ws).fits(m.xpt.nrows as nat, m@.xpt.len()),
{
    let n: usize = m.xpt.nrows();
    let npt: usize = m.xpt.ncols();
    let (ip, iq): (usize, usize) = id;
    let ghost goal: Seq<F64> = refill_products(id, m@.xpt, ws.a1@, ws.a2@);
    for k in 0..npt
        invariant
            m.fits(n as nat, npt as nat),
            ws.fits(n as nat, npt as nat),
            ip <= n,
            iq <= n,
            id == (ip, iq),
            *ws == (RescueWs { xxpt: ws.xxpt, pqxxpt: ws.pqxxpt, ..*old(ws) }),
            goal == refill_products(id, m@.xpt, ws.a1@, ws.a2@),
            forall|j: int| 0 <= j < k ==> ws.xxpt@[j] == goal[j],
            forall|j: int| 0 <= j < k ==> ws.pqxxpt@[j] == m@.pq[j] * goal[j],
    {
        assert(m.xpt@[k as int].len() == n);
        let v: F64 = if ip > 0 && iq > 0 {
            ws.a1[ip - 1] * m.xpt.get(ip - 1, k) + ws.a1[iq - 1] * m.xpt.get(iq - 1, k)
        } else if ip > 0 {
            ws.a1[ip - 1] * m.xpt.get(ip - 1, k)
        } else if iq > 0 {
            ws.a2[iq - 1] * m.xpt.get(iq - 1, k)
        } else {
            zero()
        };
        ws.xxpt[k] = v;
        ws.pqxxpt[k] = m.pq[k] * v;
    }
    assert(ws.xxpt@ =~= goal);
    assert(ws.pqxxpt@ =~= products(m@.pq, goal));
    let v: F64 = if ip > 0 && iq > 0 {
        assert(m.hq@[iq - 1].len() == n);
        ws.fbase + change_along(m, ip - 1, ws.a1[ip - 1]) + change_along(m, iq - 1, ws.a1[iq - 1])
            + ws.a1[ip - 1] * ws.a1[iq - 1] * m.hq.get(ip - 1, iq - 1)
    } else if ip > 0 {
        ws.fbase + change_along(m, ip - 1, ws.a1[ip - 1])
    } else if iq > 0 {
        ws.fbase + change_along(m, iq - 1, ws.a2[iq - 1])
    } else {
        ws.fbase
    };
    v + half() * inprod(&ws.xxpt, &ws.pqxxpt)
}

/// Adds `c` times the square of one provisional point to the explicit Hessian.
fn raise_hessian(h: &mut Mat, id: (usize, usize), c: F64, a1: &[F64], a2: &[F64])
    requires
        old(h).is(a1@.len(), a1@.len()),
        a2@.len() == a1@.len(),
        id.0 <= a1@.len(),
        id.1 <= a1@.len(),
    ensures
        final(h)@ == hessian_raised(old(h)@, id, c, a1@, a2@),
        final(h).is(a1@.len(), a1@.len()),
{
    let (ip, iq): (usize, usize) = id;
    if ip > 0 && iq > 0 {
        let p: usize = ip - 1;
        let q: usize = iq - 1;
        assert(h@[p as int].len() == a1@.len() && h@[q as int].len() == a1@.len());
        let u: F64 = h.get(p, p) + c * (a1[p] * a1[p]);
        h.set(p, p, u);
        assert(h@[p as int].len() == a1@.len() && h@[q as int].len() == a1@.len());
        let w: F64 = h.get(q, q) + c * (a1[q] * a1[q]);
        h.set(q, q, w);
        assert(h@[p as int].len() == a1@.len() && h@[q as int].len() == a1@.len());
        let v: F64 = h.get(p, q) + c * a1[p] * a1[q];
        h.set(p, q, v);
        assert(h@[p as int].len() == a1@.len());
        h.set(q, p, v);
    } else if ip > 0 {
        let p: usize = ip - 1;
        assert(h@[p as int].len() == a1@.len());
        let u: F64 = h.get(p, p) + c * (a1[p] * a1[p]);
        h.set(p, p, u);
    } else if iq > 0 {
        let q: usize = iq - 1;
        assert(h@[q as int].len() == a1@.len());
        let u: F64 = h.get(q, q) + c * (a2[q] * a2[q]);
        h.set(q, q, u);
    }
}

/// Makes the model interpolate the value `f` at the provisional point `ws.kpt`, which becomes
/// an original one.
pub fn refill_update(f: F64, m: &mut Model, ws: &mut RescueWs)
    requires
        old(m).fits(old(m).xpt.nrows as nat, old(m)@.xpt.len()),
        old(ws).fits(old(m).xpt.nrows as nat, old(m)@.xpt.len()),
        old(ws).kpt < old(m)@.xpt.len(),
        old(ws).ids@[old(ws).kpt as int] is Some,
    ensures
        final(m).fits(old(m).xpt.nrows as nat, old(m)@.xpt.len()),
        final(ws).fits(old(m).xpt.nrows as nat, old(m)@.xpt.len()),
        rescuing_in(final(m)@, *final(ws)) == refill_updated(rescuing_in(old(m)@, *old(ws)), f),
{
    let n: usize = m.xpt.nrows();
    let npt: usize = m.xpt.ncols();
    let kpt: usize = ws.kpt;
    let ghost r: Rescuing = rescuing_in(m@, *ws);
    let ghost m0: ModelView = m@;
    let id: (usize, usize) = match ws.ids[kpt] {
        Some(v) => v,
        None => (0, 0),
    };
    assert(ws.ids@[kpt as int] == Some(id));
    let moderr: F64 = f - model_at(id, m, ws);
    assert(m.bmat@[kpt as int].len() == n);
    let ghost gopt: Seq<F64> = Seq::new(
        n as nat,
        |i: int| m0.gopt[i] + moderr * m0.bmat[kpt as int][i],
    );
    for i in 0..n
        invariant
            m.fits(n as nat, npt as nat),
            kpt < npt,
            m0.bmat[kpt as int].len() == n,
            m0.gopt.len() == n,
            m@ == (ModelView { gopt: m@.gopt, ..m0 }),
            gopt == Seq::new(n as nat, |i: int| m0.gopt[i] + moderr * m0.bmat[kpt as int][i]),
            forall|j: int| 0 <= j < i ==> m.gopt@[j] == gopt[j],
            forall|j: int| i <= j < n ==> m.gopt@[j] == m0.gopt[j],
    {
        m.gopt[i] = m.gopt[i] + moderr * m.bmat.get(i, kpt);
    }
    assert(m.gopt@ =~= gopt);
    row_into(&m.zmat, kpt, &mut ws.zrow);
    let ghost inc: Seq<F64> = pq_increments(m0.zmat, kpt as int, npt as nat, moderr);
    let ghost pq: Seq<F64> = Seq::new(
        npt as nat,
        |j: int|
            if r.ids[j] is None {
                m0.pq[j] + inc[j]
            } else {
                m0.pq[j]
            },
    );
    for k in 0..npt
        invariant
            m.fits(n as nat, npt as nat),
            ws.fits(n as nat, npt as nat),
            kpt < npt,
            m@ == (ModelView { gopt: gopt, pq: m@.pq, ..m0 }),
            m0.pq.len() == npt,
            rescuing_in(m0, *ws) == r,
            ws.zrow@ == row(m0.zmat, kpt as int),
            inc == pq_increments(m0.zmat, kpt as int, npt as nat, moderr),
            pq == Seq::new(
                npt as nat,
                |j: int|
                    if r.ids[j] is None {
                        m0.pq[j] + inc[j]
                    } else {
                        m0.pq[j]
                    },
            ),
            forall|j: int| 0 <= j < k ==> ws.pqinc@[j] == inc[j] && m.pq@[j] == pq[j],
            forall|j: int| k <= j < npt ==> m.pq@[j] == m0.pq[j],
    {
        let v: F64 = moderr * row_inprod_from(zero(), &m.zmat, k, &ws.zrow);
        ws.pqinc[k] = v;
        if ws.ids[k].is_none() {
            m.pq[k] = m.pq[k] + v;
        }
    }
    assert(ws.pqinc@ =~= inc);
    assert(m.pq@ =~= pq);
    for k in 0..npt
        invariant
            m.fits(n as nat, npt as nat),
            ws.fits(n as nat, npt as nat),
            kpt < npt,
            m@ == (ModelView { gopt: gopt, pq: pq, hq: m@.hq, ..m0 }),
            rescuing_in(m0, *ws) == r,
            ws.pqinc@ == inc,
            m@.hq == hessian_refilled(m0.hq, r.ids, inc, r.a1, r.a2, k as nat),
    {
        match ws.ids[k] {
            Some(p) => {
                assert(ws.ids@[k as int] == Some(p));
                raise_hessian(&mut m.hq, p, ws.pqinc[k], &ws.a1, &ws.a2);
            },
            None => {},
        }
    }
    ws.ids[kpt] = None;
    ws.kpt = kpt + 1;
}

/// Takes the gradient to the best point, if that has changed.
pub fn rescue_finish(m: &mut Model, ws: &mut RescueWs)
    requires
        old(m).fits(old(m).xpt.nrows as nat, old(m)@.xpt.len()),
        old(ws).fits(old(m).xpt.nrows as nat, old(m)@.xpt.len()),
    ensures
        final(m).fits(old(m).xpt.nrows as nat, old(m)@.xpt.len()),
        final(ws).fits(old(m).xpt.nrows as nat, old(m)@.xpt.len()),
        final(m)@ == rescue_finished(rescuing_in(old(m)@, *old(ws))),
{
    let n: usize = m.xpt.nrows();
    if m.kopt != ws.kbase {
        assert(m.xpt@[m.kopt as int].len() == n);
        hess_mul_into(
            m.xpt.col(m.kopt),
            &m.xpt,
            &m.pq,
            Some(&m.hq),
            &mut ws.xxpt,
            &mut ws.v,
        );
        accumulate(&mut m.gopt, &ws.v);
    }
}

} // verus!
