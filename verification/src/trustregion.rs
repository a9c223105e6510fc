//! The trust-region subproblem inside box bounds, and the update of the trust-region radius.
//!
//! [`trsbox`] minimizes the model in the intersection of the trust region and the box by
//! truncated conjugate gradients, and on the boundary of the trust region by searches on arcs.
//! The entries of `xbdi` tell the variables that are fixed: -1 at the lower bound, 1 at the
//! upper bound, 0 for a free variable.
use vstd::arithmetic::power2::lemma2_to64;
use vstd::arithmetic::power2::lemma2_to64_rest;
use vstd::arithmetic::power2::lemma_pow2_adds;
use vstd::arithmetic::power2::lemma_pow2_pos;
use vstd::arithmetic::power2::lemma_pow2_unfold;
use vstd::arithmetic::power2::pow2;
use vstd::prelude::*;

use crate::consts::epsilon;
use crate::consts::gradient_ceiling;
use crate::consts::grid_offset;
use crate::consts::half;
use crate::consts::neg_realmax;
use crate::consts::one;
use crate::consts::realmin;
use crate::consts::seventeen;
use crate::consts::two;
use crate::consts::zero;
use crate::float::arith::lemma_fields;
use crate::float::arith::lemma_quotient_real;
use crate::float::arith::lemma_sign_stays;
use crate::float::arith::magnitude_of;
use crate::float::arith::product_of;
use crate::float::arith::quotient_of;
use crate::float::arith::root_of;
use crate::float::convert::nearest_index_of;
use crate::float::expo;
use crate::float::near::lemma_order_value;
use crate::float::near::lemma_round_beside;
use crate::float::near::lemma_two_product;
use crate::float::near::lemma_units_monotone;
use crate::float::order::at_most;
use crate::float::order::below;
use crate::float::order::lemma_clamp;
use crate::float::order::max_of;
use crate::float::order::min_of;
use crate::float::sig;
use crate::float::units;
use crate::float::F64;
use crate::linalg::inprod;
use crate::mat::Mat;
use crate::powalg::hess_mul_into;
use crate::powalg::hessian_mul;
use crate::util::grid;
use crate::util::grid_point;
use crate::util::in_box;
use crate::util::interval_max;
use crate::util::ordered_bounds;
use crate::util::peak;
use crate::vector::abs_sum;
use crate::vector::any_below;
use crate::vector::any_nan;
use crate::vector::argmin;
use crate::vector::constant;
use crate::vector::copy;
use crate::vector::dot;
use crate::vector::fill;
use crate::vector::first_min;
use crate::vector::has_below;
use crate::vector::has_nan;
use crate::vector::largest_abs;
use crate::vector::max_abs;
use crate::vector::scale;
use crate::vector::scaled;
use crate::vector::sum_abs;
use crate::vector::zeros;

pub mod circle;
pub mod parts;
pub mod radius;
pub mod reach;

verus! {

/// A variable fixed at its lower bound.
pub const AT_LOWER: i32 = -1;

/// A free variable.
pub const FREE: i32 = 0;

/// A variable fixed at its upper bound.
pub const AT_UPPER: i32 = 1;

/// The grid size for which the scratch space is laid out.
pub const GRID_SIZE_MAX: usize = 42;

/// The data of a subproblem: the model at `xopt`, the bounds on points and the tolerance.
pub struct Subproblem {
    pub gopt: Seq<F64>,
    pub hq: Seq<Seq<F64>>,
    pub pq: Seq<F64>,
    pub sl: Seq<F64>,
    pub su: Seq<F64>,
    pub xopt: Seq<F64>,
    pub xpt: Seq<Seq<F64>>,
    pub tol: F64,
}

/// How far the conjugate-gradient iterations have come.
#[derive(Debug, Clone, Copy, PartialEq, Eq, Structural)]
pub enum Course {
    /// Another iteration follows.
    Running,
    /// The step is final.
    Stopped,
    /// The step has reached the boundary of the trust region.
    Boundary,
}

/// The state of the conjugate-gradient iterations.
pub struct Cg {
    pub d: Seq<F64>,
    pub s: Seq<F64>,
    pub gnew: Seq<F64>,
    pub xbdi: Seq<i32>,
    pub crvmin: F64,
    pub gredsq: F64,
    pub delsq: F64,
    pub qred: F64,
    pub beta: F64,
    pub itercg: usize,
    pub nact: usize,
    pub course: Course,
}

/// The products of the first `k` free entries, added one after the other.
pub open spec fn free_dot_from(x: Seq<F64>, y: Seq<F64>, xbdi: Seq<i32>, k: nat) -> F64
    decreases k,
{
    if k == 0 {
        zero()
    } else if xbdi[k - 1] == FREE {
        free_dot_from(x, y, xbdi, (k - 1) as nat) + x[k - 1] * y[k - 1]
    } else {
        free_dot_from(x, y, xbdi, (k - 1) as nat)
    }
}

/// The inner product over the free variables.
pub open spec fn free_dot(x: Seq<F64>, y: Seq<F64>, xbdi: Seq<i32>) -> F64 {
    free_dot_from(x, y, xbdi, x.len())
}

/// The number of fixed variables among the first `k`.
pub open spec fn fixed_count(xbdi: Seq<i32>, k: nat) -> nat
    decreases k,
{
    if k == 0 {
        0
    } else {
        fixed_count(xbdi, (k - 1) as nat) + (if xbdi[k - 1] != FREE {
            1nat
        } else {
            0nat
        })
    }
}

/// The number of fixed variables is not larger than the number of variables.
proof fn lemma_fixed_count(xbdi: Seq<i32>, k: nat)
    ensures
        fixed_count(xbdi, k) <= k,
    decreases k,
{
    if k > 0 {
        lemma_fixed_count(xbdi, (k - 1) as nat);
    }
}

/// The vector with the entries of the fixed variables set to zero.
pub open spec fn free_part(x: Seq<F64>, xbdi: Seq<i32>) -> Seq<F64> {
    Seq::new(
        x.len(),
        |i: int|
            if xbdi[i] != FREE {
                zero()
            } else {
                x[i]
            },
    )
}

/// The bound that a variable with a change of the given sign runs into.
pub open spec fn side_of(v: F64) -> i32 {
    if v.sign() {
        AT_LOWER
    } else {
        AT_UPPER
    }
}

/// The factor by which the model is scaled, if its gradient is large.
pub open spec fn model_scale(gopt: Seq<F64>) -> F64 {
    max_of(two() * realmin(), one() / max_abs(gopt))
}

/// The model is scaled.
pub open spec fn needs_scaling(gopt: Seq<F64>) -> bool {
    max_abs(gopt) > gradient_ceiling()
}

/// The subproblem with its model scaled where the gradient is large.
pub open spec fn scaled_problem(p: Subproblem) -> Subproblem {
    if needs_scaling(p.gopt) {
        let c = model_scale(p.gopt);
        Subproblem {
            gopt: scaled(p.gopt, c),
            pq: scaled(p.pq, c),
            hq: Seq::new(p.hq.len(), |j: int| scaled(p.hq[j], c)),
            ..p
        }
    } else {
        p
    }
}

/// The variables that are fixed at the start: those at a bound that the gradient pushes out.
pub open spec fn fixed_at_start(p: Subproblem) -> Seq<i32> {
    Seq::new(
        p.gopt.len(),
        |i: int|
            if p.xopt[i] <= p.sl[i] && p.gopt[i] >= zero() {
                AT_LOWER
            } else if p.xopt[i] >= p.su[i] && p.gopt[i] <= zero() {
                AT_UPPER
            } else {
                FREE
            },
    )
}

/// The state before the first conjugate-gradient iteration.
pub open spec fn cg_start(p: Subproblem, delta: F64) -> Cg {
    let n = p.gopt.len();
    let xbdi = fixed_at_start(p);
    Cg {
        d: constant(n, zero()),
        s: constant(n, zero()),
        gnew: p.gopt,
        xbdi,
        crvmin: neg_realmax(),
        gredsq: free_dot(p.gopt, p.gopt, xbdi),
        delsq: delta * delta,
        qred: zero(),
        beta: zero(),
        itercg: 0,
        nact: fixed_count(xbdi, n) as usize,
        course: Course::Running,
    }
}

/// The largest number of conjugate-gradient iterations with `k` free variables.
pub open spec fn cg_limit(k: nat) -> nat {
    if k * k < 10000 {
        k * k
    } else {
        10000
    }
}

/// The next search direction after `s`.
pub open spec fn cg_direction(
    s: Seq<F64>,
    gnew: Seq<F64>,
    xbdi: Seq<i32>,
    beta: F64,
    restart: bool,
) -> Seq<F64> {
    Seq::new(
        s.len(),
        |i: int|
            if xbdi[i] != FREE {
                zero()
            } else if restart {
                -gnew[i]
            } else {
                beta * s[i] - gnew[i]
            },
    )
}

/// The step length along `s` to the boundary of the trust region.
pub open spec fn boundary_step(stepsq: F64, resid: F64, ds: F64) -> F64 {
    let sqrtd = max_of(
        max_of(root_of(stepsq * resid + ds * ds), root_of(stepsq * resid)),
        magnitude_of(ds),
    );
    if ds >= zero() {
        resid / (sqrtd + ds)
    } else {
        (sqrtd - ds) / stepsq
    }
}

/// The step lengths along `s` at which the variables reach their bounds, or `stplen`.
pub open spec fn bound_steps(p: Subproblem, d: Seq<F64>, s: Seq<F64>, stplen: F64) -> Seq<F64> {
    Seq::new(
        d.len(),
        |i: int|
            {
                let xnew = p.xopt[i] + d[i];
                let xtest = xnew + stplen * s[i];
                let b = if s[i] < zero() && xtest < p.sl[i] {
                    (p.sl[i] - xnew) / s[i]
                } else if s[i] > zero() && xtest > p.su[i] {
                    (p.su[i] - xnew) / s[i]
                } else {
                    stplen
                };
                if b.nan() {
                    stplen
                } else {
                    b
                }
            },
    )
}

/// The first variable that the bounds stop, if one is stopped short of `limit`.
pub open spec fn stopped_variable(b: Seq<F64>, limit: F64) -> Option<int> {
    if any_below(b, limit) {
        Some(first_min(b, b.len()))
    } else {
        None
    }
}

/// The least curvature after a step with the Rayleigh quotient `rq`.
pub open spec fn next_crvmin(crvmin: F64, rq: F64, free: bool) -> F64 {
    if free && rq > zero() {
        if crvmin <= neg_realmax() {
            rq
        } else {
            min_of(crvmin, rq)
        }
    } else {
        crvmin
    }
}

/// What follows a conjugate-gradient step of length `stplen` along `c.s`; `ggsav` and `sdec`
/// are the squared gradient before the step and the decrease of the model.
pub open spec fn cg_branch(
    p: Subproblem,
    c: Cg,
    iact: Option<int>,
    stplen: F64,
    bstep: F64,
    ggsav: F64,
    sdec: F64,
) -> Cg {
    let n = c.d.len();
    match iact {
        Some(ia) => {
            let xbdi = c.xbdi.update(ia, side_of(c.s[ia]));
            let nact = (c.nact + 1) as usize;
            let delsq = c.delsq - c.d[ia] * c.d[ia];
            if nact >= n {
                Cg { nact, xbdi, course: Course::Stopped, ..c }
            } else if delsq <= zero() {
                Cg { nact, xbdi, delsq, course: Course::Boundary, ..c }
            } else {
                Cg {
                    nact,
                    xbdi,
                    delsq,
                    beta: zero(),
                    itercg: 0,
                    gredsq: free_dot(c.gnew, c.gnew, xbdi),
                    ..c
                }
            }
        },
        None => if stplen < bstep {
            if c.itercg >= n - c.nact || sdec <= p.tol * c.qred || sdec.nan() || c.qred.nan() {
                Cg { course: Course::Stopped, ..c }
            } else {
                Cg { beta: c.gredsq / ggsav, ..c }
            }
        } else {
            Cg { course: Course::Boundary, ..c }
        },
    }
}

/// The step of length `stplen` along `c.s`, of squared length `stepsq`, with the Hessian
/// product `hs` and the curvature `shs`.
pub open spec fn cg_move(
    p: Subproblem,
    c: Cg,
    iact: Option<int>,
    stplen: F64,
    bstep: F64,
    stepsq: F64,
    hs: Seq<F64>,
    shs: F64,
) -> Cg {
    if stplen > zero() {
        let crvmin = next_crvmin(c.crvmin, shs / stepsq, iact is None);
        let gnew = Seq::new(c.d.len(), |i: int| c.gnew[i] + stplen * hs[i]);
        let d = Seq::new(c.d.len(), |i: int| c.d[i] + stplen * c.s[i]);
        let itercg = (c.itercg + 1) as usize;
        let gredsq = free_dot(gnew, gnew, c.xbdi);
        if !abs_sum(d).finite() {
            Cg { crvmin, gnew, gredsq, itercg, course: Course::Stopped, ..c }
        } else {
            let sdec = max_of(stplen * (c.gredsq - half() * stplen * shs), zero());
            cg_branch(
                p,
                Cg { crvmin, gnew, gredsq, itercg, d, qred: c.qred + sdec, ..c },
                iact,
                stplen,
                bstep,
                c.gredsq,
                sdec,
            )
        }
    } else {
        cg_branch(p, c, iact, stplen, bstep, c.gredsq, zero())
    }
}

/// One conjugate-gradient iteration.
pub open spec fn cg_step(p: Subproblem, c: Cg) -> Cg {
    let resid = c.delsq - free_dot(c.d, c.d, c.xbdi);
    if resid <= zero() {
        Cg { course: Course::Boundary, ..c }
    } else {
        let s = cg_direction(c.s, c.gnew, c.xbdi, c.beta, c.itercg == 0);
        let c1 = Cg { s, ..c };
        let stepsq = dot(s, s);
        let ds = free_dot(c.d, s, c.xbdi);
        if !(stepsq > epsilon() * c.delsq && c.gredsq * c.delsq > (p.tol * c.qred) * (p.tol
            * c.qred) && !ds.nan()) {
            Cg { course: Course::Stopped, ..c1 }
        } else {
            let bstep = boundary_step(stepsq, resid, ds);
            if bstep <= zero() || !bstep.finite() {
                Cg { course: Course::Stopped, ..c1 }
            } else {
                let hs = hessian_mul(s, p.xpt, p.pq, p.hq);
                let shs = free_dot(s, hs, c.xbdi);
                let full = if shs > zero() {
                    min_of(bstep, c.gredsq / shs)
                } else {
                    bstep
                };
                let b = bound_steps(p, c.d, s, full);
                let iact = stopped_variable(b, full);
                let stplen = match iact {
                    Some(ia) => b[ia],
                    None => full,
                };
                cg_move(p, c1, iact, stplen, bstep, stepsq, hs, shs)
            }
        }
    }
}

/// The state after at most `k` conjugate-gradient iterations.
pub open spec fn cg_run(p: Subproblem, c: Cg, k: nat) -> Cg
    decreases k,
{
    if k == 0 || c.course != Course::Running {
        c
    } else {
        cg_run(p, cg_step(p, c), (k - 1) as nat)
    }
}

/// The state of the searches on the boundary of the trust region.
pub struct Arc {
    pub d: Seq<F64>,
    pub gnew: Seq<F64>,
    pub hdred: Seq<F64>,
    pub xbdi: Seq<i32>,
    pub dredsq: F64,
    pub qred: F64,
    pub nactsav: usize,
    pub first: bool,
    pub ended: bool,
}

/// The decrease of the model at the angle of which `hangt` is the tangent of the half.
pub open spec fn arc_value(hangt: F64, args: Seq<F64>) -> F64 {
    if magnitude_of(hangt) > zero() {
        let sth = (hangt + hangt) / (one() + hangt * hangt);
        let f = args[0] + hangt * (hangt * args[1] - args[2] - args[2]);
        sth * (hangt * args[3] - args[4] - half() * sth * f)
    } else {
        zero()
    }
}

/// The fixed variables after those that have reached a bound at `d` are added.
pub open spec fn fixed_at(p: Subproblem, d: Seq<F64>, xbdi: Seq<i32>) -> Seq<i32> {
    Seq::new(
        xbdi.len(),
        |i: int|
            if xbdi[i] != FREE {
                xbdi[i]
            } else if p.xopt[i] + d[i] >= p.su[i] {
                AT_UPPER
            } else if p.xopt[i] + d[i] <= p.sl[i] {
                AT_LOWER
            } else {
                FREE
            },
    )
}

/// The direction orthogonal to the reduced step, in the plane of the reduced step and the
/// reduced gradient.
pub open spec fn arc_direction(
    d: Seq<F64>,
    gnew: Seq<F64>,
    xbdi: Seq<i32>,
    dredg: F64,
    dredsq: F64,
    temp: F64,
) -> Seq<F64> {
    Seq::new(
        d.len(),
        |i: int|
            if xbdi[i] != FREE {
                zero()
            } else {
                (dredg * d[i] - dredsq * gnew[i]) / temp
            },
    )
}

/// The tangent of half the angle at which a variable reaches a bound, at most one: `gap` is
/// the distance of the bound from `xopt`, `room` that from the present point, `s` the change
/// towards the bound and `ssq` the squared radius of the arc.
pub open spec fn tangent(t: F64, free: bool, gap: F64, room: F64, s: F64, ssq: F64) -> F64 {
    let sqdscr = if free && gap < root_of(ssq) {
        root_of(max_of(zero(), ssq - gap * gap))
    } else {
        neg_realmax()
    };
    if sqdscr + s > zero() {
        min_of(t, room / (sqdscr + s))
    } else {
        t
    }
}

/// As [`tangent`], with the change away from the bound.
pub open spec fn tangent_away(t: F64, free: bool, gap: F64, room: F64, s: F64, ssq: F64) -> F64 {
    let sqdscr = if free && gap < root_of(ssq) {
        root_of(max_of(zero(), ssq - gap * gap))
    } else {
        neg_realmax()
    };
    if sqdscr - s > zero() {
        min_of(t, room / (sqdscr - s))
    } else {
        t
    }
}

/// The tangents of half the angles at which the variables reach their bounds.
pub open spec fn tangents(p: Subproblem, d: Seq<F64>, s: Seq<F64>, xbdi: Seq<i32>) -> Seq<F64> {
    Seq::new(
        d.len(),
        |i: int|
            {
                let ssq = d[i] * d[i] + s[i] * s[i];
                let xnew = p.xopt[i] + d[i];
                let free = xbdi[i] == FREE;
                let t1 = tangent_away(
                    one(),
                    free,
                    p.xopt[i] - p.sl[i],
                    xnew - p.sl[i],
                    s[i],
                    ssq,
                );
                let t2 = tangent(t1, free, p.su[i] - p.xopt[i], p.su[i] - xnew, s[i], ssq);
                if t2.nan() {
                    zero()
                } else {
                    t2
                }
            },
    )
}

/// The size of the grid on an interval of the given length.
pub open spec fn grid_size_of(hangt_bd: F64) -> usize {
    let k = nearest_index_of(seventeen() * hangt_bd + grid_offset());
    if 2 * k <= usize::MAX {
        (2 * k) as usize
    } else {
        usize::MAX
    }
}

/// The approximate maximizer of the decrease on the interval from zero to `hangt_bd`.
pub open spec fn best_tangent(hangt_bd: F64, args: Seq<F64>) -> F64 {
    let n = grid_size_of(hangt_bd) as nat;
    peak(
        zero(),
        hangt_bd,
        grid(zero(), hangt_bd, n),
        Seq::new(n, |k: int| arc_value(grid_point(zero(), hangt_bd, n, k), args)),
    )
}

/// The cosine of the angle.
pub open spec fn cosine(hangt: F64) -> F64 {
    min_of(
        (one() - hangt * hangt) / (one() + hangt * hangt),
        one() - hangt * hangt,
    )
}

/// The sine of the angle.
pub open spec fn sine(hangt: F64) -> F64 {
    min_of((hangt + hangt) / (one() + hangt * hangt), hangt + hangt)
}

/// The state before the first search on the boundary.
pub open spec fn arc_start(c: Cg) -> Arc {
    Arc {
        d: c.d,
        gnew: c.gnew,
        hdred: constant(c.d.len(), zero()),
        xbdi: c.xbdi,
        dredsq: zero(),
        qred: c.qred,
        nactsav: 0,
        first: true,
        ended: false,
    }
}

/// The turn of the step by the angle of which `hangt` is the tangent of the half.
pub open spec fn arc_turn(
    p: Subproblem,
    a: Arc,
    s: Seq<F64>,
    hs: Seq<F64>,
    iact: Option<int>,
    hangt: F64,
    hangt_bd: F64,
    sdec: F64,
) -> Arc {
    let cth = cosine(hangt);
    let sth = sine(hangt);
    let gnew = Seq::new(
        a.d.len(),
        |i: int| a.gnew[i] + (cth - one()) * a.hdred[i] + sth * hs[i],
    );
    let d = Seq::new(
        a.d.len(),
        |i: int|
            if a.xbdi[i] == FREE {
                cth * a.d[i] + sth * s[i]
            } else {
                a.d[i]
            },
    );
    if !abs_sum(d).finite() {
        Arc { gnew, ended: true, ..a }
    } else {
        let hdred = Seq::new(a.d.len(), |i: int| cth * a.hdred[i] + sth * hs[i]);
        let qred = a.qred + sdec;
        let more = sdec > p.tol * qred;
        match iact {
            Some(ia) => if hangt >= hangt_bd {
                Arc {
                    d,
                    gnew,
                    hdred,
                    qred,
                    xbdi: a.xbdi.update(
                        ia,
                        side_of(p.xopt[ia] + d[ia] - half() * (p.sl[ia] + p.su[ia])),
                    ),
                    ..a
                }
            } else {
                Arc { d, gnew, hdred, qred, ended: !more, ..a }
            },
            None => Arc { d, gnew, hdred, qred, ended: !more, ..a },
        }
    }
}

/// The search on the arc spanned by the reduced step and `s`.
pub open spec fn arc_search(p: Subproblem, a: Arc, s: Seq<F64>, dredg: F64, sredg: F64) -> Arc {
    let t = tangents(p, a.d, s, a.xbdi);
    let iact = stopped_variable(t, one());
    let hangt_bd = match iact {
        Some(ia) => t[ia],
        None => one(),
    };
    if hangt_bd <= zero() {
        Arc { ended: true, ..a }
    } else {
        let hs = hessian_mul(s, p.xpt, p.pq, p.hq);
        let args = seq![
            free_dot(s, hs, a.xbdi),
            free_dot(a.d, a.hdred, a.xbdi),
            free_dot(a.d, hs, a.xbdi),
            dredg,
            sredg,
        ];
        if any_nan(args) {
            Arc { ended: true, ..a }
        } else {
            let hangt = best_tangent(hangt_bd, args);
            let sdec = arc_value(hangt, args);
            if !(sdec > zero()) {
                Arc { ended: true, ..a }
            } else {
                arc_turn(p, a, s, hs, iact, hangt, hangt_bd, sdec)
            }
        }
    }
}

/// One search on the boundary of the trust region.
pub open spec fn arc_step(p: Subproblem, a: Arc) -> Arc {
    let n = a.d.len();
    let xbdi = fixed_at(p, a.d, a.xbdi);
    let nact = fixed_count(xbdi, n) as usize;
    if nact + 1 >= n {
        Arc { xbdi, ended: true, ..a }
    } else {
        let gredsq = free_dot(a.gnew, a.gnew, xbdi);
        let dredg = free_dot(a.d, a.gnew, xbdi);
        let a1 = if a.first || nact > a.nactsav {
            Arc {
                xbdi,
                dredsq: free_dot(a.d, a.d, xbdi),
                hdred: hessian_mul(free_part(a.d, xbdi), p.xpt, p.pq, p.hq),
                nactsav: nact,
                first: false,
                ..a
            }
        } else {
            Arc { xbdi, ..a }
        };
        let temp = gredsq * a1.dredsq - dredg * dredg;
        if !(temp > p.tol * p.tol * max_of(gredsq * a1.dredsq, a.qred * a.qred)) {
            Arc { ended: true, ..a1 }
        } else {
            let r = root_of(temp);
            let s = arc_direction(a.d, a.gnew, xbdi, dredg, a1.dredsq, r);
            arc_search(p, a1, s, dredg, -r)
        }
    }
}

/// The state after at most `k` searches on the boundary.
pub open spec fn arc_run(p: Subproblem, a: Arc, k: nat) -> Arc
    decreases k,
{
    if k == 0 || a.ended {
        a
    } else {
        arc_run(p, arc_step(p, a), (k - 1) as nat)
    }
}

/// The final point: fixed variables exactly at their bounds, the others between them.
pub open spec fn settled(p: Subproblem, d: Seq<F64>, xbdi: Seq<i32>) -> Seq<F64> {
    Seq::new(
        p.xopt.len(),
        |i: int|
            if xbdi[i] == AT_UPPER {
                p.su[i]
            } else if xbdi[i] == AT_LOWER {
                p.sl[i]
            } else {
                max_of(min_of(p.xopt[i] + d[i], p.su[i]), p.sl[i])
            },
    )
}

/// The state after the searches on the boundary, which follow the conjugate-gradient
/// iterations where these reach it.
pub open spec fn arcs_after(p: Subproblem, c: Cg) -> Arc {
    arc_run(
        p,
        arc_start(c),
        if c.course == Course::Boundary {
            (10 * (c.d.len() - c.nact)) as nat
        } else {
            0
        },
    )
}

/// The state at the end of the conjugate-gradient iterations.
pub open spec fn cg_end(p: Subproblem, delta: F64) -> Cg {
    let c = cg_start(p, delta);
    cg_run(p, c, cg_limit((c.d.len() - c.nact) as nat))
}

/// The final trial point of the subproblem, relative to the base point.
pub open spec fn trial_point(p: Subproblem, delta: F64) -> Seq<F64> {
    let q = scaled_problem(p);
    let a = arcs_after(q, cg_end(q, delta));
    settled(q, a.d, a.xbdi)
}

/// The trust-region step.
pub open spec fn trial_step(p: Subproblem, delta: F64) -> Seq<F64> {
    let x = trial_point(p, delta);
    Seq::new(x.len(), |i: int| x[i] - p.xopt[i])
}

/// The least curvature met, or zero where none was met or the step ends on the boundary.
pub open spec fn least_curvature(p: Subproblem, delta: F64) -> F64 {
    let c = cg_end(scaled_problem(p), delta);
    let v = if c.course == Course::Boundary || c.crvmin <= neg_realmax() || c.crvmin.nan() {
        zero()
    } else {
        c.crvmin
    };
    if needs_scaling(p.gopt) && v > zero() {
        v / model_scale(p.gopt)
    } else {
        v
    }
}

/// The next trust-region radius: it shrinks up to the ratio `eta1`, and expands beyond `eta2`.
pub open spec fn next_radius(
    delta: F64,
    dnorm: F64,
    eta1: F64,
    eta2: F64,
    gamma1: F64,
    gamma2: F64,
    ratio: F64,
) -> F64 {
    if ratio <= eta1 {
        min_of(gamma1 * delta, dnorm)
    } else if ratio <= eta2 {
        max_of(gamma1 * delta, dnorm)
    } else {
        max_of(gamma1 * delta, gamma2 * dnorm)
    }
}

/// The next trust-region radius.
pub fn trrad(
    delta_in: F64,
    dnorm: F64,
    eta1: F64,
    eta2: F64,
    gamma1: F64,
    gamma2: F64,
    ratio: F64,
) -> (r: F64)
    ensures
        r == next_radius(delta_in, dnorm, eta1, eta2, gamma1, gamma2, ratio),
{
    if ratio.le(eta1) {
        (gamma1 * delta_in).min(dnorm)
    } else if ratio.le(eta2) {
        (gamma1 * delta_in).max(dnorm)
    } else {
        (gamma1 * delta_in).max(gamma2 * dnorm)
    }
}

/// The decrease of the model at the angle of which `hangt` is the tangent of the half; `args`
/// holds the curvatures along `s` and the reduced step, the mixed one, and the two slopes.
pub fn interval_fun_trsbox(hangt: F64, args: &[F64]) -> (r: F64)
    requires
        args@.len() == 5,
    ensures
        r == arc_value(hangt, args@),
{
    if hangt.abs().gt(zero()) {
        let sth: F64 = (hangt + hangt) / (one() + hangt * hangt);
        let f: F64 = args[0] + hangt * (hangt * args[1] - args[2] - args[2]);
        sth * (hangt * args[3] - args[4] - half() * sth * f)
    } else {
        zero()
    }
}

/// The inner product over the free variables.
fn masked_inprod(x: &[F64], y: &[F64], xbdi: &[i32]) -> (r: F64)
    requires
        x@.len() == y@.len(),
        x@.len() == xbdi@.len(),
    ensures
        r == free_dot(x@, y@, xbdi@),
{
    let mut acc: F64 = zero();
    for i in 0..x.len()
        invariant
            x@.len() == y@.len(),
            x@.len() == xbdi@.len(),
            acc == free_dot_from(x@, y@, xbdi@, i as nat),
    {
        if xbdi[i] == FREE {
            acc = acc + x[i] * y[i];
        }
    }
    acc
}

/// The sum of squares over the free variables.
fn masked_sumsq(x: &[F64], xbdi: &[i32]) -> (r: F64)
    requires
        x@.len() == xbdi@.len(),
    ensures
        r == free_dot(x@, x@, xbdi@),
{
    masked_inprod(x, x, xbdi)
}

/// The number of fixed variables.
fn count_fixed(xbdi: &[i32]) -> (r: usize)
    ensures
        r == fixed_count(xbdi@, xbdi@.len()),
        r <= xbdi@.len(),
{
    let mut count: usize = 0;
    for i in 0..xbdi.len()
        invariant
            count <= i,
            count == fixed_count(xbdi@, i as nat),
    {
        if xbdi[i] != FREE {
            count = count + 1;
        }
    }
    count
}

/// The bound that a variable with a change of the given sign runs into.
fn side(v: F64) -> (r: i32)
    ensures
        r == side_of(v),
{
    if v.is_sign_negative() {
        AT_LOWER
    } else {
        AT_UPPER
    }
}

/// Scratch space of [`trsbox`].
#[derive(Debug, Clone)]
pub struct TrsboxWs {
    /// The gradient, scaled where it is large.
    pub gopt: Vec<F64>,
    /// The coefficients of the implicit Hessian, scaled alike.
    pub pq: Vec<F64>,
    /// The explicit Hessian, scaled alike.
    pub hq: Mat,
    /// The fixed variables.
    pub xbdi: Vec<i32>,
    /// The gradient at the present step.
    pub gnew: Vec<F64>,
    /// The search direction.
    pub s: Vec<F64>,
    /// The Hessian times the search direction.
    pub hs: Vec<F64>,
    /// The Hessian times the reduced step.
    pub hdred: Vec<F64>,
    /// The reduced step.
    pub dred: Vec<F64>,
    /// The step before the last change.
    pub dold: Vec<F64>,
    /// Step lengths or tangents at which bounds are reached.
    pub reach: Vec<F64>,
    /// Products with the interpolation points.
    pub dxpt: Vec<F64>,
    /// The grid of the search on an arc.
    pub xgrid: Vec<F64>,
    /// The values on the grid.
    pub fgrid: Vec<F64>,
}

impl TrsboxWs {
    /// The buffers have the lengths for `n` variables and `npt` points.
    pub open spec fn fits(&self, n: nat, npt: nat) -> bool {
        &&& self.gopt@.len() == n
        &&& self.pq@.len() == npt
        &&& self.hq.is(n, n)
        &&& self.xbdi@.len() == n
        &&& self.gnew@.len() == n
        &&& self.s@.len() == n
        &&& self.hs@.len() == n
        &&& self.hdred@.len() == n
        &&& self.dred@.len() == n
        &&& self.dold@.len() == n
        &&& self.reach@.len() == n
        &&& self.dxpt@.len() == npt
    }

    /// Scratch space for `n` variables and `npt` points.
    pub fn new(n: usize, npt: usize) -> (r: TrsboxWs)
        ensures
            r.fits(n as nat, npt as nat),
    {
        let mut xbdi: Vec<i32> = Vec::with_capacity(n);
        for i in 0..n
            invariant
                xbdi@.len() == i,
        {
            xbdi.push(FREE);
        }
        TrsboxWs {
            gopt: zeros(n),
            pq: zeros(npt),
            hq: Mat::zeros(n, n),
            xbdi,
            gnew: zeros(n),
            s: zeros(n),
            hs: zeros(n),
            hdred: zeros(n),
            dred: zeros(n),
            dold: zeros(n),
            reach: zeros(n),
            dxpt: zeros(npt),
            xgrid: zeros(GRID_SIZE_MAX),
            fgrid: zeros(GRID_SIZE_MAX),
        }
    }
}

/// The subproblem whose scaled model the scratch space holds.
pub open spec fn problem_in(
    ws: TrsboxWs,
    sl: Seq<F64>,
    su: Seq<F64>,
    xopt: Seq<F64>,
    xpt: Seq<Seq<F64>>,
    tol: F64,
) -> Subproblem {
    Subproblem { gopt: ws.gopt@, hq: ws.hq@, pq: ws.pq@, sl, su, xopt, xpt, tol }
}

/// The vectors and matrices of a subproblem fit together.
pub open spec fn problem_shaped(
    n: nat,
    sl: Seq<F64>,
    su: Seq<F64>,
    xopt: Seq<F64>,
    xpt: &Mat,
) -> bool {
    &&& sl.len() == n
    &&& su.len() == n
    &&& xopt.len() == n
    &&& xpt.is(n, xpt@.len())
}

/// The numbers of the state of the conjugate-gradient iterations.
struct CgVars {
    crvmin: F64,
    gredsq: F64,
    delsq: F64,
    qred: F64,
    beta: F64,
    itercg: usize,
    nact: usize,
    course: Course,
}

/// The state of the conjugate-gradient iterations.
spec fn cg_in(v: CgVars, ws: TrsboxWs, d: Seq<F64>) -> Cg {
    Cg {
        d,
        s: ws.s@,
        gnew: ws.gnew@,
        xbdi: ws.xbdi@,
        crvmin: v.crvmin,
        gredsq: v.gredsq,
        delsq: v.delsq,
        qred: v.qred,
        beta: v.beta,
        itercg: v.itercg,
        nact: v.nact,
        course: v.course,
    }
}

/// Replaces the search direction by the next one.
fn turn_direction(s: &mut Vec<F64>, gnew: &[F64], xbdi: &[i32], beta: F64, restart: bool)
    requires
        gnew@.len() == old(s)@.len(),
        xbdi@.len() == old(s)@.len(),
    ensures
        final(s)@ == cg_direction(old(s)@, gnew@, xbdi@, beta, restart),
{
    let n: usize = s.len();
    let ghost s0: Seq<F64> = s@;
    let ghost goal: Seq<F64> = cg_direction(s0, gnew@, xbdi@, beta, restart);
    for i in 0..n
        invariant
            s@.len() == n,
            s0.len() == n,
            gnew@.len() == n,
            xbdi@.len() == n,
            goal == cg_direction(s0, gnew@, xbdi@, beta, restart),
            forall|j: int| 0 <= j < i ==> s@[j] == goal[j],
            forall|j: int| i <= j < n ==> s@[j] == s0[j],
    {
        s[i] = if xbdi[i] != FREE {
            zero()
        } else if restart {
            gnew[i].negated()
        } else {
            beta * s[i] - gnew[i]
        };
    }
    assert(s@ =~= goal);
}

/// The step length to the boundary of the trust region.
fn step_to_boundary(stepsq: F64, resid: F64, ds: F64) -> (r: F64)
    ensures
        r == boundary_step(stepsq, resid, ds),
{
    let sqrtd: F64 = (stepsq * resid + ds * ds).sqrt().max((stepsq * resid).sqrt()).max(ds.abs());
    if ds.ge(zero()) {
        resid / (sqrtd + ds)
    } else {
        (sqrtd - ds) / stepsq
    }
}

/// Writes the step lengths at which the variables reach their bounds into `b`.
fn bound_steps_into(
    sl: &[F64],
    su: &[F64],
    xopt: &[F64],
    d: &[F64],
    s: &[F64],
    stplen: F64,
    b: &mut Vec<F64>,
    p: Ghost<Subproblem>,
)
    requires
        sl@ == p@.sl,
        su@ == p@.su,
        xopt@ == p@.xopt,
        sl@.len() == d@.len(),
        su@.len() == d@.len(),
        xopt@.len() == d@.len(),
        s@.len() == d@.len(),
        old(b)@.len() == d@.len(),
    ensures
        final(b)@ == bound_steps(p@, d@, s@, stplen),
{
    let n: usize = d.len();
    let ghost goal: Seq<F64> = bound_steps(p@, d@, s@, stplen);
    for i in 0..n
        invariant
            n == d@.len(),
            sl@ == p@.sl,
            su@ == p@.su,
            xopt@ == p@.xopt,
            sl@.len() == n,
            su@.len() == n,
            xopt@.len() == n,
            s@.len() == n,
            b@.len() == n,
            goal == bound_steps(p@, d@, s@, stplen),
            forall|j: int| 0 <= j < i ==> b@[j] == goal[j],
    {
        let xnew: F64 = xopt[i] + d[i];
        let xtest: F64 = xnew + stplen * s[i];
        let v: F64 = if s[i].lt(zero()) && xtest.lt(sl[i]) {
            (sl[i] - xnew) / s[i]
        } else if s[i].gt(zero()) && xtest.gt(su[i]) {
            (su[i] - xnew) / s[i]
        } else {
            stplen
        };
        b[i] = if v.is_nan() {
            stplen
        } else {
            v
        };
    }
    assert(b@ =~= goal);
}

/// The first variable that the bounds stop, if one is stopped short of `limit`.
fn find_stopped(b: &[F64], limit: F64) -> (r: Option<usize>)
    ensures
        (match r {
            Some(i) => i < b@.len() && stopped_variable(b@, limit) == Some(i as int),
            None => stopped_variable(b@, limit) is None,
        }),
{
    if has_below(b, limit) {
        assert(b@.len() > 0);
        Some(argmin(b))
    } else {
        None
    }
}

/// Adds `c` times `v` to `z`.
fn advance(z: &mut Vec<F64>, c: F64, v: &[F64])
    requires
        v@.len() == old(z)@.len(),
    ensures
        final(z)@ == Seq::new(old(z)@.len(), |i: int| old(z)@[i] + c * v@[i]),
{
    let n: usize = z.len();
    for i in 0..n
        invariant
            z@.len() == n,
            n == old(z)@.len(),
            v@.len() == n,
            forall|j: int| 0 <= j < i ==> z@[j] == old(z)@[j] + c * v@[j],
            forall|j: int| i <= j < n ==> z@[j] == old(z)@[j],
    {
        z[i] = z[i] + c * v[i];
    }
    assert(z@ =~= Seq::new(old(z)@.len(), |i: int| old(z)@[i] + c * v@[i]));
}

/// What follows a conjugate-gradient step.
fn follow_step(
    tol: F64,
    d: &[F64],
    s: &[F64],
    gnew: &[F64],
    xbdi: &mut Vec<i32>,
    v: &mut CgVars,
    iact: Option<usize>,
    stplen: F64,
    bstep: F64,
    ggsav: F64,
    sdec: F64,
    p: Ghost<Subproblem>,
    c: Ghost<Cg>,
)
    requires
        tol == p@.tol,
        c@ == (Cg {
            d: d@,
            s: s@,
            gnew: gnew@,
            xbdi: old(xbdi)@,
            crvmin: old(v).crvmin,
            gredsq: old(v).gredsq,
            delsq: old(v).delsq,
            qred: old(v).qred,
            beta: old(v).beta,
            itercg: old(v).itercg,
            nact: old(v).nact,
            course: old(v).course,
        }),
        old(v).course == Course::Running,
        old(v).nact < d@.len(),
        d@.len() <= usize::MAX,
        s@.len() == d@.len(),
        gnew@.len() == d@.len(),
        old(xbdi)@.len() == d@.len(),
        iact matches Some(ia) ==> ia < d@.len(),
    ensures
        ({
            let target = match iact {
                Some(ia) => Some(ia as int),
                None => None,
            };
            (Cg {
                d: d@,
                s: s@,
                gnew: gnew@,
                xbdi: final(xbdi)@,
                crvmin: final(v).crvmin,
                gredsq: final(v).gredsq,
                delsq: final(v).delsq,
                qred: final(v).qred,
                beta: final(v).beta,
                itercg: final(v).itercg,
                nact: final(v).nact,
                course: final(v).course,
            }) == cg_branch(p@, c@, target, stplen, bstep, ggsav, sdec)
        }),
        final(xbdi)@.len() == d@.len(),
        final(v).nact <= d@.len(),
        final(v).course != Course::Stopped ==> final(v).nact < d@.len(),
        final(v).itercg <= old(v).itercg,
{
    let n: usize = d.len();
    match iact {
        Some(ia) => {
            v.nact = v.nact + 1;
            xbdi[ia] = side(s[ia]);
            if v.nact >= n {
                v.course = Course::Stopped;
                return;
            }
            v.delsq = v.delsq - d[ia] * d[ia];
            if v.delsq.le(zero()) {
                v.course = Course::Boundary;
                return;
            }
            v.beta = zero();
            v.itercg = 0;
            v.gredsq = masked_sumsq(gnew, xbdi);
        },
        None => {
            if stplen.lt(bstep) {
                if v.itercg >= n - v.nact || sdec.le(tol * v.qred) || sdec.is_nan()
                    || v.qred.is_nan() {
                    v.course = Course::Stopped;
                } else {
                    v.beta = v.gredsq / ggsav;
                }
            } else {
                v.course = Course::Boundary;
            }
        },
    }
}

/// One conjugate-gradient iteration.
fn cg_iterate(
    sl: &[F64],
    su: &[F64],
    xopt: &[F64],
    xpt: &Mat,
    tol: F64,
    d: &mut Vec<F64>,
    ws: &mut TrsboxWs,
    v: &mut CgVars,
)
    requires
        problem_shaped(old(d)@.len(), sl@, su@, xopt@, xpt),
        old(ws).fits(old(d)@.len(), xpt@.len()),
        old(v).course == Course::Running,
        old(v).nact < old(d)@.len(),
        old(v).itercg < usize::MAX,
    ensures
        cg_in(*final(v), *final(ws), final(d)@) == cg_step(
            problem_in(*old(ws), sl@, su@, xopt@, xpt@, tol),
            cg_in(*old(v), *old(ws), old(d)@),
        ),
        final(d)@.len() == old(d)@.len(),
        final(ws).fits(final(d)@.len(), xpt@.len()),
        final(ws).gopt@ == old(ws).gopt@,
        final(ws).pq@ == old(ws).pq@,
        final(ws).hq@ == old(ws).hq@,
        final(v).nact <= final(d)@.len(),
        final(v).course != Course::Stopped ==> final(v).nact < final(d)@.len(),
        final(v).itercg <= old(v).itercg + 1,
{
    let ghost p: Subproblem = problem_in(*ws, sl@, su@, xopt@, xpt@, tol);
    let ghost c: Cg = cg_in(*v, *ws, d@);
    let resid: F64 = v.delsq - masked_sumsq(d, &ws.xbdi);
    if resid.le(zero()) {
        v.course = Course::Boundary;
        return;
    }
    turn_direction(&mut ws.s, &ws.gnew, &ws.xbdi, v.beta, v.itercg == 0);
    let stepsq: F64 = inprod(&ws.s, &ws.s);
    let ds: F64 = masked_inprod(d, &ws.s, &ws.xbdi);
    if !(stepsq.gt(epsilon() * v.delsq) && (v.gredsq * v.delsq).gt((tol * v.qred) * (tol * v.qred))
        && !ds.is_nan()) {
        v.course = Course::Stopped;
        return;
    }
    let bstep: F64 = step_to_boundary(stepsq, resid, ds);
    if bstep.le(zero()) || !bstep.is_finite() {
        v.course = Course::Stopped;
        return;
    }
    hess_mul_into(&ws.s, xpt, &ws.pq, Some(&ws.hq), &mut ws.dxpt, &mut ws.hs);
    let shs: F64 = masked_inprod(&ws.s, &ws.hs, &ws.xbdi);
    let full: F64 = if shs.gt(zero()) {
        bstep.min(v.gredsq / shs)
    } else {
        bstep
    };
    bound_steps_into(sl, su, xopt, d, &ws.s, full, &mut ws.reach, Ghost(p));
    let iact: Option<usize> = find_stopped(&ws.reach, full);
    let stplen: F64 = match iact {
        Some(ia) => ws.reach[ia],
        None => full,
    };
    let ggsav: F64 = v.gredsq;
    let mut sdec: F64 = zero();
    if stplen.gt(zero()) {
        v.itercg = v.itercg + 1;
        let rayleighq: F64 = shs / stepsq;
        if iact.is_none() && rayleighq.gt(zero()) {
            if v.crvmin.le(neg_realmax()) {
                v.crvmin = rayleighq;
            } else {
                v.crvmin = v.crvmin.min(rayleighq);
            }
        }
        advance(&mut ws.gnew, stplen, &ws.hs);
        v.gredsq = masked_sumsq(&ws.gnew, &ws.xbdi);
        copy(&mut ws.dold, d);
        advance(d, stplen, &ws.s);
        if !sum_abs(d).is_finite() {
            copy(d, &ws.dold);
            v.course = Course::Stopped;
            return;
        }
        sdec = (stplen * (ggsav - half() * stplen * shs)).max(zero());
        v.qred = v.qred + sdec;
    }
    let ghost now: Cg = cg_in(*v, *ws, d@);
    follow_step(
        tol,
        d,
        &ws.s,
        &ws.gnew,
        &mut ws.xbdi,
        v,
        iact,
        stplen,
        bstep,
        ggsav,
        sdec,
        Ghost(p),
        Ghost(now),
    );
}

/// The numbers of the state of the searches on the boundary.
struct ArcVars {
    dredsq: F64,
    qred: F64,
    nactsav: usize,
    first: bool,
    ended: bool,
}

/// The state of the searches on the boundary.
spec fn arc_in(v: ArcVars, ws: TrsboxWs, d: Seq<F64>) -> Arc {
    Arc {
        d,
        gnew: ws.gnew@,
        hdred: ws.hdred@,
        xbdi: ws.xbdi@,
        dredsq: v.dredsq,
        qred: v.qred,
        nactsav: v.nactsav,
        first: v.first,
        ended: v.ended,
    }
}

/// Adds the variables that have reached a bound at `d` to the fixed ones.
fn fix_reached(
    sl: &[F64],
    su: &[F64],
    xopt: &[F64],
    d: &[F64],
    xbdi: &mut Vec<i32>,
    p: Ghost<Subproblem>,
)
    requires
        sl@ == p@.sl,
        su@ == p@.su,
        xopt@ == p@.xopt,
        sl@.len() == d@.len(),
        su@.len() == d@.len(),
        xopt@.len() == d@.len(),
        old(xbdi)@.len() == d@.len(),
    ensures
        final(xbdi)@ == fixed_at(p@, d@, old(xbdi)@),
{
    let n: usize = d.len();
    let ghost x0: Seq<i32> = xbdi@;
    let ghost goal: Seq<i32> = fixed_at(p@, d@, x0);
    for i in 0..n
        invariant
            n == d@.len(),
            sl@ == p@.sl,
            su@ == p@.su,
            xopt@ == p@.xopt,
            sl@.len() == n,
            su@.len() == n,
            xopt@.len() == n,
            xbdi@.len() == n,
            x0.len() == n,
            goal == fixed_at(p@, d@, x0),
            forall|j: int| 0 <= j < i ==> xbdi@[j] == goal[j],
            forall|j: int| i <= j < n ==> xbdi@[j] == x0[j],
    {
        if xbdi[i] == FREE {
            let x: F64 = xopt[i] + d[i];
            if x.ge(su[i]) {
                xbdi[i] = AT_UPPER;
            } else if x.le(sl[i]) {
                xbdi[i] = AT_LOWER;
            }
        }
    }
    assert(xbdi@ =~= goal);
}

/// Writes the part of `d` in the free variables into `dred`.
fn free_part_into(d: &[F64], xbdi: &[i32], dred: &mut Vec<F64>)
    requires
        xbdi@.len() == d@.len(),
        old(dred)@.len() == d@.len(),
    ensures
        final(dred)@ == free_part(d@, xbdi@),
{
    for i in 0..d.len()
        invariant
            xbdi@.len() == d@.len(),
            dred@.len() == d@.len(),
            forall|j: int| 0 <= j < i ==> dred@[j] == free_part(d@, xbdi@)[j],
    {
        dred[i] = if xbdi[i] != FREE {
            zero()
        } else {
            d[i]
        };
    }
    assert(dred@ =~= free_part(d@, xbdi@));
}

/// Writes the direction of a search on the boundary into `s`.
fn arc_direction_into(
    d: &[F64],
    gnew: &[F64],
    xbdi: &[i32],
    dredg: F64,
    dredsq: F64,
    temp: F64,
    s: &mut Vec<F64>,
)
    requires
        gnew@.len() == d@.len(),
        xbdi@.len() == d@.len(),
        old(s)@.len() == d@.len(),
    ensures
        final(s)@ == arc_direction(d@, gnew@, xbdi@, dredg, dredsq, temp),
{
    let ghost goal: Seq<F64> = arc_direction(d@, gnew@, xbdi@, dredg, dredsq, temp);
    for i in 0..d.len()
        invariant
            gnew@.len() == d@.len(),
            xbdi@.len() == d@.len(),
            s@.len() == d@.len(),
            goal == arc_direction(d@, gnew@, xbdi@, dredg, dredsq, temp),
            forall|j: int| 0 <= j < i ==> s@[j] == goal[j],
    {
        s[i] = if xbdi[i] != FREE {
            zero()
        } else {
            (dredg * d[i] - dredsq * gnew[i]) / temp
        };
    }
    assert(s@ =~= goal);
}

/// The square root of the discriminant of the angle at which a bound is reached.
fn discriminant_root(free: bool, gap: F64, ssq: F64) -> (r: F64)
    ensures
        r == (if free && gap < root_of(ssq) {
            root_of(max_of(zero(), ssq - gap * gap))
        } else {
            neg_realmax()
        }),
{
    if free && gap.lt(ssq.sqrt()) {
        zero().max(ssq - gap * gap).sqrt()
    } else {
        neg_realmax()
    }
}

/// Writes the tangents of half the angles at which the variables reach their bounds into `t`.
fn tangents_into(
    sl: &[F64],
    su: &[F64],
    xopt: &[F64],
    d: &[F64],
    s: &[F64],
    xbdi: &[i32],
    t: &mut Vec<F64>,
    p: Ghost<Subproblem>,
)
    requires
        sl@ == p@.sl,
        su@ == p@.su,
        xopt@ == p@.xopt,
        sl@.len() == d@.len(),
        su@.len() == d@.len(),
        xopt@.len() == d@.len(),
        s@.len() == d@.len(),
        xbdi@.len() == d@.len(),
        old(t)@.len() == d@.len(),
    ensures
        final(t)@ == tangents(p@, d@, s@, xbdi@),
{
    let n: usize = d.len();
    let ghost goal: Seq<F64> = tangents(p@, d@, s@, xbdi@);
    for i in 0..n
        invariant
            n == d@.len(),
            sl@ == p@.sl,
            su@ == p@.su,
            xopt@ == p@.xopt,
            sl@.len() == n,
            su@.len() == n,
            xopt@.len() == n,
            s@.len() == n,
            xbdi@.len() == n,
            t@.len() == n,
            goal == tangents(p@, d@, s@, xbdi@),
            forall|j: int| 0 <= j < i ==> t@[j] == goal[j],
    {
        let ssq: F64 = d[i] * d[i] + s[i] * s[i];
        let xnew: F64 = xopt[i] + d[i];
        let free: bool = xbdi[i] == FREE;
        let below: F64 = discriminant_root(free, xopt[i] - sl[i], ssq);
        let mut v: F64 = one();
        if (below - s[i]).gt(zero()) {
            v = v.min((xnew - sl[i]) / (below - s[i]));
        }
        let above: F64 = discriminant_root(free, su[i] - xopt[i], ssq);
        if (above + s[i]).gt(zero()) {
            v = v.min((su[i] - xnew) / (above + s[i]));
        }
        t[i] = if v.is_nan() {
            zero()
        } else {
            v
        };
    }
    assert(t@ =~= goal);
}

/// Gives the vector the length `n`, within its capacity where it has one.
fn fit_length(v: &mut Vec<F64>, n: usize)
    ensures
        final(v)@.len() == n,
{
    if v.len() > n {
        v.truncate(n);
    }
    while v.len() < n
        invariant
            v@.len() <= n,
        decreases n - v@.len(),
    {
        v.push(zero());
    }
}

/// The size of the grid on an interval of the given length.
fn grid_size(hangt_bd: F64) -> (r: usize)
    ensures
        r == grid_size_of(hangt_bd),
{
    let k: usize = (seventeen() * hangt_bd + grid_offset()).round_to_usize();
    if k <= usize::MAX / 2 {
        2 * k
    } else {
        usize::MAX
    }
}

/// The approximate maximizer of the decrease on the interval from zero to `hangt_bd`.
fn find_tangent(hangt_bd: F64, args: &[F64], xgrid: &mut Vec<F64>, fgrid: &mut Vec<F64>) -> (r: F64)
    requires
        args@.len() == 5,
    ensures
        r == best_tangent(hangt_bd, args@),
{
    let size: usize = grid_size(hangt_bd);
    fit_length(xgrid, size);
    fit_length(fgrid, size);
    let r: F64 = interval_max(interval_fun_trsbox, zero(), hangt_bd, args, size, xgrid, fgrid);
    proof {
        let n = size as nat;
        let vals = Seq::new(n, |k: int| arc_value(grid_point(zero(), hangt_bd, n, k), args@));
        if !(hangt_bd <= zero()) {
            assert forall|k: int| 0 <= k < n implies fgrid@[k] == vals[k] by {
                assert(call_ensures(
                    interval_fun_trsbox,
                    (grid_point(zero(), hangt_bd, n, k), args),
                    fgrid@[k],
                ));
            }
            assert(fgrid@ =~= vals);
        }
    }
    r
}

/// The cosine of the angle of which `hangt` is the tangent of the half.
fn cos_of(hangt: F64) -> (r: F64)
    ensures
        r == cosine(hangt),
{
    ((one() - hangt * hangt) / (one() + hangt * hangt)).min(one() - hangt * hangt)
}

/// The sine of the angle of which `hangt` is the tangent of the half.
fn sin_of(hangt: F64) -> (r: F64)
    ensures
        r == sine(hangt),
{
    ((hangt + hangt) / (one() + hangt * hangt)).min(hangt + hangt)
}

/// Turns the step, and the gradient and the Hessian product with it.
fn turn_step(
    sl: &[F64],
    su: &[F64],
    xopt: &[F64],
    tol: F64,
    d: &mut Vec<F64>,
    ws: &mut TrsboxWs,
    v: &mut ArcVars,
    iact: Option<usize>,
    hangt: F64,
    hangt_bd: F64,
    sdec: F64,
    p: Ghost<Subproblem>,
)
    requires
        p@.sl == sl@,
        p@.su == su@,
        p@.xopt == xopt@,
        p@.tol == tol,
        sl@.len() == old(d)@.len(),
        su@.len() == old(d)@.len(),
        xopt@.len() == old(d)@.len(),
        old(ws).fits(old(d)@.len(), p@.xpt.len()),
        iact matches Some(ia) ==> ia < old(d)@.len(),
        !old(v).ended,
    ensures
        ({
            let target = match iact {
                Some(ia) => Some(ia as int),
                None => None,
            };
            arc_in(*final(v), *final(ws), final(d)@) == arc_turn(
                p@,
                arc_in(*old(v), *old(ws), old(d)@),
                old(ws).s@,
                old(ws).hs@,
                target,
                hangt,
                hangt_bd,
                sdec,
            )
        }),
        final(d)@.len() == old(d)@.len(),
        final(ws).fits(final(d)@.len(), p@.xpt.len()),
        final(ws).gopt@ == old(ws).gopt@,
        final(ws).pq@ == old(ws).pq@,
        final(ws).hq@ == old(ws).hq@,
{
    let n: usize = d.len();
    let cth: F64 = cos_of(hangt);
    let sth: F64 = sin_of(hangt);
    let ghost a: Arc = arc_in(*v, *ws, d@);
    let ghost s: Seq<F64> = ws.s@;
    let ghost hs: Seq<F64> = ws.hs@;
    let ghost gnew: Seq<F64> = Seq::new(
        n as nat,
        |i: int| a.gnew[i] + (cth - one()) * a.hdred[i] + sth * hs[i],
    );
    for i in 0..n
        invariant
            n == a.gnew.len(),
            ws.fits(n as nat, p@.xpt.len()),
            ws.gopt@ == old(ws).gopt@,
            ws.pq@ == old(ws).pq@,
            ws.hq@ == old(ws).hq@,
            ws.hdred@ == a.hdred,
            ws.xbdi@ == a.xbdi,
            ws.s@ == s,
            ws.hs@ == hs,
            gnew == Seq::new(
                n as nat,
                |i: int| a.gnew[i] + (cth - one()) * a.hdred[i] + sth * hs[i],
            ),
            forall|j: int| 0 <= j < i ==> ws.gnew@[j] == gnew[j],
            forall|j: int| i <= j < n ==> ws.gnew@[j] == a.gnew[j],
    {
        ws.gnew[i] = ws.gnew[i] + (cth - one()) * ws.hdred[i] + sth * ws.hs[i];
    }
    assert(ws.gnew@ =~= gnew);
    copy(&mut ws.dold, d);
    let ghost dnew: Seq<F64> = Seq::new(
        n as nat,
        |i: int|
            if a.xbdi[i] == FREE {
                cth * a.d[i] + sth * s[i]
            } else {
                a.d[i]
            },
    );
    for i in 0..n
        invariant
            n == a.d.len(),
            d@.len() == n,
            ws.xbdi@.len() == n,
            ws.s@.len() == n,
            ws.xbdi@ == a.xbdi,
            ws.s@ == s,
            dnew == Seq::new(
                n as nat,
                |i: int|
                    if a.xbdi[i] == FREE {
                        cth * a.d[i] + sth * s[i]
                    } else {
                        a.d[i]
                    },
            ),
            forall|j: int| 0 <= j < i ==> d@[j] == dnew[j],
            forall|j: int| i <= j < n ==> d@[j] == a.d[j],
    {
        if ws.xbdi[i] == FREE {
            d[i] = cth * d[i] + sth * ws.s[i];
        }
    }
    assert(d@ =~= dnew);
    if !sum_abs(d).is_finite() {
        copy(d, &ws.dold);
        v.ended = true;
        return;
    }
    let ghost hdred: Seq<F64> = Seq::new(n as nat, |i: int| cth * a.hdred[i] + sth * hs[i]);
    for i in 0..n
        invariant
            n == a.hdred.len(),
            ws.fits(n as nat, p@.xpt.len()),
            ws.gopt@ == old(ws).gopt@,
            ws.pq@ == old(ws).pq@,
            ws.hq@ == old(ws).hq@,
            ws.gnew@ == gnew,
            ws.xbdi@ == a.xbdi,
            ws.hs@ == hs,
            hdred == Seq::new(n as nat, |i: int| cth * a.hdred[i] + sth * hs[i]),
            forall|j: int| 0 <= j < i ==> ws.hdred@[j] == hdred[j],
            forall|j: int| i <= j < n ==> ws.hdred@[j] == a.hdred[j],
    {
        ws.hdred[i] = cth * ws.hdred[i] + sth * ws.hs[i];
    }
    assert(ws.hdred@ =~= hdred);
    v.qred = v.qred + sdec;
    let more: bool = sdec.gt(tol * v.qred);
    match iact {
        Some(ia) => {
            if hangt.ge(hangt_bd) {
                ws.xbdi[ia] = side(xopt[ia] + d[ia] - half() * (sl[ia] + su[ia]));
            } else {
                v.ended = !more;
            }
        },
        None => {
            v.ended = !more;
        },
    }
}

/// One search on the boundary of the trust region.
fn arc_iterate(
    sl: &[F64],
    su: &[F64],
    xopt: &[F64],
    xpt: &Mat,
    tol: F64,
    d: &mut Vec<F64>,
    ws: &mut TrsboxWs,
    v: &mut ArcVars,
)
    requires
        problem_shaped(old(d)@.len(), sl@, su@, xopt@, xpt),
        old(ws).fits(old(d)@.len(), xpt@.len()),
        old(d)@.len() > 0,
        !old(v).ended,
    ensures
        arc_in(*final(v), *final(ws), final(d)@) == arc_step(
            problem_in(*old(ws), sl@, su@, xopt@, xpt@, tol),
            arc_in(*old(v), *old(ws), old(d)@),
        ),
        final(d)@.len() == old(d)@.len(),
        final(ws).fits(final(d)@.len(), xpt@.len()),
        final(ws).gopt@ == old(ws).gopt@,
        final(ws).pq@ == old(ws).pq@,
        final(ws).hq@ == old(ws).hq@,
{
    let n: usize = d.len();
    let ghost p: Subproblem = problem_in(*ws, sl@, su@, xopt@, xpt@, tol);
    fix_reached(sl, su, xopt, d, &mut ws.xbdi, Ghost(p));
    let nact: usize = count_fixed(&ws.xbdi);
    if nact >= n - 1 {
        v.ended = true;
        return;
    }
    let gredsq: F64 = masked_sumsq(&ws.gnew, &ws.xbdi);
    let dredg: F64 = masked_inprod(d, &ws.gnew, &ws.xbdi);
    if v.first || nact > v.nactsav {
        v.dredsq = masked_sumsq(d, &ws.xbdi);
        free_part_into(d, &ws.xbdi, &mut ws.dred);
        hess_mul_into(&ws.dred, xpt, &ws.pq, Some(&ws.hq), &mut ws.dxpt, &mut ws.hdred);
        v.nactsav = nact;
        v.first = false;
    }
    let temp: F64 = gredsq * v.dredsq - dredg * dredg;
    if !temp.gt(tol * tol * (gredsq * v.dredsq).max(v.qred * v.qred)) {
        v.ended = true;
        return;
    }
    let r: F64 = temp.sqrt();
    arc_direction_into(d, &ws.gnew, &ws.xbdi, dredg, v.dredsq, r, &mut ws.s);
    let sredg: F64 = r.negated();
    tangents_into(sl, su, xopt, d, &ws.s, &ws.xbdi, &mut ws.reach, Ghost(p));
    let iact: Option<usize> = find_stopped(&ws.reach, one());
    let hangt_bd: F64 = match iact {
        Some(ia) => ws.reach[ia],
        None => one(),
    };
    if hangt_bd.le(zero()) {
        v.ended = true;
        return;
    }
    hess_mul_into(&ws.s, xpt, &ws.pq, Some(&ws.hq), &mut ws.dxpt, &mut ws.hs);
    let shs: F64 = masked_inprod(&ws.s, &ws.hs, &ws.xbdi);
    let dhs: F64 = masked_inprod(d, &ws.hs, &ws.xbdi);
    let dhd: F64 = masked_inprod(d, &ws.hdred, &ws.xbdi);
    let args: [F64; 5] = [shs, dhd, dhs, dredg, sredg];
    assert(args@ =~= seq![shs, dhd, dhs, dredg, sredg]);
    if has_nan(&args) {
        v.ended = true;
        return;
    }
    let hangt: F64 = find_tangent(hangt_bd, &args, &mut ws.xgrid, &mut ws.fgrid);
    let sdec: F64 = interval_fun_trsbox(hangt, &args);
    if !sdec.gt(zero()) {
        v.ended = true;
        return;
    }
    turn_step(sl, su, xopt, tol, d, ws, v, iact, hangt, hangt_bd, sdec, Ghost(p));
}

/// Loads the model into the scratch space, scaled where its gradient is large, and returns the
/// scale.
fn load_model(gopt_in: &[F64], hq_in: &Mat, pq_in: &[F64], ws: &mut TrsboxWs) -> (r: Option<F64>)
    requires
        old(ws).fits(gopt_in@.len(), pq_in@.len()),
        hq_in.is(gopt_in@.len(), gopt_in@.len()),
    ensures
        final(ws).fits(gopt_in@.len(), pq_in@.len()),
        (match r {
            Some(c) => {
                &&& needs_scaling(gopt_in@)
                &&& c == model_scale(gopt_in@)
                &&& final(ws).gopt@ == scaled(gopt_in@, c)
                &&& final(ws).pq@ == scaled(pq_in@, c)
                &&& final(ws).hq@ == Seq::new(hq_in@.len(), |j: int| scaled(hq_in@[j], c))
            },
            None => {
                &&& !needs_scaling(gopt_in@)
                &&& final(ws).gopt@ == gopt_in@
                &&& final(ws).pq@ == pq_in@
                &&& final(ws).hq@ == hq_in@
            },
        }),
{
    let n: usize = gopt_in.len();
    let largest: F64 = largest_abs(gopt_in);
    copy(&mut ws.gopt, gopt_in);
    copy(&mut ws.pq, pq_in);
    ws.hq.copy_from(hq_in);
    if largest.gt(gradient_ceiling()) {
        let c: F64 = (two() * realmin()).max(one() / largest);
        scale(&mut ws.gopt, c);
        scale(&mut ws.pq, c);
        for j in 0..n
            invariant
                n == gopt_in@.len(),
                hq_in.is(n as nat, n as nat),
                ws.fits(n as nat, pq_in@.len()),
                ws.gopt@ == scaled(gopt_in@, c),
                ws.pq@ == scaled(pq_in@, c),
                forall|k: int| 0 <= k < j ==> #[trigger] ws.hq@[k] == scaled(hq_in@[k], c),
                forall|k: int| j <= k < n ==> #[trigger] ws.hq@[k] == hq_in@[k],
        {
            let ghost now: Seq<Seq<F64>> = ws.hq@;
            assert(now[j as int].len() == n);
            scale(&mut ws.hq.cols[j], c);
            assert(ws.hq@ =~= now.update(j as int, scaled(now[j as int], c)));
        }
        assert(ws.hq@ =~= Seq::new(hq_in@.len(), |j: int| scaled(hq_in@[j], c)));
        Some(c)
    } else {
        None
    }
}

/// Fixes the variables at a bound that the gradient pushes out.
fn fix_at_start(
    sl: &[F64],
    su: &[F64],
    xopt: &[F64],
    gopt: &[F64],
    xbdi: &mut Vec<i32>,
    p: Ghost<Subproblem>,
)
    requires
        sl@ == p@.sl,
        su@ == p@.su,
        xopt@ == p@.xopt,
        gopt@ == p@.gopt,
        sl@.len() == gopt@.len(),
        su@.len() == gopt@.len(),
        xopt@.len() == gopt@.len(),
        old(xbdi)@.len() == gopt@.len(),
    ensures
        final(xbdi)@ == fixed_at_start(p@),
{
    let n: usize = gopt.len();
    let ghost goal: Seq<i32> = fixed_at_start(p@);
    for i in 0..n
        invariant
            n == gopt@.len(),
            sl@ == p@.sl,
            su@ == p@.su,
            xopt@ == p@.xopt,
            gopt@ == p@.gopt,
            sl@.len() == n,
            su@.len() == n,
            xopt@.len() == n,
            xbdi@.len() == n,
            goal == fixed_at_start(p@),
            forall|j: int| 0 <= j < i ==> xbdi@[j] == goal[j],
    {
        xbdi[i] = if xopt[i].le(sl[i]) && gopt[i].ge(zero()) {
            AT_LOWER
        } else if xopt[i].ge(su[i]) && gopt[i].le(zero()) {
            AT_UPPER
        } else {
            FREE
        };
    }
    assert(xbdi@ =~= goal);
}

/// The largest number of conjugate-gradient iterations with `k` free variables.
fn cg_iterations(k: usize) -> (r: usize)
    ensures
        r == cg_limit(k as nat),
        r <= 10000,
        r > 0 ==> k > 0,
{
    if k >= 100 {
        assert(k * k >= 10000) by (nonlinear_arith)
            requires
                k >= 100,
        ;
        10000
    } else {
        assert(k * k < 10000) by (nonlinear_arith)
            requires
                k < 100,
        ;
        assert(k * k > 0 ==> k > 0) by (nonlinear_arith);
        k * k
    }
}

/// Replaces `d` by the difference of the final point and `xopt`.
fn settle(
    sl: &[F64],
    su: &[F64],
    xopt: &[F64],
    xbdi: &[i32],
    d: &mut Vec<F64>,
    p: Ghost<Subproblem>,
)
    requires
        sl@ == p@.sl,
        su@ == p@.su,
        xopt@ == p@.xopt,
        sl@.len() == old(d)@.len(),
        su@.len() == old(d)@.len(),
        xopt@.len() == old(d)@.len(),
        xbdi@.len() == old(d)@.len(),
    ensures
        final(d)@ == Seq::new(
            old(d)@.len(),
            |i: int| settled(p@, old(d)@, xbdi@)[i] - p@.xopt[i],
        ),
{
    let n: usize = d.len();
    let ghost d0: Seq<F64> = d@;
    let ghost goal: Seq<F64> = Seq::new(
        d0.len(),
        |i: int| settled(p@, d0, xbdi@)[i] - p@.xopt[i],
    );
    for i in 0..n
        invariant
            n == d@.len(),
            n == d0.len(),
            sl@ == p@.sl,
            su@ == p@.su,
            xopt@ == p@.xopt,
            sl@.len() == n,
            su@.len() == n,
            xopt@.len() == n,
            xbdi@.len() == n,
            goal == Seq::new(d0.len(), |i: int| settled(p@, d0, xbdi@)[i] - p@.xopt[i]),
            forall|j: int| 0 <= j < i ==> d@[j] == goal[j],
            forall|j: int| i <= j < n ==> d@[j] == d0[j],
    {
        let x: F64 = if xbdi[i] == AT_UPPER {
            su[i]
        } else if xbdi[i] == AT_LOWER {
            sl[i]
        } else {
            (xopt[i] + d[i]).min(su[i]).max(sl[i])
        };
        d[i] = x - xopt[i];
    }
    assert(d@ =~= goal);
}

/// Writes an approximate minimizer of the model, in the trust region of radius `delta` about
/// `xopt` and between the bounds, minus `xopt` into `d`, and returns the least curvature met.
pub fn trsbox(
    delta: F64,
    gopt_in: &[F64],
    hq_in: &Mat,
    pq_in: &[F64],
    sl: &[F64],
    su: &[F64],
    tol: F64,
    xopt: &[F64],
    xpt: &Mat,
    d: &mut Vec<F64>,
    ws: &mut TrsboxWs,
) -> (crvmin: F64)
    requires
        gopt_in@.len() > 0,
        gopt_in@.len() * 10 <= usize::MAX,
        old(d)@.len() == gopt_in@.len(),
        problem_shaped(gopt_in@.len(), sl@, su@, xopt@, xpt),
        xpt@.len() == pq_in@.len(),
        hq_in.is(gopt_in@.len(), gopt_in@.len()),
        old(ws).fits(gopt_in@.len(), pq_in@.len()),
    ensures
        ({
            let p = Subproblem {
                gopt: gopt_in@,
                hq: hq_in@,
                pq: pq_in@,
                sl: sl@,
                su: su@,
                xopt: xopt@,
                xpt: xpt@,
                tol,
            };
            &&& final(d)@ == trial_step(p, delta)
            &&& crvmin == least_curvature(p, delta)
        }),
        final(d)@.len() == gopt_in@.len(),
        final(ws).fits(gopt_in@.len(), pq_in@.len()),
{
    let n: usize = gopt_in.len();
    let ghost p0: Subproblem = Subproblem {
        gopt: gopt_in@,
        hq: hq_in@,
        pq: pq_in@,
        sl: sl@,
        su: su@,
        xopt: xopt@,
        xpt: xpt@,
        tol,
    };
    let ghost p: Subproblem = scaled_problem(p0);
    let scaling: Option<F64> = load_model(gopt_in, hq_in, pq_in, ws);
    assert(p == problem_in(*ws, sl@, su@, xopt@, xpt@, tol));
    fix_at_start(sl, su, xopt, &ws.gopt, &mut ws.xbdi, Ghost(p));
    let nact: usize = count_fixed(&ws.xbdi);
    fill(d, zero());
    fill(&mut ws.s, zero());
    copy(&mut ws.gnew, &ws.gopt);
    let mut v: CgVars = CgVars {
        crvmin: neg_realmax(),
        gredsq: masked_sumsq(&ws.gnew, &ws.xbdi),
        delsq: delta * delta,
        qred: zero(),
        beta: zero(),
        itercg: 0,
        nact,
        course: Course::Running,
    };
    let ghost start: Cg = cg_start(p, delta);
    assert(cg_in(v, *ws, d@) == start);
    let maxiter: usize = cg_iterations(n - nact);
    let mut iter: usize = 0;
    while iter < maxiter && v.course == Course::Running
        invariant
            problem_shaped(n as nat, sl@, su@, xopt@, xpt),
            xpt@.len() == pq_in@.len(),
            ws.fits(n as nat, xpt@.len()),
            d@.len() == n,
            p == problem_in(*ws, sl@, su@, xopt@, xpt@, tol),
            maxiter <= 10000,
            iter <= maxiter,
            v.itercg <= iter,
            v.nact <= n,
            v.course == Course::Running && maxiter > 0 ==> v.nact < n,
            v.course == Course::Boundary ==> v.nact < n,
            cg_run(p, start, maxiter as nat) == cg_run(p, cg_in(v, *ws, d@), (maxiter - iter) as nat),
        decreases maxiter - iter,
    {
        cg_iterate(sl, su, xopt, xpt, tol, d, ws, &mut v);
        iter = iter + 1;
    }
    let ghost c: Cg = cg_in(v, *ws, d@);
    assert(c == cg_end(p, delta));
    let mut arcs: usize = 0;
    if v.course == Course::Boundary {
        arcs = 10 * (n - v.nact);
        v.crvmin = zero();
    }
    fill(&mut ws.hdred, zero());
    let mut a: ArcVars = ArcVars {
        dredsq: zero(),
        qred: v.qred,
        nactsav: 0,
        first: true,
        ended: false,
    };
    assert(arc_in(a, *ws, d@) == arc_start(c));
    let mut iter1: usize = 0;
    while iter1 < arcs && !a.ended
        invariant
            n > 0,
            problem_shaped(n as nat, sl@, su@, xopt@, xpt),
            ws.fits(n as nat, xpt@.len()),
            d@.len() == n,
            p == problem_in(*ws, sl@, su@, xopt@, xpt@, tol),
            iter1 <= arcs,
            arc_run(p, arc_start(c), arcs as nat) == arc_run(
                p,
                arc_in(a, *ws, d@),
                (arcs - iter1) as nat,
            ),
        decreases arcs - iter1,
    {
        arc_iterate(sl, su, xopt, xpt, tol, d, ws, &mut a);
        iter1 = iter1 + 1;
    }
    assert(arc_in(a, *ws, d@) == arcs_after(p, c));
    settle(sl, su, xopt, &ws.xbdi, d, Ghost(p));
    assert(d@ =~= trial_step(p0, delta));
    let mut crvmin: F64 = v.crvmin;
    if crvmin.le(neg_realmax()) || crvmin.is_nan() {
        crvmin = zero();
    }
    match scaling {
        Some(c1) => {
            if crvmin.gt(zero()) {
                crvmin = crvmin / c1;
            }
        },
        None => {},
    }
    crvmin
}

/// The trial point lies between the bounds, with the fixed variables exactly on theirs.
pub proof fn lemma_trial_in_box(p: Subproblem, delta: F64)
    requires
        ordered_bounds(p.sl, p.su),
        p.xopt.len() == p.sl.len(),
    ensures
        in_box(trial_point(p, delta), p.sl, p.su),
        ({
            let q = scaled_problem(p);
            let xbdi = arcs_after(q, cg_end(q, delta)).xbdi;
            forall|i: int|
                0 <= i < p.sl.len() ==> {
                    &&& xbdi[i] == AT_LOWER ==> #[trigger] trial_point(p, delta)[i] == p.sl[i]
                    &&& xbdi[i] == AT_UPPER ==> trial_point(p, delta)[i] == p.su[i]
                }
        }),
{
    let q = scaled_problem(p);
    let a = arcs_after(q, cg_end(q, delta));
    let x = trial_point(p, delta);
    assert forall|i: int| 0 <= i < x.len() implies (#[trigger] x[i]).within(p.sl[i], p.su[i]) by {
        assert(p.sl[i] <= p.su[i]);
        lemma_clamp(p.sl[i], p.su[i], p.xopt[i] + a.d[i]);
        reveal(at_most);
    }
}

/// No curvature was met, or the least one is above zero.
spec fn curvature_sound(c: Cg) -> bool {
    c.crvmin == neg_realmax() || c.crvmin > zero()
}

/// A conjugate-gradient iteration keeps the least curvature above zero.
proof fn lemma_cg_curvature(p: Subproblem, c: Cg)
    requires
        curvature_sound(c),
    ensures
        curvature_sound(cg_step(p, c)),
{
    reveal(at_most);
    reveal(below);
    reveal(min_of);
}

/// The conjugate-gradient iterations keep the least curvature above zero.
proof fn lemma_cg_run_curvature(p: Subproblem, c: Cg, k: nat)
    requires
        curvature_sound(c),
    ensures
        curvature_sound(cg_run(p, c, k)),
    decreases k,
{
    if k > 0 && c.course == Course::Running {
        lemma_cg_curvature(p, c);
        lemma_cg_run_curvature(p, cg_step(p, c), (k - 1) as nat);
    }
}

/// The factor by which a model is scaled is a finite number above zero.
proof fn lemma_model_scale(gopt: Seq<F64>)
    requires
        needs_scaling(gopt),
    ensures
        model_scale(gopt).finite(),
        model_scale(gopt) > zero(),
{
    let m = max_abs(gopt);
    reveal(below);
    reveal(max_of);
    lemma_two_product(realmin());
    let q = one() / m;
    let u = units(one().mag());
    lemma2_to64();
    lemma2_to64_rest();
    lemma_pow2_adds(52, 1022);
    lemma_pow2_adds(53, 1021);
    lemma_pow2_pos(1021);
    lemma_pow2_unfold(1075);
    lemma_pow2_adds(52, 1023);
    assert(u == pow2(1074)) by {
        assert(sig(one().mag()) == pow2(52));
        assert(expo(one().mag()) == 1022);
    }
    assert((two() * realmin()).finite()) by {
        reveal(product_of);
        assert(units(two().mag()) == 2 * u) by {
            assert(sig(two().mag()) == pow2(52));
            assert(expo(two().mag()) == 1023);
        }
        assert(units(realmin().mag()) == pow2(52)) by {
            assert(sig(realmin().mag()) == pow2(52));
            assert(expo(realmin().mag()) == 0);
        }
        assert((2 * u) * pow2(52) <= u * u) by (nonlinear_arith)
            requires
                2 * pow2(52) <= u,
        ;
        lemma_round_beside((2 * u) * pow2(52), u, one().mag());
    }
    assert(!m.nan() && !m.sign() && !m.zero());
    assert(!q.nan() && q.mag() <= one().mag()) by {
        reveal(quotient_of);
        if m.finite() {
            lemma_order_value(one(), m);
            lemma_fields(m.mag());
            lemma_units_monotone(one().mag(), m.mag());
            assert(u * pow2(1074) <= u * units(m.mag())) by (nonlinear_arith)
                requires
                    u <= units(m.mag()),
                    u == pow2(1074),
            ;
            lemma_round_beside(u * pow2(1074), units(m.mag()), one().mag());
        }
    }
}

/// The least curvature is a number that is not below zero.
pub proof fn lemma_curvature_nonnegative(p: Subproblem, delta: F64)
    ensures
        !least_curvature(p, delta).nan(),
        zero() <= least_curvature(p, delta),
{
    let q = scaled_problem(p);
    let c = cg_start(q, delta);
    lemma_cg_run_curvature(q, c, cg_limit((c.d.len() - c.nact) as nat));
    reveal(at_most);
    reveal(below);
    let v = cg_end(q, delta).crvmin;
    if needs_scaling(p.gopt) && v > zero() {
        let s = model_scale(p.gopt);
        lemma_model_scale(p.gopt);
        lemma_quotient_real(v, s);
        lemma_sign_stays(v, s);
    }
}

} // verus!
