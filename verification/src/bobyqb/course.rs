//! The course of a run, as a function of the answers of the objective.
//!
//! An [`Oracle`] tells the answer to each evaluation.  Every state of a run is a function of
//! the settings, the bounds, the start and the oracle; it holds the points at which the
//! objective was asked, with the answers.
use vstd::prelude::*;

use crate::bobyqb::error_bound;
use crate::bobyqb::reduced_rho;
use crate::bobyqb::reduction_ratio;
use crate::bobyqb::shifted_bmat;
use crate::bobyqb::shifted_hq;
use crate::consts::half;
use crate::consts::minus_one;
use crate::consts::one;
use crate::consts::one_and_half;
use crate::consts::realmax;
use crate::consts::reduction_floor;
use crate::consts::ten;
use crate::consts::tenth;
use crate::consts::thousand;
use crate::consts::three_quarters;
use crate::consts::trtol;
use crate::consts::zero;
use crate::consts::DAMAGING_ROUNDING;
use crate::consts::INFO_DFT;
use crate::consts::MAXFUN_REACHED;
use crate::consts::MAXTR_REACHED;
use crate::consts::NAN_INF_MODEL;
use crate::consts::SMALL_TR_RADIUS;
use crate::float::arith::magnitude_of;
use crate::float::arith::root_of;
use crate::float::order::max_of;
use crate::float::order::min_of;
use crate::float::F64;
use crate::geometry::distances_sq;
use crate::geometry::geometry_step;
use crate::geometry::point_to_drop;
use crate::geometry::Improvement;
use crate::initialize::axis_points;
use crate::initialize::ordered_points;
use crate::initialize::ordered_values;
use crate::initialize::start_inverse;
use crate::initialize::start_model;
use crate::initialize::start_of;
use crate::initialize::with_pairs;
use crate::linalg::norm_of;
use crate::mat::constant_mat;
use crate::model::ModelView;
use crate::powalg::beta_of;
use crate::powalg::denominators;
use crate::powalg::model_increment;
use crate::powalg::vlag_of;
use crate::rescue::lemma_refill_advances;
use crate::rescue::recentred;
use crate::rescue::refill_sought;
use crate::rescue::refill_updated;
use crate::rescue::refill_valued;
use crate::rescue::rescue_finished;
use crate::rescue::rescue_prepared;
use crate::rescue::squares;
use crate::rescue::Rescuing;
use crate::trustregion::least_curvature;
use crate::trustregion::next_radius;
use crate::trustregion::trial_step;
use crate::trustregion::Subproblem;
use crate::update::alternative_model;
use crate::update::inverse_updated;
use crate::update::model_updated;
use crate::update::next_test;
use crate::util::exit_code;
use crate::util::moderated;
use crate::util::placed;
use crate::util::value_at;
use crate::vector::abs_sum;
use crate::vector::all_at_most;
use crate::vector::any_above;
use crate::vector::constant;
use crate::vector::dot;
use crate::vector::first_max;
use crate::vector::first_min;
use crate::vector::plus;

verus! {

/// The settings of a run.
#[derive(Debug, Clone, Copy)]
pub struct Settings {
    /// The number of evaluations that may be made.
    pub maxfun: usize,
    /// The reduction ratio below which a step is bad.
    pub eta1: F64,
    /// The reduction ratio above which a step is good.
    pub eta2: F64,
    /// A value that is good enough to stop.
    pub ftarget: F64,
    /// The factor by which the trust-region radius shrinks.
    pub gamma1: F64,
    /// The factor by which the trust-region radius grows.
    pub gamma2: F64,
    /// The initial resolution.
    pub rhobeg: F64,
    /// The final resolution.
    pub rhoend: F64,
}

/// The settings of a run with the bounds.
pub struct Task {
    pub set: Settings,
    pub xl: Seq<F64>,
    pub xu: Seq<F64>,
}

/// One evaluation: the point at which the objective was asked, and the answer.
pub struct Asked {
    pub x: Seq<F64>,
    pub raw: F64,
}

/// The answer to each evaluation, by its number and the point.
pub type Oracle = spec_fn(nat, Seq<F64>) -> F64;

/// The oracle gives the answers in the log.
pub open spec fn told(o: Oracle, log: Seq<Asked>) -> bool {
    forall|k: int| 0 <= k < log.len() ==> o(k as nat, (#[trigger] log[k]).x) == log[k].raw
}

/// The log `b` goes on from the log `a`.
pub open spec fn goes_on(a: Seq<Asked>, b: Seq<Asked>) -> bool {
    &&& a.len() <= b.len()
    &&& forall|k: int| 0 <= k < a.len() ==> #[trigger] a[k] == b[k]
}

/// The log after one more evaluation, at the point `x`.
pub open spec fn asked(log: Seq<Asked>, x: Seq<F64>, o: Oracle) -> Seq<Asked> {
    log.push(Asked { x: moderated(x), raw: o(log.len(), moderated(x)) })
}

/// The value that the method uses for the point `x` in that evaluation.
pub open spec fn value_from(log: Seq<Asked>, x: Seq<F64>, o: Oracle) -> F64 {
    value_at(x, o(log.len(), moderated(x)))
}

/// What the last two evaluated steps gave.
#[derive(Debug, Clone, Copy, PartialEq, Eq, Structural)]
pub struct Record {
    /// At the step before the last one.
    pub earlier: F64,
    /// At the last one.
    pub last: F64,
}

/// The record where no step was evaluated.
#[verifier::allow_in_spec]
pub fn no_record() -> Record
    returns
        (Record { earlier: realmax(), last: realmax() }),
{
    Record { earlier: realmax(), last: realmax() }
}

/// The state of a run.
pub struct Run {
    /// The interpolation set with the model.
    pub m: ModelView,
    /// The point of the last evaluation, and after the end the best point.
    pub x: Seq<F64>,
    /// The value there.
    pub f: F64,
    /// The evaluations.
    pub log: Seq<Asked>,
    /// Why the iterations ended.
    pub info: i32,
    /// The iterations have ended.
    pub ended: bool,
    /// The last step.
    pub d: Seq<F64>,
    /// The resolution.
    pub rho: F64,
    /// The trust-region radius.
    pub delta: F64,
    /// The length of the last step.
    pub dnorm: F64,
    /// The last reduction ratio.
    pub ratio: F64,
    /// The bound by which model errors are small.
    pub ebound: F64,
    /// The set was rescued, and nothing but provisional points was evaluated since.
    pub rescued: bool,
    /// The last trial step was short.
    pub shortd: bool,
    /// The lengths of the last two steps that were evaluated.
    pub dnorm_rec: Record,
    /// The model errors at those steps.
    pub moderr_rec: Record,
    /// The point that the last trial step replaced.
    pub knew: Option<usize>,
    /// The number of tests in a row that favour the alternative model.
    pub itest: i32,
}

impl Run {
    /// The same state with the iterations ended.
    pub open spec fn ended_with(self, info: i32) -> Run {
        Run { info, ended: true, ..self }
    }

    /// The state after an evaluation at `x`.
    pub open spec fn evaluated(self, x: Seq<F64>, o: Oracle) -> Run {
        Run {
            x,
            f: value_from(self.log, x, o),
            log: asked(self.log, x, o),
            ..self
        }
    }

    /// The records of steps and model errors are as at the start.
    pub open spec fn without_records(self) -> Run {
        Run {
            dnorm_rec: no_record(),
            moderr_rec: no_record(),
            ..self
        }
    }

    /// The records with one step more.
    pub open spec fn with_record(self, dnorm: F64, moderr: F64) -> Run {
        Run {
            dnorm_rec: Record { earlier: self.dnorm_rec.last, last: dnorm },
            moderr_rec: Record { earlier: self.moderr_rec.last, last: moderr },
            ..self
        }
    }

    /// Ended, if a coefficient of the model is not finite.
    pub open spec fn checked(self) -> Run {
        if self.m.usable() {
            self
        } else {
            self.ended_with(NAN_INF_MODEL)
        }
    }
}

/// The factor of the resolution below which a radius becomes the resolution.
pub open spec fn snap_factor(gamma2: F64) -> F64 {
    max_of(one(), min_of(three_quarters() * gamma2, one_and_half()))
}

/// The radius, or the resolution where the radius is not much larger.
pub open spec fn snapped(t: Task, delta: F64, rho: F64) -> F64 {
    if delta <= snap_factor(t.set.gamma2) * rho {
        rho
    } else {
        delta
    }
}

/// The point of the problem that is `step` away from the base point.
pub open spec fn point_at(t: Task, m: ModelView, step: Seq<F64>) -> Seq<F64> {
    placed(m.xbase, step, t.xl, t.xu, m.sl, m.su)
}

/// The change of the model by the step `d` from the best point.
pub open spec fn increment(m: ModelView, d: Seq<F64>) -> F64 {
    model_increment(d, m.xpt, m.gopt, m.pq, m.hq)
}

/// The Lagrange values at the step `d` from the best point.
pub open spec fn lagrange_values(m: ModelView, d: Seq<F64>) -> Seq<F64> {
    vlag_of(m.kopt as int, m.bmat, d, m.xpt, m.zmat)
}

/// The denominators for replacing each point by the one at the step `d` from the best point.
pub open spec fn step_denominators(m: ModelView, d: Seq<F64>) -> Seq<F64> {
    denominators(m.kopt as int, m.bmat, d, m.xpt, m.zmat)
}

/// The points of the initial set that have been evaluated.
pub struct Filling {
    pub fval: Seq<F64>,
    pub log: Seq<Asked>,
    pub info: i32,
}

/// The first points of the set are evaluated one after the other, up to `upto` of them, until
/// an exit test applies.
pub open spec fn filled(t: Task, m: ModelView, i: Filling, upto: nat, o: Oracle) -> Filling
    decreases upto - i.log.len(),
{
    let k = i.log.len();
    if k >= upto || i.info != INFO_DFT {
        i
    } else {
        let x = point_at(t, m, m.xpt[k as int]);
        let f = value_from(i.log, x, o);
        filled(
            t,
            m,
            Filling {
                fval: i.fval.update(k as int, f),
                log: asked(i.log, x, o),
                info: exit_code(t.set.maxfun, (k + 1) as usize, f, t.set.ftarget, x),
            },
            upto,
            o,
        )
    }
}

/// The set before the first evaluation, with the start made to fit the bounds.
pub open spec fn laid_out(t: Task, npt: nat, x0: Seq<F64>) -> ModelView {
    let n = t.xl.len();
    let rhobeg = t.set.rhobeg;
    let sl = Seq::new(n, |i: int| start_of(x0[i], t.xl[i], t.xu[i], rhobeg).sl);
    let su = Seq::new(n, |i: int| start_of(x0[i], t.xl[i], t.xu[i], rhobeg).su);
    ModelView {
        xbase: Seq::new(n, |i: int| start_of(x0[i], t.xl[i], t.xu[i], rhobeg).x),
        xpt: axis_points(npt, rhobeg, sl, su),
        sl,
        su,
        fval: constant(npt, realmax()),
        kopt: 0,
        gopt: constant(n, zero()),
        hq: constant_mat(n, n, zero()),
        pq: constant(npt, zero()),
        bmat: constant_mat(n, npt + n, zero()),
        zmat: constant_mat(npt, (npt - n - 1) as nat, zero()),
    }
}

/// The set after the points on the coordinate directions are evaluated.
pub open spec fn half_filled(t: Task, npt: nat, x0: Seq<F64>, o: Oracle) -> (ModelView, Filling) {
    let n = t.xl.len();
    let m0 = laid_out(t, npt, x0);
    let limit = if npt < 2 * n + 1 {
        npt
    } else {
        2 * n + 1
    };
    let i1 = filled(
        t,
        m0,
        Filling { fval: m0.fval, log: Seq::empty(), info: INFO_DFT },
        limit,
        o,
    );
    let fval = ordered_values(n, i1.fval, m0.xpt);
    let m1 = ModelView {
        xpt: with_pairs(n, ordered_points(n, i1.fval, m0.xpt)),
        fval,
        ..m0
    };
    (m1, Filling { fval, ..i1 })
}

/// The set when its evaluation is over.
pub open spec fn set_filled(t: Task, npt: nat, x0: Seq<F64>, o: Oracle) -> (ModelView, Filling) {
    let (m1, i1) = half_filled(t, npt, x0, o);
    let i2 = filled(t, m1, i1, npt, o);
    let m2 = ModelView {
        fval: i2.fval,
        kopt: first_min(i2.fval, i2.log.len()) as usize,
        ..m1
    };
    (m2, i2)
}

/// The first model of the set.
pub open spec fn first_model(m: ModelView) -> ModelView {
    let n = m.xbase.len();
    m.with_inverse(start_inverse(n, m.xpt)).with_quadratic(start_model(n, m.fval, m.xpt))
}

/// The state before the iterations.
#[verifier::opaque]
pub open spec fn begun(t: Task, npt: nat, x0: Seq<F64>, o: Oracle) -> Run {
    let (m, i) = set_filled(t, npt, x0, o);
    let s = Run {
        m: if i.info == INFO_DFT {
            first_model(m)
        } else {
            m
        },
        x: point_at(t, m, m.xopt()),
        f: m.fopt(),
        log: i.log,
        info: MAXTR_REACHED,
        ended: false,
        d: constant(t.xl.len(), zero()),
        rho: t.set.rhobeg,
        delta: t.set.rhobeg,
        dnorm: zero(),
        ratio: minus_one(),
        ebound: zero(),
        rescued: false,
        shortd: false,
        dnorm_rec: no_record(),
        moderr_rec: no_record(),
        knew: None,
        itest: 0,
    };
    if i.info == INFO_DFT {
        s.checked()
    } else {
        s.ended_with(i.info)
    }
}

/// The provisional points from `r.kpt` on are evaluated, until an exit test applies; the
/// model, the log and the exit code afterwards.
pub open spec fn refilled(t: Task, r: Rescuing, delta: F64, log: Seq<Asked>, o: Oracle) -> (
    ModelView,
    Seq<Asked>,
    i32,
)
    decreases r.ids.len() - r.kpt,
{
    let r1 = refill_sought(r, delta);
    if r1.kpt >= r1.ids.len() || r1.kpt >= usize::MAX {
        (rescue_finished(r1), log, INFO_DFT)
    } else {
        let x = point_at(t, r1.m, r1.m.xpt[r1.kpt as int]);
        let f = value_from(log, x, o);
        let log1 = asked(log, x, o);
        let r2 = refill_valued(r1, f);
        let info = exit_code(t.set.maxfun, log1.len() as usize, f, t.set.ftarget, x);
        if info != INFO_DFT {
            (rescue_finished(r2), log1, info)
        } else {
            proof {
                lemma_refill_advances(r, delta);
            }
            refilled(t, refill_updated(r2, f), delta, log1, o)
        }
    }
}

/// The interpolation set is rescued from damage by rounding.
#[verifier::opaque]
pub open spec fn rescued(t: Task, s: Run, o: Oracle) -> Run {
    if s.log.len() >= t.set.maxfun {
        let n = s.m.xbase.len();
        let npt = s.m.xpt.len();
        let m = ModelView {
            bmat: constant_mat(n, s.m.bmat.len(), zero()),
            zmat: constant_mat(npt, s.m.zmat.len(), zero()),
            ..s.m
        };
        Run { m, ..s }.ended_with(MAXFUN_REACHED)
    } else {
        let (m, log, info) = refilled(
            t,
            rescue_prepared(s.m, s.delta, t.xl, t.xu),
            s.delta,
            s.log,
            o,
        );
        if info != INFO_DFT {
            Run { m, log, ..s }.ended_with(info)
        } else {
            Run { m, log, rescued: true, ..s }.without_records()
        }
    }
}

/// Point `k` is replaced by the one at the step `d` from the best point, where the value is `f`
/// and the model is wrong by `moderr`.
#[verifier::opaque]
pub open spec fn point_replaced(
    m: ModelView,
    k: usize,
    d: Seq<F64>,
    f: F64,
    moderr: F64,
    ximproved: bool,
) -> ModelView {
    let vlag = lagrange_values(m, d);
    let beta = beta_of(m.kopt as int, m.bmat, d, m.xpt, m.zmat);
    let h = inverse_updated(m.inverse(), k as int, vlag, beta);
    let xnew = Seq::new(
        d.len(),
        |i: int| max_of(m.sl[i], min_of(m.su[i], m.xopt()[i] + d[i])),
    );
    let xpt = m.xpt.update(k as int, xnew);
    let q = model_updated(
        m.quadratic(),
        k as int,
        ximproved,
        h.bmat,
        d,
        moderr,
        m.xpt[k as int],
        m.xopt(),
        xpt,
        h.zmat,
    );
    ModelView {
        xpt,
        fval: m.fval.update(k as int, f),
        kopt: if ximproved {
            k
        } else {
            m.kopt
        },
        ..m
    }.with_inverse(h).with_quadratic(q)
}

/// The model is exchanged for the alternative one after three tests in a row that favour it.
#[verifier::opaque]
pub open spec fn alternative_tried(m: ModelView, ratio: F64, itest: i32) -> (ModelView, i32) {
    let values = Seq::new(m.fval.len(), |k: int| m.fval[k] - m.fopt());
    let alt = alternative_model(m.bmat, values, m.xopt(), m.xpt, m.zmat);
    let next = next_test(itest, ratio, m.quadratic(), alt, m.xopt(), m.sl, m.su);
    if next >= 3 {
        (m.with_quadratic(alt), 0)
    } else {
        (m, next)
    }
}

/// The trial step is short or not worth an evaluation: the radius shrinks.
#[verifier::opaque]
pub open spec fn shortened(t: Task, s: Run, crvmin: F64) -> Run {
    let m = s.m;
    Run {
        delta: snapped(t, tenth() * s.delta, s.rho),
        ebound: error_bound(
            crvmin,
            s.d,
            m.gopt,
            m.hq,
            seq![s.moderr_rec.earlier, s.moderr_rec.last],
            m.pq,
            s.rho,
            m.sl,
            m.su,
            m.xopt(),
            m.xpt,
        ),
        ..s
    }
}

/// The denominators at the trial step are damaged by rounding.
pub open spec fn trial_damaged(m: ModelView, d: Seq<F64>) -> bool {
    let vlag = lagrange_values(m, d);
    let sq = squares(vlag, m.xpt.len());
    !(abs_sum(vlag).finite() && any_above(step_denominators(m, d), sq[first_max(
        sq,
        m.xpt.len(),
    )]))
}

/// The trial point takes its place in the set, where the model is wrong by `moderr` there.
#[verifier::opaque]
pub open spec fn trial_placed(t: Task, s: Run, moderr: F64) -> Run {
    let m = s.m;
    let ximproved = s.f < m.fopt();
    match point_to_drop(
        m.kopt as int,
        ximproved,
        s.d,
        s.rho,
        m.xpt,
        step_denominators(m, s.d),
    ) {
        None => Run { knew: None, ..s },
        Some(k) => {
            let m1 = point_replaced(m, k as usize, s.d, s.f, moderr, ximproved);
            let (m2, itest) = alternative_tried(m1, s.ratio, s.itest);
            Run { m: m2, itest, knew: Some(k as usize), ..s }.checked()
        },
    }
}

/// The trial step after a rescue, from the new best point.
#[verifier::opaque]
pub open spec fn carried_over(s: Run) -> Run {
    Run {
        d: Seq::new(
            s.d.len(),
            |i: int| max_of(s.m.sl[i], min_of(s.m.su[i], s.d[i])) - s.m.xopt()[i],
        ),
        ..s
    }
}

/// The trial step has been evaluated: its reduction, where the model predicts `qred`, decides
/// on the radius.
#[verifier::opaque]
pub open spec fn judged(t: Task, s: Run, qred: F64) -> Run {
    let ratio = reduction_ratio(s.m.fopt() - s.f, qred, t.set.eta1);
    Run {
        ratio,
        delta: snapped(
            t,
            next_radius(
                s.delta,
                s.dnorm,
                t.set.eta1,
                t.set.eta2,
                t.set.gamma1,
                t.set.gamma2,
                ratio,
            ),
            s.rho,
        ),
        ..s
    }.with_record(s.dnorm, s.f - s.m.fopt() + qred)
}

/// The trial step is evaluated, and the set takes the point in.
#[verifier::opaque]
pub open spec fn tried(t: Task, s: Run, qred: F64, o: Oracle) -> Run {
    let x = point_at(t, s.m, plus(s.m.xopt(), s.d));
    let s1 = Run { rescued: false, ..s.evaluated(x, o) };
    let info = exit_code(t.set.maxfun, s1.log.len() as usize, s1.f, t.set.ftarget, x);
    if info != INFO_DFT {
        s1.ended_with(info)
    } else {
        let s2 = judged(t, s1, qred);
        if s2.f < s2.m.fopt() && trial_damaged(s2.m, s2.d) {
            let s3 = rescued(t, s2, o);
            if s3.ended {
                s3
            } else {
                let s4 = carried_over(s3);
                trial_placed(t, s4, s4.f - s4.m.fopt() - increment(s4.m, s4.d))
            }
        } else {
            trial_placed(t, s2, s2.f - s2.m.fopt() + qred)
        }
    }
}

/// The subproblem of the trial step.
pub open spec fn subproblem(m: ModelView) -> Subproblem {
    Subproblem {
        gopt: m.gopt,
        hq: m.hq,
        pq: m.pq,
        sl: m.sl,
        su: m.su,
        xopt: m.xopt(),
        xpt: m.xpt,
        tol: trtol(),
    }
}

/// The state with the trial step.
#[verifier::opaque]
pub open spec fn stepped(s: Run) -> Run {
    let d = trial_step(subproblem(s.m), s.delta);
    let dnorm = min_of(s.delta, norm_of(d));
    Run { d, dnorm, shortd: dnorm <= half() * s.rho, ..s }
}

/// The trial step does not reduce the model enough to be evaluated.
pub open spec fn step_fails(s: Run) -> bool {
    !(-increment(s.m, s.d) > reduction_floor() * (s.rho * s.rho))
}

/// The trust-region part of an iteration.
#[verifier::opaque]
pub open spec fn trial(t: Task, s: Run, o: Oracle) -> Run {
    let s1 = stepped(s);
    if s1.shortd || step_fails(s1) {
        shortened(t, s1, least_curvature(subproblem(s.m), s.delta))
    } else {
        tried(t, s1, -increment(s1.m, s1.d), o)
    }
}

/// The squared distances of the points from the best one.
pub open spec fn spread(m: ModelView) -> Seq<F64> {
    distances_sq(m.xpt, m.xopt())
}

/// The recent models were accurate.
pub open spec fn model_accurate(s: Run) -> bool {
    &&& magnitude_of(s.moderr_rec.earlier) <= s.ebound
    &&& magnitude_of(s.moderr_rec.last) <= s.ebound
    &&& s.dnorm_rec.earlier <= s.rho
    &&& s.dnorm_rec.last <= s.rho
}

/// The points are close to the best one.
pub open spec fn set_close(s: Run) -> bool {
    all_at_most(spread(s.m), max_of(s.delta * s.delta, (ten() * s.rho) * (ten() * s.rho)))
}

/// The geometry of the set is good enough.
pub open spec fn geometry_adequate(s: Run) -> bool {
    (s.shortd && model_accurate(s)) || set_close(s)
}

/// The set needs a better geometry; `failed` tells that the trial step was not evaluated.
pub open spec fn wants_geometry(t: Task, s: Run, failed: bool) -> bool {
    (s.shortd || failed || s.ratio <= t.set.eta1 || s.knew is None) && !geometry_adequate(s)
}

/// The resolution has served its time.
pub open spec fn wants_reduction(s: Run, failed: bool) -> bool {
    &&& s.shortd || failed || s.ratio <= zero() || s.knew is None
    &&& geometry_adequate(s)
    &&& max_of(s.delta, s.dnorm) <= s.rho
}

/// The point that the geometry step replaces.
pub open spec fn farthest(m: ModelView) -> int {
    first_max(spread(m), m.xpt.len())
}

/// The radius of the geometry step.
pub open spec fn geometry_radius(s: Run) -> F64 {
    max_of(min_of(tenth() * root_of(spread(s.m)[farthest(s.m)]), s.delta), s.rho)
}

/// The problem of the geometry step.
pub open spec fn improvement_of(s: Run) -> Improvement {
    Improvement {
        knew: farthest(s.m),
        kopt: s.m.kopt as int,
        bmat: s.m.bmat,
        delbar: geometry_radius(s),
        sl: s.m.sl,
        su: s.m.su,
        xpt: s.m.xpt,
        zmat: s.m.zmat,
    }
}

/// The geometry step.
pub open spec fn improving_step(s: Run) -> Seq<F64> {
    geometry_step(improvement_of(s))
}

/// The denominator at the geometry step is damaged by rounding.
pub open spec fn improvement_damaged(m: ModelView, d: Seq<F64>, k: int) -> bool {
    let vlag = lagrange_values(m, d);
    !(abs_sum(vlag).finite() && step_denominators(m, d)[k] > half() * (vlag[k] * vlag[k]))
}

/// The geometry step is evaluated, and the set takes the point in.
#[verifier::opaque]
pub open spec fn improvement_tried(t: Task, s: Run, k: int, delbar: F64, o: Oracle) -> Run {
    let x = point_at(t, s.m, plus(s.m.xopt(), s.d));
    let s1 = Run { rescued: false, ..s.evaluated(x, o) };
    let info = exit_code(t.set.maxfun, s1.log.len() as usize, s1.f, t.set.ftarget, x);
    if info != INFO_DFT {
        s1.ended_with(info)
    } else {
        let dnorm = min_of(delbar, norm_of(s1.d));
        let moderr = s1.f - s1.m.fopt() - increment(s1.m, s1.d);
        let m = point_replaced(s1.m, k as usize, s1.d, s1.f, moderr, s1.f < s1.m.fopt());
        Run { m, dnorm, ..s1 }.with_record(dnorm, moderr).checked()
    }
}

/// The geometry part of an iteration.
#[verifier::opaque]
pub open spec fn improved(t: Task, s: Run, o: Oracle) -> Run {
    let k = farthest(s.m);
    let s1 = Run { d: improving_step(s), ..s };
    if improvement_damaged(s1.m, s1.d, k) {
        if s1.rescued {
            s1.ended_with(DAMAGING_ROUNDING)
        } else {
            rescued(t, s1, o)
        }
    } else {
        improvement_tried(t, s1, k, geometry_radius(s), o)
    }
}

/// The resolution is reduced, or the iterations end where it is the final one.
#[verifier::opaque]
pub open spec fn sharpened(t: Task, s: Run) -> Run {
    if s.rho <= t.set.rhoend {
        s.ended_with(SMALL_TR_RADIUS)
    } else {
        let rho = reduced_rho(s.rho, t.set.rhoend);
        Run { delta: max_of(half() * s.rho, rho), rho, ..s }.without_records()
    }
}

/// The set with the base point moved to the best point.
#[verifier::opaque]
pub open spec fn base_moved(t: Task, m: ModelView) -> ModelView {
    let xopt = m.xopt();
    let base = plus(m.xbase, xopt);
    ModelView {
        sl: Seq::new(xopt.len(), |i: int| min_of(m.sl[i] - xopt[i], zero())),
        su: Seq::new(xopt.len(), |i: int| max_of(m.su[i] - xopt[i], zero())),
        xbase: Seq::new(xopt.len(), |i: int| max_of(t.xl[i], min_of(t.xu[i], base[i]))),
        xpt: recentred(m.xpt, m.kopt as int),
        bmat: shifted_bmat(m.bmat, m.zmat, m.xpt, xopt),
        hq: shifted_hq(m.hq, m.pq, m.xpt, xopt),
        ..m
    }
}

/// The base point is moved where the best point is far from it.
#[verifier::opaque]
pub open spec fn rebased(t: Task, s: Run) -> Run {
    if dot(s.m.xopt(), s.m.xopt()) >= thousand() * (s.delta * s.delta) {
        Run { m: base_moved(t, s.m), ..s }
    } else {
        s
    }
}

/// The part of an iteration that follows the trial step.
#[verifier::opaque]
pub open spec fn settled_down(t: Task, s: Run, failed: bool, o: Oracle) -> Run {
    let reduce = wants_reduction(s, failed);
    let s1 = if wants_geometry(t, s, failed) {
        improved(t, s, o)
    } else {
        s
    };
    if s1.ended {
        s1
    } else {
        let s2 = if reduce {
            sharpened(t, s1)
        } else {
            s1
        };
        if s2.ended {
            s2
        } else {
            rebased(t, s2)
        }
    }
}

/// One iteration.
#[verifier::opaque]
pub open spec fn iterated(t: Task, s: Run, o: Oracle) -> Run {
    let s1 = trial(t, s, o);
    if s1.ended {
        s1
    } else {
        settled_down(t, s1, step_fails(stepped(s)), o)
    }
}

/// At most `k` iterations.
pub open spec fn iterations(t: Task, s: Run, k: nat, o: Oracle) -> Run
    decreases k,
{
    if k == 0 || s.ended {
        s
    } else {
        iterations(t, iterated(t, s, o), (k - 1) as nat, o)
    }
}

/// The largest number of iterations.
pub open spec fn iteration_limit(maxfun: usize) -> nat {
    if 2 * maxfun <= usize::MAX {
        (2 * maxfun) as nat
    } else {
        usize::MAX as nat
    }
}

/// The last trial step is evaluated, if the iterations ended for a small resolution with a
/// short step that was not.
#[verifier::opaque]
pub open spec fn last_step(t: Task, s: Run, o: Oracle) -> Run {
    if s.info == SMALL_TR_RADIUS && s.shortd && s.dnorm > tenth() * t.set.rhoend && s.log.len()
        < t.set.maxfun {
        s.evaluated(point_at(t, s.m, plus(s.m.xopt(), s.d)), o)
    } else {
        s
    }
}

/// The better one of the last point and the best one of the set is chosen.
#[verifier::opaque]
pub open spec fn chosen(t: Task, s: Run) -> Run {
    if s.m.fopt() < s.f || s.f.nan() {
        Run { x: point_at(t, s.m, s.m.xopt()), f: s.m.fopt(), ..s }
    } else {
        s
    }
}

/// The whole run.
pub open spec fn solved(t: Task, npt: nat, x0: Seq<F64>, o: Oracle) -> Run {
    let s = begun(t, npt, x0, o);
    if s.ended {
        s
    } else {
        chosen(t, last_step(t, iterations(t, s, iteration_limit(t.set.maxfun), o), o))
    }
}

} // verus!
