//! The state of a run in memory, its scratch space, and the evaluation of the objective.
use vstd::prelude::*;

use crate::bobyqb::course::asked;
use crate::bobyqb::course::goes_on;
use crate::bobyqb::course::point_at;
use crate::bobyqb::course::told;
use crate::bobyqb::course::value_from;
use crate::bobyqb::course::Asked;
use crate::bobyqb::course::Oracle;
use crate::bobyqb::course::Record;
use crate::bobyqb::course::Run;
use crate::bobyqb::course::Settings;
use crate::bobyqb::course::Task;
use crate::bobyqb::ErrbdWs;
use crate::bobyqb::ShiftbaseWs;
use crate::consts::zero;
use crate::consts::INFO_DFT;
use crate::float::F64;
use crate::geometry::GeostepWs;
use crate::model::zero_model;
use crate::model::Model;
use crate::powalg::counters::calvlag_noadd_calls;
use crate::powalg::counters::lemma_total_fresh;
use crate::powalg::counters::reset;
use crate::powalg::counters::total_of;
use crate::powalg::counters::KernelCount;
use crate::powalg::CalWs;
use crate::rescue::RescueWs;
use crate::trustregion::TrsboxWs;
use crate::update::UpdateWs;
use crate::util::answers;
use crate::util::evaluable;
use crate::util::evaluate;
use crate::util::in_box;
use crate::util::lemma_in_box_finite;
use crate::util::lemma_in_box_moderated;
use crate::util::lemma_in_box_real;
use crate::util::lemma_placed_in_box;
use crate::util::moderated;
use crate::util::moderated_f;
use crate::util::ordered_bounds;
use crate::util::xinbd_into;
use crate::vector::all_finite;
use crate::vector::constant;
use crate::vector::plus;
use crate::vector::sum_into;
use crate::vector::zeros;

verus! {

/// The state of a run.
#[derive(Debug, Clone)]
pub struct Progress {
    /// The interpolation set with the model.
    pub m: Model,
    /// The point of the last evaluation, and after the end the best point.
    pub x: Vec<F64>,
    /// The value there.
    pub f: F64,
    /// The number of evaluations.
    pub nf: usize,
    /// Why the iterations ended.
    pub info: i32,
    /// The iterations have ended.
    pub ended: bool,
    /// The last step.
    pub d: Vec<F64>,
    /// The resolution.
    pub rho: F64,
    /// The trust-region radius.
    pub delta: F64,
    /// The length of the last step.
    pub dnorm: F64,
    /// The last reduction ratio.
    pub ratio: F64,
    /// The bound by which model errors are small.
    pub ebound: F64,
    /// The set was rescued, and nothing but provisional points was evaluated since.
    pub rescued: bool,
    /// The last trial step was short.
    pub shortd: bool,
    /// The lengths of the last two steps that were evaluated.
    pub dnorm_rec: Record,
    /// The model errors at those steps.
    pub moderr_rec: Record,
    /// The point that the last trial step replaced.
    pub knew: Option<usize>,
    /// The number of tests in a row that favour the alternative model.
    pub itest: i32,
}

impl Progress {
    /// The state of the run with the evaluations in the log.
    pub open spec fn run(&self, log: Seq<Asked>) -> Run {
        Run {
            m: self.m@,
            x: self.x@,
            f: self.f,
            log,
            info: self.info,
            ended: self.ended,
            d: self.d@,
            rho: self.rho,
            delta: self.delta,
            dnorm: self.dnorm,
            ratio: self.ratio,
            ebound: self.ebound,
            rescued: self.rescued,
            shortd: self.shortd,
            dnorm_rec: self.dnorm_rec,
            moderr_rec: self.moderr_rec,
            knew: self.knew,
            itest: self.itest,
        }
    }

    /// The parts have the sizes for `n` variables and `npt` points.
    pub open spec fn fits(&self, n: nat, npt: nat) -> bool {
        &&& self.m.fits(n, npt)
        &&& self.x@.len() == n
        &&& self.d@.len() == n
        &&& 0 <= self.itest < 3
    }

    /// The number of evaluations is that of the log, and inside the budget; the point is
    /// inside the bounds.
    pub open spec fn tracks(&self, t: Task, log: Seq<Asked>) -> bool {
        &&& self.nf == log.len()
        &&& self.nf <= t.set.maxfun
        &&& !self.ended ==> self.nf < t.set.maxfun
        &&& in_box(self.x@, t.xl, t.xu)
    }

    /// A state for `n` variables and `npt` points, before any run.
    pub fn new(n: usize, npt: usize) -> (r: Progress)
        requires
            n > 0,
            npt >= n + 2,
            npt + n <= usize::MAX,
            10 * n <= usize::MAX,
        ensures
            r.fits(n as nat, npt as nat),
            r.m@ == zero_model(n as nat, npt as nat),
            r.x@ == constant(n as nat, zero()),
            r.d@ == constant(n as nat, zero()),
            r.nf == 0,
            r.ended,
    {
        Progress {
            m: Model::new(n, npt),
            x: zeros(n),
            f: zero(),
            nf: 0,
            info: INFO_DFT,
            ended: true,
            d: zeros(n),
            rho: zero(),
            delta: zero(),
            dnorm: zero(),
            ratio: zero(),
            ebound: zero(),
            rescued: false,
            shortd: false,
            dnorm_rec: Record { earlier: zero(), last: zero() },
            moderr_rec: Record { earlier: zero(), last: zero() },
            knew: None,
            itest: 0,
        }
    }
}

/// Scratch space of a run.
#[derive(Debug, Clone)]
pub struct Work {
    /// The pairs of variables of the initial set.
    pub ij: Vec<(usize, usize)>,
    /// Lagrange values.
    pub vlag: Vec<F64>,
    /// Denominators.
    pub den: Vec<F64>,
    /// Squared distances from the best point.
    pub distsq: Vec<F64>,
    /// Products of a step with the points.
    pub dxpt: Vec<F64>,
    /// Products of those with the implicit coefficients.
    pub pqdxpt: Vec<F64>,
    /// A product with the explicit Hessian.
    pub hqd: Vec<F64>,
    /// The point at which the objective is asked.
    pub xmod: Vec<F64>,
    /// A new point.
    pub xnew: Vec<F64>,
    /// The point that is dropped.
    pub xdrop: Vec<F64>,
    /// The best point before a change.
    pub xosav: Vec<F64>,
    /// Values relative to the best one.
    pub fval_shift: Vec<F64>,
    /// Scratch space of trial steps.
    pub trial: TrsboxWs,
    /// Scratch space of geometry steps.
    pub geometry: GeostepWs,
    /// Scratch space of rescues.
    pub rescue: RescueWs,
    /// Scratch space of updates.
    pub update: UpdateWs,
    /// Scratch space of Lagrange values.
    pub cal: CalWs,
    /// Scratch space of moves of the base point.
    pub shift: ShiftbaseWs,
    /// Scratch space of bounds on model errors.
    pub error: ErrbdWs,
}

impl Work {
    /// The buffers have the sizes for `n` variables and `npt` points.
    #[verifier::opaque]
    pub open spec fn fits(&self, n: nat, npt: nat) -> bool {
        &&& self.vlag@.len() == npt + n
        &&& self.den@.len() == npt
        &&& self.distsq@.len() == npt
        &&& self.dxpt@.len() == npt
        &&& self.pqdxpt@.len() == npt
        &&& self.hqd@.len() == n
        &&& self.xmod@.len() == n
        &&& self.xnew@.len() == n
        &&& self.xdrop@.len() == n
        &&& self.xosav@.len() == n
        &&& self.fval_shift@.len() == npt
        &&& self.trial.fits(n, npt)
        &&& self.geometry.fits(n, npt)
        &&& self.rescue.fits(n, npt)
        &&& self.update.fits(n, npt)
        &&& self.cal.fits(n, npt)
        &&& self.shift.fits(n, npt)
        &&& self.error.fits(n, npt)
    }

    /// Scratch space for `n` variables and `npt` points.
    pub fn new(n: usize, npt: usize) -> (r: Work)
        requires
            npt >= n + 2,
            npt + n <= usize::MAX,
        ensures
            r.fits(n as nat, npt as nat),
            r.kernel_calls() == 0,
    {
        proof {
            reveal(Work::fits);
        }
        let r: Work = Work {
            ij: Vec::with_capacity(npt),
            vlag: zeros(npt + n),
            den: zeros(npt),
            distsq: zeros(npt),
            dxpt: zeros(npt),
            pqdxpt: zeros(npt),
            hqd: zeros(n),
            xmod: zeros(n),
            xnew: zeros(n),
            xdrop: zeros(n),
            xosav: zeros(n),
            fval_shift: zeros(npt),
            trial: TrsboxWs::new(n, npt),
            geometry: GeostepWs::new(n, npt),
            rescue: RescueWs::new(n, npt),
            update: UpdateWs::new(n, npt),
            cal: CalWs::new(n, npt),
            shift: ShiftbaseWs::new(n, npt),
            error: ErrbdWs::new(n, npt),
        };
        proof {
            lemma_total_fresh(r.cal.count, r.geometry.cal.count, r.update.cal.count);
        }
        r
    }
}

impl Work {
    /// The number of kernel evaluations, modulo the range of the counter.
    pub open spec fn kernel_calls(&self) -> usize {
        total_of(self.cal.count, self.geometry.cal.count, self.update.cal.count)
    }

    /// The number of kernel evaluations since the last reset.
    pub fn kernel_count(&self) -> (r: KernelCount)
        ensures
            r.calls == self.kernel_calls(),
    {
        proof {
            reveal(total_of);
        }
        let a: u128 = calvlag_noadd_calls(&self.cal.count) as u128;
        let b: u128 = calvlag_noadd_calls(&self.geometry.cal.count) as u128;
        let c: u128 = calvlag_noadd_calls(&self.update.cal.count) as u128;
        KernelCount { calls: ((a + b + c) % (usize::MAX as u128 + 1)) as usize }
    }

    /// Sets the number of kernel evaluations to zero.
    pub fn reset_kernel_count(&mut self)
        ensures
            final(self).kernel_calls() == 0,
            forall|n: nat, npt: nat| old(self).fits(n, npt) ==> #[trigger] final(self).fits(n, npt),
    {
        proof {
            reveal(Work::fits);
        }
        reset(&mut self.cal.count);
        reset(&mut self.geometry.cal.count);
        reset(&mut self.update.cal.count);
        proof {
            lemma_total_fresh(self.cal.count, self.geometry.cal.count, self.update.cal.count);
        }
    }
}

/// The bounds are finite and in order.
pub open spec fn good_bounds(xl: Seq<F64>, xu: Seq<F64>) -> bool {
    ordered_bounds(xl, xu) && all_finite(xl) && all_finite(xu)
}

/// The objective gave the answers in the log, which are answers to points inside the bounds.
pub open spec fn answered<F: FnMut(&[F64]) -> F64>(
    f: F,
    xl: Seq<F64>,
    xu: Seq<F64>,
    log: Seq<Asked>,
) -> bool {
    forall|k: int|
        0 <= k < log.len() ==> {
            &&& answers(f, (#[trigger] log[k]).x, log[k].raw)
            &&& in_box(log[k].x, xl, xu)
        }
}

/// The objective can be asked inside the bounds, and gave the answers in the log.
pub open spec fn serves<F: FnMut(&[F64]) -> F64>(
    f: F,
    xl: Seq<F64>,
    xu: Seq<F64>,
    log: Seq<Asked>,
) -> bool {
    evaluable(f, xl, xu) && answered(f, xl, xu, log)
}

/// Evaluates the objective at `x` and records it.
pub(crate) fn ask<F: FnMut(&[F64]) -> F64>(
    calfun: &mut F,
    x: &[F64],
    xmod: &mut Vec<F64>,
    xl: Ghost<Seq<F64>>,
    xu: Ghost<Seq<F64>>,
    log: &mut Ghost<Seq<Asked>>,
) -> (f: F64)
    requires
        serves(*old(calfun), xl@, xu@, old(log)@),
        good_bounds(xl@, xu@),
        in_box(x@, xl@, xu@),
        old(xmod)@.len() == x@.len(),
    ensures
        *final(calfun) == *old(calfun),
        final(xmod)@.len() == x@.len(),
        serves(*old(calfun), xl@, xu@, final(log)@),
        goes_on(old(log)@, final(log)@),
        final(log)@.len() == old(log)@.len() + 1,
        forall|o: Oracle| #[trigger]
            told(o, final(log)@) ==> {
                &&& f == value_from(old(log)@, x@, o)
                &&& final(log)@ == asked(old(log)@, x@, o)
            },
{
    let ghost log0: Seq<Asked> = log@;
    let ghost fun: F = *calfun;
    proof {
        lemma_in_box_real(x@, xl@, xu@);
        lemma_in_box_moderated(x@, xl@, xu@);
        lemma_in_box_finite(x@, xl@, xu@);
    }
    let f: F64 = evaluate(calfun, x, xmod);
    let ghost raw: F64 = choose|raw: F64| #[trigger]
        answers(fun, moderated(x@), raw) && f == moderated_f(raw);
    let ghost entry: Asked = Asked { x: moderated(x@), raw };
    *log = Ghost(log0.push(entry));
    proof {
        assert forall|o: Oracle| #[trigger] told(o, log@) implies {
            &&& f == value_from(log0, x@, o)
            &&& log@ == asked(log0, x@, o)
        } by {
            assert(log@[log0.len() as int] == entry);
        }
    }
    f
}

/// Evaluates the objective at the last step from the best point.
pub(crate) fn evaluate_step<F: FnMut(&[F64]) -> F64>(
    calfun: &mut F,
    set: &Settings,
    xl: &[F64],
    xu: &[F64],
    st: &mut Progress,
    w: &mut Work,
    log: &mut Ghost<Seq<Asked>>,
)
    requires
        old(st).fits(xl@.len(), old(st).m@.xpt.len()),
        old(w).fits(xl@.len(), old(st).m@.xpt.len()),
        good_bounds(xl@, xu@),
        old(st).nf == old(log)@.len(),
        old(st).nf < set.maxfun,
        serves(*old(calfun), xl@, xu@, old(log)@),
    ensures
        *final(calfun) == *old(calfun),
        final(st).fits(xl@.len(), old(st).m@.xpt.len()),
        final(w).fits(xl@.len(), old(st).m@.xpt.len()),
        final(w).kernel_calls() == old(w).kernel_calls(),
        final(st).nf == final(log)@.len(),
        final(st).nf == old(st).nf + 1,
        in_box(final(st).x@, xl@, xu@),
        serves(*old(calfun), xl@, xu@, final(log)@),
        goes_on(old(log)@, final(log)@),
        *final(st) == (Progress {
            x: final(st).x,
            f: final(st).f,
            nf: final(st).nf,
            ..*old(st)
        }),
        forall|o: Oracle| #[trigger]
            told(o, final(log)@) ==> {
                let t = Task { set: *set, xl: xl@, xu: xu@ };
                let s = old(st).run(old(log)@);
                final(st).run(final(log)@) == s.evaluated(
                    point_at(t, s.m, plus(s.m.xopt(), s.d)),
                    o,
                )
            },
{
    proof {
        reveal(Work::fits);
    }
    let kopt: usize = st.m.kopt;
    assert(st.m.xpt@[kopt as int].len() == xl@.len());
    sum_into(st.m.xpt.col(kopt), &st.d, &mut w.xnew);
    xinbd_into(&st.m.xbase, &w.xnew, xl, xu, &st.m.sl, &st.m.su, &mut st.x);
    proof {
        lemma_placed_in_box(st.m@.xbase, w.xnew@, xl@, xu@, st.m@.sl, st.m@.su);
    }
    st.f = ask(calfun, &st.x, &mut w.xmod, Ghost(xl@), Ghost(xu@), log);
    st.nf = st.nf + 1;
}

} // verus!
